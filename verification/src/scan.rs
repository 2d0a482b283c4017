//! The raster scan that gives every foreground cell a provisional label and
//! merges the labels of cells that touch.

use crate::connectivity::{
    connected, is_path, lemma_connected_refl, lemma_connected_step, lemma_connected_sym,
    lemma_connected_trans, lemma_neighbours_sym, neighbours, Connectivity,
};
use crate::forest::{forest_roots, merged_into, merged_roots, roots_wf};
use crate::grid::{
    cell_index, in_grid, lemma_cell_index_bounds, lemma_cell_index_injective, raster_before,
    GrayGrid,
};
use imageproc::union_find::DisjointSetForest;
use vstd::prelude::*;

verus! {

/// The label that the buffer `prov` holds for the cell `(x, y)`.
pub open spec fn prov_at(prov: Seq<u32>, width: int, x: int, y: int) -> int {
    prov[cell_index(width, x, y)] as int
}

/// The root of the forest element that stands for `label`. Label `l` is kept
/// in element `l - 1`, so that the labels of an image of `n` cells fit a
/// forest of `n` elements.
pub open spec fn label_root(roots: Seq<int>, label: int) -> int {
    roots[label - 1]
}

/// After the scan, the cells with a label are the foreground cells, and two
/// of them have labels in one tree exactly when they are connected.
pub open spec fn provisional_ok(
    image: GrayGrid,
    conn: Connectivity,
    background: u8,
    prov: Seq<u32>,
    roots: Seq<int>,
) -> bool {
    let w = image.width as int;
    let n = image.width as int * image.height as int;
    &&& prov.len() == n
    &&& roots.len() == n
    &&& roots_wf(roots)
    &&& forall|x: int, y: int|
        image.has(x, y) ==> (if image.at(x, y) == background {
            #[trigger] prov_at(prov, w, x, y) == 0
        } else {
            1 <= prov_at(prov, w, x, y) <= n
        })
    &&& forall|x1: int, y1: int, x2: int, y2: int|
        image.has(x1, y1) && image.has(x2, y2) && image.at(x1, y1) != background && image.at(
            x2,
            y2,
        ) != background ==> ((label_root(roots, #[trigger] prov_at(prov, w, x1, y1))
            == label_root(roots, #[trigger] prov_at(prov, w, x2, y2))) <==> connected(
            image,
            conn,
            (x1, y1),
            (x2, y2),
        ))
}

/// Cells before the scan position are labelled, the others are not yet.
spec fn labels_placed(
    image: GrayGrid,
    background: u8,
    prov: Seq<u32>,
    next: int,
    cx: int,
    cy: int,
) -> bool {
    let w = image.width as int;
    forall|x: int, y: int|
        image.has(x, y) ==> (if image.at(x, y) != background && raster_before(x, y, cx, cy) {
            1 <= #[trigger] prov_at(prov, w, x, y) < next
        } else {
            prov_at(prov, w, x, y) == 0
        })
}

/// Every label was first given to a cell that still holds it.
spec fn origins_ok(
    image: GrayGrid,
    background: u8,
    prov: Seq<u32>,
    origin: Seq<(int, int)>,
    next: int,
    cx: int,
    cy: int,
) -> bool {
    let w = image.width as int;
    &&& origin.len() == next
    &&& forall|l: int|
        1 <= l < next ==> {
            let o = #[trigger] origin[l];
            &&& image.has(o.0, o.1)
            &&& raster_before(o.0, o.1, cx, cy)
            &&& image.at(o.0, o.1) != background
            &&& prov_at(prov, w, o.0, o.1) == l
        }
}

/// Labels in one tree were first given to connected cells.
spec fn trees_sound(
    image: GrayGrid,
    conn: Connectivity,
    roots: Seq<int>,
    origin: Seq<(int, int)>,
    next: int,
) -> bool {
    forall|a: int, b: int|
        1 <= a < next && 1 <= b < next && #[trigger] label_root(roots, a) == #[trigger] label_root(
            roots,
            b,
        ) ==> connected(image, conn, origin[a], origin[b])
}

/// Every labelled cell is connected to the cell that first got its label.
spec fn cells_sound(
    image: GrayGrid,
    conn: Connectivity,
    background: u8,
    prov: Seq<u32>,
    origin: Seq<(int, int)>,
    cx: int,
    cy: int,
) -> bool {
    let w = image.width as int;
    forall|x: int, y: int|
        image.has(x, y) && image.at(x, y) != background && raster_before(x, y, cx, cy)
            ==> connected(image, conn, (x, y), origin[#[trigger] prov_at(prov, w, x, y)])
}

/// Neighbouring labelled cells of one value have labels in one tree.
spec fn touching_joined(
    image: GrayGrid,
    conn: Connectivity,
    background: u8,
    prov: Seq<u32>,
    roots: Seq<int>,
    cx: int,
    cy: int,
) -> bool {
    let w = image.width as int;
    forall|x1: int, y1: int, x2: int, y2: int|
        image.has(x1, y1) && image.has(x2, y2) && raster_before(x1, y1, cx, cy) && raster_before(
            x2,
            y2,
            cx,
            cy,
        ) && image.at(x1, y1) != background && image.at(x1, y1) == image.at(x2, y2) && neighbours(
            conn,
            (x1, y1),
            (x2, y2),
        ) ==> label_root(roots, #[trigger] prov_at(prov, w, x1, y1)) == label_root(
            roots,
            #[trigger] prov_at(prov, w, x2, y2),
        )
}

/// Elements of labels not yet given are alone in their tree, and the trees of
/// given labels hold given labels only.
spec fn unused_alone(roots: Seq<int>, next: int) -> bool {
    forall|k: int|
        0 <= k < roots.len() ==> (if k >= next - 1 {
            #[trigger] roots[k] == k
        } else {
            roots[k] < next - 1
        })
}

/// What holds whenever the scan stands before the cell `(cx, cy)`.
spec fn scan_inv(
    image: GrayGrid,
    conn: Connectivity,
    background: u8,
    prov: Seq<u32>,
    roots: Seq<int>,
    origin: Seq<(int, int)>,
    next: int,
    cx: int,
    cy: int,
) -> bool {
    let n = image.width as int * image.height as int;
    &&& prov.len() == n
    &&& roots.len() == n
    &&& roots_wf(roots)
    &&& 1 <= next
    &&& unused_alone(roots, next)
    &&& labels_placed(image, background, prov, next, cx, cy)
    &&& origins_ok(image, background, prov, origin, next, cx, cy)
    &&& trees_sound(image, conn, roots, origin, next)
    &&& cells_sound(image, conn, background, prov, origin, cx, cy)
    &&& touching_joined(image, conn, background, prov, roots, cx, cy)
}

/// The column of the cell that the scan visits after `(cx, cy)`.
pub open spec fn next_x(width: int, cx: int) -> int {
    if cx + 1 < width {
        cx + 1
    } else {
        0
    }
}

/// The row of the cell that the scan visits after `(cx, cy)`.
pub open spec fn next_y(width: int, cx: int, cy: int) -> int {
    if cx + 1 < width {
        cy
    } else {
        cy + 1
    }
}

/// Writing the label of one cell leaves the labels of all other cells alone.
pub proof fn lemma_update_other(
    prov: Seq<u32>,
    width: int,
    height: int,
    cx: int,
    cy: int,
    label: u32,
)
    requires
        in_grid(width, height, cx, cy),
        prov.len() == width * height,
    ensures
        prov_at(prov.update(cell_index(width, cx, cy), label), width, cx, cy) == label,
        forall|x: int, y: int|
            in_grid(width, height, x, y) && !(x == cx && y == cy) ==> #[trigger] prov_at(
                prov.update(cell_index(width, cx, cy), label),
                width,
                x,
                y,
            ) == prov_at(prov, width, x, y),
{
    lemma_cell_index_bounds(width, height, cx, cy);
    assert forall|x: int, y: int|
        in_grid(width, height, x, y) && !(x == cx && y == cy) implies #[trigger] prov_at(
        prov.update(cell_index(width, cx, cy), label),
        width,
        x,
        y,
    ) == prov_at(prov, width, x, y) by {
        lemma_cell_index_bounds(width, height, x, y);
        if cell_index(width, x, y) == cell_index(width, cx, cy) {
            lemma_cell_index_injective(width, x, y, cx, cy);
        }
    }
}

/// The scan may step over a background cell without touching anything.
proof fn lemma_pass_background(
    image: GrayGrid,
    conn: Connectivity,
    background: u8,
    prov: Seq<u32>,
    roots: Seq<int>,
    origin: Seq<(int, int)>,
    next: int,
    cx: int,
    cy: int,
)
    requires
        scan_inv(image, conn, background, prov, roots, origin, next, cx, cy),
        image.has(cx, cy),
        image.at(cx, cy) == background,
    ensures
        scan_inv(
            image,
            conn,
            background,
            prov,
            roots,
            origin,
            next,
            next_x(image.width as int, cx),
            next_y(image.width as int, cx, cy),
        ),
{
    let w = image.width as int;
    let nx = next_x(w, cx);
    let ny = next_y(w, cx, cy);
    assert forall|x: int, y: int| image.has(x, y) implies (raster_before(x, y, nx, ny) <==> (
    raster_before(x, y, cx, cy) || (x == cx && y == cy))) by {}
    assert(labels_placed(image, background, prov, next, nx, ny));
    assert(origins_ok(image, background, prov, origin, next, nx, ny)) by {
        assert forall|l: int| 1 <= l < next implies raster_before(
            (#[trigger] origin[l]).0,
            origin[l].1,
            nx,
            ny,
        ) by {
            let o = origin[l];
            assert(image.has(o.0, o.1));
        }
    }
    assert(cells_sound(image, conn, background, prov, origin, nx, ny));
    assert(touching_joined(image, conn, background, prov, roots, nx, ny));
}

/// No labelled neighbour of `(cx, cy)` holds its value.
spec fn stands_alone(image: GrayGrid, conn: Connectivity, cx: int, cy: int) -> bool {
    forall|x: int, y: int|
        image.has(x, y) && raster_before(x, y, cx, cy) && #[trigger] neighbours(
            conn,
            (cx, cy),
            (x, y),
        ) ==> image.at(x, y) != image.at(cx, cy)
}

/// A foreground cell without a labelled neighbour of its value takes a fresh
/// label.
proof fn lemma_pass_seed(
    image: GrayGrid,
    conn: Connectivity,
    background: u8,
    prov: Seq<u32>,
    roots: Seq<int>,
    origin: Seq<(int, int)>,
    next: int,
    cx: int,
    cy: int,
)
    requires
        scan_inv(image, conn, background, prov, roots, origin, next, cx, cy),
        image.has(cx, cy),
        image.at(cx, cy) != background,
        stands_alone(image, conn, cx, cy),
        next <= image.width as int * image.height as int,
        next <= u32::MAX,
    ensures
        scan_inv(
            image,
            conn,
            background,
            prov.update(cell_index(image.width as int, cx, cy), next as u32),
            roots,
            origin.push((cx, cy)),
            next + 1,
            next_x(image.width as int, cx),
            next_y(image.width as int, cx, cy),
        ),
{
    let w = image.width as int;
    let h = image.height as int;
    let nx = next_x(w, cx);
    let ny = next_y(w, cx, cy);
    let prov2 = prov.update(cell_index(w, cx, cy), next as u32);
    let origin2 = origin.push((cx, cy));
    lemma_update_other(prov, w, h, cx, cy, next as u32);
    lemma_cell_index_bounds(w, h, cx, cy);
    assert forall|x: int, y: int| image.has(x, y) implies (raster_before(x, y, nx, ny) <==> (
    raster_before(x, y, cx, cy) || (x == cx && y == cy))) by {}
    assert(unused_alone(roots, next + 1));
    assert(labels_placed(image, background, prov2, next + 1, nx, ny));
    assert(origins_ok(image, background, prov2, origin2, next + 1, nx, ny)) by {
        assert forall|l: int| 1 <= l < next + 1 implies {
            let o = #[trigger] origin2[l];
            &&& image.has(o.0, o.1)
            &&& raster_before(o.0, o.1, nx, ny)
            &&& image.at(o.0, o.1) != background
            &&& prov_at(prov2, w, o.0, o.1) == l
        } by {
            if l < next {
                let o = origin[l];
                assert(origin2[l] == o);
                assert(image.has(o.0, o.1));
                assert(prov_at(prov, w, o.0, o.1) == l);
            }
        }
    }
    assert(trees_sound(image, conn, roots, origin2, next + 1)) by {
        assert forall|a: int, b: int|
            1 <= a < next + 1 && 1 <= b < next + 1 && #[trigger] label_root(roots, a)
                == #[trigger] label_root(roots, b) implies connected(
            image,
            conn,
            origin2[a],
            origin2[b],
        ) by {
            // The element of the fresh label is alone in its tree.
            assert(roots[next - 1] == next - 1);
            if a < next {
                assert(roots[a - 1] < next - 1);
            }
            if b < next {
                assert(roots[b - 1] < next - 1);
            }
            if a == next || b == next {
                assert(a == b);
                lemma_connected_refl(image, conn, (cx, cy));
            } else {
                assert(origin2[a] == origin[a]);
                assert(origin2[b] == origin[b]);
            }
        }
    }
    assert(cells_sound(image, conn, background, prov2, origin2, nx, ny)) by {
        assert forall|x: int, y: int|
            image.has(x, y) && image.at(x, y) != background && raster_before(
                x,
                y,
                nx,
                ny,
            ) implies connected(
            image,
            conn,
            (x, y),
            origin2[#[trigger] prov_at(prov2, w, x, y)],
        ) by {
            if x == cx && y == cy {
                lemma_connected_refl(image, conn, (cx, cy));
            } else {
                let l = prov_at(prov, w, x, y);
                assert(1 <= l < next);
                assert(origin2[l] == origin[l]);
            }
        }
    }
    assert(touching_joined(image, conn, background, prov2, roots, nx, ny)) by {
        assert forall|x1: int, y1: int, x2: int, y2: int|
            image.has(x1, y1) && image.has(x2, y2) && raster_before(x1, y1, nx, ny)
                && raster_before(x2, y2, nx, ny) && image.at(x1, y1) != background && image.at(
                x1,
                y1,
            ) == image.at(x2, y2) && neighbours(conn, (x1, y1), (x2, y2)) implies label_root(
            roots,
            #[trigger] prov_at(prov2, w, x1, y1),
        ) == label_root(roots, #[trigger] prov_at(prov2, w, x2, y2)) by {
            if x1 == cx && y1 == cy {
                assert(neighbours(conn, (cx, cy), (x2, y2)));
            } else if x2 == cx && y2 == cy {
                lemma_neighbours_sym(conn, (x1, y1), (x2, y2));
                assert(neighbours(conn, (cx, cy), (x1, y1)));
            } else {
                assert(prov_at(prov2, w, x1, y1) == prov_at(prov, w, x1, y1));
                assert(prov_at(prov2, w, x2, y2) == prov_at(prov, w, x2, y2));
            }
        }
    }
}

/// Joining the trees of two labels whose first cells are connected keeps the
/// scan's facts, and puts the two labels in one tree.
proof fn lemma_merge(
    image: GrayGrid,
    conn: Connectivity,
    background: u8,
    prov: Seq<u32>,
    before: Seq<int>,
    after: Seq<int>,
    origin: Seq<(int, int)>,
    next: int,
    cx: int,
    cy: int,
    a0: int,
    b0: int,
)
    requires
        scan_inv(image, conn, background, prov, before, origin, next, cx, cy),
        1 <= a0 < next,
        1 <= b0 < next,
        next - 1 <= before.len(),
        merged_roots(before, after, a0 - 1, b0 - 1),
        connected(image, conn, origin[a0], origin[b0]),
    ensures
        scan_inv(image, conn, background, prov, after, origin, next, cx, cy),
        label_root(after, a0) == label_root(after, b0),
        forall|a: int, b: int|
            1 <= a < next && 1 <= b < next && label_root(before, a) == label_root(before, b)
                ==> #[trigger] label_root(after, a) == #[trigger] label_root(after, b),
{
    let ri = before[a0 - 1];
    let rj = before[b0 - 1];
    let r = if merged_into(before, after, ri, rj, ri) {
        ri
    } else {
        rj
    };
    assert(merged_into(before, after, ri, rj, r));
    assert(before[ri] == ri && before[rj] == rj);
    assert(roots_wf(after)) by {
        assert forall|k: int| 0 <= k < after.len() implies 0 <= #[trigger] after[k] < after.len()
            && after[after[k]] == after[k] by {
            assert(0 <= before[k] < before.len());
            assert(before[before[k]] == before[k]);
            assert(after[r] == r);
            if !(before[k] == ri || before[k] == rj) {
                assert(after[before[k]] == before[k]);
            }
        }
    }
    assert(unused_alone(after, next)) by {
        assert forall|k: int| 0 <= k < after.len() implies (if k >= next - 1 {
            #[trigger] after[k] == k
        } else {
            after[k] < next - 1
        }) by {
            assert(before[a0 - 1] < next - 1);
            assert(before[b0 - 1] < next - 1);
            if k >= next - 1 {
                assert(before[k] == k);
            } else {
                assert(before[k] < next - 1);
            }
        }
    }
    assert forall|a: int, b: int|
        1 <= a < next && 1 <= b < next && label_root(before, a) == label_root(
            before,
            b,
        ) implies #[trigger] label_root(after, a) == #[trigger] label_root(after, b) by {}
    lemma_connected_sym(image, conn, origin[a0], origin[b0]);
    assert(trees_sound(image, conn, after, origin, next)) by {
        assert forall|a: int, b: int|
            1 <= a < next && 1 <= b < next && #[trigger] label_root(after, a)
                == #[trigger] label_root(after, b) implies connected(
            image,
            conn,
            origin[a],
            origin[b],
        ) by {
            let ra = label_root(before, a);
            let rb = label_root(before, b);
            assert(label_root(before, a0) == ri);
            assert(label_root(before, b0) == rj);
            if ra == rb {
            } else {
                // Both labels sat in one of the two joined trees.
                assert(ra == ri || ra == rj);
                assert(rb == ri || rb == rj);
                let ka = if ra == ri {
                    a0
                } else {
                    b0
                };
                let kb = if rb == ri {
                    a0
                } else {
                    b0
                };
                assert(connected(image, conn, origin[a], origin[ka]));
                assert(connected(image, conn, origin[kb], origin[b]));
                assert(connected(image, conn, origin[ka], origin[kb]));
                lemma_connected_trans(image, conn, origin[a], origin[ka], origin[kb]);
                lemma_connected_trans(image, conn, origin[a], origin[kb], origin[b]);
            }
        }
    }
    assert(touching_joined(image, conn, background, prov, after, cx, cy)) by {
        let w = image.width as int;
        assert forall|x1: int, y1: int, x2: int, y2: int|
            image.has(x1, y1) && image.has(x2, y2) && raster_before(x1, y1, cx, cy)
                && raster_before(x2, y2, cx, cy) && image.at(x1, y1) != background && image.at(
                x1,
                y1,
            ) == image.at(x2, y2) && neighbours(conn, (x1, y1), (x2, y2)) implies label_root(
            after,
            #[trigger] prov_at(prov, w, x1, y1),
        ) == label_root(after, #[trigger] prov_at(prov, w, x2, y2)) by {
            let la = prov_at(prov, w, x1, y1);
            let lb = prov_at(prov, w, x2, y2);
            assert(1 <= la < next && 1 <= lb < next);
            assert(label_root(before, la) == label_root(before, lb));
        }
    }
}

/// All labelled neighbours of `(cx, cy)` that hold its value have labels in
/// the tree of `label`.
spec fn neighbours_joined(
    image: GrayGrid,
    conn: Connectivity,
    prov: Seq<u32>,
    roots: Seq<int>,
    cx: int,
    cy: int,
    label: int,
) -> bool {
    forall|x: int, y: int|
        image.has(x, y) && raster_before(x, y, cx, cy) && #[trigger] neighbours(
            conn,
            (cx, cy),
            (x, y),
        ) && image.at(x, y) == image.at(cx, cy) ==> label_root(
            roots,
            prov_at(prov, image.width as int, x, y),
        ) == label_root(roots, label)
}

/// A foreground cell takes the label of a neighbour once the labels of all
/// its labelled neighbours have been joined.
proof fn lemma_pass_joined(
    image: GrayGrid,
    conn: Connectivity,
    background: u8,
    prov: Seq<u32>,
    roots: Seq<int>,
    origin: Seq<(int, int)>,
    next: int,
    cx: int,
    cy: int,
    mx: int,
    my: int,
)
    requires
        scan_inv(image, conn, background, prov, roots, origin, next, cx, cy),
        image.has(cx, cy),
        image.at(cx, cy) != background,
        image.has(mx, my),
        raster_before(mx, my, cx, cy),
        neighbours(conn, (cx, cy), (mx, my)),
        image.at(mx, my) == image.at(cx, cy),
        neighbours_joined(
            image,
            conn,
            prov,
            roots,
            cx,
            cy,
            prov_at(prov, image.width as int, mx, my),
        ),
    ensures
        scan_inv(
            image,
            conn,
            background,
            prov.update(
                cell_index(image.width as int, cx, cy),
                prov[cell_index(image.width as int, mx, my)],
            ),
            roots,
            origin,
            next,
            next_x(image.width as int, cx),
            next_y(image.width as int, cx, cy),
        ),
{
    let w = image.width as int;
    let h = image.height as int;
    let nx = next_x(w, cx);
    let ny = next_y(w, cx, cy);
    let label = prov[cell_index(w, mx, my)];
    assert(label as int == prov_at(prov, w, mx, my));
    assert(1 <= label < next);
    let prov2 = prov.update(cell_index(w, cx, cy), label);
    lemma_update_other(prov, w, h, cx, cy, label);
    lemma_cell_index_bounds(w, h, cx, cy);
    assert forall|x: int, y: int| image.has(x, y) implies (raster_before(x, y, nx, ny) <==> (
    raster_before(x, y, cx, cy) || (x == cx && y == cy))) by {}
    assert(labels_placed(image, background, prov2, next, nx, ny));
    assert(origins_ok(image, background, prov2, origin, next, nx, ny)) by {
        assert forall|l: int| 1 <= l < next implies {
            let o = #[trigger] origin[l];
            &&& image.has(o.0, o.1)
            &&& raster_before(o.0, o.1, nx, ny)
            &&& image.at(o.0, o.1) != background
            &&& prov_at(prov2, w, o.0, o.1) == l
        } by {
            let o = origin[l];
            assert(image.has(o.0, o.1));
            assert(prov_at(prov, w, o.0, o.1) == l);
        }
    }
    assert(cells_sound(image, conn, background, prov2, origin, nx, ny)) by {
        assert forall|x: int, y: int|
            image.has(x, y) && image.at(x, y) != background && raster_before(
                x,
                y,
                nx,
                ny,
            ) implies connected(
            image,
            conn,
            (x, y),
            origin[#[trigger] prov_at(prov2, w, x, y)],
        ) by {
            if x == cx && y == cy {
                lemma_connected_step(image, conn, (cx, cy), (mx, my));
                assert(connected(image, conn, (mx, my), origin[prov_at(prov, w, mx, my)]));
                lemma_connected_trans(image, conn, (cx, cy), (mx, my), origin[label as int]);
            } else {
                assert(prov_at(prov2, w, x, y) == prov_at(prov, w, x, y));
            }
        }
    }
    assert(touching_joined(image, conn, background, prov2, roots, nx, ny)) by {
        assert forall|x1: int, y1: int, x2: int, y2: int|
            image.has(x1, y1) && image.has(x2, y2) && raster_before(x1, y1, nx, ny)
                && raster_before(x2, y2, nx, ny) && image.at(x1, y1) != background && image.at(
                x1,
                y1,
            ) == image.at(x2, y2) && neighbours(conn, (x1, y1), (x2, y2)) implies label_root(
            roots,
            #[trigger] prov_at(prov2, w, x1, y1),
        ) == label_root(roots, #[trigger] prov_at(prov2, w, x2, y2)) by {
            if x1 == cx && y1 == cy {
                assert(neighbours(conn, (cx, cy), (x2, y2)));
                assert(prov_at(prov2, w, x2, y2) == prov_at(prov, w, x2, y2));
            } else if x2 == cx && y2 == cy {
                lemma_neighbours_sym(conn, (x1, y1), (x2, y2));
                assert(neighbours(conn, (cx, cy), (x1, y1)));
                assert(prov_at(prov2, w, x1, y1) == prov_at(prov, w, x1, y1));
            } else {
                assert(prov_at(prov2, w, x1, y1) == prov_at(prov, w, x1, y1));
                assert(prov_at(prov2, w, x2, y2) == prov_at(prov, w, x2, y2));
            }
        }
    }
}

/// The labels of the already labelled neighbours of `(cx, cy)` that hold its
/// value, with the cell of each.
spec fn neighbours_found(
    image: GrayGrid,
    conn: Connectivity,
    prov: Seq<u32>,
    cx: int,
    cy: int,
    adj: Seq<u32>,
    adj_pos: Seq<(int, int)>,
) -> bool {
    &&& adj.len() == adj_pos.len()
    &&& forall|j: int|
        0 <= j < adj_pos.len() ==> {
            let q = #[trigger] adj_pos[j];
            &&& image.has(q.0, q.1)
            &&& raster_before(q.0, q.1, cx, cy)
            &&& neighbours(conn, (cx, cy), q)
            &&& image.at(q.0, q.1) == image.at(cx, cy)
            &&& adj[j] as int == prov_at(prov, image.width as int, q.0, q.1)
        }
    &&& forall|x: int, y: int|
        image.has(x, y) && raster_before(x, y, cx, cy) && #[trigger] neighbours(
            conn,
            (cx, cy),
            (x, y),
        ) && image.at(x, y) == image.at(cx, cy) ==> exists|j: int|
            0 <= j < adj_pos.len() && #[trigger] adj_pos[j] == (x, y)
}

/// Looks at the cells west and north of `(x, y)`, and north-west and
/// north-east of it under eight-connectivity, and collects the labels of
/// those that hold the value of `(x, y)`.
fn matching_neighbours(
    image: &GrayGrid,
    prov: &Vec<u32>,
    conn: Connectivity,
    x: usize,
    y: usize,
    idx: usize,
) -> (found: (Vec<u32>, Ghost<Seq<(int, int)>>))
    requires
        image.wf(),
        image.has(x as int, y as int),
        idx == cell_index(image.width as int, x as int, y as int),
        prov@.len() == image.pixels@.len(),
    ensures
        neighbours_found(*image, conn, prov@, x as int, y as int, found.0@, found.1@),
{
    let w: usize = image.width as usize;
    let mut adj: Vec<u32> = Vec::new();
    let ghost mut adj_pos: Seq<(int, int)> = Seq::empty();
    let ghost cx = x as int;
    let ghost cy = y as int;
    let ghost wi = w as int;
    let ghost hi = image.height as int;
    proof {
        lemma_cell_index_bounds(wi, hi, cx, cy);
    }
    let current = image.pixels[idx];
    if x > 0 {
        let pixel = image.pixels[idx - 1];
        if pixel == current {
            adj.push(prov[idx - 1]);
            proof {
                adj_pos = adj_pos.push((cx - 1, cy));
            }
        }
    }
    let ghost west_len = adj_pos.len();
    if y > 0 {
        proof {
            lemma_cell_index_bounds(wi, hi, cx, cy - 1);
            assert(cell_index(wi, cx, cy - 1) == idx - wi) by (nonlinear_arith)
                requires
                    idx == cy * wi + cx,
                    cell_index(wi, cx, cy - 1) == (cy - 1) * wi + cx,
            ;
        }
        let north: usize = idx - w;
        let pixel = image.pixels[north];
        if pixel == current {
            adj.push(prov[north]);
            proof {
                adj_pos = adj_pos.push((cx, cy - 1));
            }
        }
        let ghost north_len = adj_pos.len();
        if conn == Connectivity::Eight {
            if x > 0 {
                let pixel = image.pixels[north - 1];
                if pixel == current {
                    adj.push(prov[north - 1]);
                    proof {
                        adj_pos = adj_pos.push((cx - 1, cy - 1));
                    }
                }
            }
            let ghost nw_len = adj_pos.len();
            if x < w - 1 {
                proof {
                    lemma_cell_index_bounds(wi, hi, cx + 1, cy - 1);
                }
                let pixel = image.pixels[north + 1];
                if pixel == current {
                    adj.push(prov[north + 1]);
                    proof {
                        adj_pos = adj_pos.push((cx + 1, cy - 1));
                    }
                }
            }
            proof {
                assert(image.has(cx - 1, cy - 1) && image.at(cx - 1, cy - 1) == image.at(cx, cy)
                    ==> adj_pos[nw_len - 1] == (cx - 1, cy - 1));
                assert(image.has(cx + 1, cy - 1) && image.at(cx + 1, cy - 1) == image.at(cx, cy)
                    ==> adj_pos[adj_pos.len() - 1] == (cx + 1, cy - 1));
            }
        }
        proof {
            assert(image.at(cx, cy - 1) == image.at(cx, cy) ==> adj_pos[north_len - 1] == (
                cx,
                cy - 1,
            ));
        }
    }
    proof {
        assert(image.has(cx - 1, cy) && image.at(cx - 1, cy) == image.at(cx, cy) ==> adj_pos[0]
            == (cx - 1, cy));
        assert forall|x2: int, y2: int|
            image.has(x2, y2) && raster_before(x2, y2, cx, cy) && #[trigger] neighbours(
                conn,
                (cx, cy),
                (x2, y2),
            ) && image.at(x2, y2) == image.at(cx, cy) implies exists|j: int|
            0 <= j < adj_pos.len() && #[trigger] adj_pos[j] == (x2, y2) by {
            if x2 == cx - 1 && y2 == cy {
                assert(adj_pos[0] == (x2, y2));
            } else if x2 == cx && y2 == cy - 1 {
                let j = choose|j: int| 0 <= j < adj_pos.len() && adj_pos[j] == (cx, cy - 1);
                assert(adj_pos[j] == (x2, y2));
            } else if x2 == cx - 1 && y2 == cy - 1 {
                let j = choose|j: int| 0 <= j < adj_pos.len() && adj_pos[j] == (cx - 1, cy - 1);
                assert(adj_pos[j] == (x2, y2));
            } else {
                assert(x2 == cx + 1 && y2 == cy - 1);
                let j = adj_pos.len() - 1;
                assert(adj_pos[j] == (x2, y2));
            }
        }
    }
    (adj, Ghost(adj_pos))
}

/// Cells joined by a walk have labels in one tree, once every cell is
/// labelled.
proof fn lemma_path_one_tree(
    image: GrayGrid,
    conn: Connectivity,
    background: u8,
    prov: Seq<u32>,
    roots: Seq<int>,
    path: Seq<(int, int)>,
    k: int,
)
    requires
        touching_joined(image, conn, background, prov, roots, 0, image.height as int),
        is_path(image, conn, path),
        image.at(path[0].0, path[0].1) != background,
        0 <= k < path.len(),
    ensures
        label_root(roots, prov_at(prov, image.width as int, path[0].0, path[0].1)) == label_root(
            roots,
            prov_at(prov, image.width as int, path[k].0, path[k].1),
        ),
    decreases k,
{
    if k > 0 {
        lemma_path_one_tree(image, conn, background, prov, roots, path, k - 1);
        let a = path[k - 1];
        let b = path[k];
        assert(neighbours(conn, a, b));
        assert(image.has(a.0, a.1) && image.has(b.0, b.1));
        assert(raster_before(a.0, a.1, 0, image.height as int));
        assert(raster_before(b.0, b.1, 0, image.height as int));
    }
}

/// When the scan has passed the last cell, labels tell exactly which cells
/// are connected.
proof fn lemma_scan_done(
    image: GrayGrid,
    conn: Connectivity,
    background: u8,
    prov: Seq<u32>,
    roots: Seq<int>,
    origin: Seq<(int, int)>,
    next: int,
)
    requires
        scan_inv(image, conn, background, prov, roots, origin, next, 0, image.height as int),
        next <= image.width as int * image.height as int + 1,
    ensures
        provisional_ok(image, conn, background, prov, roots),
{
    let w = image.width as int;
    let h = image.height as int;
    let n = w * h;
    assert forall|x: int, y: int| image.has(x, y) implies (if image.at(x, y) == background {
        #[trigger] prov_at(prov, w, x, y) == 0
    } else {
        1 <= prov_at(prov, w, x, y) <= n
    }) by {
        assert(raster_before(x, y, 0, h));
    }
    assert forall|x1: int, y1: int, x2: int, y2: int|
        image.has(x1, y1) && image.has(x2, y2) && image.at(x1, y1) != background && image.at(
            x2,
            y2,
        ) != background implies ((label_root(roots, #[trigger] prov_at(prov, w, x1, y1))
        == label_root(roots, #[trigger] prov_at(prov, w, x2, y2))) <==> connected(
        image,
        conn,
        (x1, y1),
        (x2, y2),
    )) by {
        let la = prov_at(prov, w, x1, y1);
        let lb = prov_at(prov, w, x2, y2);
        assert(raster_before(x1, y1, 0, h));
        assert(raster_before(x2, y2, 0, h));
        assert(1 <= la < next && 1 <= lb < next);
        if label_root(roots, la) == label_root(roots, lb) {
            assert(connected(image, conn, origin[la], origin[lb]));
            assert(connected(image, conn, (x1, y1), origin[la]));
            assert(connected(image, conn, (x2, y2), origin[lb]));
            lemma_connected_sym(image, conn, (x2, y2), origin[lb]);
            lemma_connected_trans(image, conn, (x1, y1), origin[la], origin[lb]);
            lemma_connected_trans(image, conn, (x1, y1), origin[lb], (x2, y2));
        }
        if connected(image, conn, (x1, y1), (x2, y2)) {
            let path = choose|path: Seq<(int, int)>|
                #[trigger] is_path(image, conn, path) && path[0] == (x1, y1) && path[path.len()
                    - 1] == (x2, y2);
            lemma_path_one_tree(image, conn, background, prov, roots, path, path.len() - 1);
        }
    }
}

/// The labels of two labelled neighbours of `(cx, cy)` that hold its value
/// were first given to connected cells: a walk leads from the one through
/// `(cx, cy)` to the other.
proof fn lemma_neighbour_origins(
    image: GrayGrid,
    conn: Connectivity,
    background: u8,
    prov: Seq<u32>,
    roots: Seq<int>,
    origin: Seq<(int, int)>,
    next: int,
    cx: int,
    cy: int,
    p: (int, int),
    q: (int, int),
)
    requires
        scan_inv(image, conn, background, prov, roots, origin, next, cx, cy),
        image.has(cx, cy),
        image.at(cx, cy) != background,
        image.has(p.0, p.1),
        raster_before(p.0, p.1, cx, cy),
        neighbours(conn, (cx, cy), p),
        image.at(p.0, p.1) == image.at(cx, cy),
        image.has(q.0, q.1),
        raster_before(q.0, q.1, cx, cy),
        neighbours(conn, (cx, cy), q),
        image.at(q.0, q.1) == image.at(cx, cy),
    ensures
        1 <= prov_at(prov, image.width as int, p.0, p.1) < next,
        1 <= prov_at(prov, image.width as int, q.0, q.1) < next,
        connected(
            image,
            conn,
            origin[prov_at(prov, image.width as int, p.0, p.1)],
            origin[prov_at(prov, image.width as int, q.0, q.1)],
        ),
{
    let w = image.width as int;
    let c = (cx, cy);
    let op = origin[prov_at(prov, w, p.0, p.1)];
    let oq = origin[prov_at(prov, w, q.0, q.1)];
    assert(connected(image, conn, (p.0, p.1), op));
    assert(connected(image, conn, (q.0, q.1), oq));
    lemma_connected_sym(image, conn, p, op);
    lemma_connected_step(image, conn, c, p);
    lemma_connected_sym(image, conn, c, p);
    lemma_connected_step(image, conn, c, q);
    lemma_connected_trans(image, conn, op, p, c);
    lemma_connected_trans(image, conn, op, c, q);
    lemma_connected_trans(image, conn, op, q, oq);
}

/// Scans the image row by row. A foreground cell without a labelled
/// neighbour of its value takes the next unused label; any other foreground
/// cell takes the smallest label among such neighbours, and the labels of all
/// of them are joined in `forest`.
pub(crate) fn scan_cells(
    image: &GrayGrid,
    conn: Connectivity,
    background: u8,
    forest: &mut DisjointSetForest,
) -> (prov: Vec<u32>)
    requires
        image.wf(),
        image.width > 0,
        image.height > 0,
        image.width * image.height < 0x1_0000_0000,
        forest_roots(*old(forest)) == Seq::new(
            (image.width * image.height) as nat,
            |i: int| i,
        ),
    ensures
        provisional_ok(*image, conn, background, prov@, forest_roots(*final(forest))),
{
    let w: usize = image.width as usize;
    let h: usize = image.height as usize;
    let n: usize = image.pixels.len();
    let mut prov: Vec<u32> = vec![0u32; n];
    let mut next: u64 = 1;
    let ghost mut origin: Seq<(int, int)> = seq![(0int, 0int)];
    let mut x: usize = 0;
    let mut y: usize = 0;
    let mut idx: usize = 0;
    proof {
        let roots = forest_roots(*forest);
        assert(roots_wf(roots));
        assert(unused_alone(roots, 1));
        assert(labels_placed(*image, background, prov@, 1, 0, 0)) by {
            assert forall|x: int, y: int| image.has(x, y) implies #[trigger] prov_at(
                prov@,
                image.width as int,
                x,
                y,
            ) == 0 by {
                lemma_cell_index_bounds(image.width as int, image.height as int, x, y);
            }
        }
        assert(cells_sound(*image, conn, background, prov@, origin, 0, 0));
        assert(touching_joined(*image, conn, background, prov@, roots, 0, 0));
        assert(trees_sound(*image, conn, roots, origin, 1));
        assert(origins_ok(*image, background, prov@, origin, 1, 0, 0));
        assert(scan_inv(*image, conn, background, prov@, roots, origin, 1, 0, 0));
    }
    while y < h
        invariant
            image.wf(),
            w == image.width,
            h == image.height,
            n == w * h,
            n == image.pixels@.len(),
            n < 0x1_0000_0000,
            w > 0,
            y <= h,
            x < w,
            y == h ==> x == 0,
            idx == y * w + x,
            1 <= next <= idx + 1,
            scan_inv(
                *image,
                conn,
                background,
                prov@,
                forest_roots(*forest),
                origin,
                next as int,
                x as int,
                y as int,
            ),
        decreases n - idx,
    {
        proof {
            lemma_cell_index_bounds(w as int, h as int, x as int, y as int);
        }
        let current = image.pixels[idx];
        if current == background {
            proof {
                lemma_pass_background(
                    *image,
                    conn,
                    background,
                    prov@,
                    forest_roots(*forest),
                    origin,
                    next as int,
                    x as int,
                    y as int,
                );
            }
        } else {
            let (adj, Ghost(adj_pos)) = matching_neighbours(image, &prov, conn, x, y, idx);
            if adj.len() == 0 {
                proof {
                    assert(stands_alone(*image, conn, x as int, y as int));
                    lemma_pass_seed(
                        *image,
                        conn,
                        background,
                        prov@,
                        forest_roots(*forest),
                        origin,
                        next as int,
                        x as int,
                        y as int,
                    );
                    origin = origin.push((x as int, y as int));
                }
                prov.set(idx, next as u32);
                next = next + 1;
            } else {
                let mut smallest: usize = 0;
                let mut i: usize = 1;
                while i < adj.len()
                    invariant
                        1 <= i <= adj.len(),
                        smallest < i,
                        forall|j: int| 0 <= j < i ==> adj@[smallest as int] <= adj@[j],
                    decreases adj.len() - i,
                {
                    if adj[i] < adj[smallest] {
                        smallest = i;
                    }
                    i = i + 1;
                }
                let min_label: u32 = adj[smallest];
                let ghost m = adj_pos[smallest as int];
                proof {
                    lemma_neighbour_origins(
                        *image,
                        conn,
                        background,
                        prov@,
                        forest_roots(*forest),
                        origin,
                        next as int,
                        x as int,
                        y as int,
                        m,
                        m,
                    );
                }
                let mut i: usize = 0;
                while i < adj.len()
                    invariant
                        image.wf(),
                        image.has(x as int, y as int),
                        image.at(x as int, y as int) != background,
                        n == image.pixels@.len(),
                        n == image.width * image.height,
                        next <= idx + 1,
                        idx < n,
                        i <= adj.len(),
                        smallest < adj.len(),
                        min_label == adj@[smallest as int],
                        m == adj_pos[smallest as int],
                        1 <= min_label < next,
                        neighbours_found(
                            *image,
                            conn,
                            prov@,
                            x as int,
                            y as int,
                            adj@,
                            adj_pos,
                        ),
                        scan_inv(
                            *image,
                            conn,
                            background,
                            prov@,
                            forest_roots(*forest),
                            origin,
                            next as int,
                            x as int,
                            y as int,
                        ),
                        forall|j: int|
                            0 <= j < i ==> label_root(forest_roots(*forest), adj@[j] as int)
                                == label_root(forest_roots(*forest), min_label as int),
                    decreases adj.len() - i,
                {
                    let other: u32 = adj[i];
                    let ghost q = adj_pos[i as int];
                    let ghost before = forest_roots(*forest);
                    proof {
                        lemma_neighbour_origins(
                            *image,
                            conn,
                            background,
                            prov@,
                            before,
                            origin,
                            next as int,
                            x as int,
                            y as int,
                            m,
                            q,
                        );
                    }
                    forest.union((min_label - 1) as usize, (other - 1) as usize);
                    proof {
                        lemma_merge(
                            *image,
                            conn,
                            background,
                            prov@,
                            before,
                            forest_roots(*forest),
                            origin,
                            next as int,
                            x as int,
                            y as int,
                            min_label as int,
                            other as int,
                        );
                        assert forall|j: int| 0 <= j < i + 1 implies label_root(
                            forest_roots(*forest),
                            adj@[j] as int,
                        ) == label_root(forest_roots(*forest), min_label as int) by {
                            if j < i {
                                let pj = adj_pos[j];
                                assert(1 <= adj@[j] < next) by {
                                    lemma_neighbour_origins(
                                        *image,
                                        conn,
                                        background,
                                        prov@,
                                        before,
                                        origin,
                                        next as int,
                                        x as int,
                                        y as int,
                                        pj,
                                        pj,
                                    );
                                }
                                assert(label_root(before, adj@[j] as int) == label_root(
                                    before,
                                    min_label as int,
                                ));
                            }
                        }
                    }
                    i = i + 1;
                }
                proof {
                    let roots = forest_roots(*forest);
                    assert(neighbours_joined(
                        *image,
                        conn,
                        prov@,
                        roots,
                        x as int,
                        y as int,
                        min_label as int,
                    )) by {
                        assert forall|x2: int, y2: int|
                            image.has(x2, y2) && raster_before(x2, y2, x as int, y as int)
                                && #[trigger] neighbours(conn, (x as int, y as int), (x2, y2))
                                && image.at(x2, y2) == image.at(
                                x as int,
                                y as int,
                            ) implies label_root(
                            roots,
                            prov_at(prov@, image.width as int, x2, y2),
                        ) == label_root(roots, min_label as int) by {
                            let j = choose|j: int|
                                0 <= j < adj_pos.len() && #[trigger] adj_pos[j] == (x2, y2);
                            assert(adj@[j] as int == prov_at(
                                prov@,
                                image.width as int,
                                x2,
                                y2,
                            ));
                        }
                    }
                    lemma_pass_joined(
                        *image,
                        conn,
                        background,
                        prov@,
                        roots,
                        origin,
                        next as int,
                        x as int,
                        y as int,
                        m.0,
                        m.1,
                    );
                }
                prov.set(idx, min_label);
            }
        }
        proof {
            assert((y + 1) * w + 0 == y * w + (w - 1) + 1) by (nonlinear_arith);
        }
        idx = idx + 1;
        x = x + 1;
        if x == w {
            x = 0;
            y = y + 1;
        }
    }
    proof {
        assert(h * w == w * h) by (nonlinear_arith);
        lemma_scan_done(
            *image,
            conn,
            background,
            prov@,
            forest_roots(*forest),
            origin,
            next as int,
        );
    }
    prov
}

} // verus!
