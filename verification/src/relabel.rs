//! The second reading of the image: every tree of provisional labels gets
//! the next free final label when its first cell is met, and the box and the
//! area of every final label grow cell by cell.

use crate::connectivity::{connected, Connectivity};
use crate::forest::forest_roots;
use crate::grid::{
    cell_index, lemma_cell_index_bounds, lemma_cell_index_injective, lemma_cell_of_index,
    lemma_raster_order, raster_before, GrayGrid, LabelGrid,
};
use crate::labeling::{
    component_stats, count_upto, label_in_use, label_seen_before, labels_of, stats_of,
    ConnectedComponentsResult, Stats,
};
use crate::scan::{
    label_root, lemma_update_other, next_x, next_y, prov_at, provisional_ok,
};
use imageproc::union_find::DisjointSetForest;
use vstd::prelude::*;

verus! {

/// Everything that the second reading has built so far.
pub struct Pass {
    /// The label buffer: final labels before the reading position,
    /// provisional labels from it on.
    pub out: Seq<u32>,
    /// The final label of every root, 0 where none was given yet.
    pub table: Seq<u32>,
    /// The first cell of every final label.
    pub first: Seq<(int, int)>,
    pub left: Seq<u32>,
    pub top: Seq<u32>,
    pub right: Seq<u32>,
    pub bottom: Seq<u32>,
    pub area: Seq<u32>,
    /// For every final label, the row of a cell on the left side of its box.
    pub on_left: Seq<int>,
    /// The column of a cell on the top side.
    pub on_top: Seq<int>,
    /// The row of a cell on the right side.
    pub on_right: Seq<int>,
    /// The column of a cell on the bottom side.
    pub on_bottom: Seq<int>,
}

/// The root of the tree that holds the provisional label of `(x, y)`.
pub open spec fn class_of(prov: Seq<u32>, roots: Seq<int>, width: int, x: int, y: int) -> int {
    label_root(roots, prov_at(prov, width, x, y))
}

/// Cells before `(cx, cy)` hold their final label, the others their
/// provisional one.
pub open spec fn cells_relabelled(
    image: GrayGrid,
    background: u8,
    prov: Seq<u32>,
    roots: Seq<int>,
    st: Pass,
    cx: int,
    cy: int,
) -> bool {
    let w = image.width as int;
    forall|x: int, y: int|
        image.has(x, y) ==> (if !raster_before(x, y, cx, cy) {
            #[trigger] prov_at(st.out, w, x, y) == prov_at(prov, w, x, y)
        } else if image.at(x, y) == background {
            prov_at(st.out, w, x, y) == 0
        } else {
            1 <= prov_at(st.out, w, x, y) < st.first.len() && prov_at(st.out, w, x, y)
                == st.table[class_of(prov, roots, w, x, y)]
        })
}

/// A root with a final label is the root of that label's first cell.
pub open spec fn table_ok(image: GrayGrid, prov: Seq<u32>, roots: Seq<int>, st: Pass) -> bool {
    let w = image.width as int;
    &&& st.table.len() == image.width as int * image.height as int
    &&& forall|r: int|
        0 <= r < st.table.len() ==> 0 <= #[trigger] st.table[r] < st.first.len() && (st.table[r]
            != 0 ==> class_of(
            prov,
            roots,
            w,
            st.first[st.table[r] as int].0,
            st.first[st.table[r] as int].1,
        ) == r)
}

/// The first cell of a final label holds it, and all cells before that cell
/// hold smaller labels.
pub open spec fn firsts_ok(image: GrayGrid, background: u8, st: Pass, cx: int, cy: int) -> bool {
    let w = image.width as int;
    &&& st.first.len() >= 1
    &&& forall|k: int|
        1 <= k < st.first.len() ==> {
            let f = #[trigger] st.first[k];
            &&& image.has(f.0, f.1)
            &&& image.at(f.0, f.1) != background
            &&& raster_before(f.0, f.1, cx, cy)
            &&& prov_at(st.out, w, f.0, f.1) == k
        }
    &&& forall|k: int, x: int, y: int|
        1 <= k < st.first.len() && image.has(x, y) && raster_before(
            x,
            y,
            (#[trigger] st.first[k]).0,
            st.first[k].1,
        ) ==> #[trigger] prov_at(st.out, w, x, y) < k
}

/// The box and the area of `k` fit the cells before `(cx, cy)` that hold it.
pub open spec fn entry_ok(image: GrayGrid, st: Pass, k: int, cx: int, cy: int, idx: int) -> bool {
    let w = image.width as int;
    &&& forall|x: int, y: int|
        image.has(x, y) && raster_before(x, y, cx, cy) && #[trigger] prov_at(st.out, w, x, y)
            == k ==> st.left[k] <= x <= st.right[k] && st.top[k] <= y <= st.bottom[k]
    &&& image.has(st.left[k] as int, st.on_left[k])
    &&& raster_before(st.left[k] as int, st.on_left[k], cx, cy)
    &&& prov_at(st.out, w, st.left[k] as int, st.on_left[k]) == k
    &&& image.has(st.right[k] as int, st.on_right[k])
    &&& raster_before(st.right[k] as int, st.on_right[k], cx, cy)
    &&& prov_at(st.out, w, st.right[k] as int, st.on_right[k]) == k
    &&& image.has(st.on_top[k], st.top[k] as int)
    &&& raster_before(st.on_top[k], st.top[k] as int, cx, cy)
    &&& prov_at(st.out, w, st.on_top[k], st.top[k] as int) == k
    &&& image.has(st.on_bottom[k], st.bottom[k] as int)
    &&& raster_before(st.on_bottom[k], st.bottom[k] as int, cx, cy)
    &&& prov_at(st.out, w, st.on_bottom[k], st.bottom[k] as int) == k
    &&& st.area[k] == count_upto(st.out, k, idx)
    &&& st.area[k] >= 1
}

/// Every final label has an entry that fits, and the background's is empty.
pub open spec fn entries_ok(image: GrayGrid, st: Pass, cx: int, cy: int, idx: int) -> bool {
    let count = st.first.len();
    &&& st.left.len() == count
    &&& st.top.len() == count
    &&& st.right.len() == count
    &&& st.bottom.len() == count
    &&& st.area.len() == count
    &&& st.on_left.len() == count
    &&& st.on_top.len() == count
    &&& st.on_right.len() == count
    &&& st.on_bottom.len() == count
    &&& st.left[0] == u32::MAX
    &&& st.top[0] == u32::MAX
    &&& st.right[0] == 0
    &&& st.bottom[0] == 0
    &&& st.area[0] == 0
    &&& forall|k: int| 1 <= k < count ==> #[trigger] entry_ok(image, st, k, cx, cy, idx)
}

/// What holds whenever the second reading stands before the cell `(cx, cy)`,
/// which is cell number `idx`.
pub open spec fn relabel_inv(
    image: GrayGrid,
    conn: Connectivity,
    background: u8,
    prov: Seq<u32>,
    roots: Seq<int>,
    st: Pass,
    cx: int,
    cy: int,
    idx: int,
) -> bool {
    &&& provisional_ok(image, conn, background, prov, roots)
    &&& st.out.len() == prov.len()
    &&& st.first.len() <= idx + 1
    &&& cells_relabelled(image, background, prov, roots, st, cx, cy)
    &&& table_ok(image, prov, roots, st)
    &&& firsts_ok(image, background, st, cx, cy)
    &&& entries_ok(image, st, cx, cy, idx)
}

/// The count over a prefix depends on that prefix only.
pub proof fn lemma_count_prefix(a: Seq<u32>, b: Seq<u32>, label: int, upto: int)
    requires
        0 <= upto <= a.len(),
        upto <= b.len(),
        forall|i: int| 0 <= i < upto ==> a[i] == b[i],
    ensures
        count_upto(a, label, upto) == count_upto(b, label, upto),
    decreases upto,
{
    if upto > 0 {
        lemma_count_prefix(a, b, label, upto - 1);
    }
}

/// A prefix of `upto` cells holds a label at most `upto` times.
pub proof fn lemma_count_bounds(a: Seq<u32>, label: int, upto: int)
    requires
        0 <= upto,
    ensures
        0 <= count_upto(a, label, upto) <= upto,
    decreases upto,
{
    if upto > 0 {
        lemma_count_bounds(a, label, upto - 1);
    }
}

/// The entry of a label that the cell `(cx, cy)` does not take still fits
/// when the reading has passed that cell.
proof fn lemma_entry_kept(
    image: GrayGrid,
    st: Pass,
    st2: Pass,
    k: int,
    cx: int,
    cy: int,
    idx: int,
)
    requires
        image.wf(),
        image.has(cx, cy),
        idx == cell_index(image.width as int, cx, cy),
        st.out.len() == image.width as int * image.height as int,
        st2.out.len() == st.out.len(),
        entry_ok(image, st, k, cx, cy, idx),
        forall|i: int| 0 <= i < st.out.len() && i != idx ==> st2.out[i] == st.out[i],
        st2.out[idx] != k,
        0 <= k < st.left.len(),
        st2.left.len() >= st.left.len(),
        st2.left[k] == st.left[k],
        st2.top[k] == st.top[k],
        st2.right[k] == st.right[k],
        st2.bottom[k] == st.bottom[k],
        st2.area[k] == st.area[k],
        st2.on_left[k] == st.on_left[k],
        st2.on_top[k] == st.on_top[k],
        st2.on_right[k] == st.on_right[k],
        st2.on_bottom[k] == st.on_bottom[k],
    ensures
        entry_ok(
            image,
            st2,
            k,
            next_x(image.width as int, cx),
            next_y(image.width as int, cx, cy),
            idx + 1,
        ),
{
    let w = image.width as int;
    let h = image.height as int;
    let nx = next_x(w, cx);
    let ny = next_y(w, cx, cy);
    lemma_cell_index_bounds(w, h, cx, cy);
    assert forall|x: int, y: int| image.has(x, y) implies (raster_before(x, y, nx, ny) <==> (
    raster_before(x, y, cx, cy) || (x == cx && y == cy))) by {}
    assert forall|x: int, y: int| image.has(x, y) && !(x == cx && y == cy) implies #[trigger] prov_at(
        st2.out,
        w,
        x,
        y,
    ) == prov_at(st.out, w, x, y) by {
        lemma_cell_index_bounds(w, h, x, y);
        if cell_index(w, x, y) == idx {
            lemma_cell_index_injective(w, x, y, cx, cy);
        }
    }
    assert(prov_at(st2.out, w, cx, cy) != k);
    lemma_count_prefix(st2.out, st.out, k, idx);
    assert(count_upto(st2.out, k, idx + 1) == count_upto(st2.out, k, idx));
}

/// The reading may step over a background cell without touching anything.
proof fn lemma_step_background(
    image: GrayGrid,
    conn: Connectivity,
    background: u8,
    prov: Seq<u32>,
    roots: Seq<int>,
    st: Pass,
    cx: int,
    cy: int,
    idx: int,
)
    requires
        image.wf(),
        relabel_inv(image, conn, background, prov, roots, st, cx, cy, idx),
        image.has(cx, cy),
        idx == cell_index(image.width as int, cx, cy),
        image.at(cx, cy) == background,
    ensures
        relabel_inv(
            image,
            conn,
            background,
            prov,
            roots,
            st,
            next_x(image.width as int, cx),
            next_y(image.width as int, cx, cy),
            idx + 1,
        ),
{
    let w = image.width as int;
    let h = image.height as int;
    let nx = next_x(w, cx);
    let ny = next_y(w, cx, cy);
    lemma_cell_index_bounds(w, h, cx, cy);
    assert forall|x: int, y: int| image.has(x, y) implies (raster_before(x, y, nx, ny) <==> (
    raster_before(x, y, cx, cy) || (x == cx && y == cy))) by {}
    assert(prov_at(prov, w, cx, cy) == 0);
    assert(prov_at(st.out, w, cx, cy) == 0);
    assert(cells_relabelled(image, background, prov, roots, st, nx, ny));
    assert(firsts_ok(image, background, st, nx, ny)) by {
        assert forall|k: int| 1 <= k < st.first.len() implies raster_before(
            (#[trigger] st.first[k]).0,
            st.first[k].1,
            nx,
            ny,
        ) by {
            let f = st.first[k];
            assert(image.has(f.0, f.1));
        }
    }
    assert(entries_ok(image, st, nx, ny, idx + 1)) by {
        assert forall|k: int| 1 <= k < st.first.len() implies #[trigger] entry_ok(
            image,
            st,
            k,
            nx,
            ny,
            idx + 1,
        ) by {
            assert(entry_ok(image, st, k, cx, cy, idx));
            lemma_entry_kept(image, st, st, k, cx, cy, idx);
        }
    }
}

/// What the reading builds when `(cx, cy)` is the first cell of its tree:
/// the tree's root gets the next final label, whose box is that one cell.
pub open spec fn opened(st: Pass, idx: int, root: int, cx: int, cy: int) -> Pass {
    let k = st.first.len() as u32;
    Pass {
        out: st.out.update(idx, k),
        table: st.table.update(root, k),
        first: st.first.push((cx, cy)),
        left: st.left.push(cx as u32),
        top: st.top.push(cy as u32),
        right: st.right.push(cx as u32),
        bottom: st.bottom.push(cy as u32),
        area: st.area.push(1),
        on_left: st.on_left.push(cy),
        on_top: st.on_top.push(cx),
        on_right: st.on_right.push(cy),
        on_bottom: st.on_bottom.push(cx),
    }
}

/// What the reading builds when the tree of `(cx, cy)` has the final label
/// `k` already: the box of `k` stretches to the cell and its area grows by one.
pub open spec fn extended(st: Pass, idx: int, k: int, cx: int, cy: int) -> Pass {
    Pass {
        out: st.out.update(idx, k as u32),
        table: st.table,
        first: st.first,
        left: if cx < st.left[k] {
            st.left.update(k, cx as u32)
        } else {
            st.left
        },
        top: if cy < st.top[k] {
            st.top.update(k, cy as u32)
        } else {
            st.top
        },
        right: if cx > st.right[k] {
            st.right.update(k, cx as u32)
        } else {
            st.right
        },
        bottom: if cy > st.bottom[k] {
            st.bottom.update(k, cy as u32)
        } else {
            st.bottom
        },
        area: st.area.update(k, (st.area[k] + 1) as u32),
        on_left: if cx < st.left[k] {
            st.on_left.update(k, cy)
        } else {
            st.on_left
        },
        on_top: if cy < st.top[k] {
            st.on_top.update(k, cx)
        } else {
            st.on_top
        },
        on_right: if cx > st.right[k] {
            st.on_right.update(k, cy)
        } else {
            st.on_right
        },
        on_bottom: if cy > st.bottom[k] {
            st.on_bottom.update(k, cx)
        } else {
            st.on_bottom
        },
    }
}

/// The first cell of a tree opens a new final label.
proof fn lemma_step_opened(
    image: GrayGrid,
    conn: Connectivity,
    background: u8,
    prov: Seq<u32>,
    roots: Seq<int>,
    st: Pass,
    cx: int,
    cy: int,
    idx: int,
)
    requires
        image.wf(),
        relabel_inv(image, conn, background, prov, roots, st, cx, cy, idx),
        image.has(cx, cy),
        idx == cell_index(image.width as int, cx, cy),
        image.at(cx, cy) != background,
        image.width as int * image.height as int <= u32::MAX,
        st.table[class_of(prov, roots, image.width as int, cx, cy)] == 0,
    ensures
        relabel_inv(
            image,
            conn,
            background,
            prov,
            roots,
            opened(st, idx, class_of(prov, roots, image.width as int, cx, cy), cx, cy),
            next_x(image.width as int, cx),
            next_y(image.width as int, cx, cy),
            idx + 1,
        ),
{
    let w = image.width as int;
    let h = image.height as int;
    let nx = next_x(w, cx);
    let ny = next_y(w, cx, cy);
    let root = class_of(prov, roots, w, cx, cy);
    let count = st.first.len() as int;
    let k = count as u32;
    let st2 = opened(st, idx, root, cx, cy);
    lemma_cell_index_bounds(w, h, cx, cy);
    lemma_update_other(st.out, w, h, cx, cy, k);
    assert forall|x: int, y: int| image.has(x, y) implies (raster_before(x, y, nx, ny) <==> (
    raster_before(x, y, cx, cy) || (x == cx && y == cy))) by {}
    assert(1 <= prov_at(prov, w, cx, cy) <= w * h);
    assert(0 <= root < w * h);
    assert(cells_relabelled(image, background, prov, roots, st2, nx, ny)) by {
        assert forall|x: int, y: int| image.has(x, y) implies (if !raster_before(x, y, nx, ny) {
            #[trigger] prov_at(st2.out, w, x, y) == prov_at(prov, w, x, y)
        } else if image.at(x, y) == background {
            prov_at(st2.out, w, x, y) == 0
        } else {
            1 <= prov_at(st2.out, w, x, y) < st2.first.len() && prov_at(st2.out, w, x, y)
                == st2.table[class_of(prov, roots, w, x, y)]
        }) by {
            if !(x == cx && y == cy) {
                assert(prov_at(st2.out, w, x, y) == prov_at(st.out, w, x, y));
                if raster_before(x, y, cx, cy) && image.at(x, y) != background {
                    assert(1 <= prov_at(prov, w, x, y) <= w * h);
                    let r = class_of(prov, roots, w, x, y);
                    assert(0 <= r < w * h);
                    assert(st.table[r] != 0);
                }
            }
        }
    }
    assert(table_ok(image, prov, roots, st2)) by {
        assert forall|r: int| 0 <= r < st2.table.len() implies 0 <= #[trigger] st2.table[r]
            < st2.first.len() && (st2.table[r] != 0 ==> class_of(
            prov,
            roots,
            w,
            st2.first[st2.table[r] as int].0,
            st2.first[st2.table[r] as int].1,
        ) == r) by {
            if r != root {
                assert(st2.table[r] == st.table[r]);
                assert(st2.first[st.table[r] as int] == st.first[st.table[r] as int]);
            }
        }
    }
    assert(firsts_ok(image, background, st2, nx, ny)) by {
        assert forall|j: int| 1 <= j < st2.first.len() implies {
            let f = #[trigger] st2.first[j];
            &&& image.has(f.0, f.1)
            &&& image.at(f.0, f.1) != background
            &&& raster_before(f.0, f.1, nx, ny)
            &&& prov_at(st2.out, w, f.0, f.1) == j
        } by {
            if j < count {
                let f = st.first[j];
                assert(st2.first[j] == f);
                assert(image.has(f.0, f.1));
                assert(prov_at(st.out, w, f.0, f.1) == j);
            }
        }
        assert forall|j: int, x: int, y: int|
            1 <= j < st2.first.len() && image.has(x, y) && raster_before(
                x,
                y,
                (#[trigger] st2.first[j]).0,
                st2.first[j].1,
            ) implies #[trigger] prov_at(st2.out, w, x, y) < j by {
            if j < count {
                let f = st.first[j];
                assert(st2.first[j] == f);
                assert(raster_before(f.0, f.1, cx, cy));
                assert(prov_at(st2.out, w, x, y) == prov_at(st.out, w, x, y));
            } else {
                assert(prov_at(st2.out, w, x, y) == prov_at(st.out, w, x, y));
            }
        }
    }
    assert(entries_ok(image, st2, nx, ny, idx + 1)) by {
        assert forall|j: int| 1 <= j < st2.first.len() implies #[trigger] entry_ok(
            image,
            st2,
            j,
            nx,
            ny,
            idx + 1,
        ) by {
            if j < count {
                assert(entry_ok(image, st, j, cx, cy, idx));
                lemma_entry_kept(image, st, st2, j, cx, cy, idx);
            } else {
                // No cell before this one holds the new label.
                lemma_count_none(image, background, prov, roots, st, cx, cy, idx, idx);
                lemma_count_prefix(st2.out, st.out, j, idx);
            }
        }
    }
}

/// Before the reading position no cell holds a label that was not given yet.
proof fn lemma_count_none(
    image: GrayGrid,
    background: u8,
    prov: Seq<u32>,
    roots: Seq<int>,
    st: Pass,
    cx: int,
    cy: int,
    idx: int,
    upto: int,
)
    requires
        image.wf(),
        image.has(cx, cy),
        idx == cell_index(image.width as int, cx, cy),
        st.out.len() == image.width as int * image.height as int,
        cells_relabelled(image, background, prov, roots, st, cx, cy),
        st.first.len() >= 1,
        0 <= upto <= idx,
    ensures
        count_upto(st.out, st.first.len() as int, upto) == 0,
    decreases upto,
{
    if upto > 0 {
        lemma_count_none(image, background, prov, roots, st, cx, cy, idx, upto - 1);
        let w = image.width as int;
        let i = upto - 1;
        let x = i % w;
        let y = i / w;
        lemma_cell_index_bounds(w, image.height as int, cx, cy);
        lemma_cell_of_index(w, image.height as int, i);
        assert(raster_before(x, y, cx, cy)) by {
            lemma_raster_order(w, x, y, cx, cy);
        }
        assert(prov_at(st.out, w, x, y) < st.first.len());
    }
}

/// A later cell of a tree takes the tree's final label.
proof fn lemma_step_extended(
    image: GrayGrid,
    conn: Connectivity,
    background: u8,
    prov: Seq<u32>,
    roots: Seq<int>,
    st: Pass,
    cx: int,
    cy: int,
    idx: int,
)
    requires
        image.wf(),
        relabel_inv(image, conn, background, prov, roots, st, cx, cy, idx),
        image.has(cx, cy),
        idx == cell_index(image.width as int, cx, cy),
        image.at(cx, cy) != background,
        image.width as int * image.height as int <= u32::MAX,
        st.table[class_of(prov, roots, image.width as int, cx, cy)] != 0,
    ensures
        relabel_inv(
            image,
            conn,
            background,
            prov,
            roots,
            extended(
                st,
                idx,
                st.table[class_of(prov, roots, image.width as int, cx, cy)] as int,
                cx,
                cy,
            ),
            next_x(image.width as int, cx),
            next_y(image.width as int, cx, cy),
            idx + 1,
        ),
{
    let w = image.width as int;
    let h = image.height as int;
    let nx = next_x(w, cx);
    let ny = next_y(w, cx, cy);
    let root = class_of(prov, roots, w, cx, cy);
    let count = st.first.len() as int;
    assert(1 <= prov_at(prov, w, cx, cy) <= w * h);
    assert(0 <= root < w * h);
    let k = st.table[root] as int;
    assert(1 <= k < count);
    let st2 = extended(st, idx, k, cx, cy);
    lemma_cell_index_bounds(w, h, cx, cy);
    lemma_update_other(st.out, w, h, cx, cy, k as u32);
    lemma_count_bounds(st.out, k, idx);
    assert forall|x: int, y: int| image.has(x, y) implies (raster_before(x, y, nx, ny) <==> (
    raster_before(x, y, cx, cy) || (x == cx && y == cy))) by {}
    assert(cells_relabelled(image, background, prov, roots, st2, nx, ny)) by {
        assert forall|x: int, y: int| image.has(x, y) implies (if !raster_before(x, y, nx, ny) {
            #[trigger] prov_at(st2.out, w, x, y) == prov_at(prov, w, x, y)
        } else if image.at(x, y) == background {
            prov_at(st2.out, w, x, y) == 0
        } else {
            1 <= prov_at(st2.out, w, x, y) < st2.first.len() && prov_at(st2.out, w, x, y)
                == st2.table[class_of(prov, roots, w, x, y)]
        }) by {
            if !(x == cx && y == cy) {
                assert(prov_at(st2.out, w, x, y) == prov_at(st.out, w, x, y));
            }
        }
    }
    assert(table_ok(image, prov, roots, st2));
    assert(firsts_ok(image, background, st2, nx, ny)) by {
        assert forall|j: int| 1 <= j < st2.first.len() implies {
            let f = #[trigger] st2.first[j];
            &&& image.has(f.0, f.1)
            &&& image.at(f.0, f.1) != background
            &&& raster_before(f.0, f.1, nx, ny)
            &&& prov_at(st2.out, w, f.0, f.1) == j
        } by {
            let f = st.first[j];
            assert(image.has(f.0, f.1));
            assert(prov_at(st.out, w, f.0, f.1) == j);
        }
        assert forall|j: int, x: int, y: int|
            1 <= j < st2.first.len() && image.has(x, y) && raster_before(
                x,
                y,
                (#[trigger] st2.first[j]).0,
                st2.first[j].1,
            ) implies #[trigger] prov_at(st2.out, w, x, y) < j by {
            let f = st.first[j];
            assert(raster_before(f.0, f.1, cx, cy));
            assert(prov_at(st2.out, w, x, y) == prov_at(st.out, w, x, y));
        }
    }
    assert(entries_ok(image, st2, nx, ny, idx + 1)) by {
        assert forall|j: int| 1 <= j < st2.first.len() implies #[trigger] entry_ok(
            image,
            st2,
            j,
            nx,
            ny,
            idx + 1,
        ) by {
            assert(entry_ok(image, st, j, cx, cy, idx));
            if j != k {
                lemma_entry_kept(image, st, st2, j, cx, cy, idx);
            } else {
                lemma_count_prefix(st2.out, st.out, k, idx);
                assert(count_upto(st2.out, k, idx + 1) == count_upto(st.out, k, idx) + 1);
                assert forall|x: int, y: int|
                    image.has(x, y) && raster_before(x, y, nx, ny) && #[trigger] prov_at(
                        st2.out,
                        w,
                        x,
                        y,
                    ) == k implies st2.left[k] <= x <= st2.right[k] && st2.top[k] <= y
                    <= st2.bottom[k] by {
                    if !(x == cx && y == cy) {
                        assert(prov_at(st2.out, w, x, y) == prov_at(st.out, w, x, y));
                    }
                }
                assert(prov_at(st2.out, w, st2.left[k] as int, st2.on_left[k]) == k) by {
                    if !(cx < st.left[k]) {
                        assert(prov_at(st.out, w, st.left[k] as int, st.on_left[k]) == k);
                    }
                }
                assert(prov_at(st2.out, w, st2.right[k] as int, st2.on_right[k]) == k) by {
                    if !(cx > st.right[k]) {
                        assert(prov_at(st.out, w, st.right[k] as int, st.on_right[k]) == k);
                    }
                }
                assert(prov_at(st2.out, w, st2.on_top[k], st2.top[k] as int) == k) by {
                    if !(cy < st.top[k]) {
                        assert(prov_at(st.out, w, st.on_top[k], st.top[k] as int) == k);
                    }
                }
                assert(prov_at(st2.out, w, st2.on_bottom[k], st2.bottom[k] as int) == k) by {
                    if !(cy > st.bottom[k]) {
                        assert(prov_at(st.out, w, st.on_bottom[k], st.bottom[k] as int) == k);
                    }
                }
            }
        }
    }
}

/// When the reading has passed the last cell, the buffer holds the labels of
/// the image and the entries are the statistics of those labels.
proof fn lemma_relabel_done(
    image: GrayGrid,
    conn: Connectivity,
    background: u8,
    prov: Seq<u32>,
    roots: Seq<int>,
    st: Pass,
    labels: LabelGrid,
    stats: Stats,
)
    requires
        image.wf(),
        image.width > 0,
        image.height > 0,
        relabel_inv(
            image,
            conn,
            background,
            prov,
            roots,
            st,
            0,
            image.height as int,
            image.width as int * image.height as int,
        ),
        labels.width == image.width,
        labels.height == image.height,
        labels.labels@ == st.out,
        stats.left@ == st.left,
        stats.top@ == st.top,
        stats.right@ == st.right,
        stats.bottom@ == st.bottom,
        stats.area@ == st.area,
    ensures
        labels_of(image, conn, background, labels, st.first.len() as int),
        stats_of(labels, stats, st.first.len() as int),
{
    let w = image.width as int;
    let h = image.height as int;
    let count = st.first.len() as int;
    assert forall|x: int, y: int| image.has(x, y) implies raster_before(x, y, 0, h) by {}
    assert forall|x: int, y: int| image.has(x, y) implies #[trigger] labels.at(x, y) == prov_at(
        st.out,
        w,
        x,
        y,
    ) by {}
    assert forall|x: int, y: int| image.has(x, y) implies 0 <= #[trigger] labels.at(x, y) < count
        && (image.at(x, y) == background <==> labels.at(x, y) == 0) by {
        assert(labels.at(x, y) == prov_at(st.out, w, x, y));
    }
    assert forall|x1: int, y1: int, x2: int, y2: int|
        image.has(x1, y1) && image.has(x2, y2) && image.at(x1, y1) != background && image.at(
            x2,
            y2,
        ) != background implies (#[trigger] labels.at(x1, y1) == #[trigger] labels.at(x2, y2)
        <==> connected(image, conn, (x1, y1), (x2, y2))) by {
        let la = prov_at(prov, w, x1, y1);
        let lb = prov_at(prov, w, x2, y2);
        let ra = class_of(prov, roots, w, x1, y1);
        let rb = class_of(prov, roots, w, x2, y2);
        assert(1 <= la <= w * h && 1 <= lb <= w * h);
        assert(0 <= ra < w * h && 0 <= rb < w * h);
        assert(labels.at(x1, y1) == prov_at(st.out, w, x1, y1));
        assert(labels.at(x2, y2) == prov_at(st.out, w, x2, y2));
        assert(prov_at(st.out, w, x1, y1) == st.table[ra]);
        assert(prov_at(st.out, w, x2, y2) == st.table[rb]);
        assert((ra == rb) <==> connected(image, conn, (x1, y1), (x2, y2)));
        if st.table[ra] == st.table[rb] {
            assert(st.table[ra] != 0);
            assert(ra == rb);
        }
    }
    assert forall|k: int| 1 <= k < count implies #[trigger] label_in_use(labels, k) by {
        let f = st.first[k];
        assert(image.has(f.0, f.1));
        assert(labels.has(f.0, f.1) && labels.at(f.0, f.1) == k);
    }
    assert forall|x: int, y: int, k: int|
        image.has(x, y) && 1 <= k < labels.at(x, y) implies #[trigger] label_seen_before(
        labels,
        k,
        x,
        y,
    ) by {
        let f = st.first[k];
        assert(labels.at(x, y) == prov_at(st.out, w, x, y));
        assert(image.has(f.0, f.1));
        assert(prov_at(st.out, w, f.0, f.1) == k);
        if !raster_before(f.0, f.1, x, y) {
            if !(f.0 == x && f.1 == y) {
                assert(raster_before(x, y, f.0, f.1));
                assert(prov_at(st.out, w, x, y) < k);
            }
        }
        assert(labels.has(f.0, f.1) && raster_before(f.0, f.1, x, y) && labels.at(f.0, f.1) == k);
    }
    assert(labels.wf());
    assert(labels_of(image, conn, background, labels, count));
    assert forall|k: int| 1 <= k < count implies component_stats(
        labels,
        k,
        #[trigger] stats.left@[k] as int,
        stats.top@[k] as int,
        stats.right@[k] as int,
        stats.bottom@[k] as int,
        stats.area@[k] as int,
    ) by {
        assert(entry_ok(image, st, k, 0, h, w * h));
        assert forall|x: int, y: int|
            labels.has(x, y) && #[trigger] labels.at(x, y) == k implies st.left[k] <= x
            <= st.right[k] && st.top[k] <= y <= st.bottom[k] by {
            assert(prov_at(st.out, w, x, y) == k);
        }
        assert(labels.has(st.left[k] as int, st.on_left[k]) && labels.at(
            st.left[k] as int,
            st.on_left[k],
        ) == k);
        assert(labels.has(st.right[k] as int, st.on_right[k]) && labels.at(
            st.right[k] as int,
            st.on_right[k],
        ) == k);
        assert(labels.has(st.on_top[k], st.top[k] as int) && labels.at(
            st.on_top[k],
            st.top[k] as int,
        ) == k);
        assert(labels.has(st.on_bottom[k], st.bottom[k] as int) && labels.at(
            st.on_bottom[k],
            st.bottom[k] as int,
        ) == k);
    }
}

/// Reads the image a second time, row by row. The first cell of every tree
/// of provisional labels gets the next free final label; every foreground
/// cell takes the final label of its tree and is counted in that label's box
/// and area.
pub(crate) fn relabel(
    image: &GrayGrid,
    Ghost(conn): Ghost<Connectivity>,
    background: u8,
    prov: Vec<u32>,
    forest: &mut DisjointSetForest,
) -> (result: ConnectedComponentsResult)
    requires
        image.wf(),
        image.width > 0,
        image.height > 0,
        image.width * image.height < 0x1_0000_0000,
        provisional_ok(*image, conn, background, prov@, forest_roots(*old(forest))),
    ensures
        labels_of(*image, conn, background, result.labels, result.num_labels as int),
        stats_of(result.labels, result.stats, result.num_labels as int),
{
    let w: usize = image.width as usize;
    let h: usize = image.height as usize;
    let n: usize = image.pixels.len();
    let ghost prov0 = prov@;
    let ghost roots = forest_roots(*forest);
    let mut out = prov;
    let mut table: Vec<u32> = vec![0u32; n];
    let mut left: Vec<u32> = Vec::new();
    let mut top: Vec<u32> = Vec::new();
    let mut right: Vec<u32> = Vec::new();
    let mut bottom: Vec<u32> = Vec::new();
    let mut area: Vec<u32> = Vec::new();
    left.push(u32::MAX);
    top.push(u32::MAX);
    right.push(0);
    bottom.push(0);
    area.push(0);
    let ghost mut st = Pass {
        out: out@,
        table: table@,
        first: seq![(0int, 0int)],
        left: left@,
        top: top@,
        right: right@,
        bottom: bottom@,
        area: area@,
        on_left: seq![0int],
        on_top: seq![0int],
        on_right: seq![0int],
        on_bottom: seq![0int],
    };
    let mut x: usize = 0;
    let mut y: usize = 0;
    let mut idx: usize = 0;
    proof {
        assert(cells_relabelled(*image, background, prov0, roots, st, 0, 0));
        assert(table_ok(*image, prov0, roots, st));
        assert(firsts_ok(*image, background, st, 0, 0));
        assert(entries_ok(*image, st, 0, 0, 0));
    }
    while y < h
        invariant
            image.wf(),
            w == image.width,
            h == image.height,
            n == w * h,
            n == image.pixels@.len(),
            n < 0x1_0000_0000,
            w > 0,
            y <= h,
            x < w,
            y == h ==> x == 0,
            idx == y * w + x,
            forest_roots(*forest) == roots,
            st.out == out@,
            st.table == table@,
            st.left == left@,
            st.top == top@,
            st.right == right@,
            st.bottom == bottom@,
            st.area == area@,
            relabel_inv(
                *image,
                conn,
                background,
                prov0,
                roots,
                st,
                x as int,
                y as int,
                idx as int,
            ),
        decreases n - idx,
    {
        proof {
            lemma_cell_index_bounds(w as int, h as int, x as int, y as int);
        }
        let current = image.pixels[idx];
        if current == background {
            proof {
                lemma_step_background(
                    *image,
                    conn,
                    background,
                    prov0,
                    roots,
                    st,
                    x as int,
                    y as int,
                    idx as int,
                );
            }
        } else {
            let label: u32 = out[idx];
            proof {
                assert(label as int == prov_at(st.out, w as int, x as int, y as int));
                assert(label as int == prov_at(prov0, w as int, x as int, y as int));
                assert(1 <= label <= n);
            }
            let root: usize = forest.root((label - 1) as usize);
            proof {
                assert(root as int == class_of(prov0, roots, w as int, x as int, y as int));
                assert(0 <= root < n);
            }
            let known: u32 = table[root];
            if known == 0 {
                let fresh: u32 = left.len() as u32;
                proof {
                    lemma_step_opened(
                        *image,
                        conn,
                        background,
                        prov0,
                        roots,
                        st,
                        x as int,
                        y as int,
                        idx as int,
                    );
                    st = opened(st, idx as int, root as int, x as int, y as int);
                }
                table.set(root, fresh);
                left.push(x as u32);
                top.push(y as u32);
                right.push(x as u32);
                bottom.push(y as u32);
                area.push(1);
                out.set(idx, fresh);
            } else {
                let k: usize = known as usize;
                proof {
                    assert(entry_ok(*image, st, k as int, x as int, y as int, idx as int));
                    lemma_count_bounds(st.out, k as int, idx as int);
                    lemma_step_extended(
                        *image,
                        conn,
                        background,
                        prov0,
                        roots,
                        st,
                        x as int,
                        y as int,
                        idx as int,
                    );
                    st = extended(st, idx as int, k as int, x as int, y as int);
                }
                if (x as u32) < left[k] {
                    left.set(k, x as u32);
                }
                if (y as u32) < top[k] {
                    top.set(k, y as u32);
                }
                if (x as u32) > right[k] {
                    right.set(k, x as u32);
                }
                if (y as u32) > bottom[k] {
                    bottom.set(k, y as u32);
                }
                let grown: u32 = area[k] + 1;
                area.set(k, grown);
                out.set(idx, known);
            }
        }
        proof {
            assert((y + 1) * w + 0 == y * w + (w - 1) + 1) by (nonlinear_arith);
        }
        idx = idx + 1;
        x = x + 1;
        if x == w {
            x = 0;
            y = y + 1;
        }
    }
    let num_labels: usize = left.len();
    let labels = LabelGrid { width: image.width, height: image.height, labels: out };
    let stats = Stats { left, top, right, bottom, area };
    proof {
        assert(h * w == w * h) by (nonlinear_arith);
        lemma_relabel_done(*image, conn, background, prov0, roots, st, labels, stats);
    }
    ConnectedComponentsResult { stats, num_labels, labels }
}

} // verus!
