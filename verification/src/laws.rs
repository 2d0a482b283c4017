//! Laws of the labelling: an image has exactly one.

use crate::connectivity::{connected, is_path, Connectivity};
use crate::grid::{
    cell_index, lemma_cell_index_bounds, lemma_cell_of_index, lemma_index_order, raster_before,
    GrayGrid, LabelGrid,
};
use crate::labeling::{
    component_stats, label_in_use, label_seen_before, labelling_of, labels_of, stats_of,
    ConnectedComponentsResult, Stats,
};
use vstd::prelude::*;

verus! {

/// Two images of one size with the same cells.
pub open spec fn same_image(a: GrayGrid, b: GrayGrid) -> bool {
    a.width == b.width && a.height == b.height && a.pixels@ == b.pixels@
}

/// Two label grids of one size with the same labels.
pub open spec fn same_labels(a: LabelGrid, b: LabelGrid) -> bool {
    a.width == b.width && a.height == b.height && a.labels@ == b.labels@
}

/// Two sets of statistics with the same entries.
pub open spec fn same_stats(a: Stats, b: Stats) -> bool {
    &&& a.left@ == b.left@
    &&& a.top@ == b.top@
    &&& a.right@ == b.right@
    &&& a.bottom@ == b.bottom@
    &&& a.area@ == b.area@
}

/// Whether two cells are connected depends on the cells of the image only.
pub proof fn lemma_connected_same_image(
    a: GrayGrid,
    b: GrayGrid,
    conn: Connectivity,
    p: (int, int),
    q: (int, int),
)
    requires
        same_image(a, b),
        connected(a, conn, p, q),
    ensures
        connected(b, conn, p, q),
{
    let path = choose|path: Seq<(int, int)>|
        #[trigger] is_path(a, conn, path) && path[0] == p && path[path.len() - 1] == q;
    assert forall|i: int| 0 <= i < path.len() implies b.has((#[trigger] path[i]).0, path[i].1)
        && b.at(path[i].0, path[i].1) == b.at(path[0].0, path[0].1) by {
        assert(a.has(path[i].0, path[i].1));
        assert(a.at(path[i].0, path[i].1) == a.at(path[0].0, path[0].1));
    }
    assert(is_path(b, conn, path));
}

/// Two labellings of one image give every cell the same label.
pub proof fn lemma_label_unique(
    a: GrayGrid,
    b: GrayGrid,
    conn: Connectivity,
    background: u8,
    la: LabelGrid,
    na: int,
    lb: LabelGrid,
    nb: int,
    x: int,
    y: int,
)
    requires
        same_image(a, b),
        labels_of(a, conn, background, la, na),
        labels_of(b, conn, background, lb, nb),
        a.has(x, y),
    ensures
        la.at(x, y) == lb.at(x, y),
    decreases cell_index(a.width as int, x, y),
{
    let w = a.width as int;
    let h = a.height as int;
    lemma_cell_index_bounds(w, h, x, y);
    let ka = la.at(x, y);
    let kb = lb.at(x, y);
    assert(b.has(x, y));
    assert(a.at(x, y) == b.at(x, y));
    if ka < kb {
        // The label that `la` gives the cell was seen earlier in `lb`.
        assert(label_seen_before(lb, ka as int, x, y));
        let (x2, y2) = choose|x2: int, y2: int|
            lb.has(x2, y2) && raster_before(x2, y2, x, y) && #[trigger] lb.at(x2, y2) == ka;
        lemma_index_order(w, x2, y2, x, y);
        lemma_cell_index_bounds(w, h, x2, y2);
        lemma_label_unique(a, b, conn, background, la, na, lb, nb, x2, y2);
        assert(a.has(x2, y2) && b.has(x2, y2));
        assert(la.at(x2, y2) == la.at(x, y));
        assert(connected(a, conn, (x2, y2), (x, y)));
        lemma_connected_same_image(a, b, conn, (x2, y2), (x, y));
        assert(lb.at(x2, y2) == lb.at(x, y));
    } else if kb < ka {
        assert(label_seen_before(la, kb as int, x, y));
        let (x2, y2) = choose|x2: int, y2: int|
            la.has(x2, y2) && raster_before(x2, y2, x, y) && #[trigger] la.at(x2, y2) == kb;
        lemma_index_order(w, x2, y2, x, y);
        lemma_cell_index_bounds(w, h, x2, y2);
        lemma_label_unique(a, b, conn, background, la, na, lb, nb, x2, y2);
        assert(a.has(x2, y2) && b.has(x2, y2));
        assert(lb.at(x2, y2) == lb.at(x, y));
        assert(connected(b, conn, (x2, y2), (x, y)));
        lemma_connected_same_image(b, a, conn, (x2, y2), (x, y));
        assert(la.at(x2, y2) == la.at(x, y));
    }
}

/// An image has one label grid: two that both meet [`labels_of`] hold the
/// same labels and count the same number of them.
pub proof fn lemma_labels_unique(
    a: GrayGrid,
    b: GrayGrid,
    conn: Connectivity,
    background: u8,
    la: LabelGrid,
    na: int,
    lb: LabelGrid,
    nb: int,
)
    requires
        same_image(a, b),
        labels_of(a, conn, background, la, na),
        labels_of(b, conn, background, lb, nb),
    ensures
        same_labels(la, lb),
        na == nb,
{
    let w = a.width as int;
    let h = a.height as int;
    assert forall|i: int| 0 <= i < la.labels@.len() implies la.labels@[i] == lb.labels@[i] by {
        assert(w > 0) by {
            if w <= 0 {
                assert(w * h == 0) by (nonlinear_arith)
                    requires
                        w == 0,
                ;
            }
        }
        lemma_cell_of_index(w, h, i);
        lemma_label_unique(a, b, conn, background, la, na, lb, nb, i % w, i / w);
    }
    assert(la.labels@ =~= lb.labels@);
    if na < nb {
        assert(label_in_use(lb, na));
        let (x, y) = choose|x: int, y: int| lb.has(x, y) && #[trigger] lb.at(x, y) == na;
        lemma_label_unique(a, b, conn, background, la, na, lb, nb, x, y);
        assert(la.at(x, y) < na);
    }
    if nb < na {
        assert(label_in_use(la, nb));
        let (x, y) = choose|x: int, y: int| la.has(x, y) && #[trigger] la.at(x, y) == nb;
        lemma_label_unique(a, b, conn, background, la, na, lb, nb, x, y);
        assert(lb.at(x, y) < nb);
    }
}

/// A label grid has one set of statistics.
pub proof fn lemma_stats_unique(la: LabelGrid, lb: LabelGrid, sa: Stats, sb: Stats, n: int)
    requires
        same_labels(la, lb),
        stats_of(la, sa, n),
        stats_of(lb, sb, n),
    ensures
        same_stats(sa, sb),
{
    assert forall|x: int, y: int| la.has(x, y) implies #[trigger] la.at(x, y) == lb.at(x, y) by {}
    assert forall|k: int| 0 <= k < n implies sa.left@[k] == sb.left@[k] && sa.top@[k]
        == sb.top@[k] && sa.right@[k] == sb.right@[k] && sa.bottom@[k] == sb.bottom@[k]
        && sa.area@[k] == sb.area@[k] by {
        if k >= 1 {
            assert(component_stats(
                la,
                k,
                sa.left@[k] as int,
                sa.top@[k] as int,
                sa.right@[k] as int,
                sa.bottom@[k] as int,
                sa.area@[k] as int,
            ));
            assert(component_stats(
                lb,
                k,
                sb.left@[k] as int,
                sb.top@[k] as int,
                sb.right@[k] as int,
                sb.bottom@[k] as int,
                sb.area@[k] as int,
            ));
            let ya = choose|y: int|
                la.has(sa.left@[k] as int, y) && #[trigger] la.at(sa.left@[k] as int, y) == k;
            assert(lb.has(sa.left@[k] as int, ya) && lb.at(sa.left@[k] as int, ya) == k);
            let yb = choose|y: int|
                lb.has(sb.left@[k] as int, y) && #[trigger] lb.at(sb.left@[k] as int, y) == k;
            assert(la.has(sb.left@[k] as int, yb) && la.at(sb.left@[k] as int, yb) == k);
            let ya = choose|y: int|
                la.has(sa.right@[k] as int, y) && #[trigger] la.at(sa.right@[k] as int, y) == k;
            assert(lb.has(sa.right@[k] as int, ya) && lb.at(sa.right@[k] as int, ya) == k);
            let yb = choose|y: int|
                lb.has(sb.right@[k] as int, y) && #[trigger] lb.at(sb.right@[k] as int, y) == k;
            assert(la.has(sb.right@[k] as int, yb) && la.at(sb.right@[k] as int, yb) == k);
            let xa = choose|x: int|
                la.has(x, sa.top@[k] as int) && #[trigger] la.at(x, sa.top@[k] as int) == k;
            assert(lb.has(xa, sa.top@[k] as int) && lb.at(xa, sa.top@[k] as int) == k);
            let xb = choose|x: int|
                lb.has(x, sb.top@[k] as int) && #[trigger] lb.at(x, sb.top@[k] as int) == k;
            assert(la.has(xb, sb.top@[k] as int) && la.at(xb, sb.top@[k] as int) == k);
            let xa = choose|x: int|
                la.has(x, sa.bottom@[k] as int) && #[trigger] la.at(x, sa.bottom@[k] as int)
                    == k;
            assert(lb.has(xa, sa.bottom@[k] as int) && lb.at(xa, sa.bottom@[k] as int) == k);
            let xb = choose|x: int|
                lb.has(x, sb.bottom@[k] as int) && #[trigger] lb.at(x, sb.bottom@[k] as int)
                    == k;
            assert(la.has(xb, sb.bottom@[k] as int) && la.at(xb, sb.bottom@[k] as int) == k);
        }
    }
    assert(sa.left@ =~= sb.left@);
    assert(sa.top@ =~= sb.top@);
    assert(sa.right@ =~= sb.right@);
    assert(sa.bottom@ =~= sb.bottom@);
    assert(sa.area@ =~= sb.area@);
}

/// Labelling is a function of the image: two results that both meet
/// [`labelling_of`] for images with the same cells hold the same labels, the
/// same number of labels and the same statistics.
pub proof fn lemma_labelling_unique(
    a: GrayGrid,
    b: GrayGrid,
    conn: Connectivity,
    background: u8,
    ra: ConnectedComponentsResult,
    rb: ConnectedComponentsResult,
)
    requires
        same_image(a, b),
        labelling_of(a, conn, background, ra),
        labelling_of(b, conn, background, rb),
    ensures
        same_labels(ra.labels, rb.labels),
        ra.num_labels == rb.num_labels,
        same_stats(ra.stats, rb.stats),
{
    if a.width == 0 || a.height == 0 {
        assert(ra.labels.labels@ =~= rb.labels.labels@);
        assert(ra.stats.left@ =~= rb.stats.left@);
        assert(ra.stats.top@ =~= rb.stats.top@);
        assert(ra.stats.right@ =~= rb.stats.right@);
        assert(ra.stats.bottom@ =~= rb.stats.bottom@);
        assert(ra.stats.area@ =~= rb.stats.area@);
    } else {
        lemma_labels_unique(
            a,
            b,
            conn,
            background,
            ra.labels,
            ra.num_labels as int,
            rb.labels,
            rb.num_labels as int,
        );
        lemma_stats_unique(ra.labels, rb.labels, ra.stats, rb.stats, ra.num_labels as int);
    }
}

} // verus!
