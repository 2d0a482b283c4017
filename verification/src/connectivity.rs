//! What it means for two cells of an image to be connected.

use crate::grid::GrayGrid;
use vstd::prelude::*;

verus! {

/// Which cells count as neighbours of a cell.
#[derive(Clone, Copy, Debug, PartialEq, Eq, Structural)]
pub enum Connectivity {
    /// The cells to the west, north, east and south.
    Four,
    /// The four direct neighbours and the four diagonal ones.
    Eight,
}

/// Whether `a` and `b` are neighbours under `conn`.
pub open spec fn neighbours(conn: Connectivity, a: (int, int), b: (int, int)) -> bool {
    let dx = b.0 - a.0;
    let dy = b.1 - a.1;
    match conn {
        Connectivity::Four => (dy == 0 && (dx == 1 || dx == -1)) || (dx == 0 && (dy == 1 || dy
            == -1)),
        Connectivity::Eight => -1 <= dx <= 1 && -1 <= dy <= 1 && !(dx == 0 && dy == 0),
    }
}

/// A walk through cells of one value: every cell lies in the image and holds
/// the value of the first, and each step goes to a neighbour.
pub open spec fn is_path(image: GrayGrid, conn: Connectivity, path: Seq<(int, int)>) -> bool {
    &&& path.len() > 0
    &&& forall|i: int|
        0 <= i < path.len() ==> image.has((#[trigger] path[i]).0, path[i].1) && image.at(
            path[i].0,
            path[i].1,
        ) == image.at(path[0].0, path[0].1)
    &&& forall|i: int| 0 <= i < path.len() - 1 ==> neighbours(conn, #[trigger] path[i], path[i + 1])
}

/// Whether a walk through cells of one value leads from `a` to `b`.
pub open spec fn connected(image: GrayGrid, conn: Connectivity, a: (int, int), b: (int, int)) -> bool {
    exists|path: Seq<(int, int)>|
        #[trigger] is_path(image, conn, path) && path[0] == a && path[path.len() - 1] == b
}

/// Every cell of the image is connected to itself.
pub proof fn lemma_connected_refl(image: GrayGrid, conn: Connectivity, a: (int, int))
    requires
        image.has(a.0, a.1),
    ensures
        connected(image, conn, a, a),
{
    let path = seq![a];
    assert(is_path(image, conn, path));
    assert(path[0] == a && path[path.len() - 1] == a);
}

/// Neighbouring cells of one value are connected.
pub proof fn lemma_connected_step(
    image: GrayGrid,
    conn: Connectivity,
    a: (int, int),
    b: (int, int),
)
    requires
        image.has(a.0, a.1),
        image.has(b.0, b.1),
        image.at(a.0, a.1) == image.at(b.0, b.1),
        neighbours(conn, a, b),
    ensures
        connected(image, conn, a, b),
{
    let path = seq![a, b];
    assert(is_path(image, conn, path));
    assert(path[0] == a && path[path.len() - 1] == b);
}

/// Being neighbours is symmetric.
pub proof fn lemma_neighbours_sym(conn: Connectivity, a: (int, int), b: (int, int))
    requires
        neighbours(conn, a, b),
    ensures
        neighbours(conn, b, a),
{
}

/// Connection is symmetric.
pub proof fn lemma_connected_sym(
    image: GrayGrid,
    conn: Connectivity,
    a: (int, int),
    b: (int, int),
)
    requires
        connected(image, conn, a, b),
    ensures
        connected(image, conn, b, a),
{
    let path = choose|path: Seq<(int, int)>|
        #[trigger] is_path(image, conn, path) && path[0] == a && path[path.len() - 1] == b;
    let n = path.len() as int;
    let back = Seq::new(path.len(), |i: int| path[n - 1 - i]);
    assert(image.has(path[n - 1].0, path[n - 1].1));
    assert forall|i: int| 0 <= i < back.len() implies image.has((#[trigger] back[i]).0, back[i].1)
        && image.at(back[i].0, back[i].1) == image.at(back[0].0, back[0].1) by {
        assert(back[i] == path[n - 1 - i]);
    }
    assert forall|i: int| 0 <= i < back.len() - 1 implies neighbours(
        conn,
        #[trigger] back[i],
        back[i + 1],
    ) by {
        let j = n - 2 - i;
        assert(neighbours(conn, path[j], path[j + 1]));
        lemma_neighbours_sym(conn, path[j], path[j + 1]);
    }
    assert(is_path(image, conn, back));
    assert(back[0] == b && back[back.len() - 1] == a);
}

/// Connection is transitive.
pub proof fn lemma_connected_trans(
    image: GrayGrid,
    conn: Connectivity,
    a: (int, int),
    b: (int, int),
    c: (int, int),
)
    requires
        connected(image, conn, a, b),
        connected(image, conn, b, c),
    ensures
        connected(image, conn, a, c),
{
    let p = choose|path: Seq<(int, int)>|
        #[trigger] is_path(image, conn, path) && path[0] == a && path[path.len() - 1] == b;
    let q = choose|path: Seq<(int, int)>|
        #[trigger] is_path(image, conn, path) && path[0] == b && path[path.len() - 1] == c;
    let n = p.len() as int;
    // The walks meet in `b`, which is kept once.
    let joined = p + q.subrange(1, q.len() as int);
    assert(image.has(p[n - 1].0, p[n - 1].1));
    assert(image.has(q[0].0, q[0].1));
    assert forall|i: int| 0 <= i < joined.len() implies image.has(
        (#[trigger] joined[i]).0,
        joined[i].1,
    ) && image.at(joined[i].0, joined[i].1) == image.at(joined[0].0, joined[0].1) by {
        if i < n {
            assert(joined[i] == p[i]);
        } else {
            assert(joined[i] == q[i - n + 1]);
        }
    }
    assert forall|i: int| 0 <= i < joined.len() - 1 implies neighbours(
        conn,
        #[trigger] joined[i],
        joined[i + 1],
    ) by {
        if i < n - 1 {
            assert(neighbours(conn, p[i], p[i + 1]));
        } else {
            assert(joined[i] == q[i - n + 1]);
            assert(joined[i + 1] == q[i - n + 2]);
            assert(neighbours(conn, q[i - n + 1], q[i - n + 2]));
        }
    }
    assert(is_path(image, conn, joined));
    assert(joined[0] == a);
    if q.len() > 1 {
        assert(joined[joined.len() - 1] == q[q.len() - 1]);
    }
}

} // verus!
