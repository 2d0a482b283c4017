//! The disjoint-set forest that the labeler merges provisional labels in.

use imageproc::union_find::DisjointSetForest;
use vstd::prelude::*;

verus! {

/// `imageproc::union_find::DisjointSetForest`: a partition of the numbers
/// below a count into trees, each with one root.
#[verifier::external_type_specification]
#[verifier::external_body]
pub struct ExDisjointSetForest(DisjointSetForest);

/// The root of each element's tree: entry `i` is the index of the root of the
/// tree that holds element `i`.
pub uninterp spec fn forest_roots(forest: DisjointSetForest) -> Seq<int>;

/// `DisjointSetForest::new`: a forest of `count` singletons, so every element
/// is its own root.
pub assume_specification[ DisjointSetForest::new ](count: usize) -> (forest: DisjointSetForest)
    ensures
        forest_roots(forest) == Seq::new(count as nat, |i: int| i),
;

/// `DisjointSetForest::root`: returns the root of the tree that holds `i`.
/// The call may shorten paths inside the tree but moves no element to
/// another tree. It panics when `i` is no element of the forest.
pub assume_specification[ DisjointSetForest::root ](forest: &mut DisjointSetForest, i: usize) -> (root: usize)
    requires
        i < forest_roots(*old(forest)).len(),
    ensures
        root == forest_roots(*old(forest))[i as int],
        forest_roots(*final(forest)) == forest_roots(*old(forest)),
;

/// `DisjointSetForest::union`: joins the trees that hold `i` and `j`. One of
/// the two old roots (which one depends on the sizes of the trees) becomes
/// the root of every element of both trees; all other elements keep their
/// root. It panics when `i` or `j` is no element of the forest.
pub assume_specification[ DisjointSetForest::union ](forest: &mut DisjointSetForest, i: usize, j: usize)
    requires
        i < forest_roots(*old(forest)).len(),
        j < forest_roots(*old(forest)).len(),
    ensures
        merged_roots(
            forest_roots(*old(forest)),
            forest_roots(*final(forest)),
            i as int,
            j as int,
        ),
;

/// Every element whose root was `ri` or `rj` now has the root `r`; every
/// other element keeps its root.
pub open spec fn merged_into(before: Seq<int>, after: Seq<int>, ri: int, rj: int, r: int) -> bool {
    &&& after.len() == before.len()
    &&& forall|k: int|
        0 <= k < before.len() ==> #[trigger] after[k] == (if before[k] == ri || before[k] == rj {
            r
        } else {
            before[k]
        })
}

/// How `after` arises from `before` when the trees of `i` and `j` are joined:
/// one of the two old roots takes over both trees.
pub open spec fn merged_roots(before: Seq<int>, after: Seq<int>, i: int, j: int) -> bool {
    merged_into(before, after, before[i], before[j], before[i]) || merged_into(
        before,
        after,
        before[i],
        before[j],
        before[j],
    )
}

/// Every entry is an element of the forest and is its own root.
pub open spec fn roots_wf(roots: Seq<int>) -> bool {
    forall|k: int|
        0 <= k < roots.len() ==> 0 <= #[trigger] roots[k] < roots.len() && roots[roots[k]]
            == roots[k]
}

} // verus!
