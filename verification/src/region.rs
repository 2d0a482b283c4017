//! Which components are kept, and the mask of a kept component.

use crate::grid::{GrayGrid, LabelGrid};
use crate::threshold::ScoreGrid;
use vstd::prelude::*;

verus! {

/// The smallest area of a component that is kept.
pub const MIN_REGION_AREA: u32 = 10;

/// Some cell with the label `label` has a score of at least `cutoff`: the
/// highest score of the component reaches the cutoff.
pub open spec fn peak_reaches(labels: Seq<u32>, scores: Seq<u32>, label: u32, cutoff: u32) -> bool {
    exists|i: int| 0 <= i < labels.len() && #[trigger] labels[i] == label && scores[i] >= cutoff
}

/// A component is kept when it has at least `min_area` cells and its highest
/// score reaches `cutoff`.
pub open spec fn survives(
    labels: Seq<u32>,
    scores: Seq<u32>,
    area: u32,
    label: u32,
    cutoff: u32,
    min_area: u32,
) -> bool {
    area >= min_area && peak_reaches(labels, scores, label, cutoff)
}

/// `peak` is the highest score among the cells that hold `label`, or nothing
/// when no cell holds it.
pub open spec fn is_peak(labels: Seq<u32>, scores: Seq<u32>, label: u32, peak: Option<u32>) -> bool {
    match peak {
        None => forall|i: int| 0 <= i < labels.len() ==> #[trigger] labels[i] != label,
        Some(m) => {
            &&& forall|i: int|
                0 <= i < labels.len() && #[trigger] labels[i] == label ==> scores[i] <= m
            &&& exists|i: int|
                0 <= i < labels.len() && #[trigger] labels[i] == label && scores[i] == m
        },
    }
}

/// Finds the highest score among the cells of one component.
pub fn peak_score(labels: &LabelGrid, scores: &ScoreGrid, label: u32) -> (peak: Option<u32>)
    requires
        labels.wf(),
        scores.wf(),
        labels.width == scores.width,
        labels.height == scores.height,
    ensures
        is_peak(labels.labels@, scores.scores@, label, peak),
{
    let n = labels.labels.len();
    let mut peak: Option<u32> = None;
    let mut i: usize = 0;
    while i < n
        invariant
            n == labels.labels@.len(),
            n == scores.scores@.len(),
            i <= n,
            is_peak(labels.labels@.take(i as int), scores.scores@, label, peak),
        decreases n - i,
    {
        let ghost before = labels.labels@.take(i as int);
        let ghost after = labels.labels@.take(i + 1);
        proof {
            assert forall|j: int| 0 <= j < i implies after[j] == before[j] by {}
            assert(after[i as int] == labels.labels@[i as int]);
        }
        if labels.labels[i] == label {
            let score = scores.scores[i];
            match peak {
                None => {
                    peak = Some(score);
                    proof {
                        assert(after[i as int] == label && scores.scores@[i as int] == score);
                        assert forall|j: int|
                            0 <= j < after.len() && #[trigger] after[j] == label implies scores.scores@[j]
                            <= score by {
                            if j < i {
                                assert(before[j] == label);
                            }
                        }
                    }
                },
                Some(m) => {
                    if score > m {
                        peak = Some(score);
                        proof {
                            assert(after[i as int] == label && scores.scores@[i as int] == score);
                            assert forall|j: int|
                                0 <= j < after.len() && #[trigger] after[j]
                                    == label implies scores.scores@[j] <= score by {
                                if j < i {
                                    assert(before[j] == label);
                                }
                            }
                        }
                    } else {
                        proof {
                            let at = choose|j: int|
                                0 <= j < before.len() && #[trigger] before[j] == label
                                    && scores.scores@[j] == m;
                            assert(after[at] == label && scores.scores@[at] == m);
                            assert forall|j: int|
                                0 <= j < after.len() && #[trigger] after[j]
                                    == label implies scores.scores@[j] <= m by {
                                if j < i {
                                    assert(before[j] == label);
                                }
                            }
                        }
                    }
                },
            }
        } else {
            proof {
                match peak {
                    None => {
                        assert forall|j: int| 0 <= j < after.len() implies #[trigger] after[j]
                            != label by {
                            if j < i {
                                assert(before[j] != label);
                            }
                        }
                    },
                    Some(m) => {
                        let at = choose|j: int|
                            0 <= j < before.len() && #[trigger] before[j] == label
                                && scores.scores@[j] == m;
                        assert(after[at] == label && scores.scores@[at] == m);
                        assert forall|j: int|
                            0 <= j < after.len() && #[trigger] after[j]
                                == label implies scores.scores@[j] <= m by {
                            if j < i {
                                assert(before[j] == label);
                            }
                        }
                    },
                }
            }
        }
        i = i + 1;
    }
    assert(labels.labels@.take(n as int) =~= labels.labels@);
    peak
}

/// Whether a component of `area` cells with the highest score `peak` is kept.
pub fn is_kept(area: u32, peak: Option<u32>, cutoff: u32) -> (kept: bool)
    ensures
        kept <==> area >= MIN_REGION_AREA && peak is Some && peak->Some_0 >= cutoff,
{
    if area < MIN_REGION_AREA {
        return false;
    }
    match peak {
        None => false,
        Some(m) => m >= cutoff,
    }
}

/// The highest score of a component reaches a cutoff exactly when some cell
/// of the component does.
pub proof fn lemma_peak_decides(
    labels: Seq<u32>,
    scores: Seq<u32>,
    label: u32,
    peak: Option<u32>,
    cutoff: u32,
)
    requires
        is_peak(labels, scores, label, peak),
    ensures
        peak_reaches(labels, scores, label, cutoff) <==> (peak is Some && peak->Some_0 >= cutoff),
{
    match peak {
        None => {},
        Some(m) => {
            let at = choose|i: int| 0 <= i < labels.len() && #[trigger] labels[i] == label && scores[i] == m;
            if m >= cutoff {
                assert(labels[at] == label && scores[at] >= cutoff);
            }
        },
    }
}

/// A cell that the link mask sets and the text mask does not.
pub open spec fn link_only(text_bit: u8, link_bit: u8) -> bool {
    text_bit == 0 && link_bit == 1
}

/// The value of one cell of a component's mask: 255 when the cell holds the
/// component's label and is not link-only, else 0.
pub open spec fn seg_value(cell: u32, group: u32, text_bit: u8, link_bit: u8) -> u8 {
    if cell == group && !link_only(text_bit, link_bit) {
        255
    } else {
        0
    }
}

/// The mask of the component `group`, cell by cell.
pub open spec fn seg_mask(labels: Seq<u32>, group: u32, text: Seq<u8>, link: Seq<u8>) -> Seq<u8> {
    Seq::new(labels.len(), |i: int| seg_value(labels[i], group, text[i], link[i]))
}

/// Builds the mask of one component. A cell is set when it holds the label
/// `group`, unless the link mask sets it and the text mask does not: such a
/// cell only bridges two pieces of text and is left out of the shape.
pub fn seg_map(
    labels: &LabelGrid,
    group: u32,
    text_score: &GrayGrid,
    link_score: &GrayGrid,
) -> (out: GrayGrid)
    requires
        labels.wf(),
        text_score.wf(),
        link_score.wf(),
        labels.width == text_score.width,
        labels.height == text_score.height,
        labels.width == link_score.width,
        labels.height == link_score.height,
    ensures
        out.width == labels.width,
        out.height == labels.height,
        out.wf(),
        out.pixels@ == seg_mask(labels.labels@, group, text_score.pixels@, link_score.pixels@),
        forall|i: int|
            0 <= i < out.pixels@.len() && link_only(text_score.pixels@[i], link_score.pixels@[i])
                ==> #[trigger] out.pixels@[i] == 0,
{
    let n = labels.labels.len();
    let mut pixels: Vec<u8> = Vec::with_capacity(n);
    let mut i: usize = 0;
    while i < n
        invariant
            n == labels.labels@.len(),
            n == text_score.pixels@.len(),
            n == link_score.pixels@.len(),
            i <= n,
            pixels@.len() == i,
            forall|j: int|
                0 <= j < i ==> pixels@[j] == seg_value(
                    labels.labels@[j],
                    group,
                    text_score.pixels@[j],
                    link_score.pixels@[j],
                ),
        decreases n - i,
    {
        let bridge = text_score.pixels[i] == 0 && link_score.pixels[i] == 1;
        let value: u8 = if labels.labels[i] == group && !bridge {
            255
        } else {
            0
        };
        pixels.push(value);
        i = i + 1;
    }
    assert(pixels@ =~= seg_mask(
        labels.labels@,
        group,
        text_score.pixels@,
        link_score.pixels@,
    ));
    GrayGrid { width: labels.width, height: labels.height, pixels }
}

} // verus!
