//! From the raw output of the network to the final detections.

use vstd::prelude::*;
use crate::decode::{Candidate, decode, RawOutput};
use crate::error::DetectError;
use crate::geometry::Rect;
use crate::label::{CLASS_COUNT, Label};
use crate::remap::{proposal_of, remap_all};
use crate::score::Score;
use crate::suppress::{eligible, is_suppression, Proposal, suppress};

verus! {

/// A detected region: what it shows, how sure the network is of it, and
/// where it lies.
#[derive(Debug, Clone, Copy, PartialEq, Eq, Structural)]
pub struct Detection {
    pub class: Label,
    pub score: Score,
    pub rect: Rect,
}

/// The detection that a proposal stands for: the proposal with the label of
/// its class, or the refusal of a class that has no label.
pub open spec fn detection_of(proposal: Proposal) -> Result<Detection, DetectError> {
    match Label::lookup(proposal.class_id) {
        Ok(class) => Ok(Detection { class, score: proposal.score, rect: proposal.rect }),
        Err(e) => Err(e),
    }
}

/// The detections of the first `n` of the proposals that `kept` selects, in
/// that order; or the refusal of the first of them whose class has no
/// label.
pub open spec fn labelled(proposals: Seq<Proposal>, kept: Seq<usize>, n: nat) -> Result<
    Seq<Detection>,
    DetectError,
>
    decreases n,
{
    if n == 0 {
        Ok(Seq::empty())
    } else {
        match labelled(proposals, kept, (n - 1) as nat) {
            Err(e) => Err(e),
            Ok(list) => match detection_of(proposals[kept[n - 1] as int]) {
                Ok(detection) => Ok(list.push(detection)),
                Err(e) => Err(e),
            },
        }
    }
}

/// Whether `result` is what `labelled` gives for all of `kept`.
pub open spec fn is_labelling(
    proposals: Seq<Proposal>,
    kept: Seq<usize>,
    result: Result<Vec<Detection>, DetectError>,
) -> bool {
    match result {
        Ok(list) => labelled(proposals, kept, kept.len()) == Ok::<Seq<Detection>, DetectError>(
            list@,
        ),
        Err(e) => labelled(proposals, kept, kept.len()) == Err::<Seq<Detection>, DetectError>(e),
    }
}

/// `labelled` succeeds exactly when each of the `n` classes has a label.
/// It then gives one detection for each selected proposal, with the
/// proposal's score and rectangle.  It fails with the class index of the
/// first selected proposal whose class has none.
pub proof fn lemma_labelled(proposals: Seq<Proposal>, kept: Seq<usize>, n: nat)
    ensures
        labelled(proposals, kept, n).is_ok() <==> forall|k: int|
            0 <= k < n ==> proposals[#[trigger] kept[k] as int].class_id < CLASS_COUNT,
        labelled(proposals, kept, n) matches Ok(list) ==> list.len() == n && forall|k: int|
            0 <= k < n ==> Ok::<Detection, DetectError>(#[trigger] list[k]) == detection_of(
                proposals[kept[k] as int],
            ),
        labelled(proposals, kept, n) matches Err(e) ==> exists|k: int|
            0 <= k < n && e == DetectError::InvalidClassIndex(
                proposals[#[trigger] kept[k] as int].class_id,
            ) && proposals[kept[k] as int].class_id >= CLASS_COUNT && forall|j: int|
                0 <= j < k ==> proposals[#[trigger] kept[j] as int].class_id < CLASS_COUNT,
    decreases n,
{
    if n > 0 {
        let m = (n - 1) as nat;
        lemma_labelled(proposals, kept, m);
        Label::lemma_table_is_bijection(
            proposals[kept[m as int] as int].class_id as int,
            Label::FaceFemale,
        );
        match labelled(proposals, kept, m) {
            Err(e) => {
                let k = choose|k: int|
                    0 <= k < m && e == DetectError::InvalidClassIndex(
                        proposals[#[trigger] kept[k] as int].class_id,
                    ) && proposals[kept[k] as int].class_id >= CLASS_COUNT && forall|j: int|
                        0 <= j < k ==> proposals[#[trigger] kept[j] as int].class_id < CLASS_COUNT;
                assert(proposals[kept[k] as int].class_id >= CLASS_COUNT);
            },
            Ok(list) => {
                if detection_of(proposals[kept[m as int] as int]).is_err() {
                    assert(proposals[kept[m as int] as int].class_id >= CLASS_COUNT);
                }
            },
        }
    }
}

/// Gives a proposal the label of its class.
pub fn detection(proposal: &Proposal) -> (result: Result<Detection, DetectError>)
    ensures
        result == detection_of(*proposal),
        result.is_ok() <==> proposal.class_id < CLASS_COUNT,
{
    match Label::try_from(proposal.class_id) {
        Ok(class) => Ok(Detection { class, score: proposal.score, rect: proposal.rect }),
        Err(e) => Err(e),
    }
}

/// The detections of the proposals that `kept` selects, in the order of
/// `kept`.  A class index without a label fails the whole call.
pub fn collect(proposals: &Vec<Proposal>, kept: &Vec<usize>) -> (result: Result<
    Vec<Detection>,
    DetectError,
>)
    requires
        forall|k: int| 0 <= k < kept.len() ==> #[trigger] kept[k] < proposals.len(),
    ensures
        is_labelling(proposals@, kept@, result),
        result.is_ok() <==> forall|k: int|
            0 <= k < kept.len() ==> proposals[#[trigger] kept[k] as int].class_id < CLASS_COUNT,
        result matches Ok(list) ==> list.len() == kept.len(),
{
    let mut list: Vec<Detection> = Vec::new();
    let mut k: usize = 0;
    while k < kept.len()
        invariant
            k <= kept.len(),
            forall|j: int| 0 <= j < kept.len() ==> #[trigger] kept[j] < proposals.len(),
            labelled(proposals@, kept@, k as nat) == Ok::<Seq<Detection>, DetectError>(list@),
        decreases kept.len() - k,
    {
        match detection(&proposals[kept[k]]) {
            Ok(found) => {
                list.push(found);
            },
            Err(e) => {
                proof {
                    lemma_labelled(proposals@, kept@, (k + 1) as nat);
                    lemma_labelled(proposals@, kept@, kept.len() as nat);
                    lemma_labelled_failure_stays(proposals@, kept@, (k + 1) as nat, kept.len() as nat);
                }
                return Err(e);
            },
        }
        k += 1;
    }
    proof {
        lemma_labelled(proposals@, kept@, kept.len() as nat);
    }
    Ok(list)
}

/// Once `labelled` has failed it fails in the same way for every longer
/// prefix.
proof fn lemma_labelled_failure_stays(proposals: Seq<Proposal>, kept: Seq<usize>, n: nat, m: nat)
    requires
        n <= m,
        labelled(proposals, kept, n).is_err(),
    ensures
        labelled(proposals, kept, m) == labelled(proposals, kept, n),
    decreases m,
{
    if n < m {
        lemma_labelled_failure_stays(proposals, kept, n, (m - 1) as nat);
    }
}

/// Picks the detections among the scored rectangles of one picture.
///
/// The proposals go through greedy non-maximum suppression.  Each one
/// that is kept becomes a detection with the label of its class, in the
/// order in which suppression visited them: from the highest score down.
/// If a kept proposal names a class without a label, the call fails with
/// that class index and gives no detections at all.  Where no proposal has
/// a score of at least 0.25, the outcome is the empty list.
pub fn select(proposals: &Vec<Proposal>) -> (result: Result<Vec<Detection>, DetectError>)
    ensures
        exists|kept: Seq<usize>| #[trigger]
            is_suppression(proposals@, kept) && is_labelling(proposals@, kept, result),
        (forall|i: int| !#[trigger] eligible(proposals@, i)) ==> (result matches Ok(list)
            && list.len() == 0),
        (forall|i: int| #[trigger]
            eligible(proposals@, i) ==> proposals[i].class_id < CLASS_COUNT) ==> result.is_ok(),
{
    let kept = suppress(proposals);
    assert forall|k: int| 0 <= k < kept.len() implies #[trigger] kept[k] < proposals.len() by {
        assert(eligible(proposals@, kept[k] as int));
    }
    let result = collect(proposals, &kept);
    proof {
        if forall|i: int| !#[trigger] eligible(proposals@, i) {
            if kept.len() > 0 {
                assert(eligible(proposals@, kept[0] as int));
            }
        }
        if forall|i: int| #[trigger]
            eligible(proposals@, i) ==> proposals[i].class_id < CLASS_COUNT {
            assert forall|k: int| 0 <= k < kept.len() implies proposals[#[trigger] kept[k] as int].class_id
                < CLASS_COUNT by {
                assert(eligible(proposals@, kept[k] as int));
            }
        }
    }
    result
}

/// The candidates mapped back onto the picture, in their order.
pub open spec fn proposals_of(
    candidates: Seq<Candidate>,
    resize_factor: u32,
    pad_top: u32,
    pad_left: u32,
) -> Seq<Proposal> {
    Seq::new(
        candidates.len(),
        |i: int| proposal_of(candidates[i], resize_factor, pad_top, pad_left),
    )
}

/// Turns the raw output of the network into the detections of a picture.
///
/// `resize_factor` is the bit pattern of the scale between the picture and
/// its scaled copy, `pad_top` and `pad_left` are the margins of the
/// letterbox.  The output is decoded, every candidate is mapped back onto
/// the picture, and the detections are picked among them by `select`.  An
/// output that cannot be decoded fails the call, as does a kept candidate
/// whose class has no label; either way there are no partial results.
pub fn post_process(raw: &RawOutput, resize_factor: u32, pad_top: u32, pad_left: u32) -> (result:
    Result<Vec<Detection>, DetectError>)
    ensures
        result == Err::<Vec<Detection>, DetectError>(DetectError::Decode) <==> !(raw.well_shaped()
            && !raw.has_nan()),
        raw.well_shaped() && !raw.has_nan() ==> exists|kept: Seq<usize>| #[trigger]
            is_suppression(
                proposals_of(raw.decoded(raw.rows() as nat), resize_factor, pad_top, pad_left),
                kept,
            ) && is_labelling(
                proposals_of(raw.decoded(raw.rows() as nat), resize_factor, pad_top, pad_left),
                kept,
                result,
            ),
        (forall|row: int| 0 <= row < raw.rows() ==> !raw.is_confident(row)) && raw.well_shaped()
            && !raw.has_nan() ==> (result matches Ok(list) && list.len() == 0),
{
    match decode(raw) {
        Err(e) => Err(e),
        Ok(candidates) => {
            let proposals = remap_all(&candidates, resize_factor, pad_top, pad_left);
            assert(proposals@ =~= proposals_of(candidates@, resize_factor, pad_top, pad_left));
            let result = select(&proposals);
            proof {
                lemma_labelling_is_no_decode_failure(proposals@, result);
                if candidates.len() == 0 {
                    assert forall|i: int| !#[trigger] eligible(proposals@, i) by {}
                }
            }
            result
        },
    }
}

/// Labelling never reports that the output cannot be decoded.
proof fn lemma_labelling_is_no_decode_failure(
    proposals: Seq<Proposal>,
    result: Result<Vec<Detection>, DetectError>,
)
    requires
        exists|kept: Seq<usize>| #[trigger]
            is_suppression(proposals, kept) && is_labelling(proposals, kept, result),
    ensures
        result != Err::<Vec<Detection>, DetectError>(DetectError::Decode),
{
    let kept = choose|kept: Seq<usize>| #[trigger]
        is_suppression(proposals, kept) && is_labelling(proposals, kept, result);
    lemma_labelled(proposals, kept, kept.len());
}

} // verus!
