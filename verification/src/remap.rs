//! Mapping a candidate of the network back onto the picture.
//!
//! The network places its boxes in the square input.  Moving a box back
//! takes away the margins and multiplies by the scale between the picture
//! and its scaled copy.  Every step is an operation on singles, rounded as
//! single-precision arithmetic rounds it, so that the outcome is the same
//! to the last bit.

use vstd::prelude::*;
use crate::decode::Candidate;
use crate::geometry::Rect;
use crate::single::arithmetic::{from_count, multiply, round_to_whole, subtract, truncate};
use crate::single::number::{
    difference,
    nearest_whole,
    Number,
    number_of,
    of_count,
    product,
    truncated,
};
use crate::single::pattern::HALF_BITS;
use crate::suppress::Proposal;

verus! {

/// The corner coordinate of a box on the picture: the centre less half the
/// extent and the margin, rounded to a whole number, times the scale, and
/// then cut to an integer.
pub open spec fn corner(center: Number, extent: Number, margin: u32, scale: Number) -> int {
    truncated(
        product(
            nearest_whole(
                difference(
                    difference(center, product(extent, number_of(HALF_BITS))),
                    of_count(margin),
                ),
            ),
            scale,
        ),
    )
}

/// The extent of a box on the picture: the extent times the scale, rounded
/// to a whole number.
pub open spec fn stretched(extent: Number, scale: Number) -> int {
    truncated(nearest_whole(product(extent, scale)))
}

/// The rectangle of a candidate on the picture, for the scale
/// `resize_factor` and the margins that the letterbox put above and to the
/// left.  Nothing is clamped: the rectangle may leave the picture.
pub open spec fn remapped(
    candidate: Candidate,
    resize_factor: u32,
    pad_top: u32,
    pad_left: u32,
) -> Rect {
    let scale = number_of(resize_factor);
    let width = number_of(candidate.width);
    let height = number_of(candidate.height);
    Rect {
        x: corner(number_of(candidate.center_x), width, pad_left, scale) as i32,
        y: corner(number_of(candidate.center_y), height, pad_top, scale) as i32,
        width: stretched(width, scale) as i32,
        height: stretched(height, scale) as i32,
    }
}

/// The proposal that a candidate becomes on the picture.
pub open spec fn proposal_of(
    candidate: Candidate,
    resize_factor: u32,
    pad_top: u32,
    pad_left: u32,
) -> Proposal {
    Proposal {
        class_id: candidate.class_id,
        score: candidate.score,
        rect: remapped(candidate, resize_factor, pad_top, pad_left),
    }
}

/// Computes `corner`.
fn corner_of(center: u32, extent: u32, margin: u32, resize_factor: u32) -> (at: i32)
    ensures
        at == corner(number_of(center), number_of(extent), margin, number_of(resize_factor)),
{
    let half_extent = multiply(extent, HALF_BITS);
    let edge = subtract(center, half_extent);
    let inner = subtract(edge, from_count(margin));
    truncate(multiply(round_to_whole(inner), resize_factor))
}

/// Computes `stretched`.
fn stretch(extent: u32, resize_factor: u32) -> (length: i32)
    ensures
        length == stretched(number_of(extent), number_of(resize_factor)),
{
    truncate(round_to_whole(multiply(extent, resize_factor)))
}

/// Maps a candidate back onto the picture.
///
/// `resize_factor` is the bit pattern of the scale between the picture and
/// its scaled copy; `pad_top` and `pad_left` are the margins of the
/// letterbox.
pub fn remap(candidate: &Candidate, resize_factor: u32, pad_top: u32, pad_left: u32) -> (proposal:
    Proposal)
    ensures
        proposal == proposal_of(*candidate, resize_factor, pad_top, pad_left),
{
    Proposal {
        class_id: candidate.class_id,
        score: candidate.score,
        rect: Rect {
            x: corner_of(candidate.center_x, candidate.width, pad_left, resize_factor),
            y: corner_of(candidate.center_y, candidate.height, pad_top, resize_factor),
            width: stretch(candidate.width, resize_factor),
            height: stretch(candidate.height, resize_factor),
        },
    }
}

/// Maps every candidate back onto the picture.
pub fn remap_all(
    candidates: &Vec<Candidate>,
    resize_factor: u32,
    pad_top: u32,
    pad_left: u32,
) -> (proposals: Vec<Proposal>)
    ensures
        proposals.len() == candidates.len(),
        forall|i: int|
            0 <= i < candidates.len() ==> #[trigger] proposals[i] == proposal_of(
                candidates[i],
                resize_factor,
                pad_top,
                pad_left,
            ),
{
    let mut proposals: Vec<Proposal> = Vec::new();
    let mut i: usize = 0;
    while i < candidates.len()
        invariant
            i <= candidates.len(),
            proposals.len() == i,
            forall|j: int|
                0 <= j < i ==> #[trigger] proposals[j] == proposal_of(
                    candidates[j],
                    resize_factor,
                    pad_top,
                    pad_left,
                ),
        decreases candidates.len() - i,
    {
        proposals.push(remap(&candidates[i], resize_factor, pad_top, pad_left));
        i += 1;
    }
    proposals
}

} // verus!
