//! The failures that the crate reports.

use vstd::prelude::*;

verus! {

/// Why a step of the detection pipeline gave no result.
#[derive(Debug, Clone, Copy, PartialEq, Eq, Structural)]
pub enum DetectError {
    /// The picture has a zero dimension, or its pixel buffer does not have
    /// four bytes for every pixel.
    ImageLoad,
    /// The raw network output has the wrong rank or shape, its buffer does
    /// not match its shape, or a class score in it is not a number.
    Decode,
    /// A class index outside the label table; the payload is the index.
    InvalidClassIndex(usize),
}

} // verus!
