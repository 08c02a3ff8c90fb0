//! Single-precision arithmetic on bit patterns.
//!
//! The network speaks in singles, and the numbers that map its boxes back
//! onto the picture are computed in singles.  Here that arithmetic is done
//! on the bit patterns with integers alone.  Each operation computes its
//! exact result and rounds it to the nearest single, as the IEEE-754
//! standard asks, so that it gives what the same operation on a
//! floating-point unit gives.  A result that is no number comes as one
//! quiet pattern; which of the patterns that are no number a
//! floating-point unit gives is not fixed.

pub mod arithmetic;
pub mod division;
pub mod number;
pub mod pattern;
pub mod root;
pub mod rounding;

pub use arithmetic::{from_count, multiply, plus, round_to_whole, subtract, truncate};
pub use division::divide;
pub use number::{number_of, Number};
pub use pattern::{HALF_BITS, NAN_BITS, ONE_BITS};
pub use root::square_root;
