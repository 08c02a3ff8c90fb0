//! Core of an anatomical-region object detector: everything between the
//! decoded picture and the list of detections, but for running the network.
//!
//! A picture is fitted into the square input of the network and laid out as
//! its input tensor (`letterbox`, `normalize`, `scale`).  The raw output of
//! the network is decoded into candidates (`decode`), each candidate is
//! mapped back onto the picture (`remap`), overlapping ones are suppressed
//! (`suppress`), and the survivors get the label of their class (`label`,
//! `detect`).
//!
//! The network speaks in single-precision numbers.  The crate holds every
//! such number as its bit pattern and computes with integers alone
//! (`single`), rounding as single-precision arithmetic rounds, so that its
//! results are the same to the last bit.

pub mod decode;
pub mod detect;
pub mod error;
pub mod geometry;
pub mod label;
pub mod letterbox;
pub mod normalize;
pub mod remap;
pub mod scale;
pub mod score;
pub mod single;
pub mod suppress;

pub use decode::{decode, Candidate, RawOutput};
pub use detect::{collect, post_process, select, Detection};
pub use error::DetectError;
pub use geometry::Rect;
pub use label::Label;
pub use letterbox::{letterbox, preprocess, Image, Letterboxed, Padding};
pub use normalize::{normalize_byte, normalize_bytes};
pub use remap::remap;
pub use scale::resize_factor;
pub use score::Score;
pub use suppress::{suppress, Proposal};
