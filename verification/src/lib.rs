//! In-place transformations over a raw RGBA pixel buffer.
//!
//! Every operation works on a flat byte buffer whose length is a multiple of
//! four, laid out as consecutive `[R, G, B, A]` channel values. Shape-aware
//! operations additionally take a width (and sometimes a height) and validate
//! that the shape matches the buffer before touching any byte. On any
//! validation failure the buffer is left exactly as it was and an error is
//! returned.

use vstd::prelude::*;

pub mod channel;
pub mod color;
pub mod convolve;
pub mod crop;
pub mod geometry;
pub mod pixel;
pub mod style;

verus! {

/// The error taxonomy of the library: inconsistent buffer/shape arguments or
/// degenerate numeric parameters are `InvalidInput`; crop coordinates that
/// reach outside the source image are `OutOfRange`.
#[derive(Clone, Copy, Debug, PartialEq, Eq, Structural)]
pub enum ImgError {
    InvalidInput,
    OutOfRange,
}

} // verus!
