use vstd::prelude::*;

verus! {

/// Failures that the image operations report to their callers.
#[derive(Debug, Clone, Copy, PartialEq, Eq, Structural)]
pub enum ImageError {
    /// Pixel coordinates fell outside `[0, width) x [0, height)`.
    IndexOutOfRange,
    /// A color-format code outside the four supported channel layouts.
    UnsupportedColorType,
    /// An image whose byte buffer length disagrees with its stated geometry.
    CorruptBuffer,
}

} // verus!
