//! The ways an operation of this library can fail.

use vstd::prelude::*;

verus! {

/// Failure kinds reported by the library.
#[derive(Clone, Copy, Debug, PartialEq, Eq, Structural)]
pub enum PixelError {
    /// The leading bytes are missing or name no known format.
    FormatDetection,
    /// The payload is corrupt, truncated or uses an unsupported feature.
    Decode,
    /// The requested layout or sample format cannot be reached from the
    /// decoded one.
    UnsupportedConversion,
    /// A buffer length does not fit the shape or group size it is used with.
    ShapeMismatch,
    /// A parameter is outside the range in which the operation is defined.
    InvalidParameter,
}

} // verus!
