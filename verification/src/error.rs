//! The ways in which audio handed to the library can be refused.

use vstd::prelude::*;

verus! {

/// Why input was refused.
#[derive(Clone, Copy, Debug, PartialEq, Eq)]
pub enum DenoiseError {
    /// A raw PCM buffer holds an odd number of bytes, so its last sample is
    /// cut in half.
    MalformedInput,
    /// A recording holds no samples at all.
    EmptyInput,
    /// A recording declares a format that cannot be denoised.
    UnsupportedFormat,
}

} // verus!
