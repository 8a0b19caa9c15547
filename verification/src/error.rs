//! The conditions under which the library refuses its input.

use vstd::prelude::*;

verus! {

/// Why a threshold map or a luminance grid could not be built.
#[derive(Debug, Clone, Copy, PartialEq, Eq, Structural)]
pub enum DitherError {
    /// A parameter is outside the range in which results are exact.
    InvalidParameter,
    /// The number of samples does not match the stated dimensions.
    DimensionMismatch,
}

} // verus!
