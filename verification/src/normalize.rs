//! The normalization selector.
//!
//! Normalization itself works on floating-point sequences and therefore
//! lives with the callers, outside this library; alignment only requires
//! that whatever sequences it receives are finite-length plain samples.

use vstd::prelude::*;

verus! {

/// Which normalization a caller applies to a sequence before aligning it.
#[derive(Debug, Clone, Copy, PartialEq, Eq, Structural)]
pub enum NormalizeType {
    /// Z-normalization: subtract the mean, divide by the deviation.
    Z,
    /// Min-max normalization onto the unit interval.
    MaxMin,
}

} // verus!
