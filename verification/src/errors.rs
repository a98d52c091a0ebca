//! Typed failure reports for the bounded containers.
//!
//! Every fallible operation communicates failure through its return value:
//! insertion-like operations hand the rejected element back beside the
//! report, index-based operations return the report alone.

use vstd::prelude::*;

verus! {

/// Why a container operation was refused.
#[derive(Clone, Copy, Debug, PartialEq, Eq, Structural)]
pub enum InplaceError {
    /// An index-based operation was given a position outside the valid range.
    IndexOutOfBounds { index: usize, len: usize },
    /// An insertion would have raised the length beyond the fixed capacity.
    CapacityExceeded { len: usize, additional: usize, capacity: usize },
    /// A range request whose start lies after its end, or whose end lies
    /// beyond the length it indexes into.
    InvalidRange { start: usize, end: usize, len: usize },
}

} // verus!
