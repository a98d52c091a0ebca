//! Validation of a sub-range request against a length.

use vstd::prelude::*;

use crate::errors::InplaceError;

verus! {

/// Checks that `[start, end)` is a valid sub-range of a sequence of length
/// `len`, handing the pair back when it is; a start after the end, or an end
/// past the length, is reported.
pub fn range(start: usize, end: usize, len: usize) -> (r: Result<(usize, usize), InplaceError>)
    ensures
        start <= end <= len ==> r == Result::<(usize, usize), InplaceError>::Ok((start, end)),
        !(start <= end <= len) ==> r == Result::<(usize, usize), InplaceError>::Err(
            InplaceError::InvalidRange { start, end, len },
        ),
{
    if start > end {
        return Err(InplaceError::InvalidRange { start, end, len });
    }
    if end > len {
        return Err(InplaceError::InvalidRange { start, end, len });
    }
    Ok((start, end))
}

} // verus!
