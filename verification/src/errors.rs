//! Errors of the operations on guest memory.
use vstd::prelude::*;

verus! {

/// Why an operation on a region of guest memory was refused.
#[derive(Clone, Copy, Debug, PartialEq, Eq, Structural)]
pub enum VmError {
    /// A `usize` value does not fit into a `u32`.
    ConversionErr { input: usize },
    /// The region holds more bytes than the caller accepts.
    RegionLengthTooBig { length: usize, max_length: usize },
    /// The region's capacity is smaller than the data to be written into it.
    RegionTooSmall { size: usize, required: usize },
}

/// The `u32` that `input` stands for, or a conversion error where it does
/// not fit.
pub fn to_u32(input: usize) -> (r: Result<u32, VmError>)
    ensures
        input <= u32::MAX ==> r == Ok::<u32, VmError>(input as u32),
        input > u32::MAX ==> r == Err::<u32, VmError>(VmError::ConversionErr { input }),
{
    if input > u32::MAX as usize {
        Err(VmError::ConversionErr { input })
    } else {
        Ok(input as u32)
    }
}

} // verus!
