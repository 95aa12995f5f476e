use vstd::prelude::*;

verus! {

/// Variable-length integer of the container format, held in 64 bits.
pub type LzmaVli = u64;

/// Largest value a variable-length integer can carry: 2^63 - 1.
pub const LZMA_VLI_MAX: u64 = 0x7FFF_FFFF_FFFF_FFFF;

/// Sentinel for "value not known".
pub const LZMA_VLI_UNKNOWN: u64 = 0xFFFF_FFFF_FFFF_FFFF;

/// Longest encoding of a variable-length integer, in bytes.
pub const LZMA_VLI_BYTES_MAX: usize = 9;

/// A 64-bit value is a valid variable-length integer when it lies in
/// `[0, 2^63)` or is the "unknown" sentinel `2^64 - 1`.
pub open spec fn vli_is_valid(vli: u64) -> bool {
    vli <= LZMA_VLI_MAX || vli == LZMA_VLI_UNKNOWN
}

pub fn lzma_vli_is_valid(vli: u64) -> (valid: bool)
    ensures
        valid == vli_is_valid(vli),
{
    vli <= LZMA_VLI_MAX || vli == LZMA_VLI_UNKNOWN
}

} // verus!
