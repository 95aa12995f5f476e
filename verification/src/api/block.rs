use vstd::prelude::*;
use crate::api::base::{LzmaBool, LzmaReservedEnum};
use crate::api::check::LzmaCheck;
use crate::api::filter::LzmaFilter;
use crate::api::vli::LzmaVli;

verus! {

/// What is known of one block: its header, its sizes and its filters.
#[derive(Debug, Clone)]
pub struct LzmaBlock {
    pub version: u32,
    pub header_size: u32,
    pub check: LzmaCheck,
    pub compressed_size: LzmaVli,
    pub uncompressed_size: LzmaVli,
    pub filters: Vec<LzmaFilter>,
    pub raw_check: [u8; 64],
    pub reserved_int1: u32,
    pub reserved_int2: u32,
    pub reserved_int3: LzmaVli,
    pub reserved_int4: LzmaVli,
    pub reserved_int5: LzmaVli,
    pub reserved_int6: LzmaVli,
    pub reserved_int7: LzmaVli,
    pub reserved_int8: LzmaVli,
    pub reserved_enum1: LzmaReservedEnum,
    pub reserved_enum2: LzmaReservedEnum,
    pub reserved_enum3: LzmaReservedEnum,
    pub reserved_enum4: LzmaReservedEnum,
    pub ignore_check: bool,
    pub reserved_bool2: LzmaBool,
    pub reserved_bool3: LzmaBool,
    pub reserved_bool4: LzmaBool,
    pub reserved_bool5: LzmaBool,
    pub reserved_bool6: LzmaBool,
    pub reserved_bool7: LzmaBool,
    pub reserved_bool8: LzmaBool,
}

impl Default for LzmaBlock {
    fn default() -> (b: LzmaBlock)
        ensures
            b.version == 0,
            b.header_size == 0,
            b.check == LzmaCheck::CheckNone,
            b.compressed_size == 0,
            b.uncompressed_size == 0,
            b.filters@.len() == 0,
            forall|i: int| 0 <= i < 64 ==> b.raw_check@[i] == 0,
            !b.ignore_check,
            b.reserved_int1 == 0 && b.reserved_int2 == 0 && b.reserved_int3 == 0 && b.reserved_int4
                == 0,
            b.reserved_int5 == 0 && b.reserved_int6 == 0 && b.reserved_int7 == 0 && b.reserved_int8
                == 0,
            b.reserved_enum1 == 0 && b.reserved_enum2 == 0 && b.reserved_enum3 == 0
                && b.reserved_enum4 == 0,
            b.reserved_bool2 == 0 && b.reserved_bool3 == 0 && b.reserved_bool4 == 0
                && b.reserved_bool5 == 0,
            b.reserved_bool6 == 0 && b.reserved_bool7 == 0 && b.reserved_bool8 == 0,
    {
        LzmaBlock {
            version: 0,
            header_size: 0,
            check: LzmaCheck::CheckNone,
            compressed_size: 0,
            uncompressed_size: 0,
            filters: Vec::new(),
            raw_check: [0u8; 64],
            reserved_int1: 0,
            reserved_int2: 0,
            reserved_int3: 0,
            reserved_int4: 0,
            reserved_int5: 0,
            reserved_int6: 0,
            reserved_int7: 0,
            reserved_int8: 0,
            reserved_enum1: 0,
            reserved_enum2: 0,
            reserved_enum3: 0,
            reserved_enum4: 0,
            ignore_check: false,
            reserved_bool2: 0,
            reserved_bool3: 0,
            reserved_bool4: 0,
            reserved_bool5: 0,
            reserved_bool6: 0,
            reserved_bool7: 0,
            reserved_bool8: 0,
        }
    }
}

pub const LZMA_BLOCK_HEADER_SIZE_MIN: u32 = 8;

pub const LZMA_BLOCK_HEADER_SIZE_MAX: u32 = 1024;

/// A block header is a whole number of four-byte words, from 8 bytes to
/// 1024.
pub open spec fn block_header_size_valid(size: u32) -> bool {
    LZMA_BLOCK_HEADER_SIZE_MIN <= size <= LZMA_BLOCK_HEADER_SIZE_MAX && size % 4 == 0
}

/// The size of a block header whose first byte is `b`: one more than
/// the byte, in four-byte words. Every byte but zero gives a valid size.
pub fn lzma_block_header_size_decode(b: u8) -> (size: u32)
    ensures
        size == (b + 1) * 4,
        block_header_size_valid(size) <==> b != 0,
{
    ((b as u32) + 1) * 4
}

} // verus!
