use vstd::prelude::*;
use crate::api::base::{LzmaBool, LzmaReservedEnum};
use crate::api::check::LzmaCheck;
use crate::api::vli::LzmaVli;

verus! {

/// What the header and the footer of a stream say of it.
#[derive(Debug, Clone, Copy, PartialEq, Eq, Structural)]
pub struct LzmaStreamFlags {
    /// Version of the flags; `u32::MAX` stands for "not known".
    pub version: u32,
    pub backward_size: LzmaVli,
    pub check: LzmaCheck,
    pub reserved_enum1: LzmaReservedEnum,
    pub reserved_enum2: LzmaReservedEnum,
    pub reserved_enum3: LzmaReservedEnum,
    pub reserved_enum4: LzmaReservedEnum,
    pub reserved_bool1: LzmaBool,
    pub reserved_bool2: LzmaBool,
    pub reserved_bool3: LzmaBool,
    pub reserved_bool4: LzmaBool,
    pub reserved_bool5: LzmaBool,
    pub reserved_bool6: LzmaBool,
    pub reserved_bool7: LzmaBool,
    pub reserved_bool8: LzmaBool,
    pub reserved_int1: u32,
    pub reserved_int2: u32,
}

impl LzmaStreamFlags {
    /// Flags with every field zero but the version and the check.
    pub open spec fn plain(version: u32, check: LzmaCheck) -> LzmaStreamFlags {
        LzmaStreamFlags {
            version,
            backward_size: 0,
            check,
            reserved_enum1: 0,
            reserved_enum2: 0,
            reserved_enum3: 0,
            reserved_enum4: 0,
            reserved_bool1: 0,
            reserved_bool2: 0,
            reserved_bool3: 0,
            reserved_bool4: 0,
            reserved_bool5: 0,
            reserved_bool6: 0,
            reserved_bool7: 0,
            reserved_bool8: 0,
            reserved_int1: 0,
            reserved_int2: 0,
        }
    }

    /// Flags of which nothing is known yet.
    pub fn unknown() -> (f: LzmaStreamFlags)
        ensures
            f == LzmaStreamFlags::plain(u32::MAX, LzmaCheck::CheckNone),
    {
        LzmaStreamFlags {
            version: u32::MAX,
            backward_size: 0,
            check: LzmaCheck::CheckNone,
            reserved_enum1: 0,
            reserved_enum2: 0,
            reserved_enum3: 0,
            reserved_enum4: 0,
            reserved_bool1: 0,
            reserved_bool2: 0,
            reserved_bool3: 0,
            reserved_bool4: 0,
            reserved_bool5: 0,
            reserved_bool6: 0,
            reserved_bool7: 0,
            reserved_bool8: 0,
            reserved_int1: 0,
            reserved_int2: 0,
        }
    }
}

impl Default for LzmaStreamFlags {
    fn default() -> (f: LzmaStreamFlags)
        ensures
            f == LzmaStreamFlags::plain(0, LzmaCheck::CheckNone),
    {
        LzmaStreamFlags {
            version: 0,
            backward_size: 0,
            check: LzmaCheck::CheckNone,
            reserved_enum1: 0,
            reserved_enum2: 0,
            reserved_enum3: 0,
            reserved_enum4: 0,
            reserved_bool1: 0,
            reserved_bool2: 0,
            reserved_bool3: 0,
            reserved_bool4: 0,
            reserved_bool5: 0,
            reserved_bool6: 0,
            reserved_bool7: 0,
            reserved_bool8: 0,
            reserved_int1: 0,
            reserved_int2: 0,
        }
    }
}

pub const LZMA_BACKWARD_SIZE_MIN: u32 = 4;

pub const LZMA_BACKWARD_SIZE_MAX: LzmaVli = 0x4_0000_0000;

/// Size of a stream header, and of a stream footer, in bytes.
pub const LZMA_STREAM_HEADER_SIZE: usize = 12;

} // verus!
