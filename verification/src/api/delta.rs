use vstd::prelude::*;
use crate::api::vli::LzmaVli;

verus! {

pub const LZMA_FILTER_DELTA: LzmaVli = 0x03;

/// Kind of delta calculation.
#[derive(PartialEq, Eq, Structural, Debug, Clone, Copy)]
pub enum LzmaDeltaType {
    Byte,
}

impl Default for LzmaDeltaType {
    fn default() -> (t: LzmaDeltaType)
        ensures
            t == LzmaDeltaType::Byte,
    {
        LzmaDeltaType::Byte
    }
}

/// Options of the delta filter.
#[derive(Debug, Clone, Copy, PartialEq, Eq, Structural)]
pub struct LzmaOptionsDelta {
    pub type_: LzmaDeltaType,
    /// Distance between the bytes that are subtracted from each other.
    pub dist: u32,
    pub reserved_int1: u32,
    pub reserved_int2: u32,
    pub reserved_int3: u32,
    pub reserved_int4: u32,
}

impl Default for LzmaOptionsDelta {
    fn default() -> (o: LzmaOptionsDelta)
        ensures
            o == (LzmaOptionsDelta {
                type_: LzmaDeltaType::Byte,
                dist: 0,
                reserved_int1: 0,
                reserved_int2: 0,
                reserved_int3: 0,
                reserved_int4: 0,
            }),
    {
        LzmaOptionsDelta {
            type_: LzmaDeltaType::Byte,
            dist: 0,
            reserved_int1: 0,
            reserved_int2: 0,
            reserved_int3: 0,
            reserved_int4: 0,
        }
    }
}

pub const LZMA_DELTA_DIST_MIN: u32 = 1;

pub const LZMA_DELTA_DIST_MAX: u32 = 256;

} // verus!
