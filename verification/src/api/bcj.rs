use vstd::prelude::*;
use crate::api::vli::LzmaVli;

verus! {

pub const LZMA_FILTER_SW_64: LzmaVli = 0x04;

pub const LZMA_FILTER_X86: LzmaVli = 0x04;

pub const LZMA_FILTER_POWERPC: LzmaVli = 0x05;

pub const LZMA_FILTER_IA64: LzmaVli = 0x06;

pub const LZMA_FILTER_ARM: LzmaVli = 0x07;

pub const LZMA_FILTER_ARMTHUMB: LzmaVli = 0x08;

pub const LZMA_FILTER_SPARC: LzmaVli = 0x09;

pub const LZMA_FILTER_ARM64: LzmaVli = 0x0A;

/// Options of a branch-converter filter.
#[derive(Debug, Clone, Copy, PartialEq, Eq, Structural)]
pub struct LzmaOptionsBcj {
    /// Address that the first byte of the data is taken to lie at.
    pub start_offset: u32,
}

impl Default for LzmaOptionsBcj {
    fn default() -> (o: LzmaOptionsBcj)
        ensures
            o.start_offset == 0,
    {
        LzmaOptionsBcj { start_offset: 0 }
    }
}

} // verus!
