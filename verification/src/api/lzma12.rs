use vstd::prelude::*;
use crate::api::base::LzmaReservedEnum;
use crate::api::vli::LzmaVli;

verus! {

pub const LZMA_FILTER_LZMA1: LzmaVli = 0x4000000000000001;

pub const LZMA_FILTER_LZMA1EXT: LzmaVli = 0x4000000000000002;

pub const LZMA_FILTER_LZMA2: LzmaVli = 0x21;

/// Match finder of the LZMA encoder.
#[derive(PartialEq, Eq, Structural, Debug, Clone, Copy)]
pub enum LzmaMatchFinder {
    LzmaMfHc3,
    LzmaMfHc4,
    LzmaMfBt2,
    LzmaMfBt3,
    LzmaMfBt4,
}

impl Default for LzmaMatchFinder {
    fn default() -> (m: LzmaMatchFinder)
        ensures
            m == LzmaMatchFinder::LzmaMfHc3,
    {
        LzmaMatchFinder::LzmaMfHc3
    }
}

pub const LZMA_MF_HC3: u64 = 0x03;

pub const LZMA_MF_HC4: u64 = 0x04;

pub const LZMA_MF_BT2: u64 = 0x12;

pub const LZMA_MF_BT3: u64 = 0x13;

pub const LZMA_MF_BT4: u64 = 0x14;

/// Compression mode of the LZMA encoder.
#[derive(PartialEq, Eq, Structural, Debug, Clone, Copy)]
pub enum LzmaMode {
    Fast,
    Normal,
}

impl Default for LzmaMode {
    fn default() -> (m: LzmaMode)
        ensures
            m == LzmaMode::Fast,
    {
        LzmaMode::Fast
    }
}

pub const LZMA_MODE_FAST: u64 = 1;

pub const LZMA_MODE_NORMAL: u64 = 2;

pub const LZMA_LCLP_MIN: u32 = 0;

pub const LZMA_LCLP_MAX: u32 = 4;

pub const LZMA_LC_DEFAULT: u32 = 3;

pub const LZMA_LP_DEFAULT: u32 = 0;

pub const LZMA_PB_MIN: u32 = 0;

pub const LZMA_PB_MAX: u32 = 4;

pub const LZMA_PB_DEFAULT: u32 = 2;

/// Options of the LZMA1 and LZMA2 filters.
#[derive(Debug)]
pub struct LzmaOptionsLzma {
    pub dict_size: u32,
    pub preset_dict: Option<Vec<u8>>,
    pub preset_dict_size: u32,
    pub lc: u32,
    pub lp: u32,
    pub pb: u32,
    pub mode: LzmaMode,
    pub nice_len: u32,
    pub mf: LzmaMatchFinder,
    pub depth: u32,
    pub ext_flags: u32,
    pub ext_size_low: u32,
    pub ext_size_high: u32,
    pub reserved_int4: u32,
    pub reserved_int5: u32,
    pub reserved_int6: u32,
    pub reserved_int7: u32,
    pub reserved_int8: u32,
    pub reserved_enum1: LzmaReservedEnum,
    pub reserved_enum2: LzmaReservedEnum,
    pub reserved_enum3: LzmaReservedEnum,
    pub reserved_enum4: LzmaReservedEnum,
}

impl LzmaOptionsLzma {
    /// Everything but the preset dictionary is as in `other`.
    pub open spec fn same_numbers(self, other: LzmaOptionsLzma) -> bool {
        &&& self.dict_size == other.dict_size
        &&& self.preset_dict_size == other.preset_dict_size
        &&& self.lc == other.lc
        &&& self.lp == other.lp
        &&& self.pb == other.pb
        &&& self.mode == other.mode
        &&& self.nice_len == other.nice_len
        &&& self.mf == other.mf
        &&& self.depth == other.depth
        &&& self.ext_flags == other.ext_flags
        &&& self.ext_size_low == other.ext_size_low
        &&& self.ext_size_high == other.ext_size_high
        &&& self.reserved_int4 == other.reserved_int4
        &&& self.reserved_int5 == other.reserved_int5
        &&& self.reserved_int6 == other.reserved_int6
        &&& self.reserved_int7 == other.reserved_int7
        &&& self.reserved_int8 == other.reserved_int8
        &&& self.reserved_enum1 == other.reserved_enum1
        &&& self.reserved_enum2 == other.reserved_enum2
        &&& self.reserved_enum3 == other.reserved_enum3
        &&& self.reserved_enum4 == other.reserved_enum4
    }

    /// The bytes of the preset dictionary, where there is one.
    pub open spec fn dict(self) -> Option<Seq<u8>> {
        match self.preset_dict {
            Some(d) => Some(d@),
            None => None,
        }
    }
}

impl Default for LzmaOptionsLzma {
    fn default() -> (o: LzmaOptionsLzma)
        ensures
            o.preset_dict is None,
            o.dict_size == 0,
            o.preset_dict_size == 0,
            o.lc == 0,
            o.lp == 0,
            o.pb == 0,
            o.mode == LzmaMode::Fast,
            o.nice_len == 0,
            o.mf == LzmaMatchFinder::LzmaMfHc3,
            o.depth == 0,
            o.ext_flags == 0,
            o.ext_size_low == 0,
            o.ext_size_high == 0,
    {
        LzmaOptionsLzma {
            dict_size: 0,
            preset_dict: None,
            preset_dict_size: 0,
            lc: 0,
            lp: 0,
            pb: 0,
            mode: LzmaMode::Fast,
            nice_len: 0,
            mf: LzmaMatchFinder::LzmaMfHc3,
            depth: 0,
            ext_flags: 0,
            ext_size_low: 0,
            ext_size_high: 0,
            reserved_int4: 0,
            reserved_int5: 0,
            reserved_int6: 0,
            reserved_int7: 0,
            reserved_int8: 0,
            reserved_enum1: 0,
            reserved_enum2: 0,
            reserved_enum3: 0,
            reserved_enum4: 0,
        }
    }
}

impl Clone for LzmaOptionsLzma {
    fn clone(&self) -> (c: LzmaOptionsLzma)
        ensures
            c.same_numbers(*self),
            c.dict() == self.dict(),
    {
        let preset_dict: Option<Vec<u8>> = match &self.preset_dict {
            Some(d) => Some(copy_bytes(d)),
            None => None,
        };
        LzmaOptionsLzma {
            dict_size: self.dict_size,
            preset_dict,
            preset_dict_size: self.preset_dict_size,
            lc: self.lc,
            lp: self.lp,
            pb: self.pb,
            mode: self.mode,
            nice_len: self.nice_len,
            mf: self.mf,
            depth: self.depth,
            ext_flags: self.ext_flags,
            ext_size_low: self.ext_size_low,
            ext_size_high: self.ext_size_high,
            reserved_int4: self.reserved_int4,
            reserved_int5: self.reserved_int5,
            reserved_int6: self.reserved_int6,
            reserved_int7: self.reserved_int7,
            reserved_int8: self.reserved_int8,
            reserved_enum1: self.reserved_enum1,
            reserved_enum2: self.reserved_enum2,
            reserved_enum3: self.reserved_enum3,
            reserved_enum4: self.reserved_enum4,
        }
    }
}

/// A new vector with the bytes of `src`.
pub fn copy_bytes(src: &Vec<u8>) -> (dst: Vec<u8>)
    ensures
        dst@ == src@,
{
    let mut dst: Vec<u8> = Vec::new();
    let mut i: usize = 0;
    while i < src.len()
        invariant
            i <= src@.len(),
            dst@ == src@.take(i as int),
        decreases src@.len() - i,
    {
        dst.push(src[i]);
        i += 1;
        assert(dst@ =~= src@.take(i as int));
    }
    assert(src@.take(src@.len() as int) =~= src@);
    dst
}

pub const LZMA_LZMA1EXT_ALLOW_EOPM: u32 = 0x01;

/// The 64-bit size that the two halves `ext_size_low` and
/// `ext_size_high` stand for.
pub open spec fn ext_size(opt: LzmaOptionsLzma) -> int {
    opt.ext_size_high * 0x1_0000_0000 + opt.ext_size_low
}

/// Stores a 64-bit uncompressed size in the two 32-bit halves of the
/// options.
pub fn lzma_set_ext_size(opt_lzma2: &mut LzmaOptionsLzma, u64size: u64)
    ensures
        ext_size(*final(opt_lzma2)) == u64size,
        final(opt_lzma2).same_numbers(
            LzmaOptionsLzma {
                ext_size_low: final(opt_lzma2).ext_size_low,
                ext_size_high: final(opt_lzma2).ext_size_high,
                ..*old(opt_lzma2)
            },
        ),
        final(opt_lzma2).preset_dict == old(opt_lzma2).preset_dict,
{
    assert((u64size as u32) + ((u64size >> 32) as u32) * 0x1_0000_0000 == u64size) by (bit_vector);
    opt_lzma2.ext_size_low = #[verifier::truncate] (u64size as u32);
    opt_lzma2.ext_size_high = (u64size >> 32) as u32;
}

pub const LZMA_DICT_SIZE_MIN: u32 = 4096;

pub const LZMA_DICT_SIZE_DEFAULT: u32 = 0x80_0000;

} // verus!
