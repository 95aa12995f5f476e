use vstd::prelude::*;

verus! {

/// Kind of integrity check that a stream carries.
#[derive(Clone, Copy, Debug, PartialEq, Eq, PartialOrd, Structural)]
pub enum LzmaCheck {
    CheckNone,
    Crc32,
    Crc64,
    Sha256,
}

pub const LZMA_CHECK_ID_MAX: u32 = 15;

pub const LZMA_CHECK_SIZE_MAX: usize = 64;

impl Default for LzmaCheck {
    fn default() -> (c: LzmaCheck)
        ensures
            c == LzmaCheck::CheckNone,
    {
        LzmaCheck::CheckNone
    }
}

/// The number that the container format gives a kind of check.
pub open spec fn check_id(c: LzmaCheck) -> u32 {
    match c {
        LzmaCheck::CheckNone => 0,
        LzmaCheck::Crc32 => 1,
        LzmaCheck::Crc64 => 4,
        LzmaCheck::Sha256 => 10,
    }
}

impl LzmaCheck {
    /// The number of this kind of check.
    pub fn id(self) -> (v: u32)
        ensures
            v == check_id(self),
            v <= LZMA_CHECK_ID_MAX,
    {
        match self {
            LzmaCheck::CheckNone => 0,
            LzmaCheck::Crc32 => 1,
            LzmaCheck::Crc64 => 4,
            LzmaCheck::Sha256 => 10,
        }
    }

    /// The kind of check with the number `v`, where there is one.
    pub fn try_from_u32(v: u32) -> (r: Option<LzmaCheck>)
        ensures
            r is Some <==> (v == 0 || v == 1 || v == 4 || v == 10),
            r is Some ==> check_id(r->0) == v,
    {
        if v == 0 {
            Some(LzmaCheck::CheckNone)
        } else if v == 1 {
            Some(LzmaCheck::Crc32)
        } else if v == 4 {
            Some(LzmaCheck::Crc64)
        } else if v == 10 {
            Some(LzmaCheck::Sha256)
        } else {
            None
        }
    }
}

} // verus!
