use vstd::prelude::*;
use crate::api::bcj::LzmaOptionsBcj;
use crate::api::delta::LzmaOptionsDelta;
use crate::api::lzma12::LzmaOptionsLzma;
use crate::api::vli::LzmaVli;

verus! {

/// Most filters that a chain can hold.
pub const LZMA_FILTERS_MAX: usize = 4;

/// Options of one filter, by the family of the filter.
#[derive(Debug, Clone)]
pub enum LzmaOptionsType {
    LzmaOptionsLzma(LzmaOptionsLzma),
    Delta(LzmaOptionsDelta),
    Bcj(LzmaOptionsBcj),
    Lod(LzmaOptionsDelta),
    NoOptions,
}

impl LzmaOptionsType {
    pub fn as_lzma_options_lzma(&self) -> (r: Option<&LzmaOptionsLzma>)
        ensures
            r == (match *self {
                LzmaOptionsType::LzmaOptionsLzma(opts) => Some(&opts),
                _ => None,
            }),
    {
        match self {
            LzmaOptionsType::LzmaOptionsLzma(opts) => Some(opts),
            _ => None,
        }
    }

    pub fn as_delta(&self) -> (r: Option<&LzmaOptionsDelta>)
        ensures
            r == (match *self {
                LzmaOptionsType::Delta(opts) => Some(&opts),
                _ => None,
            }),
    {
        match self {
            LzmaOptionsType::Delta(opts) => Some(opts),
            _ => None,
        }
    }

    pub fn as_bcj(&self) -> (r: Option<&LzmaOptionsBcj>)
        ensures
            r == (match *self {
                LzmaOptionsType::Bcj(opts) => Some(&opts),
                _ => None,
            }),
    {
        match self {
            LzmaOptionsType::Bcj(opts) => Some(opts),
            _ => None,
        }
    }
}

/// One filter of a chain: its identifier and its options.
#[derive(Debug, Clone)]
pub struct LzmaFilter {
    pub id: LzmaVli,
    pub options: Option<LzmaOptionsType>,
}

impl Default for LzmaFilter {
    fn default() -> (f: LzmaFilter)
        ensures
            f.id == 0,
            f.options is None,
    {
        LzmaFilter { id: 0, options: None }
    }
}

pub const LZMA_STR_ALL_FILTERS: u32 = 0x01;

pub const LZMA_STR_NO_VALIDATION: u32 = 0x02;

pub const LZMA_STR_ENCODER: u32 = 0x10;

pub const LZMA_STR_DECODER: u32 = 0x20;

pub const LZMA_STR_GETOPT_LONG: u32 = 0x40;

pub const LZMA_STR_NO_SPACES: u32 = 0x80;

} // verus!
