use vstd::prelude::*;
use crate::api::filter::LzmaFilter;
use crate::common::common::LzmaNextCoder;

verus! {

/// State that a branch converter carries from one call to the next.
#[derive(Debug, Clone)]
pub enum SimpleType {
    /// State of the x86 converter.
    X86Filter(LzmaSimpleX86),
    LzmaFilter(LzmaFilter),
    /// The converter carries no state.
    NoData,
}

/// What the x86 converter remembers of the bytes before the buffer.
#[derive(Debug, Clone, Copy, PartialEq, Eq, Structural)]
pub struct LzmaSimpleX86 {
    pub prev_mask: u32,
    pub prev_pos: u32,
}

impl Default for LzmaSimpleX86 {
    fn default() -> (x: LzmaSimpleX86)
        ensures
            x.prev_mask == 0,
            x.prev_pos == 0,
    {
        LzmaSimpleX86 { prev_mask: 0, prev_pos: 0 }
    }
}

/// The branch converters that a simple coder can run.
#[derive(Debug, Clone, Copy, PartialEq, Eq, Structural)]
pub enum SimpleFilter {
    Arm,
    Arm64,
    ArmThumb,
}

/// A filter stage that converts the data in place as they pass: what
/// the converter has dealt with goes on, what it has left waits in
/// `buffer` for more.
#[derive(Debug)]
pub struct LzmaSimpleCoder {
    /// Next filter in the chain.
    pub next: Box<LzmaNextCoder>,
    /// True if the next coder in the chain has reported the end of the
    /// stream.
    pub end_was_reached: bool,
    /// True if the converter encodes; false if it decodes.
    pub is_encoder: bool,
    /// The converter that does the filtering.
    pub filter: Option<SimpleFilter>,
    /// The converter's own state.
    pub simple: SimpleType,
    /// The lowest 32 bits of the position of the data in `buffer`, or of
    /// the data that come next where it is empty.
    pub now_pos: u32,
    /// Size of `buffer`.
    pub allocated: usize,
    /// `buffer[pos]` is the next byte to go on.
    pub pos: usize,
    /// `buffer[filtered]` is the first byte that the converter has not
    /// dealt with.
    pub filtered: usize,
    /// Number of bytes in `buffer`.
    pub size: usize,
    pub buffer: Vec<u8>,
}

impl LzmaSimpleCoder {
    /// A coder that holds nothing: no converter, no buffer, no next
    /// stage; `size` is the room that its buffer is made for.
    pub fn new(size: usize) -> (coder: LzmaSimpleCoder)
        ensures
            coder.next.coder is None,
            *coder.next == LzmaNextCoder::unset(),
            !coder.end_was_reached,
            coder.is_encoder,
            coder.filter is None,
            coder.simple == SimpleType::NoData,
            coder.now_pos == 0,
            coder.allocated == 0,
            coder.pos == 0,
            coder.filtered == 0,
            coder.size == 0,
            coder.buffer@.len() == 0,
    {
        LzmaSimpleCoder {
            next: Box::new(LzmaNextCoder::default()),
            end_was_reached: false,
            is_encoder: true,
            filter: None,
            simple: SimpleType::NoData,
            now_pos: 0,
            allocated: 0,
            pos: 0,
            filtered: 0,
            size: 0,
            buffer: Vec::with_capacity(size),
        }
    }
}

} // verus!
