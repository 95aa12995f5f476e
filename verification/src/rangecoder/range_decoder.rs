use vstd::prelude::*;
use crate::api::base::LzmaRet;
use crate::rangecoder::range_common::{
    prob_valid, prob_after_0, prob_after_1, prob_update_0, prob_update_1, lemma_prob_update_closed,
    RC_TOP_VALUE, RC_SHIFT_BITS,
};

verus! {

/// Range decoder: the width of the interval, the code read so far taken
/// relative to the interval's low end, and the number of priming bytes
/// still to be read.
#[derive(Clone, Copy, Debug)]
pub struct LzmaRangeDecoder {
    pub range: u32,
    pub code: u32,
    pub init_bytes_left: u32,
}

impl Default for LzmaRangeDecoder {
    fn default() -> (rc: LzmaRangeDecoder)
        ensures
            rc.range == 0,
            rc.code == 0,
            rc.init_bytes_left == 0,
    {
        LzmaRangeDecoder { range: 0, code: 0, init_bytes_left: 0 }
    }
}

/// What priming decides: the status, the decoder, and the number of
/// bytes taken.
pub struct Primed {
    pub ret: LzmaRet,
    pub rc: LzmaRangeDecoder,
    pub used: nat,
}

/// What reading a bit decides: the decoder, the probability, the number
/// of bytes taken, and the bit, or nothing where a byte was needed and
/// none was there.
pub struct BitRead {
    pub rc: LzmaRangeDecoder,
    pub prob: u16,
    pub used: nat,
    pub bit: Option<u32>,
}

/// The code after `bytes` have been shifted in below it, eight bits
/// each, the bits above 32 falling away.
pub open spec fn code_after(code: u32, bytes: Seq<u8>) -> u32
    decreases bytes.len(),
{
    if bytes.len() == 0 {
        code
    } else {
        ((code_after(code, bytes.drop_last()) * 256 + bytes.last()) % 0x1_0000_0000) as u32
    }
}

proof fn lemma_shift_in(code: u32, byte: u8)
    by (bit_vector)
    ensures
        (code << 8) | (byte as u32) == (code * 256 + byte) % 0x1_0000_0000,
{
}

proof fn lemma_range_parts(range: u32)
    by (bit_vector)
    ensures
        range >> 11 == range / 2048,
        range >> 1 == range / 2,
        range < 0x100_0000 ==> range << 8 == range * 256,
{
}

proof fn lemma_sign_mask(x: u32)
    by (bit_vector)
    ensures
        x >> 31 == (if x >= 0x8000_0000 {
            1u32
        } else {
            0u32
        }),
        x & 0 == 0,
        x & 0xFFFF_FFFF == x,
{
}

proof fn lemma_shl_one(x: u32)
    by (bit_vector)
    ensures
        x << 1 == (2 * x) % 0x1_0000_0000,
{
}

impl LzmaRangeDecoder {
    /// No more than the five priming bytes are left to read.
    pub open spec fn wf(self) -> bool {
        self.init_bytes_left <= 5
    }

    /// The decoder as `rc_reset` leaves it.
    pub open spec fn fresh() -> LzmaRangeDecoder {
        LzmaRangeDecoder { range: u32::MAX, code: 0, init_bytes_left: 5 }
    }

    /// Priming on the bytes `input`. The first of the five priming bytes
    /// must be zero: any other value is corrupt data, and nothing is
    /// taken. Otherwise as many bytes are taken as are wanted and there,
    /// and priming ends when none is wanted any more.
    pub open spec fn primed(self, input: Seq<u8>) -> Primed {
        let n = if self.init_bytes_left <= input.len() {
            self.init_bytes_left as nat
        } else {
            input.len()
        };
        if self.init_bytes_left == 5 && input.len() >= 1 && input[0] != 0 {
            Primed { ret: LzmaRet::DataError, rc: self, used: 0 }
        } else {
            Primed {
                ret: if n == self.init_bytes_left {
                    LzmaRet::StreamEnd
                } else {
                    LzmaRet::LzmaOk
                },
                rc: LzmaRangeDecoder {
                    code: code_after(self.code, input.take(n as int)),
                    init_bytes_left: (self.init_bytes_left - n) as u32,
                    ..self
                },
                used: n,
            }
        }
    }

    /// Whether the decoder needs a byte before it can decode.
    pub open spec fn hungry(self) -> bool {
        self.range < RC_TOP_VALUE
    }

    /// The decoder after a range below 2^24 has been widened by eight
    /// bits and the byte `byte` shifted into the code.
    pub open spec fn fed(self, byte: u8) -> LzmaRangeDecoder {
        LzmaRangeDecoder {
            range: (self.range * 256) as u32,
            code: code_after(self.code, seq![byte]),
            ..self
        }
    }

    /// The decoder ready to decode on the bytes `input`: fed with the
    /// first byte where it was hungry.
    pub open spec fn normalized(self, input: Seq<u8>) -> LzmaRangeDecoder {
        if self.hungry() {
            self.fed(input[0])
        } else {
            self
        }
    }

    /// The part of the range that belongs to a 0 bit of probability
    /// `prob`.
    pub open spec fn bound(self, prob: u16) -> u32 {
        ((self.range / 2048) * prob) as u32
    }

    /// Decoding one bit with the probability `prob` on the bytes
    /// `input`: the bit is 0 where the code lies below the bound, and the
    /// probability is adapted as the encoder adapts it.
    pub open spec fn bit_read(self, prob: u16, input: Seq<u8>) -> BitRead {
        if self.hungry() && input.len() == 0 {
            BitRead { rc: self, prob, used: 0, bit: None }
        } else {
            let rc = self.normalized(input);
            let used: nat = if self.hungry() {
                1
            } else {
                0
            };
            let bound = rc.bound(prob);
            if rc.code < bound {
                BitRead {
                    rc: LzmaRangeDecoder { range: bound, ..rc },
                    prob: prob_after_0(prob),
                    used,
                    bit: Some(0),
                }
            } else {
                BitRead {
                    rc: LzmaRangeDecoder {
                        range: (rc.range - bound) as u32,
                        code: (rc.code - bound) as u32,
                        ..rc
                    },
                    prob: prob_after_1(prob),
                    used,
                    bit: Some(1),
                }
            }
        }
    }

    /// Whether a bit decoded without a probability is a 1: the code,
    /// less half the range and taken in 32 bits, has its top bit clear.
    /// Where the code is below the range this says that the code is at
    /// least half the range.
    pub open spec fn direct_is_one(self) -> bool {
        self.code.wrapping_sub(self.range / 2) < 0x8000_0000
    }

    /// The decoder after a bit was decoded without a probability.
    pub open spec fn direct_read(self) -> LzmaRangeDecoder {
        LzmaRangeDecoder {
            range: self.range / 2,
            code: if self.direct_is_one() {
                self.code.wrapping_sub(self.range / 2)
            } else {
                self.code
            },
            ..self
        }
    }
}

/// Priming from scratch: a stream whose first byte is not zero is
/// corrupt; a zero byte and four more bytes, whatever follows, end the
/// priming with the four bytes as the code, highest first.
pub proof fn lemma_priming(input: Seq<u8>)
    ensures
        input.len() >= 1 && input[0] != 0 ==> LzmaRangeDecoder::fresh().primed(input).ret
            == LzmaRet::DataError,
        input.len() >= 5 && input[0] == 0 ==> {
            let p = LzmaRangeDecoder::fresh().primed(input);
            &&& p.ret == LzmaRet::StreamEnd
            &&& p.used == 5
            &&& p.rc.init_bytes_left == 0
            &&& p.rc.range == u32::MAX
            &&& p.rc.code == input[1] * 0x100_0000 + input[2] * 0x1_0000 + input[3] * 0x100
                + input[4]
        },
        input.len() < 5 && (input.len() == 0 || input[0] == 0) ==> {
            let p = LzmaRangeDecoder::fresh().primed(input);
            &&& p.ret == LzmaRet::LzmaOk
            &&& p.used == input.len()
            &&& p.rc.init_bytes_left == 5 - input.len()
        },
{
    if input.len() >= 5 && input[0] == 0 {
        let t5 = input.take(5);
        let t4 = t5.drop_last();
        let t3 = t4.drop_last();
        let t2 = t3.drop_last();
        let t1 = t2.drop_last();
        assert(t1.drop_last().len() == 0);
        assert(code_after(0, t1.drop_last()) == 0);
        assert(code_after(0, t1) == 0);
        assert(code_after(0, t2) == input[1]);
        assert(code_after(0, t3) == input[1] * 0x100 + input[2]);
        assert(code_after(0, t4) == input[1] * 0x1_0000 + input[2] * 0x100 + input[3]);
    }
}

/// Reads what is left of the five priming bytes from `in_`, from
/// `in_pos` up to `in_size`.
pub fn rc_read_init(rc: &mut LzmaRangeDecoder, in_: &[u8], in_pos: &mut usize, in_size: usize) -> (ret:
    LzmaRet)
    requires
        old(rc).wf(),
        *old(in_pos) <= in_size <= in_@.len(),
    ensures
        ret == old(rc).primed(in_@.subrange(*old(in_pos) as int, in_size as int)).ret,
        *final(rc) == old(rc).primed(in_@.subrange(*old(in_pos) as int, in_size as int)).rc,
        *final(in_pos) == *old(in_pos) + old(rc).primed(
            in_@.subrange(*old(in_pos) as int, in_size as int),
        ).used,
        final(rc).wf(),
{
    let ghost input = in_@.subrange(*in_pos as int, in_size as int);
    let ghost start = *in_pos;
    proof {
        assert(input.take(0).len() == 0);
    }
    while rc.init_bytes_left > 0
        invariant
            start == *old(in_pos),
            start <= *in_pos <= in_size <= in_@.len(),
            input == in_@.subrange(start as int, in_size as int),
            old(rc).wf(),
            *in_pos - start <= old(rc).init_bytes_left,
            old(rc).init_bytes_left == 5 && *in_pos > start ==> input[0] == 0,
            *rc == (LzmaRangeDecoder {
                code: code_after(old(rc).code, input.take(*in_pos - start)),
                init_bytes_left: (old(rc).init_bytes_left - (*in_pos - start)) as u32,
                ..*old(rc)
            }),
        decreases rc.init_bytes_left,
    {
        if *in_pos == in_size {
            proof {
                assert(input.take(input.len() as int) =~= input);
            }
            return LzmaRet::LzmaOk;
        }
        if rc.init_bytes_left == 5 && in_[*in_pos] != 0x00 {
            proof {
                assert(input.take(0).len() == 0);
            }
            return LzmaRet::DataError;
        }
        proof {
            lemma_shift_in(rc.code, in_@[*in_pos as int]);
            let k = *in_pos - start;
            assert(input.take(k + 1).drop_last() =~= input.take(k));
        }
        rc.code = (rc.code << 8) | (in_[*in_pos] as u32);
        *in_pos += 1;
        rc.init_bytes_left = rc.init_bytes_left.wrapping_sub(1);
    }
    LzmaRet::StreamEnd
}

impl LzmaRangeDecoder {
    /// Makes the decoder ready for a new stream: the whole range, no
    /// code, five priming bytes to read.
    pub fn rc_reset(&mut self)
        ensures
            *final(self) == LzmaRangeDecoder::fresh(),
    {
        self.range = u32::MAX;
        self.code = 0;
        self.init_bytes_left = 5;
    }

    /// Whether the code has run out: at the end of a sound stream it is
    /// zero.
    pub fn rc_is_finished(&self) -> (done: bool)
        ensures
            done == (self.code == 0),
    {
        self.code == 0
    }

    /// Widens a range below 2^24 by eight bits and shifts the next byte
    /// of `in_` into the code. Returns false, with nothing changed,
    /// where a byte is needed and none is left.
    pub fn rc_normalize(&mut self, in_: &[u8], in_pos: &mut usize, in_size: usize) -> (ready: bool)
        requires
            *old(in_pos) <= in_size <= in_@.len(),
        ensures
            ready == !(old(self).hungry() && *old(in_pos) == in_size),
            !ready ==> *final(self) == *old(self) && *final(in_pos) == *old(in_pos),
            ready ==> *final(self) == old(self).normalized(
                in_@.subrange(*old(in_pos) as int, in_size as int),
            ),
            ready ==> *final(in_pos) == *old(in_pos) + (if old(self).hungry() {
                1int
            } else {
                0int
            }),
            ready ==> old(self).range >= 0x1_0000 ==> final(self).range >= RC_TOP_VALUE,
    {
        if self.range < RC_TOP_VALUE {
            if *in_pos == in_size {
                return false;
            }
            proof {
                lemma_range_parts(self.range);
                lemma_shift_in(self.code, in_@[*in_pos as int]);
                let one = seq![in_@[*in_pos as int]];
                assert(one.drop_last().len() == 0);
                assert(code_after(self.code, one.drop_last()) == self.code);
            }
            self.range <<= RC_SHIFT_BITS;
            self.code = (self.code << RC_SHIFT_BITS) | (in_[*in_pos] as u32);
            *in_pos += 1;
        }
        true
    }

    /// Decodes one bit with the probability `prob` and adapts the
    /// probability. Returns nothing, with nothing changed, where a byte
    /// is needed and none is left.
    pub fn rc_bit(&mut self, prob: &mut u16, in_: &[u8], in_pos: &mut usize, in_size: usize) -> (bit:
        Option<u32>)
        requires
            prob_valid(*old(prob)),
            *old(in_pos) <= in_size <= in_@.len(),
        ensures
            bit == old(self).bit_read(
                *old(prob),
                in_@.subrange(*old(in_pos) as int, in_size as int),
            ).bit,
            *final(self) == old(self).bit_read(
                *old(prob),
                in_@.subrange(*old(in_pos) as int, in_size as int),
            ).rc,
            *final(prob) == old(self).bit_read(
                *old(prob),
                in_@.subrange(*old(in_pos) as int, in_size as int),
            ).prob,
            *final(in_pos) == *old(in_pos) + old(self).bit_read(
                *old(prob),
                in_@.subrange(*old(in_pos) as int, in_size as int),
            ).used,
            prob_valid(*final(prob)),
    {
        if !self.rc_normalize(in_, in_pos, in_size) {
            return None;
        }
        proof {
            lemma_range_parts(self.range);
            lemma_prob_update_closed(*prob);
            let q = self.range as int / 2048;
            let p = *prob as int;
            assert(0 <= q * p <= q * 2048) by (nonlinear_arith)
                requires
                    0 <= q,
                    0 <= p <= 2048,
            ;
        }
        let rc_bound: u32 = (self.range >> 11).wrapping_mul(*prob as u32);
        if self.code < rc_bound {
            self.range = rc_bound;
            *prob = prob_update_0(*prob);
            Some(0)
        } else {
            self.range = self.range.wrapping_sub(rc_bound);
            self.code = self.code.wrapping_sub(rc_bound);
            *prob = prob_update_1(*prob);
            Some(1)
        }
    }

    /// Decodes one bit without a probability and shifts it into `dest`
    /// from below. Returns false, with nothing changed, where a byte is
    /// needed and none is left.
    pub fn rc_direct(&mut self, dest: &mut u32, in_: &[u8], in_pos: &mut usize, in_size: usize) -> (ready:
        bool)
        requires
            *old(in_pos) <= in_size <= in_@.len(),
        ensures
            ready == !(old(self).hungry() && *old(in_pos) == in_size),
            !ready ==> *final(self) == *old(self) && *final(in_pos) == *old(in_pos) && *final(dest)
                == *old(dest),
            ready ==> *final(self) == old(self).normalized(
                in_@.subrange(*old(in_pos) as int, in_size as int),
            ).direct_read(),
            ready ==> *final(in_pos) == *old(in_pos) + (if old(self).hungry() {
                1int
            } else {
                0int
            }),
            ready ==> *final(dest) == (2 * *old(dest) + (if old(self).normalized(
                in_@.subrange(*old(in_pos) as int, in_size as int),
            ).direct_is_one() {
                1int
            } else {
                0int
            })) % 0x1_0000_0000,
    {
        if !self.rc_normalize(in_, in_pos, in_size) {
            return false;
        }
        proof {
            lemma_range_parts(self.range);
            lemma_shl_one(*dest);
        }
        self.range >>= 1;
        self.code = self.code.wrapping_sub(self.range);
        proof {
            lemma_sign_mask(self.code);
        }
        let rc_bound: u32 = 0u32.wrapping_sub(self.code >> 31);
        proof {
            lemma_sign_mask(self.range);
        }
        self.code = self.code.wrapping_add(self.range & rc_bound);
        *dest = *dest << 1;
        *dest = (*dest).wrapping_add(rc_bound.wrapping_add(1));
        true
    }
}

} // verus!
