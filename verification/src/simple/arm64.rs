use vstd::prelude::*;
use byteorder::ByteOrder;
use crate::bitops::{add32, sub32, pc_at, lemma_wrapping_32, position_at};
use crate::seqs::splice;
use crate::simple::arm::words_end;
use crate::api::base::LzmaRet;
use crate::common::common::{CoderType, LzmaFilterInfo, LzmaNextCoder};
use crate::simple::simple_coder::{
    chain_built, chain_fits, lzma_simple_coder_init, options_fit, stage_fresh, start_offset_of,
    SIMPLE_UNFILTERED_MAX,
};
use crate::simple::simple_private::{SimpleFilter, SimpleType};

verus! {

/// The 32-bit value whose bytes, lowest first, are the four bytes `w`.
pub open spec fn le32(w: Seq<u8>) -> u32 {
    le32_of(w[0], w[1], w[2], w[3])
}

/// The 32-bit value whose bytes, lowest first, are `b0` to `b3`.
pub open spec fn le32_of(b0: u8, b1: u8, b2: u8, b3: u8) -> u32 {
    (b0 as u32) | ((b1 as u32) << 8) | ((b2 as u32) << 16) | ((b3 as u32) << 24)
}

/// The four bytes of `v`, lowest first.
pub open spec fn le_bytes(v: u32) -> Seq<u8> {
    seq![v as u8, (v >> 8) as u8, (v >> 16) as u8, (v >> 24) as u8]
}

proof fn lemma_le32_bits(b0: u8, b1: u8, b2: u8, b3: u8, v: u32)
    by (bit_vector)
    ensures
        le32_of(b0, b1, b2, b3) as u8 == b0,
        (le32_of(b0, b1, b2, b3) >> 8) as u8 == b1,
        (le32_of(b0, b1, b2, b3) >> 16) as u8 == b2,
        (le32_of(b0, b1, b2, b3) >> 24) as u8 == b3,
        le32_of(v as u8, (v >> 8) as u8, (v >> 16) as u8, (v >> 24) as u8) == v,
        le32_of(b0, b1, b2, b3) == b0 + 0x100 * b1 + 0x1_0000 * b2 + 0x100_0000 * b3,
{
}

/// Four bytes and the value they stand for determine each other; the
/// value is the sum of the bytes, each weighted by its place.
pub proof fn lemma_le32_bytes(w: Seq<u8>, v: u32)
    requires
        w.len() == 4,
    ensures
        le_bytes(le32(w)) == w,
        le32(le_bytes(v)) == v,
        le_bytes(v).len() == 4,
        le32(w) == w[0] + 0x100 * w[1] + 0x1_0000 * w[2] + 0x100_0000 * w[3],
{
    lemma_le32_bits(w[0], w[1], w[2], w[3], v);
    assert(le_bytes(le32(w)) =~= w);
}

/// `byteorder::LittleEndian::read_u32` on the four bytes of `buf` from
/// `at` on: the value whose bytes, lowest first, they are.
#[verifier::external_body]
fn le_read_u32(buf: &[u8], at: usize) -> (v: u32)
    requires
        at + 4 <= buf@.len(),
    ensures
        v == le32(buf@.subrange(at as int, at + 4)),
{
    byteorder::LittleEndian::read_u32(&buf[at..at + 4])
}

/// `byteorder::LittleEndian::write_u32` on the four bytes of `buf` from
/// `at` on: they become the bytes of `v`, lowest first, and no other
/// byte changes.
#[verifier::external_body]
fn le_write_u32(buf: &mut [u8], at: usize, v: u32)
    requires
        at + 4 <= old(buf)@.len(),
    ensures
        final(buf)@ == splice(old(buf)@, at as int, le_bytes(v)),
{
    byteorder::LittleEndian::write_u32(&mut buf[at..at + 4], v)
}

/// A BL instruction: the top six bits are 100101.
pub open spec fn arm64_is_bl(instr: u32) -> bool {
    instr >> 26 == 0x25
}

/// An ADRP instruction: bit 31 is set and bits 24 to 28 are 10000.
pub open spec fn arm64_is_adrp(instr: u32) -> bool {
    instr & 0x9F00_0000 == 0x9000_0000
}

/// The 21-bit page offset of an ADRP instruction: its two low bits stand
/// in bits 29 and 30, the rest in bits 5 to 23.
pub open spec fn arm64_adrp_imm(instr: u32) -> u32 {
    ((instr >> 29) & 3) | ((instr >> 3) & 0x001F_FFFC)
}

/// Whether the page offset is within 512 MiB either way: only such an
/// ADRP is converted.
pub open spec fn arm64_adrp_near(src: u32) -> bool {
    add32(src, 0x0002_0000) & 0x001C_0000 == 0
}

/// What the address `pc` adds to an offset counted in units of
/// `2^shift` bytes: the address in those units when encoding, its
/// negative when decoding.
pub open spec fn arm64_delta(pc: u32, shift: u32, is_encoder: bool) -> u32 {
    if is_encoder {
        pc >> shift
    } else {
        sub32(0, pc >> shift)
    }
}

/// One instruction, converted. A BL gets the word address added to its
/// 26-bit offset. An ADRP within range gets the page address added to
/// its offset, kept to 18 bits and sign-extended to 21. Whatever else
/// stays.
pub open spec fn arm64_instr(instr: u32, pc: u32, is_encoder: bool) -> u32 {
    if arm64_is_bl(instr) {
        0x9400_0000 | (add32(instr, arm64_delta(pc, 2, is_encoder)) & 0x03FF_FFFF)
    } else if arm64_is_adrp(instr) {
        let src = arm64_adrp_imm(instr);
        if !arm64_adrp_near(src) {
            instr
        } else {
            let dest = add32(src, arm64_delta(pc, 12, is_encoder));
            (instr & 0x9000_001F) | ((dest & 3) << 29) | ((dest & 0x0003_FFFC) << 3) | (sub32(
                0,
                dest & 0x0002_0000,
            ) & 0x00E0_0000)
        }
    } else {
        instr
    }
}

/// One instruction word, converted.
#[verifier::opaque]
pub open spec fn arm64_word(w: Seq<u8>, pc: u32, is_encoder: bool) -> Seq<u8> {
    le_bytes(arm64_instr(le32(w), pc, is_encoder))
}

/// The buffer with every whole word of its first `size` bytes converted,
/// the word at offset `i` taken to lie at `now_pos + i`.
#[verifier::opaque]
pub open spec fn arm64_filtered(buf: Seq<u8>, now_pos: u32, is_encoder: bool, size: nat) -> Seq<u8> {
    Seq::new(
        buf.len(),
        |k: int|
            if 0 <= k < words_end(size) {
                arm64_word(
                    buf.subrange(k - k % 4, k - k % 4 + 4),
                    pc_at(now_pos, (k - k % 4) as nat),
                    is_encoder,
                )[k % 4]
            } else {
                buf[k]
            },
    )
}

proof fn lemma_arm64_bits(instr: u32, pc: u32)
    by (bit_vector)
    ensures
        arm64_instr(arm64_instr(instr, pc, true), pc, false) == instr,
        arm64_instr(arm64_instr(instr, pc, false), pc, true) == instr,
{
}

/// Converting an instruction one way and then the other gives the
/// instruction back, at any address.
pub proof fn lemma_arm64_word_round_trip(w: Seq<u8>, pc: u32, is_encoder: bool)
    requires
        w.len() == 4,
    ensures
        arm64_word(arm64_word(w, pc, is_encoder), pc, !is_encoder) == w,
        arm64_word(w, pc, is_encoder).len() == 4,
{
    reveal(arm64_word);
    let x = le32(w);
    lemma_arm64_bits(x, pc);
    lemma_le32_bytes(w, arm64_instr(x, pc, is_encoder));
}

/// The word at `base` of the converted buffer is the converted word at
/// `base` of the buffer.
#[verifier::spinoff_prover]
#[verifier::rlimit(40)]
proof fn lemma_arm64_filtered_word(buf: Seq<u8>, now_pos: u32, is_encoder: bool, size: nat, base: int)
    requires
        size <= buf.len(),
        0 <= base,
        base % 4 == 0,
        base + 4 <= words_end(size),
        arm64_word(buf.subrange(base, base + 4), pc_at(now_pos, base as nat), is_encoder).len()
            == 4,
    ensures
        arm64_filtered(buf, now_pos, is_encoder, size).subrange(base, base + 4) == arm64_word(
            buf.subrange(base, base + 4),
            pc_at(now_pos, base as nat),
            is_encoder,
        ),
{
    let mid = arm64_filtered(buf, now_pos, is_encoder, size);
    let w = arm64_word(buf.subrange(base, base + 4), pc_at(now_pos, base as nat), is_encoder);
    assert(mid.len() == buf.len()) by {
        reveal(arm64_filtered);
    }
    assert forall|j: int| 0 <= j < 4 implies mid.subrange(base, base + 4)[j] == w[j] by {
        crate::simple::arm::lemma_word_index(base, j);
        lemma_arm64_filtered_at(buf, now_pos, is_encoder, size, base + j);
    }
    assert(mid.subrange(base, base + 4) =~= w);
}

/// The converted buffer is as long as the buffer, and the bytes behind
/// the whole words are those of the buffer.
pub proof fn lemma_arm64_filtered_tail(buf: Seq<u8>, now_pos: u32, is_encoder: bool, size: nat, k: int)
    ensures
        arm64_filtered(buf, now_pos, is_encoder, size).len() == buf.len(),
        words_end(size) <= k < buf.len() ==> arm64_filtered(buf, now_pos, is_encoder, size)[k]
            == buf[k],
{
    reveal(arm64_filtered);
}

/// The byte `k` of the converted buffer, where it lies in a whole word.
pub proof fn lemma_arm64_filtered_at(buf: Seq<u8>, now_pos: u32, is_encoder: bool, size: nat, k: int)
    requires
        0 <= k < words_end(size),
        size <= buf.len(),
    ensures
        arm64_filtered(buf, now_pos, is_encoder, size)[k] == arm64_word(
            buf.subrange(k - k % 4, k - k % 4 + 4),
            pc_at(now_pos, (k - k % 4) as nat),
            is_encoder,
        )[k % 4],
{
    reveal(arm64_filtered);
}

/// The ARM64 converter undoes itself: decoding what was encoded, or
/// encoding what was decoded, at the same position gives the bytes
/// back.
#[verifier::rlimit(40)]
pub proof fn lemma_arm64_round_trip(buf: Seq<u8>, now_pos: u32, is_encoder: bool, size: nat)
    requires
        size <= buf.len(),
    ensures
        arm64_filtered(arm64_filtered(buf, now_pos, is_encoder, size), now_pos, !is_encoder, size)
            == buf,
{
    let mid = arm64_filtered(buf, now_pos, is_encoder, size);
    let back = arm64_filtered(mid, now_pos, !is_encoder, size);
    assert(mid.len() == buf.len() && back.len() == buf.len()) by {
        reveal(arm64_filtered);
    }
    assert forall|k: int| 0 <= k < buf.len() implies back[k] == buf[k] by {
        if k < words_end(size) {
            let base = k - k % 4;
            let pc = pc_at(now_pos, base as nat);
            let w = buf.subrange(base, base + 4);
            lemma_arm64_word_round_trip(w, pc, is_encoder);
            lemma_arm64_filtered_word(buf, now_pos, is_encoder, size, base);
            let e = arm64_word(w, pc, is_encoder);
            lemma_arm64_word_round_trip(e, pc, !is_encoder);
            lemma_arm64_filtered_word(mid, now_pos, !is_encoder, size, base);
            assert(back.subrange(base, base + 4) == w);
            assert(back[k] == back.subrange(base, base + 4)[k - base]);
            assert(buf[k] == w[k - base]);
        } else {
            reveal(arm64_filtered);
        }
    }
    assert(back =~= buf);
}

proof fn lemma_arm64_next_word(buf: Seq<u8>, now_pos: u32, is_encoder: bool, i: nat)
    requires
        i % 4 == 0,
        i + 4 <= buf.len(),
    ensures
        arm64_filtered(buf, now_pos, is_encoder, i + 4) == splice(
            arm64_filtered(buf, now_pos, is_encoder, i),
            i as int,
            arm64_word(buf.subrange(i as int, i as int + 4), pc_at(now_pos, i), is_encoder),
        ),
        arm64_filtered(buf, now_pos, is_encoder, i).subrange(i as int, i as int + 4)
            == buf.subrange(i as int, i as int + 4),
        arm64_filtered(buf, now_pos, is_encoder, i).len() == buf.len(),
        arm64_filtered(buf, now_pos, is_encoder, 0) == buf,
        forall|size: nat|
            words_end(size) == i ==> arm64_filtered(buf, now_pos, is_encoder, size)
                == arm64_filtered(buf, now_pos, is_encoder, i),
{
    reveal(arm64_filtered);
    assert(arm64_filtered(buf, now_pos, is_encoder, 0) =~= buf);
    assert forall|size: nat| words_end(size) == i implies arm64_filtered(
        buf,
        now_pos,
        is_encoder,
        size,
    ) == arm64_filtered(buf, now_pos, is_encoder, i) by {
        assert(arm64_filtered(buf, now_pos, is_encoder, size) =~= arm64_filtered(
            buf,
            now_pos,
            is_encoder,
            i,
        ));
    }
    lemma_arm64_word_round_trip(
        buf.subrange(i as int, i as int + 4),
        pc_at(now_pos, i),
        is_encoder,
    );
    let a = arm64_filtered(buf, now_pos, is_encoder, i + 4);
    let b = splice(
        arm64_filtered(buf, now_pos, is_encoder, i),
        i as int,
        arm64_word(buf.subrange(i as int, i as int + 4), pc_at(now_pos, i), is_encoder),
    );
    assert forall|k: int| 0 <= k < buf.len() implies a[k] == b[k] by {
        if i <= k < i + 4 {
            assert(k - k % 4 == i);
        }
    }
    assert(a =~= b);
    assert(arm64_filtered(buf, now_pos, is_encoder, i).subrange(i as int, i as int + 4)
        =~= buf.subrange(i as int, i as int + 4));
}

/// Converts the instruction at `i`, which lies at the address `pc`.
fn arm64_convert(buffer: &mut [u8], i: usize, pc: u32, is_encoder: bool)
    requires
        i + 4 <= old(buffer)@.len(),
    ensures
        final(buffer)@ == splice(
            old(buffer)@,
            i as int,
            arm64_word(old(buffer)@.subrange(i as int, i + 4), pc, is_encoder),
        ),
{
    let ghost w = buffer@.subrange(i as int, i + 4);
    let mut instr: u32 = le_read_u32(buffer, i);
    proof {
        reveal(arm64_word);
        lemma_le32_bytes(w, instr);
        assert(splice(old(buffer)@, i as int, w) =~= old(buffer)@);
    }
    if (instr >> 26) == 0x25 {
        let src: u32 = instr;
        instr = 0x94000000;
        let mut pc: u32 = pc >> 2;
        if !is_encoder {
            proof {
                lemma_wrapping_32(0, pc);
            }
            pc = 0u32.wrapping_sub(pc);
        }
        proof {
            lemma_wrapping_32(src, pc);
        }
        instr |= (src.wrapping_add(pc)) & 0x03FF_FFFF;
        le_write_u32(buffer, i, instr);
    } else if (instr & 0x9F00_0000) == 0x9000_0000 {
        let src: u32 = ((instr >> 29) & 3) | ((instr >> 3) & 0x001F_FFFC);
        proof {
            lemma_wrapping_32(src, 0x0002_0000);
        }
        if (src.wrapping_add(0x0002_0000)) & 0x001C_0000 != 0 {
            return ;
        }
        instr &= 0x9000_001F;
        let mut pc: u32 = pc >> 12;
        if !is_encoder {
            proof {
                lemma_wrapping_32(0, pc);
            }
            pc = 0u32.wrapping_sub(pc);
        }
        proof {
            lemma_wrapping_32(src, pc);
        }
        let dest: u32 = src.wrapping_add(pc);
        proof {
            lemma_wrapping_32(0, dest & 0x0002_0000);
        }
        instr |= (dest & 3) << 29;
        instr |= (dest & 0x0003_FFFC) << 3;
        instr |= (0u32.wrapping_sub(dest & 0x0002_0000)) & 0x00E0_0000;
        le_write_u32(buffer, i, instr);
    }
}

/// Converts the BL and ADRP offsets of ARM64 code in the first `size`
/// bytes of `buffer`, which lie at `now_pos`, and returns the number of
/// bytes dealt with: a word that is cut off at the end is left for the
/// next call.
pub fn arm64_code(_simple: &mut SimpleType, now_pos: u32, is_encoder: bool, buffer: &mut [u8], size: usize) -> (done:
    usize)
    requires
        size <= old(buffer)@.len(),
    ensures
        done == words_end(size as nat),
        final(buffer)@ == arm64_filtered(old(buffer)@, now_pos, is_encoder, size as nat),
        *final(_simple) == *old(_simple),
{
    let mut i: usize = 0;
    proof {
        reveal(arm64_filtered);
        assert(buffer@ =~= arm64_filtered(old(buffer)@, now_pos, is_encoder, 0));
    }
    while size - i >= 4
        invariant
            i <= size <= buffer@.len(),
            i % 4 == 0,
            buffer@.len() == old(buffer)@.len(),
            buffer@ == arm64_filtered(old(buffer)@, now_pos, is_encoder, i as nat),
        decreases size - i,
    {
        proof {
            lemma_arm64_next_word(old(buffer)@, now_pos, is_encoder, i as nat);
        }
        let pc: u32 = position_at(now_pos, i);
        arm64_convert(buffer, i, pc, is_encoder);
        i += 4;
    }
    proof {
        assert(words_end(size as nat) == i);
        reveal(arm64_filtered);
        assert(buffer@ =~= arm64_filtered(old(buffer)@, now_pos, is_encoder, size as nat));
    }
    i
}

/// Sets up a stage that converts ARM64 code, and the chain behind it: a
/// word may be cut off at the end of what the converter is given, so up
/// to four bytes can wait, and the data must start at a multiple of
/// 4.
pub fn arm64_coder_init(next: &mut LzmaNextCoder, filters: &[LzmaFilterInfo], is_encoder: bool) -> (ret:
    LzmaRet)
    requires
        filters@.len() >= 1,
        old(next).wf(),
    ensures
        ret == (if options_fit(filters@[0].options, 4) && chain_fits(filters@.skip(1)) {
            LzmaRet::LzmaOk
        } else {
            LzmaRet::OptionsError
        }),
        final(next).wf(),
        final(next).id == old(next).id,
        final(next).init == old(next).init,
        ret == LzmaRet::LzmaOk ==> match final(next).coder {
            None => false,
            Some(b) => match *b {
                CoderType::SimpleCoder(c) => stage_fresh(
                    c,
                    SimpleFilter::Arm64,
                    is_encoder,
                    start_offset_of(filters@[0].options)->0,
                    2 * SIMPLE_UNFILTERED_MAX as int,
                ) && chain_built(*c.next, filters@.skip(1)),
            },
        },
    decreases filters@.len(), 1int,
{
    lzma_simple_coder_init(next, filters, SimpleFilter::Arm64, 0, 4, 4, is_encoder)
}

/// Sets up a stage that encodes ARM64 code.
pub fn lzma_simple_arm64_encoder_init(next: &mut LzmaNextCoder, filters: &[LzmaFilterInfo]) -> (ret:
    LzmaRet)
    requires
        filters@.len() >= 1,
        old(next).wf(),
    ensures
        ret == (if options_fit(filters@[0].options, 4) && chain_fits(filters@.skip(1)) {
            LzmaRet::LzmaOk
        } else {
            LzmaRet::OptionsError
        }),
        final(next).wf(),
        final(next).id == old(next).id,
        final(next).init == old(next).init,
        ret == LzmaRet::LzmaOk ==> match final(next).coder {
            None => false,
            Some(b) => match *b {
                CoderType::SimpleCoder(c) => stage_fresh(
                    c,
                    SimpleFilter::Arm64,
                    true,
                    start_offset_of(filters@[0].options)->0,
                    2 * SIMPLE_UNFILTERED_MAX as int,
                ) && chain_built(*c.next, filters@.skip(1)),
            },
        },
    decreases filters@.len(), 2int,
{
    arm64_coder_init(next, filters, true)
}

/// Sets up a stage that decodes ARM64 code.
pub fn lzma_simple_arm64_decoder_init(next: &mut LzmaNextCoder, filters: &[LzmaFilterInfo]) -> (ret:
    LzmaRet)
    requires
        filters@.len() >= 1,
        old(next).wf(),
    ensures
        ret == (if options_fit(filters@[0].options, 4) && chain_fits(filters@.skip(1)) {
            LzmaRet::LzmaOk
        } else {
            LzmaRet::OptionsError
        }),
        final(next).wf(),
        final(next).id == old(next).id,
        final(next).init == old(next).init,
        ret == LzmaRet::LzmaOk ==> match final(next).coder {
            None => false,
            Some(b) => match *b {
                CoderType::SimpleCoder(c) => stage_fresh(
                    c,
                    SimpleFilter::Arm64,
                    false,
                    start_offset_of(filters@[0].options)->0,
                    2 * SIMPLE_UNFILTERED_MAX as int,
                ) && chain_built(*c.next, filters@.skip(1)),
            },
        },
    decreases filters@.len(), 2int,
{
    arm64_coder_init(next, filters, false)
}

} // verus!
