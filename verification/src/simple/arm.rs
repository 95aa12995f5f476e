use vstd::prelude::*;
use crate::bitops::{add32, sub32, pc_at, lemma_wrapping_32, position_at};
use crate::api::base::LzmaRet;
use crate::common::common::{CoderType, LzmaFilterInfo, LzmaNextCoder};
use crate::simple::simple_coder::{
    chain_built, chain_fits, lzma_simple_coder_init, options_fit, stage_fresh, start_offset_of,
    SIMPLE_UNFILTERED_MAX,
};
use crate::simple::simple_private::{SimpleFilter, SimpleType};
use crate::seqs::splice;

verus! {

/// The 24-bit branch offset of an ARM instruction, from its three low
/// bytes.
pub open spec fn arm_imm(b0: u8, b1: u8, b2: u8) -> u32 {
    ((b2 as u32) << 16) | ((b1 as u32) << 8) | (b0 as u32)
}

/// The offset that replaces `imm` in a branch at the address `pc`. The
/// offset counts words from eight bytes behind the instruction: encoding
/// adds that address to it, decoding takes it off again.
pub open spec fn arm_target(imm: u32, pc: u32, is_encoder: bool) -> u32 {
    let src = imm << 2;
    let here = add32(pc, 8);
    let dest = if is_encoder {
        add32(here, src)
    } else {
        sub32(src, here)
    };
    dest >> 2
}

/// One instruction word, converted: a branch-with-link, whose top byte
/// is 0xEB, gets its offset replaced; any other word stays.
#[verifier::opaque]
pub open spec fn arm_word(w: Seq<u8>, pc: u32, is_encoder: bool) -> Seq<u8> {
    if w[3] == 0xEB {
        let d = arm_target(arm_imm(w[0], w[1], w[2]), pc, is_encoder);
        seq![d as u8, (d >> 8) as u8, (d >> 16) as u8, w[3]]
    } else {
        w
    }
}

/// The byte `j` of the word at `base` belongs to that word.
pub proof fn lemma_word_index(base: int, j: int)
    requires
        base % 4 == 0,
        0 <= j < 4,
    ensures
        (base + j) % 4 == j,
        (base + j) - (base + j) % 4 == base,
{
}

/// The number of bytes in the whole words of the first `size` bytes.
pub open spec fn words_end(size: nat) -> nat {
    (size - size % 4) as nat
}

/// The buffer with every whole word of its first `size` bytes converted,
/// the word at offset `i` taken to lie at `now_pos + i`.
#[verifier::opaque]
pub open spec fn arm_filtered(buf: Seq<u8>, now_pos: u32, is_encoder: bool, size: nat) -> Seq<u8> {
    Seq::new(
        buf.len(),
        |k: int|
            if 0 <= k < words_end(size) {
                arm_word(
                    buf.subrange(k - k % 4, k - k % 4 + 4),
                    pc_at(now_pos, (k - k % 4) as nat),
                    is_encoder,
                )[k % 4]
            } else {
                buf[k]
            },
    )
}

/// The converted buffer is as long as the buffer, and the bytes behind
/// the whole words are those of the buffer.
pub proof fn lemma_arm_filtered_tail(buf: Seq<u8>, now_pos: u32, is_encoder: bool, size: nat, k: int)
    ensures
        arm_filtered(buf, now_pos, is_encoder, size).len() == buf.len(),
        words_end(size) <= k < buf.len() ==> arm_filtered(buf, now_pos, is_encoder, size)[k]
            == buf[k],
{
    reveal(arm_filtered);
}

/// The byte `k` of the converted buffer, where it lies in a whole word.
pub proof fn lemma_arm_filtered_at(buf: Seq<u8>, now_pos: u32, is_encoder: bool, size: nat, k: int)
    requires
        0 <= k < words_end(size),
        size <= buf.len(),
    ensures
        arm_filtered(buf, now_pos, is_encoder, size)[k] == arm_word(
            buf.subrange(k - k % 4, k - k % 4 + 4),
            pc_at(now_pos, (k - k % 4) as nat),
            is_encoder,
        )[k % 4],
{
    reveal(arm_filtered);
}

proof fn lemma_arm_bits(b0: u8, b1: u8, b2: u8, pc: u32)
    by (bit_vector)
    requires
        pc % 4 == 0,
    ensures
        ({
            let d = arm_target(arm_imm(b0, b1, b2), pc, true);
            let e = arm_target(arm_imm(d as u8, (d >> 8) as u8, (d >> 16) as u8), pc, false);
            e as u8 == b0 && (e >> 8) as u8 == b1 && (e >> 16) as u8 == b2
        }),
        ({
            let d = arm_target(arm_imm(b0, b1, b2), pc, false);
            let e = arm_target(arm_imm(d as u8, (d >> 8) as u8, (d >> 16) as u8), pc, true);
            e as u8 == b0 && (e >> 8) as u8 == b1 && (e >> 16) as u8 == b2
        }),
{
}

/// A converted word is a word.
pub proof fn lemma_arm_word_len(w: Seq<u8>, pc: u32, is_encoder: bool)
    requires
        w.len() == 4,
    ensures
        arm_word(w, pc, is_encoder).len() == 4,
{
    reveal(arm_word);
}

/// At a word-aligned address, converting a word one way and then the
/// other gives the word back.
pub proof fn lemma_arm_word_round_trip(w: Seq<u8>, pc: u32, is_encoder: bool)
    requires
        w.len() == 4,
        pc % 4 == 0,
    ensures
        arm_word(arm_word(w, pc, is_encoder), pc, !is_encoder) == w,
        arm_word(w, pc, is_encoder).len() == 4,
{
    reveal(arm_word);
    lemma_arm_bits(w[0], w[1], w[2], pc);
    assert(arm_word(arm_word(w, pc, is_encoder), pc, !is_encoder) =~= w);
}

/// The word at `base` of the converted buffer is the converted word at
/// `base` of the buffer.
#[verifier::spinoff_prover]
#[verifier::rlimit(40)]
proof fn lemma_arm_filtered_word(buf: Seq<u8>, now_pos: u32, is_encoder: bool, size: nat, base: int)
    requires
        size <= buf.len(),
        0 <= base,
        base % 4 == 0,
        base + 4 <= words_end(size),
    ensures
        arm_filtered(buf, now_pos, is_encoder, size).subrange(base, base + 4) == arm_word(
            buf.subrange(base, base + 4),
            pc_at(now_pos, base as nat),
            is_encoder,
        ),
{
    let mid = arm_filtered(buf, now_pos, is_encoder, size);
    let w = arm_word(buf.subrange(base, base + 4), pc_at(now_pos, base as nat), is_encoder);
    lemma_arm_word_len(buf.subrange(base, base + 4), pc_at(now_pos, base as nat), is_encoder);
    lemma_arm_filtered_tail(buf, now_pos, is_encoder, size, 0);
    assert forall|j: int| 0 <= j < 4 implies mid.subrange(base, base + 4)[j] == w[j] by {
        lemma_word_index(base, j);
        lemma_arm_filtered_at(buf, now_pos, is_encoder, size, base + j);
    }
    assert(mid.subrange(base, base + 4) =~= w);
}

/// The ARM converter undoes itself: with the data at a word-aligned
/// position, decoding what was encoded, or encoding what was decoded,
/// gives the bytes back.
#[verifier::spinoff_prover]
#[verifier::rlimit(40)]
pub proof fn lemma_arm_round_trip(buf: Seq<u8>, now_pos: u32, is_encoder: bool, size: nat)
    requires
        size <= buf.len(),
        now_pos % 4 == 0,
    ensures
        arm_filtered(arm_filtered(buf, now_pos, is_encoder, size), now_pos, !is_encoder, size)
            == buf,
{
    let mid = arm_filtered(buf, now_pos, is_encoder, size);
    let back = arm_filtered(mid, now_pos, !is_encoder, size);
    lemma_arm_filtered_tail(buf, now_pos, is_encoder, size, 0);
    lemma_arm_filtered_tail(mid, now_pos, !is_encoder, size, 0);
    assert forall|k: int| 0 <= k < buf.len() implies back[k] == buf[k] by {
        if k < words_end(size) {
            let base = k - k % 4;
            let pc = pc_at(now_pos, base as nat);
            let w = buf.subrange(base, base + 4);
            lemma_arm_word_round_trip(w, pc, is_encoder);
            lemma_arm_filtered_word(buf, now_pos, is_encoder, size, base);
            lemma_arm_filtered_word(mid, now_pos, !is_encoder, size, base);
            assert(back.subrange(base, base + 4) == w);
            assert(back[k] == back.subrange(base, base + 4)[k - base]);
            assert(buf[k] == w[k - base]);
        } else {
            lemma_arm_filtered_tail(buf, now_pos, is_encoder, size, k);
            lemma_arm_filtered_tail(mid, now_pos, !is_encoder, size, k);
        }
    }
    assert(back =~= buf);
}

/// Converting one word more: the words of the first `i + 4` bytes are
/// those of the first `i` bytes and the word at `i`.
proof fn lemma_arm_next_word(buf: Seq<u8>, now_pos: u32, is_encoder: bool, i: nat)
    requires
        i % 4 == 0,
        i + 4 <= buf.len(),
    ensures
        arm_filtered(buf, now_pos, is_encoder, i + 4) == splice(
            arm_filtered(buf, now_pos, is_encoder, i),
            i as int,
            arm_word(buf.subrange(i as int, i as int + 4), pc_at(now_pos, i), is_encoder),
        ),
        arm_filtered(buf, now_pos, is_encoder, i).subrange(i as int, i as int + 4) == buf.subrange(
            i as int,
            i as int + 4,
        ),
{
    reveal(arm_filtered);
    lemma_arm_word_len(buf.subrange(i as int, i as int + 4), pc_at(now_pos, i), is_encoder);
    let a = arm_filtered(buf, now_pos, is_encoder, i + 4);
    let b = splice(
        arm_filtered(buf, now_pos, is_encoder, i),
        i as int,
        arm_word(buf.subrange(i as int, i as int + 4), pc_at(now_pos, i), is_encoder),
    );
    assert forall|k: int| 0 <= k < buf.len() implies a[k] == b[k] by {
        if i <= k < i + 4 {
            assert(k - k % 4 == i);
        }
    }
    assert(a =~= b);
    assert(arm_filtered(buf, now_pos, is_encoder, i).subrange(i as int, i as int + 4) =~= buf.subrange(
        i as int,
        i as int + 4,
    ));
}

/// Converts the word at `i`, which lies at the address `pc`.
fn arm_convert(buffer: &mut [u8], i: usize, pc: u32, is_encoder: bool)
    requires
        i + 4 <= old(buffer)@.len(),
    ensures
        final(buffer)@ == splice(
            old(buffer)@,
            i as int,
            arm_word(old(buffer)@.subrange(i as int, i + 4), pc, is_encoder),
        ),
{
    let ghost w = buffer@.subrange(i as int, i + 4);
    proof {
        reveal(arm_word);
    }
    if buffer[i + 3] == 0xEB {
        let mut src: u32 = ((buffer[i + 2] as u32) << 16) | ((buffer[i + 1] as u32) << 8) | (
        buffer[i] as u32);
        assert(src == arm_imm(w[0], w[1], w[2]));
        src <<= 2;
        let here: u32 = pc.wrapping_add(8);
        proof {
            lemma_wrapping_32(pc, 8);
            lemma_wrapping_32(here, src);
            lemma_wrapping_32(src, here);
        }
        let dest: u32 = if is_encoder {
            here.wrapping_add(src)
        } else {
            src.wrapping_sub(here)
        };
        let dest: u32 = dest >> 2;
        buffer[i + 2] = #[verifier::truncate] ((dest >> 16) as u8);
        buffer[i + 1] = #[verifier::truncate] ((dest >> 8) as u8);
        buffer[i] = #[verifier::truncate] (dest as u8);
    }
    assert(buffer@ =~= splice(old(buffer)@, i as int, arm_word(w, pc, is_encoder)));
}

/// Converts the branch offsets of ARM code in the first `size` bytes of
/// `buffer`, which lie at `now_pos`, and returns the number of bytes
/// dealt with: a word that is cut off at the end is left for the next
/// call.
pub fn arm_code(_simple: &mut SimpleType, now_pos: u32, is_encoder: bool, buffer: &mut [u8], size: usize) -> (done:
    usize)
    requires
        size <= old(buffer)@.len(),
    ensures
        done == words_end(size as nat),
        final(buffer)@ == arm_filtered(old(buffer)@, now_pos, is_encoder, size as nat),
        *final(_simple) == *old(_simple),
{
    let mut i: usize = 0;
    proof {
        reveal(arm_filtered);
        assert(buffer@ =~= arm_filtered(old(buffer)@, now_pos, is_encoder, 0));
    }
    while size - i >= 4
        invariant
            i <= size <= buffer@.len(),
            i % 4 == 0,
            buffer@.len() == old(buffer)@.len(),
            buffer@ == arm_filtered(old(buffer)@, now_pos, is_encoder, i as nat),
        decreases size - i,
    {
        proof {
            lemma_arm_next_word(old(buffer)@, now_pos, is_encoder, i as nat);
        }
        let pc: u32 = position_at(now_pos, i);
        arm_convert(buffer, i, pc, is_encoder);
        i += 4;
    }
    proof {
        assert(words_end(size as nat) == i);
        reveal(arm_filtered);
        assert(buffer@ =~= arm_filtered(old(buffer)@, now_pos, is_encoder, size as nat));
    }
    i
}

/// Sets up a stage that converts ARM code, and the chain behind it: a
/// word may be cut off at the end of what the converter is given, so up
/// to four bytes can wait, and the data must start at a multiple of
/// 4.
pub fn arm_coder_init(next: &mut LzmaNextCoder, filters: &[LzmaFilterInfo], is_encoder: bool) -> (ret:
    LzmaRet)
    requires
        filters@.len() >= 1,
        old(next).wf(),
    ensures
        ret == (if options_fit(filters@[0].options, 4) && chain_fits(filters@.skip(1)) {
            LzmaRet::LzmaOk
        } else {
            LzmaRet::OptionsError
        }),
        final(next).wf(),
        final(next).id == old(next).id,
        final(next).init == old(next).init,
        ret == LzmaRet::LzmaOk ==> match final(next).coder {
            None => false,
            Some(b) => match *b {
                CoderType::SimpleCoder(c) => stage_fresh(
                    c,
                    SimpleFilter::Arm,
                    is_encoder,
                    start_offset_of(filters@[0].options)->0,
                    2 * SIMPLE_UNFILTERED_MAX as int,
                ) && chain_built(*c.next, filters@.skip(1)),
            },
        },
    decreases filters@.len(), 1int,
{
    lzma_simple_coder_init(next, filters, SimpleFilter::Arm, 0, 4, 4, is_encoder)
}

/// Sets up a stage that encodes ARM code.
pub fn lzma_simple_arm_encoder_init(next: &mut LzmaNextCoder, filters: &[LzmaFilterInfo]) -> (ret:
    LzmaRet)
    requires
        filters@.len() >= 1,
        old(next).wf(),
    ensures
        ret == (if options_fit(filters@[0].options, 4) && chain_fits(filters@.skip(1)) {
            LzmaRet::LzmaOk
        } else {
            LzmaRet::OptionsError
        }),
        final(next).wf(),
        final(next).id == old(next).id,
        final(next).init == old(next).init,
        ret == LzmaRet::LzmaOk ==> match final(next).coder {
            None => false,
            Some(b) => match *b {
                CoderType::SimpleCoder(c) => stage_fresh(
                    c,
                    SimpleFilter::Arm,
                    true,
                    start_offset_of(filters@[0].options)->0,
                    2 * SIMPLE_UNFILTERED_MAX as int,
                ) && chain_built(*c.next, filters@.skip(1)),
            },
        },
    decreases filters@.len(), 2int,
{
    arm_coder_init(next, filters, true)
}

/// Sets up a stage that decodes ARM code.
pub fn lzma_simple_arm_decoder_init(next: &mut LzmaNextCoder, filters: &[LzmaFilterInfo]) -> (ret:
    LzmaRet)
    requires
        filters@.len() >= 1,
        old(next).wf(),
    ensures
        ret == (if options_fit(filters@[0].options, 4) && chain_fits(filters@.skip(1)) {
            LzmaRet::LzmaOk
        } else {
            LzmaRet::OptionsError
        }),
        final(next).wf(),
        final(next).id == old(next).id,
        final(next).init == old(next).init,
        ret == LzmaRet::LzmaOk ==> match final(next).coder {
            None => false,
            Some(b) => match *b {
                CoderType::SimpleCoder(c) => stage_fresh(
                    c,
                    SimpleFilter::Arm,
                    false,
                    start_offset_of(filters@[0].options)->0,
                    2 * SIMPLE_UNFILTERED_MAX as int,
                ) && chain_built(*c.next, filters@.skip(1)),
            },
        },
    decreases filters@.len(), 2int,
{
    arm_coder_init(next, filters, false)
}

} // verus!
