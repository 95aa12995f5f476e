use vstd::prelude::*;
use crate::bitops::{add32, sub32, pc_at, lemma_wrapping_32, position_at};
use crate::seqs::splice;
use crate::api::base::LzmaRet;
use crate::common::common::{CoderType, LzmaFilterInfo, LzmaNextCoder};
use crate::simple::simple_coder::{
    chain_built, chain_fits, lzma_simple_coder_init, options_fit, stage_fresh, start_offset_of,
    SIMPLE_UNFILTERED_MAX,
};
use crate::simple::simple_private::{SimpleFilter, SimpleType};

verus! {

/// The five top bits of a byte, which tell the halves of a Thumb BL
/// instruction from other code.
pub open spec fn thumb_class(b: u8) -> u8 {
    b & 0xF8
}

/// Whether four bytes are the two halves of a BL instruction: the top
/// five bits of the first half are 11110, those of the second 11111.
pub open spec fn thumb_matches(w: Seq<u8>) -> bool {
    thumb_class(w[1]) == 0xF0 && thumb_class(w[3]) == 0xF8
}

/// The 22-bit branch offset of a BL instruction: eleven bits from each
/// half, the first half the higher.
pub open spec fn thumb_imm(b0: u8, b1: u8, b2: u8, b3: u8) -> u32 {
    (((b1 as u32) & 7) << 19) | ((b0 as u32) << 11) | (((b3 as u32) & 7) << 8) | (b2 as u32)
}

/// The offset that replaces `imm` in a BL at the address `pc`. The
/// offset counts halfwords from four bytes behind the instruction:
/// encoding adds that address to it, decoding takes it off again.
pub open spec fn thumb_target(imm: u32, pc: u32, is_encoder: bool) -> u32 {
    let src = imm << 1;
    let here = add32(pc, 4);
    let dest = if is_encoder {
        add32(here, src)
    } else {
        sub32(src, here)
    };
    dest >> 1
}

/// The four bytes of a BL instruction with the offset `d`.
pub open spec fn thumb_bytes(d: u32) -> Seq<u8> {
    seq![
        (d >> 11) as u8,
        0xF0u8 | (((d >> 19) & 7) as u8),
        d as u8,
        0xF8u8 | (((d >> 8) & 7) as u8),
    ]
}

/// A BL instruction, converted.
pub open spec fn thumb_pair(w: Seq<u8>, pc: u32, is_encoder: bool) -> Seq<u8> {
    thumb_bytes(thumb_target(thumb_imm(w[0], w[1], w[2], w[3]), pc, is_encoder))
}

/// The buffer after the scan has gone on from offset `i`: where the four
/// bytes at the scan's place are a BL instruction, it is converted and
/// the scan moves on by four bytes, otherwise by two; the scan ends
/// where fewer than four of the first `size` bytes are left.
pub open spec fn thumb_filtered(buf: Seq<u8>, now_pos: u32, is_encoder: bool, size: nat, i: nat) -> Seq<
    u8,
>
    decreases size - i,
{
    if i + 4 > size || size > buf.len() {
        buf
    } else if thumb_matches(buf.subrange(i as int, i as int + 4)) {
        thumb_filtered(
            splice(
                buf,
                i as int,
                thumb_pair(buf.subrange(i as int, i as int + 4), pc_at(now_pos, i), is_encoder),
            ),
            now_pos,
            is_encoder,
            size,
            i + 4,
        )
    } else {
        thumb_filtered(buf, now_pos, is_encoder, size, i + 2)
    }
}

/// The offset at which that scan ends.
pub open spec fn thumb_end(buf: Seq<u8>, size: nat, i: nat) -> nat
    decreases size - i,
{
    if i + 4 > size || size > buf.len() {
        i
    } else if thumb_matches(buf.subrange(i as int, i as int + 4)) {
        thumb_end(buf, size, i + 4)
    } else {
        thumb_end(buf, size, i + 2)
    }
}

proof fn lemma_thumb_class_bits(d: u32)
    by (bit_vector)
    ensures
        (0xF0u8 | (((d >> 19) & 7) as u8)) & 0xF8 == 0xF0,
        (0xF8u8 | (((d >> 8) & 7) as u8)) & 0xF8 == 0xF8,
{
}

proof fn lemma_thumb_bits(b0: u8, b1: u8, b2: u8, b3: u8, pc: u32)
    by (bit_vector)
    requires
        pc % 2 == 0,
        b1 & 0xF8 == 0xF0,
        b3 & 0xF8 == 0xF8,
    ensures
        ({
            let x = thumb_target(thumb_imm(b0, b1, b2, b3), pc, true);
            let y = thumb_target(
                thumb_imm(
                    (x >> 11) as u8,
                    0xF0u8 | (((x >> 19) & 7) as u8),
                    x as u8,
                    0xF8u8 | (((x >> 8) & 7) as u8),
                ),
                pc,
                false,
            );
            &&& (y >> 11) as u8 == b0
            &&& 0xF0u8 | (((y >> 19) & 7) as u8) == b1
            &&& y as u8 == b2
            &&& 0xF8u8 | (((y >> 8) & 7) as u8) == b3
        }),
        ({
            let x = thumb_target(thumb_imm(b0, b1, b2, b3), pc, false);
            let y = thumb_target(
                thumb_imm(
                    (x >> 11) as u8,
                    0xF0u8 | (((x >> 19) & 7) as u8),
                    x as u8,
                    0xF8u8 | (((x >> 8) & 7) as u8),
                ),
                pc,
                true,
            );
            &&& (y >> 11) as u8 == b0
            &&& 0xF0u8 | (((y >> 19) & 7) as u8) == b1
            &&& y as u8 == b2
            &&& 0xF8u8 | (((y >> 8) & 7) as u8) == b3
        }),
{
}

/// At a halfword-aligned address, converting a BL instruction one way
/// and then the other gives it back; a converted BL is a BL still.
pub proof fn lemma_thumb_pair_round_trip(w: Seq<u8>, pc: u32, is_encoder: bool)
    requires
        w.len() == 4,
        thumb_matches(w),
        pc % 2 == 0,
    ensures
        thumb_pair(w, pc, is_encoder).len() == 4,
        thumb_matches(thumb_pair(w, pc, is_encoder)),
        thumb_class(thumb_pair(w, pc, is_encoder)[1]) == thumb_class(w[1]),
        thumb_class(thumb_pair(w, pc, is_encoder)[3]) == thumb_class(w[3]),
        thumb_pair(thumb_pair(w, pc, is_encoder), pc, !is_encoder) == w,
{
    let d = thumb_target(thumb_imm(w[0], w[1], w[2], w[3]), pc, is_encoder);
    lemma_thumb_bits(w[0], w[1], w[2], w[3], pc);
    lemma_thumb_class_bits(d);
    assert(thumb_pair(thumb_pair(w, pc, is_encoder), pc, !is_encoder) =~= w);
}

/// A converted BL stays a BL at any address.
pub proof fn lemma_thumb_pair_class(w: Seq<u8>, pc: u32, is_encoder: bool)
    requires
        w.len() == 4,
        thumb_matches(w),
    ensures
        thumb_pair(w, pc, is_encoder).len() == 4,
        thumb_class(thumb_pair(w, pc, is_encoder)[1]) == 0xF0,
        thumb_class(thumb_pair(w, pc, is_encoder)[3]) == 0xF8,
{
    let d = thumb_target(thumb_imm(w[0], w[1], w[2], w[3]), pc, is_encoder);
    lemma_thumb_class_bits(d);
}

/// The scan from `i` on keeps the length, changes no byte before `i`,
/// and keeps the top five bits of every byte at an odd distance from
/// `i`: those are the bytes that tell where the BL instructions are.
pub proof fn lemma_thumb_frame(buf: Seq<u8>, now_pos: u32, is_encoder: bool, size: nat, i: nat)
    ensures
        thumb_filtered(buf, now_pos, is_encoder, size, i).len() == buf.len(),
        forall|k: int|
            0 <= k < i && k < buf.len() ==> #[trigger] thumb_filtered(
                buf,
                now_pos,
                is_encoder,
                size,
                i,
            )[k] == buf[k],
        forall|k: int|
            0 <= k < buf.len() && (k - i) % 2 == 1 ==> thumb_class(
                #[trigger] thumb_filtered(buf, now_pos, is_encoder, size, i)[k],
            ) == thumb_class(buf[k]),
    decreases size - i,
{
    let out = thumb_filtered(buf, now_pos, is_encoder, size, i);
    if i + 4 > size || size > buf.len() {
    } else {
        let w = buf.subrange(i as int, i as int + 4);
        if thumb_matches(w) {
            let p = thumb_pair(w, pc_at(now_pos, i), is_encoder);
            lemma_thumb_pair_class(w, pc_at(now_pos, i), is_encoder);
            let next = splice(buf, i as int, p);
            lemma_thumb_frame(next, now_pos, is_encoder, size, i + 4);
            let r = thumb_filtered(next, now_pos, is_encoder, size, i + 4);
            assert(out == r);
            assert forall|k: int| 0 <= k < i && k < buf.len() implies out[k] == buf[k] by {
                assert(r[k] == next[k]);
                assert(next[k] == buf[k]);
            }
            assert forall|k: int| 0 <= k < buf.len() && (k - i) % 2 == 1 implies thumb_class(
                out[k],
            ) == thumb_class(buf[k]) by {
                if k == i + 1 {
                    assert(r[k] == next[k]);
                    assert(next[k] == p[1]);
                    assert(buf[k] == w[1]);
                } else if k == i + 3 {
                    assert(r[k] == next[k]);
                    assert(next[k] == p[3]);
                    assert(buf[k] == w[3]);
                } else if k < i {
                    assert(r[k] == next[k]);
                    assert(next[k] == buf[k]);
                } else {
                    assert((k - (i + 4)) % 2 == 1);
                    assert(thumb_class(r[k]) == thumb_class(next[k]));
                    assert(next[k] == buf[k]);
                }
            }
        } else {
            lemma_thumb_frame(buf, now_pos, is_encoder, size, i + 2);
            let r = thumb_filtered(buf, now_pos, is_encoder, size, i + 2);
            assert(out == r);
            assert forall|k: int| 0 <= k < i && k < buf.len() implies out[k] == buf[k] by {
                assert(r[k] == buf[k]);
            }
            assert forall|k: int| 0 <= k < buf.len() && (k - i) % 2 == 1 implies thumb_class(
                out[k],
            ) == thumb_class(buf[k]) by {
                if k >= i + 2 {
                    assert((k - (i + 2)) % 2 == 1);
                    assert(thumb_class(r[k]) == thumb_class(buf[k]));
                } else {
                    assert(r[k] == buf[k]);
                }
            }
        }
    }
}

/// The scan changes no byte from `size` on.
pub proof fn lemma_thumb_tail(buf: Seq<u8>, now_pos: u32, is_encoder: bool, size: nat, i: nat)
    ensures
        thumb_filtered(buf, now_pos, is_encoder, size, i).len() == buf.len(),
        forall|k: int|
            size <= k < buf.len() ==> #[trigger] thumb_filtered(buf, now_pos, is_encoder, size, i)[k]
                == buf[k],
    decreases size - i,
{
    let out = thumb_filtered(buf, now_pos, is_encoder, size, i);
    lemma_thumb_frame(buf, now_pos, is_encoder, size, i);
    if i + 4 > size || size > buf.len() {
    } else {
        let w = buf.subrange(i as int, i as int + 4);
        if thumb_matches(w) {
            let p = thumb_pair(w, pc_at(now_pos, i), is_encoder);
            lemma_thumb_pair_class(w, pc_at(now_pos, i), is_encoder);
            let next = splice(buf, i as int, p);
            lemma_thumb_tail(next, now_pos, is_encoder, size, i + 4);
            let r = thumb_filtered(next, now_pos, is_encoder, size, i + 4);
            assert(out == r);
            assert forall|k: int| size <= k < buf.len() implies out[k] == buf[k] by {
                assert(r[k] == next[k]);
                assert(next[k] == buf[k]);
            }
        } else {
            lemma_thumb_tail(buf, now_pos, is_encoder, size, i + 2);
            let r = thumb_filtered(buf, now_pos, is_encoder, size, i + 2);
            assert(out == r);
            assert forall|k: int| size <= k < buf.len() implies out[k] == buf[k] by {
                assert(r[k] == buf[k]);
            }
        }
    }
}

/// The scan from `i` on looks at no byte before `i`: two buffers that
/// agree from `i` on come out agreeing from `i` on.
proof fn lemma_thumb_local(a: Seq<u8>, b: Seq<u8>, now_pos: u32, is_encoder: bool, size: nat, i: nat)
    requires
        a.len() == b.len(),
        forall|k: int| i <= k < a.len() ==> a[k] == b[k],
    ensures
        forall|k: int|
            i <= k < a.len() ==> #[trigger] thumb_filtered(a, now_pos, is_encoder, size, i)[k]
                == thumb_filtered(b, now_pos, is_encoder, size, i)[k],
    decreases size - i,
{
    let fa = thumb_filtered(a, now_pos, is_encoder, size, i);
    let fb = thumb_filtered(b, now_pos, is_encoder, size, i);
    if i + 4 > size || size > a.len() {
    } else {
        assert(a.subrange(i as int, i as int + 4) =~= b.subrange(i as int, i as int + 4));
        let w = a.subrange(i as int, i as int + 4);
        if thumb_matches(w) {
            let p = thumb_pair(w, pc_at(now_pos, i), is_encoder);
            lemma_thumb_pair_class(w, pc_at(now_pos, i), is_encoder);
            let a1 = splice(a, i as int, p);
            let b1 = splice(b, i as int, p);
            assert forall|k: int| i + 4 <= k < a1.len() implies a1[k] == b1[k] by {
                assert(a1[k] == a[k]);
                assert(b1[k] == b[k]);
            }
            lemma_thumb_local(a1, b1, now_pos, is_encoder, size, i + 4);
            lemma_thumb_frame(a1, now_pos, is_encoder, size, i + 4);
            lemma_thumb_frame(b1, now_pos, is_encoder, size, i + 4);
            let ra = thumb_filtered(a1, now_pos, is_encoder, size, i + 4);
            let rb = thumb_filtered(b1, now_pos, is_encoder, size, i + 4);
            assert(fa == ra && fb == rb);
            assert forall|k: int| i <= k < a.len() implies fa[k] == fb[k] by {
                if k < i + 4 {
                    assert(ra[k] == a1[k]);
                    assert(rb[k] == b1[k]);
                    assert(a1[k] == p[k - i]);
                    assert(b1[k] == p[k - i]);
                } else {
                    assert(ra[k] == rb[k]);
                }
            }
        } else {
            lemma_thumb_local(a, b, now_pos, is_encoder, size, i + 2);
            lemma_thumb_frame(a, now_pos, is_encoder, size, i + 2);
            lemma_thumb_frame(b, now_pos, is_encoder, size, i + 2);
            let ra = thumb_filtered(a, now_pos, is_encoder, size, i + 2);
            let rb = thumb_filtered(b, now_pos, is_encoder, size, i + 2);
            assert(fa == ra && fb == rb);
            assert forall|k: int| i <= k < a.len() implies fa[k] == fb[k] by {
                if k < i + 2 {
                    assert(ra[k] == a[k]);
                    assert(rb[k] == b[k]);
                } else {
                    assert(ra[k] == rb[k]);
                }
            }
        }
    }
}

/// The scan from an even offset `i` on undoes itself when the data lie
/// at an even position.
pub proof fn lemma_thumb_round_trip_from(buf: Seq<u8>, now_pos: u32, is_encoder: bool, size: nat, i: nat)
    requires
        size <= buf.len(),
        now_pos % 2 == 0,
        i % 2 == 0,
    ensures
        thumb_filtered(
            thumb_filtered(buf, now_pos, is_encoder, size, i),
            now_pos,
            !is_encoder,
            size,
            i,
        ) == buf,
    decreases size - i,
{
    let e = thumb_filtered(buf, now_pos, is_encoder, size, i);
    lemma_thumb_frame(buf, now_pos, is_encoder, size, i);
    if i + 4 > size {
    } else {
        let w = buf.subrange(i as int, i as int + 4);
        let pc = pc_at(now_pos, i);
        assert(pc % 2 == 0);
        if thumb_matches(w) {
            let p = thumb_pair(w, pc, is_encoder);
            lemma_thumb_pair_round_trip(w, pc, is_encoder);
            let b1 = splice(buf, i as int, p);
            lemma_thumb_frame(b1, now_pos, is_encoder, size, i + 4);
            lemma_thumb_round_trip_from(b1, now_pos, is_encoder, size, i + 4);
            assert(e == thumb_filtered(b1, now_pos, is_encoder, size, i + 4));
            assert forall|j: int| 0 <= j < 4 implies e.subrange(i as int, i as int + 4)[j]
                == p[j] by {
                assert(e[i + j] == b1[i + j]);
                assert(b1[i + j] == p[j]);
            }
            assert(e.subrange(i as int, i as int + 4) =~= p);
            let e2 = splice(e, i as int, w);
            assert(thumb_filtered(e, now_pos, !is_encoder, size, i) == thumb_filtered(
                e2,
                now_pos,
                !is_encoder,
                size,
                i + 4,
            ));
            assert forall|k: int| i + 4 <= k < e2.len() implies e2[k] == e[k] by {}
            lemma_thumb_local(e2, e, now_pos, !is_encoder, size, i + 4);
            lemma_thumb_frame(e2, now_pos, !is_encoder, size, i + 4);
            let back = thumb_filtered(e2, now_pos, !is_encoder, size, i + 4);
            let eb = thumb_filtered(e, now_pos, !is_encoder, size, i + 4);
            assert(eb == b1);
            assert forall|k: int| 0 <= k < buf.len() implies back[k] == buf[k] by {
                if k >= i + 4 {
                    assert(back[k] == eb[k]);
                    assert(b1[k] == buf[k]);
                } else if k >= i {
                    assert(back[k] == e2[k]);
                    assert(e2[k] == w[k - i]);
                } else {
                    assert(back[k] == e2[k]);
                    assert(e2[k] == e[k]);
                    assert(e[k] == b1[k]);
                    assert(b1[k] == buf[k]);
                }
            }
            assert(back =~= buf);
        } else {
            lemma_thumb_frame(buf, now_pos, is_encoder, size, i + 2);
            lemma_thumb_round_trip_from(buf, now_pos, is_encoder, size, i + 2);
            assert(e == thumb_filtered(buf, now_pos, is_encoder, size, i + 2));
            let we = e.subrange(i as int, i as int + 4);
            assert(e[i as int + 1] == buf[i as int + 1]);
            assert(we[1] == w[1]);
            assert((i + 3 - (i + 2)) % 2 == 1);
            assert(thumb_class(e[i as int + 3]) == thumb_class(buf[i as int + 3]));
            assert(thumb_class(we[3]) == thumb_class(w[3]));
            assert(!thumb_matches(we));
        }
    }
}

/// The ARM-Thumb converter undoes itself: with the data at an even
/// position, decoding what was encoded, or encoding what was decoded,
/// gives the bytes back.
pub proof fn lemma_thumb_round_trip(buf: Seq<u8>, now_pos: u32, is_encoder: bool, size: nat)
    requires
        size <= buf.len(),
        now_pos % 2 == 0,
    ensures
        thumb_filtered(
            thumb_filtered(buf, now_pos, is_encoder, size, 0),
            now_pos,
            !is_encoder,
            size,
            0,
        ) == buf,
{
    lemma_thumb_round_trip_from(buf, now_pos, is_encoder, size, 0);
}

/// Converts the BL instruction at `i`, which lies at the address `pc`.
fn armthumb_convert(buffer: &mut [u8], i: usize, pc: u32, is_encoder: bool)
    requires
        i + 4 <= old(buffer)@.len(),
    ensures
        final(buffer)@ == splice(
            old(buffer)@,
            i as int,
            thumb_pair(old(buffer)@.subrange(i as int, i + 4), pc, is_encoder),
        ),
{
    let ghost w = buffer@.subrange(i as int, i + 4);
    let mut src: u32 = (((buffer[i + 1] as u32) & 7) << 19) | ((buffer[i] as u32) << 11) | (((
    buffer[i + 3] as u32) & 7) << 8) | (buffer[i + 2] as u32);
    assert(src == thumb_imm(w[0], w[1], w[2], w[3]));
    src <<= 1;
    let here: u32 = pc.wrapping_add(4);
    proof {
        lemma_wrapping_32(pc, 4);
        lemma_wrapping_32(here, src);
        lemma_wrapping_32(src, here);
    }
    let dest: u32 = if is_encoder {
        here.wrapping_add(src)
    } else {
        src.wrapping_sub(here)
    };
    let dest: u32 = dest >> 1;
    buffer[i + 1] = 0xF0 | (((dest >> 19) & 0x7) as u8);
    buffer[i] = #[verifier::truncate] ((dest >> 11) as u8);
    buffer[i + 3] = 0xF8 | (((dest >> 8) & 0x7) as u8);
    buffer[i + 2] = #[verifier::truncate] (dest as u8);
    assert(buffer@ =~= splice(old(buffer)@, i as int, thumb_pair(w, pc, is_encoder)));
}

/// Converts the BL offsets of ARM-Thumb code in the first `size` bytes
/// of `buffer`, which lie at `now_pos`, and returns the offset at which
/// the scan ended: the bytes from there on are left for the next call.
pub fn armthumb_code(_simple: &mut SimpleType, now_pos: u32, is_encoder: bool, buffer: &mut [u8], size: usize) -> (done:
    usize)
    requires
        size <= old(buffer)@.len(),
    ensures
        done == thumb_end(old(buffer)@, size as nat, 0),
        final(buffer)@ == thumb_filtered(old(buffer)@, now_pos, is_encoder, size as nat, 0),
        done % 2 == 0,
        size < 4 ==> done == 0,
        size >= 4 ==> size - 3 <= done <= size,
        *final(_simple) == *old(_simple),
{
    let mut i: usize = 0;
    while size - i >= 4
        invariant
            i <= size <= buffer@.len(),
            i % 2 == 0,
            buffer@.len() == old(buffer)@.len(),
            forall|k: int| i <= k < buffer@.len() ==> buffer@[k] == old(buffer)@[k],
            thumb_end(old(buffer)@, size as nat, 0) == thumb_end(old(buffer)@, size as nat, i as nat),
            thumb_filtered(old(buffer)@, now_pos, is_encoder, size as nat, 0) == thumb_filtered(
                buffer@,
                now_pos,
                is_encoder,
                size as nat,
                i as nat,
            ),
        decreases size - i,
    {
        let ghost w = buffer@.subrange(i as int, i + 4);
        if armthumb_is_bl(buffer, i) {
            proof {
                assert(w =~= old(buffer)@.subrange(i as int, i + 4));
            }
            let pc: u32 = position_at(now_pos, i);
            armthumb_convert(buffer, i, pc, is_encoder);
            proof {
                lemma_thumb_pair_class(w, pc, is_encoder);
            }
            i += 2;
        } else {
            proof {
                assert(w =~= old(buffer)@.subrange(i as int, i + 4));
            }
        }
        i += 2;
    }
    i
}

/// Whether the four bytes at `i` are the two halves of a BL
/// instruction.
fn armthumb_is_bl(buffer: &[u8], i: usize) -> (bl: bool)
    requires
        i + 4 <= buffer@.len(),
        i + 4 <= usize::MAX,
    ensures
        bl == thumb_matches(buffer@.subrange(i as int, i + 4)),
{
    (buffer[i + 1] & 0xF8) == 0xF0 && (buffer[i + 3] & 0xF8) == 0xF8
}

/// Sets up a stage that converts ARM-Thumb code, and the chain behind it: a
/// word may be cut off at the end of what the converter is given, so up
/// to four bytes can wait, and the data must start at a multiple of
/// 2.
pub fn armthumb_coder_init(next: &mut LzmaNextCoder, filters: &[LzmaFilterInfo], is_encoder: bool) -> (ret:
    LzmaRet)
    requires
        filters@.len() >= 1,
        old(next).wf(),
    ensures
        ret == (if options_fit(filters@[0].options, 2) && chain_fits(filters@.skip(1)) {
            LzmaRet::LzmaOk
        } else {
            LzmaRet::OptionsError
        }),
        final(next).wf(),
        final(next).id == old(next).id,
        final(next).init == old(next).init,
        ret == LzmaRet::LzmaOk ==> match final(next).coder {
            None => false,
            Some(b) => match *b {
                CoderType::SimpleCoder(c) => stage_fresh(
                    c,
                    SimpleFilter::ArmThumb,
                    is_encoder,
                    start_offset_of(filters@[0].options)->0,
                    2 * SIMPLE_UNFILTERED_MAX as int,
                ) && chain_built(*c.next, filters@.skip(1)),
            },
        },
    decreases filters@.len(), 1int,
{
    lzma_simple_coder_init(next, filters, SimpleFilter::ArmThumb, 0, 4, 2, is_encoder)
}

/// Sets up a stage that encodes ARM-Thumb code.
pub fn lzma_simple_armthumb_encoder_init(next: &mut LzmaNextCoder, filters: &[LzmaFilterInfo]) -> (ret:
    LzmaRet)
    requires
        filters@.len() >= 1,
        old(next).wf(),
    ensures
        ret == (if options_fit(filters@[0].options, 2) && chain_fits(filters@.skip(1)) {
            LzmaRet::LzmaOk
        } else {
            LzmaRet::OptionsError
        }),
        final(next).wf(),
        final(next).id == old(next).id,
        final(next).init == old(next).init,
        ret == LzmaRet::LzmaOk ==> match final(next).coder {
            None => false,
            Some(b) => match *b {
                CoderType::SimpleCoder(c) => stage_fresh(
                    c,
                    SimpleFilter::ArmThumb,
                    true,
                    start_offset_of(filters@[0].options)->0,
                    2 * SIMPLE_UNFILTERED_MAX as int,
                ) && chain_built(*c.next, filters@.skip(1)),
            },
        },
    decreases filters@.len(), 2int,
{
    armthumb_coder_init(next, filters, true)
}

/// Sets up a stage that decodes ARM-Thumb code.
pub fn lzma_simple_armthumb_decoder_init(next: &mut LzmaNextCoder, filters: &[LzmaFilterInfo]) -> (ret:
    LzmaRet)
    requires
        filters@.len() >= 1,
        old(next).wf(),
    ensures
        ret == (if options_fit(filters@[0].options, 2) && chain_fits(filters@.skip(1)) {
            LzmaRet::LzmaOk
        } else {
            LzmaRet::OptionsError
        }),
        final(next).wf(),
        final(next).id == old(next).id,
        final(next).init == old(next).init,
        ret == LzmaRet::LzmaOk ==> match final(next).coder {
            None => false,
            Some(b) => match *b {
                CoderType::SimpleCoder(c) => stage_fresh(
                    c,
                    SimpleFilter::ArmThumb,
                    false,
                    start_offset_of(filters@[0].options)->0,
                    2 * SIMPLE_UNFILTERED_MAX as int,
                ) && chain_built(*c.next, filters@.skip(1)),
            },
        },
    decreases filters@.len(), 2int,
{
    armthumb_coder_init(next, filters, false)
}

} // verus!
