use vstd::prelude::*;
use crate::rangecoder::range_common::{
    prob_adapted,
    probs_adapted,
    lemma_prob_update_closed,
    RC_TOP_VALUE,
};
use crate::rangecoder::range_encoder::{LzmaRangeEncoder, RcSymbol, lemma_flushed_probs};

verus! {

/// Shifting `low` in two goes, the first of which ran out of room, is
/// shifting it once with the room of both.
proof fn lemma_shift_resumes(enc: LzmaRangeEncoder, c1: nat, c2: nat)
    requires
        enc.shift_blocks(c1),
        enc.out_total + enc.cache_size <= u64::MAX,
    ensures
        enc.shift_out(c1).len() == c1,
        enc.shift_next(c1).shift_blocks(c2) == enc.shift_blocks(c1 + c2),
        enc.shift_next(c1).shift_next(c2) == enc.shift_next(c1 + c2),
        enc.shift_out(c1) + enc.shift_next(c1).shift_out(c2) == enc.shift_out(c1 + c2),
{
    let e1 = enc.shift_next(c1);
    assert(enc.shift_out(c1) + e1.shift_out(c2) =~= enc.shift_out(c1 + c2));
}

/// With room enough, more room changes nothing.
proof fn lemma_shift_roomy(enc: LzmaRangeEncoder, c1: nat, c2: nat)
    requires
        !enc.shift_blocks(c1),
    ensures
        !enc.shift_blocks(c1 + c2),
        enc.shift_next(c1 + c2) == enc.shift_next(c1),
        enc.shift_out(c1 + c2) == enc.shift_out(c1),
        enc.shift_out(c1).len() <= c1,
{
}

/// A flush that stopped for want of room stands at a symbol of the
/// queue, with the range and the queue as they were.
proof fn lemma_flushed_blocked(enc: LzmaRangeEncoder, probs: Seq<u16>, cap: nat)
    requires
        enc.flushed(probs, cap).more,
        enc.out_total + enc.cache_size + (enc.count - enc.pos) <= u64::MAX,
    ensures
        enc.flushed(probs, cap).out.len() == cap,
        enc.flushed(probs, cap).enc.range == enc.range,
        enc.flushed(probs, cap).enc.count == enc.count,
        enc.flushed(probs, cap).enc.symbols == enc.symbols,
        enc.flushed(probs, cap).enc.probs == enc.probs,
        enc.pos <= enc.flushed(probs, cap).enc.pos < enc.count,
        enc.flushed(probs, cap).enc.out_total + enc.flushed(probs, cap).enc.cache_size + (enc.count
            - enc.flushed(probs, cap).enc.pos) <= u64::MAX,
        enc.flushed(probs, cap).enc.out_total + enc.flushed(probs, cap).enc.cache_size
            <= enc.out_total + enc.cache_size + (enc.flushed(probs, cap).enc.pos - enc.pos),
    decreases enc.count - enc.pos,
{
    if enc.pos < enc.count {
        if enc.shift_blocks(cap) {
            lemma_shift_resumes(enc, cap, 0);
        } else {
            let next = LzmaRangeEncoder { pos: (enc.pos + 1) as usize, ..enc.shift_next(cap) };
            lemma_flushed_blocked(next, probs, (cap - enc.shift_out(cap).len()) as nat);
        }
    }
}

/// A flush in two goes, the first of which ran out of room, is one flush
/// with the room of both.
proof fn lemma_flush_resumes(enc: LzmaRangeEncoder, probs: Seq<u16>, c1: nat, c2: nat)
    requires
        enc.flushed(probs, c1).more,
        enc.out_total + enc.cache_size + (enc.count - enc.pos) <= u64::MAX,
    ensures
        enc.flushed(probs, c1 + c2).enc == enc.flushed(probs, c1).enc.flushed(probs, c2).enc,
        enc.flushed(probs, c1 + c2).more == enc.flushed(probs, c1).enc.flushed(probs, c2).more,
        enc.flushed(probs, c1 + c2).out == enc.flushed(probs, c1).out + enc.flushed(
            probs,
            c1,
        ).enc.flushed(probs, c2).out,
    decreases enc.count - enc.pos,
{
    let r1 = enc.flushed(probs, c1);
    let r2 = r1.enc.flushed(probs, c2);
    let whole = enc.flushed(probs, c1 + c2);
    if enc.shift_blocks(c1) {
        lemma_shift_resumes(enc, c1, c2);
        let e1 = enc.shift_next(c1);
        if e1.shift_blocks(c2) {
        } else {
            let next = LzmaRangeEncoder { pos: (enc.pos + 1) as usize, ..e1.shift_next(c2) };
            let room = (c2 - e1.shift_out(c2).len()) as nat;
            assert((c1 + c2 - enc.shift_out(c1 + c2).len()) as nat == room);
            assert(whole.out =~= r1.out + r2.out);
        }
    } else {
        lemma_shift_roomy(enc, c1, c2);
        let o = enc.shift_out(c1);
        let next = LzmaRangeEncoder { pos: (enc.pos + 1) as usize, ..enc.shift_next(c1) };
        let room = (c1 - o.len()) as nat;
        lemma_flush_resumes(next, probs, room, c2);
        assert((c1 + c2 - o.len()) as nat == room + c2);
        assert(whole.out =~= r1.out + r2.out);
    }
}

/// Coding a symbol keeps the count of bytes and symbols within 64 bits.
proof fn lemma_step_counts(enc: LzmaRangeEncoder, probs: Seq<u16>, cap: nat)
    requires
        enc.pos < enc.count,
        enc.counts_fit(),
        !enc.widen_blocks(cap),
    ensures
        enc.widened(cap).out_total + enc.widened(cap).cache_size + 2 * (enc.count - enc.pos) - 1
            <= u64::MAX,
        enc.widened(cap).count == enc.count,
        enc.widened(cap).pos == enc.pos,
        enc.widened(cap).symbols == enc.symbols,
        enc.widened(cap).probs == enc.probs,
        enc.widen_out(cap).len() <= cap,
{
}

/// What `lemma_drain_resumes` states of a drain with room for `c1` bytes
/// and a second with room for `c2`.
pub open spec fn resumes(enc: LzmaRangeEncoder, probs: Seq<u16>, c1: nat, c2: nat) -> bool {
    let first = enc.drained(probs, c1);
    let second = first.enc.drained(first.probs, c2);
    let whole = enc.drained(probs, c1 + c2);
    &&& first.out.len() == c1
    &&& whole.enc == second.enc
    &&& whole.probs == second.probs
    &&& whole.more == second.more
    &&& whole.out == first.out + second.out
}

proof fn lemma_resumes_in_widening(enc: LzmaRangeEncoder, probs: Seq<u16>, c1: nat, c2: nat)
    requires
        enc.pos < enc.count,
        enc.widen_blocks(c1),
        enc.out_total + enc.cache_size <= u64::MAX,
    ensures
        resumes(enc, probs, c1, c2),
{
    let r1 = enc.drained(probs, c1);
    let r2 = r1.enc.drained(r1.probs, c2);
    let whole = enc.drained(probs, c1 + c2);
    lemma_shift_resumes(enc, c1, c2);
    let e1 = enc.widened(c1);
    assert(r1.enc == e1);
    assert(e1.widen_blocks(c2) == enc.widen_blocks(c1 + c2));
    assert(e1.widened(c2) == enc.widened(c1 + c2));
    assert(enc.widen_out(c1) + e1.widen_out(c2) == enc.widen_out(c1 + c2));
    if !e1.widen_blocks(c2) {
        assert((c1 + c2 - enc.widen_out(c1 + c2).len()) as nat == (c2 - e1.widen_out(c2).len()) as nat);
        assert(whole.out =~= r1.out + r2.out);
    }
}

proof fn lemma_resumes_in_flush(enc: LzmaRangeEncoder, probs: Seq<u16>, c1: nat, c2: nat)
    requires
        enc.pos < enc.count,
        !enc.widen_blocks(c1),
        enc.symbols@[enc.pos as int] == RcSymbol::RcFlush,
        enc.flush_closed(),
        enc.counts_fit(),
        enc.drained(probs, c1).more,
    ensures
        resumes(enc, probs, c1, c2),
{
    let r1 = enc.drained(probs, c1);
    let r2 = r1.enc.drained(r1.probs, c2);
    let whole = enc.drained(probs, c1 + c2);
    lemma_step_counts(enc, probs, c1);
    if enc.range < RC_TOP_VALUE {
        lemma_shift_roomy(enc, c1, c2);
    }
    let wide = enc.widened(c1);
    let o = enc.widen_out(c1);
    let room = (c1 - o.len()) as nat;
    assert(enc.widened(c1 + c2) == wide);
    assert(enc.widen_out(c1 + c2) == o);
    assert((c1 + c2 - o.len()) as nat == room + c2);
    let head = LzmaRangeEncoder { range: u32::MAX, ..wide };
    lemma_flushed_probs(head, probs, room);
    lemma_flushed_probs(head, probs, room + c2);
    lemma_flushed_blocked(head, probs, room);
    lemma_flush_resumes(head, probs, room, c2);
    let e1 = head.flushed(probs, room).enc;
    assert(r1.enc == e1);
    assert(r1.probs == probs);
    assert(e1.symbols@[e1.pos as int] == RcSymbol::RcFlush);
    assert(e1.widened(c2) == e1);
    assert(e1.widen_out(c2) =~= Seq::<u8>::empty());
    assert((LzmaRangeEncoder { range: u32::MAX, ..e1 }) == e1);
    lemma_flushed_probs(e1, probs, c2);
    assert(r2.enc == e1.flushed(probs, c2).enc);
    assert(r2.more == e1.flushed(probs, c2).more);
    assert(r2.out =~= e1.flushed(probs, c2).out);
    assert(whole.out =~= r1.out + r2.out);
}

/// A flush that had room for all leaves the encoder reset, with the
/// queue's slots as they were.
proof fn lemma_flushed_through(enc: LzmaRangeEncoder, probs: Seq<u16>, cap: nat)
    requires
        !enc.flushed(probs, cap).more,
    ensures
        enc.flushed(probs, cap).enc.symbols == enc.symbols,
        enc.flushed(probs, cap).enc.probs == enc.probs,
        enc.flushed(probs, cap).enc.count == 0,
        enc.flushed(probs, cap).enc.pos == 0,
        enc.flushed(probs, cap).enc.out_total == 0,
        enc.flushed(probs, cap).enc.cache_size == 1,
    decreases enc.count - enc.pos,
{
    if enc.pos < enc.count && !enc.shift_blocks(cap) {
        let next = LzmaRangeEncoder { pos: (enc.pos + 1) as usize, ..enc.shift_next(cap) };
        lemma_flushed_through(next, probs, (cap - enc.shift_out(cap).len()) as nat);
    }
}

/// What a drain leaves for the next: the queue's slots are as they
/// were; a drain that stopped for want of room stands at a symbol of the
/// queue, not before the one it started at, and the queue is as long as
/// it was; a drain that came through leaves the queue empty. Either way
/// the encoder can be drained again: the symbols left name
/// probabilities of the model, and the counts fit.
pub proof fn lemma_drain_leaves(enc: LzmaRangeEncoder, probs: Seq<u16>, cap: nat)
    requires
        enc.pos <= enc.count,
        enc.names_model(probs.len()),
        enc.counts_fit(),
    ensures
        enc.drained(probs, cap).enc.symbols == enc.symbols,
        enc.drained(probs, cap).enc.probs == enc.probs,
        enc.drained(probs, cap).probs.len() == probs.len(),
        enc.drained(probs, cap).more ==> enc.drained(probs, cap).enc.count == enc.count && enc.pos
            <= enc.drained(probs, cap).enc.pos < enc.count,
        !enc.drained(probs, cap).more ==> enc.drained(probs, cap).enc.count == 0 && enc.drained(
            probs,
            cap,
        ).enc.pos == 0,
        enc.drained(probs, cap).enc.names_model(probs.len()),
        enc.drained(probs, cap).enc.counts_fit(),
    decreases enc.count - enc.pos,
{
    if enc.pos >= enc.count {
    } else if enc.widen_blocks(cap) {
    } else {
        let wide = enc.widened(cap);
        let room = (cap - enc.widen_out(cap).len()) as nat;
        assert(wide.symbols == enc.symbols && wide.probs == enc.probs && wide.pos == enc.pos
            && wide.count == enc.count);
        assert(wide.out_total + wide.cache_size <= enc.out_total + enc.cache_size + (if enc.range
            < RC_TOP_VALUE {
            1int
        } else {
            0int
        }));
        if enc.symbols@[enc.pos as int] == RcSymbol::RcFlush {
            let head = LzmaRangeEncoder { range: u32::MAX, ..wide };
            lemma_flushed_probs(head, probs, room);
            if head.flushed(probs, room).more {
                lemma_flushed_blocked(head, probs, room);
            } else {
                lemma_flushed_through(head, probs, room);
            }
        } else {
            let next = wide.coded(probs[enc.probs@[enc.pos as int] as int]);
            assert(next.symbols == enc.symbols && next.probs == enc.probs && next.count
                == enc.count && next.pos == enc.pos + 1);
            assert(next.out_total == wide.out_total && next.cache_size == wide.cache_size);
            lemma_drain_leaves(next, wide.adapted(probs), room);
        }
    }
}

/// Draining in two goes: where a drain stops for want of room, and the
/// queue holds nothing but flush symbols behind a flush symbol, a second
/// drain with room for `c2` bytes goes on where the first stopped. The
/// bytes of both, one after the other, the encoder and the model are
/// those of a single drain with the room of both; the first drain filled
/// its room.
pub proof fn lemma_drain_resumes(enc: LzmaRangeEncoder, probs: Seq<u16>, c1: nat, c2: nat)
    requires
        enc.flush_closed(),
        enc.counts_fit(),
        enc.drained(probs, c1).more,
    ensures
        resumes(enc, probs, c1, c2),
    decreases enc.count - enc.pos,
{
    if enc.widen_blocks(c1) {
        lemma_resumes_in_widening(enc, probs, c1, c2);
    } else if enc.symbols@[enc.pos as int] == RcSymbol::RcFlush {
        lemma_resumes_in_flush(enc, probs, c1, c2);
    } else {
        let r1 = enc.drained(probs, c1);
        let r2 = r1.enc.drained(r1.probs, c2);
        let whole = enc.drained(probs, c1 + c2);
        lemma_step_counts(enc, probs, c1);
        if enc.range < RC_TOP_VALUE {
            lemma_shift_roomy(enc, c1, c2);
        }
        let wide = enc.widened(c1);
        let o = enc.widen_out(c1);
        let room = (c1 - o.len()) as nat;
        assert(enc.widened(c1 + c2) == wide);
        assert(enc.widen_out(c1 + c2) == o);
        assert((c1 + c2 - o.len()) as nat == room + c2);
        let next = wide.coded(probs[enc.probs@[enc.pos as int] as int]);
        lemma_drain_resumes(next, wide.adapted(probs), room, c2);
        assert(whole.out =~= r1.out + r2.out);
    }
}

/// A drain that had room enough gives the same with any more room.
pub proof fn lemma_drain_roomy(enc: LzmaRangeEncoder, probs: Seq<u16>, c1: nat, c2: nat)
    requires
        !enc.drained(probs, c1).more,
    ensures
        enc.drained(probs, c1 + c2) == enc.drained(probs, c1),
        enc.drained(probs, c1).out.len() <= c1,
    decreases enc.count - enc.pos,
{
    if enc.pos < enc.count {
        if enc.range < RC_TOP_VALUE {
            lemma_shift_roomy(enc, c1, c2);
        }
        let wide = enc.widened(c1);
        let o = enc.widen_out(c1);
        let room = (c1 - o.len()) as nat;
        assert((c1 + c2 - o.len()) as nat == room + c2);
        if enc.symbols@[enc.pos as int] == RcSymbol::RcFlush {
            lemma_flush_roomy(LzmaRangeEncoder { range: u32::MAX, ..wide }, probs, room, c2);
        } else {
            lemma_drain_roomy(
                wide.coded(probs[enc.probs@[enc.pos as int] as int]),
                wide.adapted(probs),
                room,
                c2,
            );
        }
    }
}

proof fn lemma_flush_roomy(enc: LzmaRangeEncoder, probs: Seq<u16>, c1: nat, c2: nat)
    requires
        !enc.flushed(probs, c1).more,
    ensures
        enc.flushed(probs, c1 + c2) == enc.flushed(probs, c1),
        enc.flushed(probs, c1).out.len() <= c1,
    decreases enc.count - enc.pos,
{
    if enc.pos < enc.count {
        lemma_shift_roomy(enc, c1, c2);
        let next = LzmaRangeEncoder { pos: (enc.pos + 1) as usize, ..enc.shift_next(c1) };
        let room = (c1 - enc.shift_out(c1).len()) as nat;
        assert((c1 + c2 - enc.shift_out(c1).len()) as nat == room + c2);
        lemma_flush_roomy(next, probs, room, c2);
    }
}

proof fn lemma_flush_keeps_range(enc: LzmaRangeEncoder, probs: Seq<u16>, cap: nat)
    requires
        enc.range == u32::MAX,
    ensures
        enc.flushed(probs, cap).enc.range == u32::MAX,
    decreases enc.count - enc.pos,
{
    if enc.pos < enc.count && !enc.shift_blocks(cap) {
        let next = LzmaRangeEncoder { pos: (enc.pos + 1) as usize, ..enc.shift_next(cap) };
        lemma_flush_keeps_range(next, probs, (cap - enc.shift_out(cap).len()) as nat);
    }
}

/// With a range of at least 2^24, a symbol coded with an adapted
/// probability leaves a range of at least 2^17.
proof fn lemma_coded_range(enc: LzmaRangeEncoder, p: u16)
    requires
        enc.range >= RC_TOP_VALUE,
        enc.symbols@[enc.pos as int] == RcSymbol::RcBit0 || enc.symbols@[enc.pos as int]
            == RcSymbol::RcBit1 ==> prob_adapted(p),
    ensures
        enc.coded(p).range >= 0x2_0000,
{
    let q = enc.range as int / 2048;
    assert(q >= 8192);
    if prob_adapted(p) {
        assert(q * p >= 8192 * 31 && q * p <= q * 2017) by (nonlinear_arith)
            requires
                q >= 8192,
                31 <= p <= 2017,
        ;
        assert(q * 2048 <= enc.range);
        assert(q * 2048 - q * 2017 == q * 31) by (nonlinear_arith);
    }
}

/// The range never runs dry: a drain that starts with a range of at
/// least 2^17 and a model of adapted probabilities ends with both, so
/// the range is never zero.
pub proof fn lemma_drain_keeps_range(enc: LzmaRangeEncoder, probs: Seq<u16>, cap: nat)
    requires
        enc.range >= 0x2_0000,
        probs_adapted(probs),
        enc.names_model(probs.len()),
    ensures
        enc.drained(probs, cap).enc.range >= 0x2_0000,
        probs_adapted(enc.drained(probs, cap).probs),
        enc.drained(probs, cap).probs.len() == probs.len(),
    decreases enc.count - enc.pos,
{
    if enc.pos < enc.count && !enc.widen_blocks(cap) {
        let wide = enc.widened(cap);
        let room = (cap - enc.widen_out(cap).len()) as nat;
        assert(wide.range >= RC_TOP_VALUE);
        if enc.symbols@[enc.pos as int] == RcSymbol::RcFlush {
            let head = LzmaRangeEncoder { range: u32::MAX, ..wide };
            lemma_flush_keeps_range(head, probs, room);
            lemma_flushed_probs(head, probs, room);
        } else {
            let at = enc.probs@[enc.pos as int] as int;
            let next = wide.coded(probs[at]);
            let model = wide.adapted(probs);
            if enc.symbols@[enc.pos as int] == RcSymbol::RcBit0 || enc.symbols@[enc.pos as int]
                == RcSymbol::RcBit1 {
                lemma_prob_update_closed(probs[at]);
            }
            lemma_coded_range(wide, probs[at]);
            assert(probs_adapted(model));
            assert(next.names_model(model.len()));
            lemma_drain_keeps_range(next, model, room);
        }
    }
}

} // verus!
