use vstd::prelude::*;
use crate::rangecoder::range_common::{
    prob_adapted,
    prob_after_0,
    prob_after_1,
    probs_adapted,
    lemma_prob_update_closed,
    RC_TOP_VALUE,
};
use crate::api::base::LzmaRet;
use crate::rangecoder::range_decoder::{code_after, lemma_priming, LzmaRangeDecoder};
use crate::rangecoder::range_encoder::{
    low_carry, low_settled, low_shifted, low_top_byte, LzmaRangeEncoder, RcSymbol, RC_SYMBOLS_MAX,
};

verus! {

/// The number that the bytes stand for, highest byte first.
pub open spec fn be_value(bytes: Seq<u8>) -> nat
    decreases bytes.len(),
{
    if bytes.len() == 0 {
        0
    } else {
        (256 * be_value(bytes.drop_last()) + bytes.last()) as nat
    }
}

/// The state of the coder that the bytes to come depend on: the interval
/// and the bytes held back.
pub struct Core {
    pub low: u64,
    pub range: u32,
    pub cache: u8,
    pub cache_size: u64,
}

impl Core {
    /// The bytes held back as they stand: the cached byte and then 0xFF
    /// bytes, `cache_size` in all.
    pub open spec fn held(self) -> Seq<u8> {
        Seq::new(
            self.cache_size as nat,
            |i: int|
                if i == 0 {
                    self.cache
                } else {
                    0xFFu8
                },
        )
    }

    /// The bytes held back as they leave: each with the carry added.
    pub open spec fn held_carried(self) -> Seq<u8> {
        Seq::new(
            self.cache_size as nat,
            |i: int|
                if i == 0 {
                    self.cache.wrapping_add(low_carry(self.low))
                } else {
                    0xFFu8.wrapping_add(low_carry(self.low))
                },
        )
    }

    /// The bytes that shifting `low` writes.
    pub open spec fn shift_bytes(self) -> Seq<u8> {
        if low_settled(self.low) {
            self.held_carried()
        } else {
            Seq::empty()
        }
    }

    /// The state after `low` has been shifted.
    pub open spec fn shifted(self) -> Core {
        if low_settled(self.low) {
            Core { cache: low_top_byte(self.low), cache_size: 1, low: low_shifted(self.low), ..self }
        } else {
            Core {
                cache_size: (self.cache_size + 1) as u64,
                low: low_shifted(self.low),
                ..self
            }
        }
    }

    /// At least one byte is held back and their count can grow by `more`;
    /// `low` has at most one carry bit above its 32 bits, and none where
    /// the cached byte could not take it.
    pub open spec fn sound(self, more: nat) -> bool {
        &&& 1 <= self.cache_size
        &&& self.cache_size + more <= u64::MAX
        &&& self.low < 0x2_0000_0000
        &&& self.cache == 0xFF ==> self.low < 0x1_0000_0000
    }

    /// The interval lies where the bytes written so far allow: `low` and
    /// `range` together stay within one carry, and within none where the
    /// cached byte is 0xFF. The range is at least 2^17.
    pub open spec fn inv(self, more: nat) -> bool {
        &&& self.sound(more)
        &&& self.range >= 0x2_0000
        &&& self.low + self.range <= 0x2_0000_0000
        &&& self.cache == 0xFF ==> self.low + self.range <= 0x1_0000_0000
    }

    /// What the coder stands at, as a number: the bytes `before` and the
    /// bytes held back, and `low` behind them.
    pub open spec fn absolute(self, before: Seq<u8>) -> int {
        be_value(before + self.held()) * 0x1_0000_0000 + self.low
    }
}

/// A byte more at the end multiplies the value by 256 and adds the byte.
pub proof fn lemma_be_push(bytes: Seq<u8>, b: u8)
    ensures
        be_value(bytes.push(b)) == 256 * be_value(bytes) + b,
{
    assert(bytes.push(b).drop_last() =~= bytes);
}

/// The bytes held back stand for one more when the carry has come.
proof fn lemma_held_values(before: Seq<u8>, cache: u8, n: nat, carry: u8)
    requires
        n >= 1,
        carry <= 1,
        cache + carry <= 0xFF,
    ensures
        be_value(
            before + Seq::new(
                n,
                |i: int|
                    if i == 0 {
                        cache.wrapping_add(carry)
                    } else {
                        0xFFu8.wrapping_add(carry)
                    },
            ),
        ) == be_value(
            before + Seq::new(
                n,
                |i: int|
                    if i == 0 {
                        cache
                    } else {
                        0xFFu8
                    },
            ),
        ) + carry,
    decreases n,
{
    let with = |m: nat|
        before + Seq::new(
            m,
            |i: int|
                if i == 0 {
                    cache.wrapping_add(carry)
                } else {
                    0xFFu8.wrapping_add(carry)
                },
        );
    let without = |m: nat|
        before + Seq::new(
            m,
            |i: int|
                if i == 0 {
                    cache
                } else {
                    0xFFu8
                },
        );
    if n == 1 {
        assert(with(1) =~= before.push(cache.wrapping_add(carry)));
        assert(without(1) =~= before.push(cache));
        lemma_be_push(before, cache.wrapping_add(carry));
        lemma_be_push(before, cache);
    } else {
        lemma_held_values(before, cache, (n - 1) as nat, carry);
        assert(with(n) =~= with((n - 1) as nat).push(0xFFu8.wrapping_add(carry)));
        assert(without(n) =~= without((n - 1) as nat).push(0xFFu8));
        lemma_be_push(with((n - 1) as nat), 0xFFu8.wrapping_add(carry));
        lemma_be_push(without((n - 1) as nat), 0xFFu8);
    }
}

/// Shifting `low` writes a byte's worth: what the coder stands at grows
/// by a factor of 256, and the bytes written and held back are one more.
pub proof fn lemma_shift_absolute(c: Core, before: Seq<u8>, more: nat)
    requires
        c.sound(more),
        more >= 1,
    ensures
        c.shifted().absolute(before + c.shift_bytes()) == 256 * c.absolute(before),
        c.shift_bytes().len() + c.shifted().cache_size == c.cache_size + 1,
        c.shifted().low < 0x1_0000_0000,
        c.shifted().low % 256 == 0,
        c.shifted().low == 256 * (c.low % 0x100_0000),
        c.shifted().sound((more - 1) as nat),
        c.shifted().range == c.range,
{
    let carry = low_carry(c.low);
    let next = c.shifted();
    if low_settled(c.low) {
        lemma_held_values(before, c.cache, c.cache_size as nat, carry);
        assert(before + c.held_carried() + next.held() =~= (before + c.held_carried()).push(
            next.cache,
        ));
        lemma_be_push(before + c.held_carried(), next.cache);
    } else {
        assert(c.shift_bytes() =~= Seq::<u8>::empty());
        assert(before + c.shift_bytes() =~= before);
        assert(before + next.held() =~= (before + c.held()).push(0xFFu8));
        lemma_be_push(before + c.held(), 0xFFu8);
    }
}

/// Four bytes more at the end multiply the value by 2^32 and add their
/// own value.
pub proof fn lemma_be_append4(a: Seq<u8>, b: Seq<u8>)
    requires
        b.len() == 4,
    ensures
        be_value(a + b) == be_value(a) * 0x1_0000_0000 + be_value(b),
        be_value(b) < 0x1_0000_0000,
{
    let e = Seq::<u8>::empty();
    assert(b =~= e.push(b[0]).push(b[1]).push(b[2]).push(b[3]));
    assert(a + b =~= a.push(b[0]).push(b[1]).push(b[2]).push(b[3]));
    lemma_be_push(e, b[0]);
    lemma_be_push(e.push(b[0]), b[1]);
    lemma_be_push(e.push(b[0]).push(b[1]), b[2]);
    lemma_be_push(e.push(b[0]).push(b[1]).push(b[2]), b[3]);
    lemma_be_push(a, b[0]);
    lemma_be_push(a.push(b[0]), b[1]);
    lemma_be_push(a.push(b[0]).push(b[1]), b[2]);
    lemma_be_push(a.push(b[0]).push(b[1]).push(b[2]), b[3]);
}

impl Core {
    /// The bytes that `n` shifts of `low` write.
    pub open spec fn flushed(self, n: nat) -> Seq<u8>
        decreases n,
    {
        if n == 0 {
            Seq::empty()
        } else {
            self.shift_bytes() + self.shifted().flushed((n - 1) as nat)
        }
    }

    /// How far the code to come lies above where the coder stands: the
    /// value of as many of the bytes to come as are held back, and four
    /// more, less the bytes held back and `low`. This is the code that
    /// the decoder holds when it has read those bytes.
    pub open spec fn offset(self, coming: Seq<u8>) -> int {
        be_value(coming.take(self.cache_size + 4)) - be_value(self.held()) * 0x1_0000_0000
            - self.low
    }
}

/// Five shifts bring out the bytes held back and the four bytes of
/// `low`, the carry added in.
#[verifier::rlimit(40)]
pub proof fn lemma_flush_value(c: Core, more: nat)
    requires
        c.sound(more),
        more >= 5,
    ensures
        c.flushed(5).len() == c.cache_size + 4,
        be_value(c.flushed(5)) == be_value(c.held()) * 0x1_0000_0000 + c.low,
{
    let e = Seq::<u8>::empty();
    let c1 = c.shifted();
    let c2 = c1.shifted();
    let c3 = c2.shifted();
    let c4 = c3.shifted();
    let c5 = c4.shifted();
    let b1 = c.shift_bytes();
    let b2 = b1 + c1.shift_bytes();
    let b3 = b2 + c2.shift_bytes();
    let b4 = b3 + c3.shift_bytes();
    let b5 = b4 + c4.shift_bytes();
    lemma_shift_absolute(c, e, more);
    lemma_shift_absolute(c1, b1, (more - 1) as nat);
    lemma_shift_absolute(c2, b2, (more - 2) as nat);
    lemma_shift_absolute(c3, b3, (more - 3) as nat);
    lemma_shift_absolute(c4, b4, (more - 4) as nat);
    assert(e + b1 =~= b1);
    assert(e + c.held() =~= c.held());
    assert(c4.low == 0);
    assert(c5.low == 0 && c5.cache == 0 && c5.cache_size == 1);
    reveal_with_fuel(Core::flushed, 6);
    assert(c.flushed(5) =~= b5) by {
        assert(c4.flushed(1) =~= c4.shift_bytes());
        assert(c3.flushed(2) =~= c3.shift_bytes() + c4.shift_bytes());
        assert(c2.flushed(3) =~= c2.shift_bytes() + c3.shift_bytes() + c4.shift_bytes());
        assert(c1.flushed(4) =~= c1.shift_bytes() + c2.shift_bytes() + c3.shift_bytes()
            + c4.shift_bytes());
    }
    assert(b5 + c5.held() =~= b5.push(0u8));
    lemma_be_push(b5, 0u8);
}

/// Shifting `low` is what makes the decoder read a byte: the offset
/// behind the shift is 256 times the offset before it, and the byte
/// that the decoder reads next.
pub proof fn lemma_shift_offset(c: Core, coming: Seq<u8>, more: nat)
    requires
        c.sound(more),
        more >= 1,
        coming.len() >= c.shifted().cache_size + 4,
    ensures
        c.shifted().offset(coming) == 256 * c.offset(c.shift_bytes() + coming) + coming[
            c.shifted().cache_size + 3],
        (c.shift_bytes() + coming)[c.cache_size + 4] == coming[c.shifted().cache_size + 3],
        (c.shift_bytes() + coming).skip(c.cache_size + 5) == coming.skip(
            c.shifted().cache_size + 4,
        ),
{
    let e = Seq::<u8>::empty();
    let next = c.shifted();
    let out = c.shift_bytes();
    lemma_shift_absolute(c, e, more);
    assert(e + out =~= out);
    assert(e + c.held() =~= c.held());
    assert(e + next.held() =~= next.held());
    let n = next.cache_size as int;
    assert(coming.take(n + 4) =~= coming.take(n + 3).push(coming[n + 3]));
    lemma_be_push(coming.take(n + 3), coming[n + 3]);
    assert((out + coming).skip(c.cache_size + 5) =~= coming.skip(n + 4));
    if low_settled(c.low) {
        assert(next.held() =~= e.push(next.cache));
        lemma_be_push(e, next.cache);
        assert(out + next.held() =~= out.push(next.cache));
        lemma_be_push(out, next.cache);
        assert((out + coming).take(c.cache_size + 4) =~= out + coming.take(4));
        lemma_be_append4(out, coming.take(4));
        assert(coming.take(n + 3) =~= coming.take(4));
    } else {
        assert(out + coming =~= coming);
        assert(coming.take(n + 3) =~= coming.take(c.cache_size + 4));
    }
}

/// One coded decision: a bit coded with the probability at index `at` of
/// the model, or a bit coded without a probability.
pub enum Coded {
    Bit { at: usize, one: bool },
    Direct { one: bool },
}

/// The probability that a decision is coded with; a bit without one is
/// coded as with any.
pub open spec fn prob_of(probs: Seq<u16>, sym: Coded) -> u16 {
    match sym {
        Coded::Bit { at, one } => probs[at as int],
        Coded::Direct { one } => 1024,
    }
}

/// The model after a decision has been coded.
pub open spec fn model_after(probs: Seq<u16>, sym: Coded) -> Seq<u16> {
    match sym {
        Coded::Bit { at, one } => probs.update(
            at as int,
            if one {
                prob_after_1(probs[at as int])
            } else {
                prob_after_0(probs[at as int])
            },
        ),
        Coded::Direct { one } => probs,
    }
}

/// Every decision names a probability of a model of `n` entries.
pub open spec fn decisions_fit(syms: Seq<Coded>, n: nat) -> bool {
    forall|i: int|
        0 <= i < syms.len() ==> (#[trigger] syms[i] matches Coded::Bit { at, one } ==> at < n)
}

/// The model after all the decisions have been coded.
pub open spec fn final_model(probs: Seq<u16>, syms: Seq<Coded>) -> Seq<u16>
    decreases syms.len(),
{
    if syms.len() == 0 {
        probs
    } else {
        final_model(model_after(probs, syms[0]), syms.skip(1))
    }
}

impl Core {
    /// The state after a range below 2^24 has been widened by eight bits.
    pub open spec fn widened(self) -> Core {
        if self.range < RC_TOP_VALUE {
            Core { range: (self.range * 256) as u32, ..self.shifted() }
        } else {
            self
        }
    }

    /// The bytes that widening the range writes.
    pub open spec fn widen_bytes(self) -> Seq<u8> {
        if self.range < RC_TOP_VALUE {
            self.shift_bytes()
        } else {
            Seq::empty()
        }
    }

    /// What a decision adds to `low`: nothing for a 0, the part of the
    /// range that belongs to a 0 for a 1.
    pub open spec fn step_up(self, sym: Coded, p: u16) -> int {
        match sym {
            Coded::Bit { at, one } => if one {
                (self.range / 2048) * p
            } else {
                0
            },
            Coded::Direct { one } => if one {
                self.range as int / 2
            } else {
                0
            },
        }
    }

    /// The range that a decision leaves.
    pub open spec fn step_range(self, sym: Coded, p: u16) -> int {
        match sym {
            Coded::Bit { at, one } => if one {
                self.range - (self.range / 2048) * p
            } else {
                (self.range / 2048) * p
            },
            Coded::Direct { one } => self.range as int / 2,
        }
    }

    /// The state after a decision has narrowed the interval.
    pub open spec fn narrowed(self, sym: Coded, p: u16) -> Core {
        Core {
            low: (self.low + self.step_up(sym, p)) as u64,
            range: self.step_range(sym, p) as u32,
            ..self
        }
    }

    /// The coder at the start of a stream.
    pub open spec fn fresh() -> Core {
        Core { low: 0, range: u32::MAX, cache: 0, cache_size: 1 }
    }
}

/// The bytes that the decisions are coded to, from the state `c` on: each
/// decision widens the range where it has to and narrows the interval;
/// at the end the range is widened once more where it has to be, and
/// five shifts bring out what is left.
pub open spec fn encoded(c: Core, probs: Seq<u16>, syms: Seq<Coded>) -> Seq<u8>
    decreases syms.len(),
{
    if syms.len() == 0 {
        c.widen_bytes() + c.widened().flushed(5)
    } else {
        c.widen_bytes() + encoded(
            c.widened().narrowed(syms[0], prob_of(probs, syms[0])),
            model_after(probs, syms[0]),
            syms.skip(1),
        )
    }
}

/// Widening keeps the coder sound and brings the range to 2^24 at
/// least.
pub proof fn lemma_widened_inv(c: Core, more: nat)
    requires
        c.inv(more),
        more >= 1,
    ensures
        c.widened().inv((more - 1) as nat),
        c.widened().range >= RC_TOP_VALUE,
        c.range < RC_TOP_VALUE ==> c.widened().range == 256 * c.range,
        c.range < RC_TOP_VALUE ==> c.widened().cache_size == c.shifted().cache_size
            && c.widened().low == c.shifted().low && c.widened().cache == c.shifted().cache,
{
    if c.range < RC_TOP_VALUE {
        lemma_shift_absolute(c, Seq::<u8>::empty(), more);
    }
}

/// A decision coded with an adapted probability keeps the coder sound:
/// the new interval lies within the old one and is at least 2^17 wide.
pub proof fn lemma_narrowed_inv(c: Core, sym: Coded, p: u16, more: nat)
    requires
        c.inv(more),
        c.range >= RC_TOP_VALUE,
        prob_adapted(p),
    ensures
        c.narrowed(sym, p).inv(more),
        c.narrowed(sym, p).low == c.low + c.step_up(sym, p),
        c.narrowed(sym, p).range == c.step_range(sym, p),
        0 <= c.step_up(sym, p),
        c.step_up(sym, p) + c.step_range(sym, p) <= c.range,
        c.narrowed(sym, p).cache == c.cache,
        c.narrowed(sym, p).cache_size == c.cache_size,
        0 <= (c.range / 2048) * p <= c.range,
        (c.range / 2048) * p < 0x1_0000_0000,
{
    let q = c.range as int / 2048;
    assert(q >= 8192);
    assert(q * p >= 8192 * 31 && q * p <= q * 2017) by (nonlinear_arith)
        requires
            q >= 8192,
            31 <= p <= 2017,
    ;
    assert(q * 2048 <= c.range);
    assert(q * 2048 - q * 2017 == q * 31) by (nonlinear_arith);
}

/// The code to come lies in the interval: from a sound state, with an
/// adapted model, the offset of the bytes that the decisions are coded
/// to is at least zero and below the range, and the bytes are at least
/// as many as are held back and four more.
#[verifier::rlimit(60)]
pub proof fn lemma_offset_bounds(c: Core, probs: Seq<u16>, syms: Seq<Coded>, more: nat)
    requires
        c.inv(more),
        more >= syms.len() + 6,
        probs_adapted(probs),
        decisions_fit(syms, probs.len()),
    ensures
        encoded(c, probs, syms).len() >= c.cache_size + 4,
        0 <= c.offset(encoded(c, probs, syms)) < c.range,
        c.range < RC_TOP_VALUE ==> encoded(c, probs, syms).len() >= c.cache_size + 5,
    decreases syms.len(),
{
    let w = c.widened();
    let out = c.widen_bytes();
    let all = encoded(c, probs, syms);
    lemma_widened_inv(c, more);
    if syms.len() == 0 {
        let rest = w.flushed(5);
        lemma_flush_value(w, (more - 1) as nat);
        assert(rest.take(w.cache_size + 4) =~= rest);
        assert(w.offset(rest) == 0);
        if c.range < RC_TOP_VALUE {
            lemma_shift_offset(c, rest, more);
            assert(w.held() == c.shifted().held());
        } else {
            assert(out + rest =~= rest);
        }
    } else {
        let sym = syms[0];
        let p = prob_of(probs, sym);
        assert(prob_adapted(p)) by {
            match sym {
                Coded::Bit { at, one } => {
                    assert(at < probs.len());
                },
                Coded::Direct { one } => {},
            }
        }
        let n = w.narrowed(sym, p);
        let model = model_after(probs, sym);
        lemma_narrowed_inv(w, sym, p, (more - 1) as nat);
        lemma_model_after(probs, sym);
        assert(decisions_fit(syms.skip(1), model.len())) by {
            assert forall|i: int| 0 <= i < syms.skip(1).len() implies (
            #[trigger] syms.skip(1)[i] matches Coded::Bit { at, one } ==> at < model.len()) by {
                assert(syms.skip(1)[i] == syms[i + 1]);
            }
        }
        let rest = encoded(n, model, syms.skip(1));
        lemma_offset_bounds(n, model, syms.skip(1), (more - 1) as nat);
        assert(n.held() == w.held());
        assert(w.offset(rest) == n.offset(rest) + w.step_up(sym, p));
        if c.range < RC_TOP_VALUE {
            lemma_shift_offset(c, rest, more);
            assert(w.held() == c.shifted().held());
        } else {
            assert(out + rest =~= rest);
        }
    }
}

/// Coding a decision keeps the model adapted and its size.
pub proof fn lemma_model_after(probs: Seq<u16>, sym: Coded)
    requires
        probs_adapted(probs),
        sym matches Coded::Bit { at, one } ==> at < probs.len(),
    ensures
        probs_adapted(model_after(probs, sym)),
        model_after(probs, sym).len() == probs.len(),
{
    match sym {
        Coded::Bit { at, one } => {
            lemma_prob_update_closed(probs[at as int]);
        },
        Coded::Direct { one } => {},
    }
}

/// What the decoder knows of a decision before it decodes it: the
/// probability to decode with, or that there is none.
pub enum Context {
    Bit { at: usize },
    Direct,
}

/// What the decoder knows of a decision.
pub open spec fn context_of(sym: Coded) -> Context {
    match sym {
        Coded::Bit { at, one } => Context::Bit { at },
        Coded::Direct { one } => Context::Direct,
    }
}

/// What the decoder knows of the decisions.
pub open spec fn contexts(syms: Seq<Coded>) -> Seq<Context> {
    Seq::new(syms.len(), |i: int| context_of(syms[i]))
}

/// The bit that a decision stands for.
pub open spec fn bit_of(sym: Coded) -> bool {
    match sym {
        Coded::Bit { at, one } => one,
        Coded::Direct { one } => one,
    }
}

/// The bits that the decisions stand for.
pub open spec fn bits_of(syms: Seq<Coded>) -> Seq<bool> {
    Seq::new(syms.len(), |i: int| bit_of(syms[i]))
}

/// What decoding gives: the bits, the model, the decoder, and whether
/// the input ran out.
pub struct Decoded {
    pub bits: Seq<bool>,
    pub probs: Seq<u16>,
    pub rc: LzmaRangeDecoder,
    pub starved: bool,
}

/// Decoding one bit for each context from the bytes `input`: a bit with
/// a probability as `bit_read` decodes it, a bit without one as
/// `direct_read` does. Decoding stops where a byte is needed and none is
/// left.
pub open spec fn decoded(rc: LzmaRangeDecoder, probs: Seq<u16>, input: Seq<u8>, ctx: Seq<Context>) -> Decoded
    decreases ctx.len(),
{
    if ctx.len() == 0 {
        Decoded { bits: Seq::empty(), probs, rc, starved: false }
    } else if rc.hungry() && input.len() == 0 {
        Decoded { bits: Seq::empty(), probs, rc, starved: true }
    } else {
        let rest = if rc.hungry() {
            input.skip(1)
        } else {
            input
        };
        match ctx[0] {
            Context::Bit { at } => {
                let r = rc.bit_read(probs[at as int], input);
                let d = decoded(r.rc, probs.update(at as int, r.prob), rest, ctx.skip(1));
                Decoded { bits: seq![r.bit == Some(1u32)] + d.bits, ..d }
            },
            Context::Direct => {
                let ready = rc.normalized(input);
                let d = decoded(ready.direct_read(), probs, rest, ctx.skip(1));
                Decoded { bits: seq![ready.direct_is_one()] + d.bits, ..d }
            },
        }
    }
}

/// The decoder follows the encoder: a decoder that has the range of the
/// coder and, as its code, the offset of the bytes to come, decodes from
/// the bytes behind those it has read the bits that the decisions stand
/// for, and ends with the model that the encoder ends with.
#[verifier::rlimit(60)]
pub proof fn lemma_decodes(c: Core, probs: Seq<u16>, syms: Seq<Coded>, rc: LzmaRangeDecoder, more: nat)
    requires
        c.inv(more),
        more >= syms.len() + 6,
        probs_adapted(probs),
        decisions_fit(syms, probs.len()),
        rc.range == c.range,
        rc.code == c.offset(encoded(c, probs, syms)),
    ensures
        !decoded(
            rc,
            probs,
            encoded(c, probs, syms).skip(c.cache_size + 4),
            contexts(syms),
        ).starved,
        decoded(rc, probs, encoded(c, probs, syms).skip(c.cache_size + 4), contexts(syms)).bits
            == bits_of(syms),
        decoded(rc, probs, encoded(c, probs, syms).skip(c.cache_size + 4), contexts(syms)).probs
            == final_model(probs, syms),
    decreases syms.len(),
{
    let all = encoded(c, probs, syms);
    let input = all.skip(c.cache_size + 4);
    let ctx = contexts(syms);
    let got = decoded(rc, probs, input, ctx);
    if syms.len() == 0 {
        assert(got.bits =~= bits_of(syms));
    } else {
        let w = c.widened();
        let out = c.widen_bytes();
        let sym = syms[0];
        let p = prob_of(probs, sym);
        let n = w.narrowed(sym, p);
        let model = model_after(probs, sym);
        let tail = syms.skip(1);
        let rest = encoded(n, model, tail);
        lemma_offset_bounds(c, probs, syms, more);
        lemma_widened_inv(c, more);
        assert(prob_adapted(p)) by {
            match sym {
                Coded::Bit { at, one } => {
                    assert(at < probs.len());
                },
                Coded::Direct { one } => {},
            }
        }
        lemma_narrowed_inv(w, sym, p, (more - 1) as nat);
        lemma_model_after(probs, sym);
        assert(decisions_fit(tail, model.len())) by {
            assert forall|i: int| 0 <= i < tail.len() implies (#[trigger] tail[i] matches Coded::Bit {
                at,
                one,
            } ==> at < model.len()) by {
                assert(tail[i] == syms[i + 1]);
            }
        }
        lemma_offset_bounds(n, model, tail, (more - 1) as nat);
        assert(n.held() == w.held());
        assert(w.offset(rest) == n.offset(rest) + w.step_up(sym, p));
        let ready = rc.normalized(input);
        let after = if rc.hungry() {
            input.skip(1)
        } else {
            input
        };
        if c.range < RC_TOP_VALUE {
            lemma_shift_offset(c, rest, more);
            assert(w.held() == c.shifted().held());
            assert(input[0] == all[c.cache_size + 4]);
            let one_byte = seq![input[0]];
            assert(one_byte.drop_last().len() == 0);
            assert(code_after(rc.code, one_byte.drop_last()) == rc.code);
            assert(ready.code == w.offset(rest));
            assert(after =~= rest.skip(w.cache_size + 4));
        } else {
            assert(out + rest =~= rest);
            assert(after =~= rest.skip(w.cache_size + 4));
        }
        assert(ready.range == w.range);
        assert(ready.code == w.offset(rest));
        assert(ctx[0] == context_of(sym));
        assert(ctx.skip(1) =~= contexts(tail));
        assert(bits_of(syms) =~= seq![bit_of(sym)] + bits_of(tail));
        match sym {
            Coded::Bit { at, one } => {
                let r = rc.bit_read(probs[at as int], input);
                assert(r.rc.range == n.range);
                assert(r.rc.code == n.offset(rest));
                assert(r.bit == Some(if one {
                    1u32
                } else {
                    0u32
                }));
                assert(probs.update(at as int, r.prob) == model);
                lemma_decodes(n, model, tail, r.rc, (more - 1) as nat);
            },
            Coded::Direct { one } => {
                let half = ready.range / 2;
                assert(ready.direct_is_one() == one);
                assert(ready.direct_read().range == n.range);
                assert(ready.direct_read().code == n.offset(rest));
                lemma_decodes(n, model, tail, ready.direct_read(), (more - 1) as nat);
            },
        }
    }
}

/// The range coder gives back what it was given. The decisions, coded
/// from the start of a stream with a model of adapted probabilities,
/// come out as bytes of which the first is zero; a decoder that is
/// primed on these bytes and knows of each decision only how it was
/// coded decodes from the rest the bit of every decision, does not run
/// out of input, and ends with the model that the encoder ends with.
pub proof fn lemma_round_trip(probs: Seq<u16>, syms: Seq<Coded>)
    requires
        probs_adapted(probs),
        decisions_fit(syms, probs.len()),
        syms.len() + 8 <= u64::MAX,
    ensures
        encoded(Core::fresh(), probs, syms).len() >= 5,
        encoded(Core::fresh(), probs, syms)[0] == 0,
        LzmaRangeDecoder::fresh().primed(encoded(Core::fresh(), probs, syms)).ret
            == LzmaRet::StreamEnd,
        LzmaRangeDecoder::fresh().primed(encoded(Core::fresh(), probs, syms)).used == 5,
        !decoded(
            LzmaRangeDecoder::fresh().primed(encoded(Core::fresh(), probs, syms)).rc,
            probs,
            encoded(Core::fresh(), probs, syms).skip(5),
            contexts(syms),
        ).starved,
        decoded(
            LzmaRangeDecoder::fresh().primed(encoded(Core::fresh(), probs, syms)).rc,
            probs,
            encoded(Core::fresh(), probs, syms).skip(5),
            contexts(syms),
        ).bits == bits_of(syms),
        decoded(
            LzmaRangeDecoder::fresh().primed(encoded(Core::fresh(), probs, syms)).rc,
            probs,
            encoded(Core::fresh(), probs, syms).skip(5),
            contexts(syms),
        ).probs == final_model(probs, syms),
{
    let c = Core::fresh();
    let more = (u64::MAX - 1) as nat;
    let all = encoded(c, probs, syms);
    lemma_offset_bounds(c, probs, syms, more);
    let e = Seq::<u8>::empty();
    assert(c.held() =~= e.push(0u8));
    lemma_be_push(e, 0u8);
    let five = all.take(5);
    let four = all.subrange(1, 5);
    assert(five =~= e.push(all[0]) + four);
    lemma_be_append4(e.push(all[0]), four);
    lemma_be_push(e, all[0]);
    assert(all[0] == 0);
    lemma_priming(all);
    assert(four =~= e.push(all[1]).push(all[2]).push(all[3]).push(all[4]));
    lemma_be_push(e, all[1]);
    lemma_be_push(e.push(all[1]), all[2]);
    lemma_be_push(e.push(all[1]).push(all[2]), all[3]);
    lemma_be_push(e.push(all[1]).push(all[2]).push(all[3]), all[4]);
    let rc = LzmaRangeDecoder::fresh().primed(all).rc;
    assert(rc.code == c.offset(all));
    lemma_decodes(c, probs, syms, rc, more);
}

/// The bytes that the decisions are coded to when no flush follows.
pub open spec fn coded_bytes(c: Core, probs: Seq<u16>, syms: Seq<Coded>) -> Seq<u8>
    decreases syms.len(),
{
    if syms.len() == 0 {
        Seq::empty()
    } else {
        c.widen_bytes() + coded_bytes(
            c.widened().narrowed(syms[0], prob_of(probs, syms[0])),
            model_after(probs, syms[0]),
            syms.skip(1),
        )
    }
}

/// The state of the coder after the decisions have been coded.
pub open spec fn coded_core(c: Core, probs: Seq<u16>, syms: Seq<Coded>) -> Core
    decreases syms.len(),
{
    if syms.len() == 0 {
        c
    } else {
        coded_core(
            c.widened().narrowed(syms[0], prob_of(probs, syms[0])),
            model_after(probs, syms[0]),
            syms.skip(1),
        )
    }
}

/// Coding in two goes: the bytes of the decisions `a` and then `b` are
/// the bytes of `a`, coded without a flush, and behind them the bytes of
/// `b`, coded from where `a` has left the coder and the model.
pub proof fn lemma_encoded_split(c: Core, probs: Seq<u16>, a: Seq<Coded>, b: Seq<Coded>)
    ensures
        encoded(c, probs, a + b) == coded_bytes(c, probs, a) + encoded(
            coded_core(c, probs, a),
            final_model(probs, a),
            b,
        ),
        final_model(probs, a + b) == final_model(final_model(probs, a), b),
    decreases a.len(),
{
    if a.len() == 0 {
        assert(a + b =~= b);
        assert(coded_bytes(c, probs, a) + encoded(c, probs, b) =~= encoded(c, probs, b));
    } else {
        let sym = a[0];
        let n = c.widened().narrowed(sym, prob_of(probs, sym));
        let model = model_after(probs, sym);
        assert((a + b)[0] == sym);
        assert((a + b).skip(1) =~= a.skip(1) + b);
        lemma_encoded_split(n, model, a.skip(1), b);
        assert(c.widen_bytes() + (coded_bytes(n, model, a.skip(1)) + encoded(
            coded_core(n, model, a.skip(1)),
            final_model(model, a.skip(1)),
            b,
        )) =~= (c.widen_bytes() + coded_bytes(n, model, a.skip(1))) + encoded(
            coded_core(n, model, a.skip(1)),
            final_model(model, a.skip(1)),
            b,
        ));
    }
}

/// The part of an encoder that the bytes to come depend on.
pub open spec fn core_of(enc: LzmaRangeEncoder) -> Core {
    Core { low: enc.low, range: enc.range, cache: enc.cache, cache_size: enc.cache_size }
}

/// The decision that the symbol at `i` of the queue stands for.
pub open spec fn decision_at(enc: LzmaRangeEncoder, i: int) -> Coded {
    match enc.symbols@[i] {
        RcSymbol::RcBit0 => Coded::Bit { at: enc.probs@[i], one: false },
        RcSymbol::RcBit1 => Coded::Bit { at: enc.probs@[i], one: true },
        RcSymbol::RcDirect0 => Coded::Direct { one: false },
        RcSymbol::RcDirect1 => Coded::Direct { one: true },
        RcSymbol::RcFlush => Coded::Direct { one: false },
    }
}

/// The decisions that the symbols from the drain's position up to `to`
/// stand for.
pub open spec fn decisions(enc: LzmaRangeEncoder, to: int) -> Seq<Coded> {
    Seq::new((to - enc.pos) as nat, |k: int| decision_at(enc, enc.pos + k))
}

/// No symbol from the drain's position up to `to` is a flush.
pub open spec fn plain_upto(enc: LzmaRangeEncoder, to: int) -> bool {
    forall|i: int| enc.pos <= i < to ==> #[trigger] enc.symbols@[i] != RcSymbol::RcFlush
}

/// The symbols from `from` up to the end of the queue are flushes.
pub open spec fn flushes_from(enc: LzmaRangeEncoder, from: int) -> bool {
    forall|i: int| from <= i < enc.count ==> #[trigger] enc.symbols@[i] == RcSymbol::RcFlush
}

/// Where the room suffices, widening the range and coding a symbol do
/// to the encoder what they do to its core.
proof fn lemma_step_core(enc: LzmaRangeEncoder, probs: Seq<u16>, cap: nat, more: nat)
    requires
        enc.pos < enc.count <= RC_SYMBOLS_MAX,
        !enc.widen_blocks(cap),
        core_of(enc).inv(more),
        more >= 1,
    ensures
        core_of(enc.widened(cap)) == core_of(enc).widened(),
        enc.widen_out(cap) == core_of(enc).widen_bytes(),
        enc.widened(cap).pos == enc.pos,
        enc.widened(cap).count == enc.count,
        enc.widened(cap).symbols == enc.symbols,
        enc.widened(cap).probs == enc.probs,
        enc.symbols@[enc.pos as int] != RcSymbol::RcFlush && prob_adapted(
            prob_of(probs, decision_at(enc, enc.pos as int)),
        ) ==> {
            let wide = enc.widened(cap);
            let sym = decision_at(enc, enc.pos as int);
            let p = probs[enc.probs@[enc.pos as int] as int];
            &&& core_of(wide.coded(p)) == core_of(enc).widened().narrowed(sym, prob_of(probs, sym))
            &&& wide.adapted(probs) == model_after(probs, sym)
            &&& wide.coded(p).pos == enc.pos + 1
            &&& wide.coded(p).count == enc.count
            &&& wide.coded(p).symbols == enc.symbols
            &&& wide.coded(p).probs == enc.probs
        },
{
    let c = core_of(enc);
    lemma_widened_inv(c, more);
    assert(enc.held_bytes() =~= c.held_carried());
    let sym = decision_at(enc, enc.pos as int);
    if enc.symbols@[enc.pos as int] != RcSymbol::RcFlush && prob_adapted(prob_of(probs, sym)) {
        lemma_narrowed_inv(c.widened(), sym, prob_of(probs, sym), (more - 1) as nat);
    }
}

/// A drain of a queue without a flush writes the bytes that the queue's
/// decisions are coded to, and leaves the coder and the model where
/// they leave them.
pub proof fn lemma_drained_codes(enc: LzmaRangeEncoder, probs: Seq<u16>, cap: nat, more: nat)
    requires
        enc.pos <= enc.count <= RC_SYMBOLS_MAX,
        plain_upto(enc, enc.count as int),
        core_of(enc).inv(more),
        more >= enc.count - enc.pos,
        probs_adapted(probs),
        enc.names_model(probs.len()),
        !enc.drained(probs, cap).more,
    ensures
        enc.drained(probs, cap).out == coded_bytes(
            core_of(enc),
            probs,
            decisions(enc, enc.count as int),
        ),
        core_of(enc.drained(probs, cap).enc) == coded_core(
            core_of(enc),
            probs,
            decisions(enc, enc.count as int),
        ),
        enc.drained(probs, cap).probs == final_model(probs, decisions(enc, enc.count as int)),
        enc.drained(probs, cap).enc.count == 0,
        enc.drained(probs, cap).enc.pos == 0,
        decisions_fit(decisions(enc, enc.count as int), probs.len()),
        core_of(enc.drained(probs, cap).enc).inv((more - (enc.count - enc.pos)) as nat),
        probs_adapted(enc.drained(probs, cap).probs),
    decreases enc.count - enc.pos,
{
    let syms = decisions(enc, enc.count as int);
    if enc.pos < enc.count {
        let sym = syms[0];
        assert(sym == decision_at(enc, enc.pos as int));
        assert(enc.symbols@[enc.pos as int] != RcSymbol::RcFlush);
        let p = probs[enc.probs@[enc.pos as int] as int];
        assert(prob_adapted(prob_of(probs, sym))) by {
            if enc.symbols@[enc.pos as int] == RcSymbol::RcBit0 || enc.symbols@[enc.pos as int]
                == RcSymbol::RcBit1 {
                assert(enc.probs@[enc.pos as int] < probs.len());
            }
        }
        lemma_step_core(enc, probs, cap, more);
        let wide = enc.widened(cap);
        let next = wide.coded(p);
        let model = wide.adapted(probs);
        let room = (cap - enc.widen_out(cap).len()) as nat;
        lemma_widened_inv(core_of(enc), more);
        lemma_narrowed_inv(
            core_of(enc).widened(),
            sym,
            prob_of(probs, sym),
            (more - 1) as nat,
        );
        assert(sym matches Coded::Bit { at, one } ==> at < probs.len());
        lemma_model_after(probs, sym);
        assert(decisions(next, enc.count as int) =~= syms.skip(1));
        assert(plain_upto(next, enc.count as int));
        assert(next.names_model(model.len()));
        lemma_drained_codes(next, model, room, (more - 1) as nat);
        assert(decisions_fit(syms, probs.len())) by {
            assert forall|i: int| 0 <= i < syms.len() implies (#[trigger] syms[i] matches Coded::Bit {
                at,
                one,
            } ==> at < probs.len()) by {
                if i > 0 {
                    assert(syms[i] == syms.skip(1)[i - 1]);
                }
            }
        }
    } else {
        assert(syms =~= Seq::<Coded>::empty());
    }
}

/// The bytes of shifts do not depend on the range.
proof fn lemma_flushed_any_range(c: Core, range: u32, n: nat)
    ensures
        (Core { range, ..c }).flushed(n) == c.flushed(n),
    decreases n,
{
    if n > 0 {
        lemma_flushed_any_range(c.shifted(), range, (n - 1) as nat);
        assert((Core { range, ..c }).shifted() == (Core { range, ..c.shifted() }));
    }
}

/// A flush that had room writes what as many shifts of the core write
/// as there are symbols left.
proof fn lemma_flushed_core(enc: LzmaRangeEncoder, probs: Seq<u16>, cap: nat)
    requires
        enc.pos <= enc.count,
        !enc.flushed(probs, cap).more,
    ensures
        enc.flushed(probs, cap).out == core_of(enc).flushed((enc.count - enc.pos) as nat),
    decreases enc.count - enc.pos,
{
    if enc.pos < enc.count {
        let next = LzmaRangeEncoder { pos: (enc.pos + 1) as usize, ..enc.shift_next(cap) };
        lemma_flushed_core(next, probs, (cap - enc.shift_out(cap).len()) as nat);
        assert(enc.held_bytes() =~= core_of(enc).held_carried());
        assert(core_of(next) == core_of(enc).shifted());
    }
}

/// What the encoder writes is what the decoder reads. A drain that had
/// room, of a queue that holds decisions and behind them the five flush
/// symbols, writes the bytes that the decisions are coded to, and leaves
/// the model that they leave.
pub proof fn lemma_drained_encodes(enc: LzmaRangeEncoder, probs: Seq<u16>, cap: nat, more: nat)
    requires
        enc.pos + 5 <= enc.count <= RC_SYMBOLS_MAX,
        plain_upto(enc, enc.count - 5),
        flushes_from(enc, enc.count - 5),
        core_of(enc).inv(more),
        more >= enc.count - enc.pos + 1,
        probs_adapted(probs),
        enc.names_model(probs.len()),
        !enc.drained(probs, cap).more,
    ensures
        enc.drained(probs, cap).out == encoded(core_of(enc), probs, decisions(enc, enc.count - 5)),
        enc.drained(probs, cap).probs == final_model(probs, decisions(enc, enc.count - 5)),
        decisions_fit(decisions(enc, enc.count - 5), probs.len()),
    decreases enc.count - enc.pos,
{
    let syms = decisions(enc, enc.count - 5);
    lemma_widened_inv(core_of(enc), more);
    if enc.pos + 5 < enc.count {
        let sym = syms[0];
        assert(sym == decision_at(enc, enc.pos as int));
        assert(enc.symbols@[enc.pos as int] != RcSymbol::RcFlush);
        let p = probs[enc.probs@[enc.pos as int] as int];
        assert(prob_adapted(prob_of(probs, sym))) by {
            if enc.symbols@[enc.pos as int] == RcSymbol::RcBit0 || enc.symbols@[enc.pos as int]
                == RcSymbol::RcBit1 {
                assert(enc.probs@[enc.pos as int] < probs.len());
            }
        }
        lemma_step_core(enc, probs, cap, more);
        let wide = enc.widened(cap);
        let next = wide.coded(p);
        let model = wide.adapted(probs);
        let room = (cap - enc.widen_out(cap).len()) as nat;
        lemma_narrowed_inv(
            core_of(enc).widened(),
            sym,
            prob_of(probs, sym),
            (more - 1) as nat,
        );
        assert(sym matches Coded::Bit { at, one } ==> at < probs.len());
        lemma_model_after(probs, sym);
        assert(decisions(next, enc.count - 5) =~= syms.skip(1));
        assert(plain_upto(next, enc.count - 5));
        assert(flushes_from(next, enc.count - 5));
        assert(next.names_model(model.len()));
        lemma_drained_encodes(next, model, room, (more - 1) as nat);
        assert(decisions_fit(syms, probs.len())) by {
            assert forall|i: int| 0 <= i < syms.len() implies (#[trigger] syms[i] matches Coded::Bit {
                at,
                one,
            } ==> at < probs.len()) by {
                if i > 0 {
                    assert(syms[i] == syms.skip(1)[i - 1]);
                }
            }
        }
    } else {
        assert(syms =~= Seq::<Coded>::empty());
        assert(enc.symbols@[enc.pos as int] == RcSymbol::RcFlush);
        lemma_step_core(enc, probs, cap, more);
        let wide = enc.widened(cap);
        let head = LzmaRangeEncoder { range: u32::MAX, ..wide };
        let room = (cap - enc.widen_out(cap).len()) as nat;
        lemma_flushed_core(head, probs, room);
        crate::rangecoder::range_encoder::lemma_flushed_probs(head, probs, room);
        lemma_flushed_any_range(core_of(wide), u32::MAX, 5);
        assert(core_of(head) == (Core { range: u32::MAX, ..core_of(wide) }));
    }
}

/// Encoding and then decoding gives the bits back. An encoder that was
/// reset and then given decisions and the five flush symbols writes,
/// where it has room, bytes that a fresh decoder primes on; from the
/// rest the decoder decodes the bit of every decision without running
/// out of input, and its model ends as the encoder's.
pub proof fn lemma_encode_then_decode(enc: LzmaRangeEncoder, probs: Seq<u16>, cap: nat)
    requires
        core_of(enc) == Core::fresh(),
        enc.pos + 5 <= enc.count <= RC_SYMBOLS_MAX,
        plain_upto(enc, enc.count - 5),
        flushes_from(enc, enc.count - 5),
        probs_adapted(probs),
        enc.names_model(probs.len()),
        !enc.drained(probs, cap).more,
    ensures
        ({
            let bytes = enc.drained(probs, cap).out;
            let primed = LzmaRangeDecoder::fresh().primed(bytes);
            let got = decoded(primed.rc, probs, bytes.skip(5), contexts(decisions(enc, enc.count - 5)));
            &&& bytes.len() >= 5
            &&& primed.ret == LzmaRet::StreamEnd
            &&& primed.used == 5
            &&& !got.starved
            &&& got.bits == bits_of(decisions(enc, enc.count - 5))
            &&& got.probs == enc.drained(probs, cap).probs
        }),
{
    lemma_drained_encodes(enc, probs, cap, (u64::MAX - 1) as nat);
    lemma_round_trip(probs, decisions(enc, enc.count - 5));
}

/// The decisions of one batch of a session: all that its queue holds,
/// or, for the last batch, all before the five flush symbols.
pub open spec fn batch_decisions(enc: LzmaRangeEncoder, last: bool) -> Seq<Coded> {
    if last {
        decisions(enc, enc.count - 5)
    } else {
        decisions(enc, enc.count as int)
    }
}

/// A session of batches. `encs` holds the encoder as it stands before
/// each drain, with its batch queued; the drain of the batch `i` has
/// room for `caps[i]` bytes and comes through. Every batch but the last
/// is free of flush symbols and hands its coder on to the next; the
/// last ends with the five flush symbols. `probs` is the model before
/// the first drain.
pub open spec fn session_runs(encs: Seq<LzmaRangeEncoder>, caps: Seq<nat>, probs: Seq<u16>) -> bool
    decreases encs.len(),
{
    if encs.len() == 0 {
        false
    } else {
        let e = encs[0];
        let d = e.drained(probs, caps[0]);
        &&& caps.len() == encs.len()
        &&& e.pos <= e.count <= RC_SYMBOLS_MAX
        &&& e.names_model(probs.len())
        &&& !d.more
        &&& if encs.len() == 1 {
            &&& e.pos + 5 <= e.count
            &&& plain_upto(e, e.count - 5)
            &&& flushes_from(e, e.count - 5)
        } else {
            &&& plain_upto(e, e.count as int)
            &&& core_of(encs[1]) == core_of(d.enc)
            &&& session_runs(encs.skip(1), caps.skip(1), d.probs)
        }
    }
}

/// The bytes that the drains of a session write, one after the other.
pub open spec fn session_bytes(encs: Seq<LzmaRangeEncoder>, caps: Seq<nat>, probs: Seq<u16>) -> Seq<
    u8,
>
    decreases encs.len(),
{
    if encs.len() == 0 {
        Seq::empty()
    } else {
        let d = encs[0].drained(probs, caps[0]);
        d.out + session_bytes(encs.skip(1), caps.skip(1), d.probs)
    }
}

/// The model as the last drain of a session leaves it.
pub open spec fn session_model(encs: Seq<LzmaRangeEncoder>, caps: Seq<nat>, probs: Seq<u16>) -> Seq<
    u16,
>
    decreases encs.len(),
{
    if encs.len() == 0 {
        probs
    } else {
        session_model(encs.skip(1), caps.skip(1), encs[0].drained(probs, caps[0]).probs)
    }
}

/// The decisions of all batches of a session, in their order.
pub open spec fn session_decisions(encs: Seq<LzmaRangeEncoder>) -> Seq<Coded>
    decreases encs.len(),
{
    if encs.len() == 0 {
        Seq::empty()
    } else {
        batch_decisions(encs[0], encs.len() == 1) + session_decisions(encs.skip(1))
    }
}

/// The number of symbols that the batches of a session queue.
pub open spec fn session_symbols(encs: Seq<LzmaRangeEncoder>) -> nat
    decreases encs.len(),
{
    if encs.len() == 0 {
        0
    } else {
        (encs[0].count - encs[0].pos) as nat + session_symbols(encs.skip(1))
    }
}

/// A session writes what the coder makes of all its decisions in one
/// go, and leaves the model that they leave.
pub proof fn lemma_session_encodes(encs: Seq<LzmaRangeEncoder>, caps: Seq<nat>, probs: Seq<u16>, more: nat)
    requires
        session_runs(encs, caps, probs),
        core_of(encs[0]).inv(more),
        more >= session_symbols(encs) + 1,
        probs_adapted(probs),
    ensures
        session_bytes(encs, caps, probs) == encoded(
            core_of(encs[0]),
            probs,
            session_decisions(encs),
        ),
        session_model(encs, caps, probs) == final_model(probs, session_decisions(encs)),
        decisions_fit(session_decisions(encs), probs.len()),
        session_decisions(encs).len() + 5 == session_symbols(encs),
    decreases encs.len(),
{
    let e = encs[0];
    let d = e.drained(probs, caps[0]);
    let rest = encs.skip(1);
    let e0 = Seq::<u8>::empty();
    if encs.len() == 1 {
        lemma_drained_encodes(e, probs, caps[0], more);
        assert(session_bytes(rest, caps.skip(1), d.probs) =~= e0);
        assert(session_decisions(rest) =~= Seq::<Coded>::empty());
        assert(session_decisions(encs) =~= decisions(e, e.count - 5));
        assert(session_bytes(encs, caps, probs) =~= d.out);
        assert(session_symbols(rest) == 0);
        assert(session_model(rest, caps.skip(1), d.probs) == d.probs);
    } else {
        let a = decisions(e, e.count as int);
        let b = session_decisions(rest);
        lemma_drained_codes(e, probs, caps[0], more);
        // The model keeps its length, so the decisions to come name its entries.
        crate::rangecoder::drain_laws::lemma_drain_keeps_range(e, probs, caps[0]);
        assert(rest[0] == encs[1]);
        lemma_session_encodes(rest, caps.skip(1), d.probs, (more - (e.count - e.pos)) as nat);
        lemma_encoded_split(core_of(e), probs, a, b);
        assert(session_decisions(encs) == a + b);
        assert(d.probs == final_model(probs, a));
        assert(session_model(encs, caps, probs) == session_model(rest, caps.skip(1), d.probs));
        assert forall|i: int| 0 <= i < (a + b).len() implies (#[trigger] (a + b)[i] matches Coded::Bit {
            at,
            one,
        } ==> at < probs.len()) by {
            if i < a.len() {
                assert((a + b)[i] == a[i]);
            } else {
                assert((a + b)[i] == b[i - a.len()]);
            }
        }
    }
}

/// The round trip of a whole session: any number of batches, queued
/// after a reset and drained one after the other, the last ending with
/// the five flush symbols, write bytes that begin with a zero byte, and
/// a decoder that is primed with them reads the decisions of all
/// batches back, in their order, without running out of bytes, and
/// leaves the model as the encoder left it.
pub proof fn lemma_session_round_trip(encs: Seq<LzmaRangeEncoder>, caps: Seq<nat>, probs: Seq<u16>)
    requires
        session_runs(encs, caps, probs),
        core_of(encs[0]) == Core::fresh(),
        probs_adapted(probs),
        session_symbols(encs) + 8 <= u64::MAX,
    ensures
        ({
            let bytes = session_bytes(encs, caps, probs);
            let primed = LzmaRangeDecoder::fresh().primed(bytes);
            let got = decoded(primed.rc, probs, bytes.skip(5), contexts(session_decisions(encs)));
            &&& bytes.len() >= 5
            &&& bytes[0] == 0
            &&& primed.ret == LzmaRet::StreamEnd
            &&& primed.used == 5
            &&& !got.starved
            &&& got.bits == bits_of(session_decisions(encs))
            &&& got.probs == session_model(encs, caps, probs)
        }),
{
    lemma_session_encodes(encs, caps, probs, (u64::MAX - 1) as nat);
    lemma_round_trip(probs, session_decisions(encs));
}

} // verus!
