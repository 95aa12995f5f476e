use vstd::prelude::*;
use crate::rangecoder::range_common::{
    prob_valid, probs_valid, prob_after_0, prob_after_1, prob_update_0, prob_update_1,
    lemma_prob_update_closed, RC_TOP_VALUE, RC_SHIFT_BITS,
};
use crate::seqs::{splice, lemma_splice_empty, lemma_splice_splice};
use crate::bitops::{lemma_u32_low_bit, lemma_u32_shr_pow2, lemma_usize_double};
use vstd::arithmetic::power2::pow2;

verus! {

/// Most symbols the encoder can hold between two drains.
pub const RC_SYMBOLS_MAX: usize = 53;

/// One queued coding decision.
#[derive(Clone, Copy, Debug, PartialEq, Eq, Structural)]
pub enum RcSymbol {
    RcBit0,
    RcBit1,
    RcDirect0,
    RcDirect1,
    RcFlush,
}

impl Default for RcSymbol {
    fn default() -> (s: RcSymbol)
        ensures
            s == RcSymbol::RcBit0,
    {
        RcSymbol::RcBit0
    }
}

/// The symbol with the number `v`, in the order of the variants.
pub open spec fn symbol_of(v: u32) -> RcSymbol {
    if v == 0 {
        RcSymbol::RcBit0
    } else if v == 1 {
        RcSymbol::RcBit1
    } else if v == 2 {
        RcSymbol::RcDirect0
    } else if v == 3 {
        RcSymbol::RcDirect1
    } else {
        RcSymbol::RcFlush
    }
}

impl RcSymbol {
    /// The symbol with the number `v`, or nothing above 4.
    pub fn try_from_u32(v: u32) -> (r: Option<RcSymbol>)
        ensures
            r == (if v <= 4 {
                Some(symbol_of(v))
            } else {
                None
            }),
    {
        if v == 0 {
            Some(RcSymbol::RcBit0)
        } else if v == 1 {
            Some(RcSymbol::RcBit1)
        } else if v == 2 {
            Some(RcSymbol::RcDirect0)
        } else if v == 3 {
            Some(RcSymbol::RcDirect1)
        } else if v == 4 {
            Some(RcSymbol::RcFlush)
        } else {
            None
        }
    }
}

/// Range encoder: the interval `[low, low + range)`, the bytes whose
/// carry is still open, and the queue of decisions not yet coded.
///
/// A probability-coded decision names its probability by its index in
/// the model that `rc_encode` is given; the model is read and updated
/// only there.
#[derive(Debug, Clone)]
pub struct LzmaRangeEncoder {
    pub low: u64,
    pub cache_size: u64,
    pub range: u32,
    pub cache: u8,
    /// Number of bytes written out so far.
    pub out_total: u64,
    /// Number of symbols in the queue.
    pub count: usize,
    /// Position of the drain in the queue.
    pub pos: usize,
    /// Symbols to encode.
    pub symbols: [RcSymbol; 53],
    /// For a `RcBit0` or `RcBit1`, the index of its probability.
    pub probs: [usize; 53],
}

/// What a drain leaves behind: the encoder, the model, the bytes it
/// produced, and whether it stopped for want of room.
pub struct Drained {
    pub enc: LzmaRangeEncoder,
    pub probs: Seq<u16>,
    pub out: Seq<u8>,
    pub more: bool,
}

/// A byte has to leave when the low word cannot turn into a carry any
/// more, or when the carry has come.
pub open spec fn low_settled(low: u64) -> bool {
    low % 0x1_0000_0000 < 0xFF00_0000 || low / 0x1_0000_0000 != 0
}

/// The carry out of the low 32 bits, as the byte that is added to the
/// bytes held back.
pub open spec fn low_carry(low: u64) -> u8 {
    ((low / 0x1_0000_0000) % 256) as u8
}

/// Bits 24 to 31 of `low`: the next byte to hold back.
pub open spec fn low_top_byte(low: u64) -> u8 {
    ((low / 0x100_0000) % 256) as u8
}

/// `low` after its top byte has been taken out.
pub open spec fn low_shifted(low: u64) -> u64 {
    ((low % 0x100_0000) * 256) as u64
}

impl LzmaRangeEncoder {
    /// The queue has room for no more than `RC_SYMBOLS_MAX` symbols, the
    /// drain stands inside it, and `low` and `range` together stay below
    /// 2^33: `low` has at most one carry bit above its 32 bits. (While a
    /// flush waits for room, `range` is already at its maximum.)
    pub open spec fn wf(self) -> bool {
        &&& self.count <= RC_SYMBOLS_MAX
        &&& self.pos <= self.count
        &&& self.low < 0x2_0000_0000
        &&& (self.low + self.range < 0x2_0000_0000 || (self.range == u32::MAX && self.pos
            < self.count && self.symbols@[self.pos as int] == RcSymbol::RcFlush))
    }

    /// Every probability-coded symbol still to be drained names a
    /// probability of a model of `n` entries.
    pub open spec fn names_model(self, n: nat) -> bool {
        forall|i: int|
            self.pos <= i < self.count && (self.symbols@[i] == RcSymbol::RcBit0 || self.symbols@[i]
                == RcSymbol::RcBit1) ==> #[trigger] self.probs@[i] < n
    }

    /// Behind a flush symbol the queue holds flush symbols only.
    pub open spec fn flush_closed(self) -> bool {
        forall|i: int, j: int|
            self.pos <= i <= j < self.count && self.symbols@[i] == RcSymbol::RcFlush
                ==> self.symbols@[j] == RcSymbol::RcFlush
    }

    /// The encoder as `rc_reset` leaves it; the queue's slots keep what
    /// they held.
    pub open spec fn reset_of(self) -> LzmaRangeEncoder {
        LzmaRangeEncoder {
            low: 0,
            cache_size: 1,
            range: u32::MAX,
            cache: 0,
            out_total: 0,
            count: 0,
            pos: 0,
            ..self
        }
    }

    /// The bytes that are held back: the cached byte and then 0xFF bytes,
    /// `cache_size` in all, each with the carry added.
    pub open spec fn held_bytes(self) -> Seq<u8> {
        Seq::new(
            self.cache_size as nat,
            |i: int|
                if i == 0 {
                    self.cache.wrapping_add(low_carry(self.low))
                } else {
                    0xFFu8.wrapping_add(low_carry(self.low))
                },
        )
    }

    /// Whether shifting `low` stops for want of room, with room for `cap`
    /// bytes.
    pub open spec fn shift_blocks(self, cap: nat) -> bool {
        low_settled(self.low) && self.cache_size > cap
    }

    /// The bytes that shifting `low` writes, with room for `cap` bytes.
    pub open spec fn shift_out(self, cap: nat) -> Seq<u8> {
        if !low_settled(self.low) {
            Seq::empty()
        } else if self.cache_size > cap {
            self.held_bytes().take(cap as int)
        } else {
            self.held_bytes()
        }
    }

    /// The encoder after shifting `low`, with room for `cap` bytes. Where
    /// the room runs out, the bytes not yet written stay held back and
    /// `low` is not shifted.
    pub open spec fn shift_next(self, cap: nat) -> LzmaRangeEncoder {
        if !low_settled(self.low) {
            LzmaRangeEncoder {
                cache_size: (self.cache_size + 1) as u64,
                low: low_shifted(self.low),
                ..self
            }
        } else if self.cache_size > cap {
            LzmaRangeEncoder {
                cache: if cap > 0 {
                    0xFF
                } else {
                    self.cache
                },
                cache_size: (self.cache_size - cap) as u64,
                out_total: (self.out_total + cap) as u64,
                ..self
            }
        } else {
            LzmaRangeEncoder {
                cache: low_top_byte(self.low),
                cache_size: 1,
                low: low_shifted(self.low),
                out_total: (self.out_total + self.cache_size) as u64,
                ..self
            }
        }
    }

    /// The encoder after the symbol at `pos`, which is no flush, has
    /// narrowed the interval; `p` is the probability that the symbol
    /// names.
    pub open spec fn coded(self, p: u16) -> LzmaRangeEncoder {
        let bound = ((self.range / 2048) * p) as u32;
        let half = self.range / 2;
        match self.symbols@[self.pos as int] {
            RcSymbol::RcBit0 => LzmaRangeEncoder { range: bound, pos: (self.pos + 1) as usize, ..self },
            RcSymbol::RcBit1 => LzmaRangeEncoder {
                low: (self.low + bound) as u64,
                range: (self.range - bound) as u32,
                pos: (self.pos + 1) as usize,
                ..self
            },
            RcSymbol::RcDirect0 => LzmaRangeEncoder { range: half, pos: (self.pos + 1) as usize, ..self },
            RcSymbol::RcDirect1 => LzmaRangeEncoder {
                low: (self.low + half) as u64,
                range: half,
                pos: (self.pos + 1) as usize,
                ..self
            },
            RcSymbol::RcFlush => self,
        }
    }

    /// The model after the symbol at `pos` has been coded.
    pub open spec fn adapted(self, probs: Seq<u16>) -> Seq<u16> {
        let at = self.probs@[self.pos as int] as int;
        match self.symbols@[self.pos as int] {
            RcSymbol::RcBit0 => probs.update(at, prob_after_0(probs[at])),
            RcSymbol::RcBit1 => probs.update(at, prob_after_1(probs[at])),
            _ => probs,
        }
    }

    /// The rest of a flush: `low` is shifted once for every symbol left
    /// in the queue, and then the encoder is reset.
    pub open spec fn flushed(self, probs: Seq<u16>, cap: nat) -> Drained
        decreases self.count - self.pos,
    {
        if self.pos >= self.count {
            Drained { enc: self.reset_of(), probs, out: Seq::empty(), more: false }
        } else if self.shift_blocks(cap) {
            Drained { enc: self.shift_next(cap), probs, out: self.shift_out(cap), more: true }
        } else {
            let next = LzmaRangeEncoder { pos: (self.pos + 1) as usize, ..self.shift_next(cap) };
            let rest = next.flushed(probs, (cap - self.shift_out(cap).len()) as nat);
            Drained { out: self.shift_out(cap) + rest.out, ..rest }
        }
    }

    /// Whether widening the range stops for want of room.
    pub open spec fn widen_blocks(self, cap: nat) -> bool {
        self.range < RC_TOP_VALUE && self.shift_blocks(cap)
    }

    /// The bytes that widening the range writes.
    pub open spec fn widen_out(self, cap: nat) -> Seq<u8> {
        if self.range < RC_TOP_VALUE {
            self.shift_out(cap)
        } else {
            Seq::empty()
        }
    }

    /// The encoder after a range below 2^24 has been widened by eight
    /// bits, which shifts `low`. Where the room runs out, the range stays
    /// as it is.
    pub open spec fn widened(self, cap: nat) -> LzmaRangeEncoder {
        if self.range >= RC_TOP_VALUE {
            self
        } else if self.shift_blocks(cap) {
            self.shift_next(cap)
        } else {
            LzmaRangeEncoder { range: (self.range * 256) as u32, ..self.shift_next(cap) }
        }
    }

    /// Draining the queue with room for `cap` bytes. Before each symbol
    /// a range below 2^24 is widened; then the symbol narrows the
    /// interval and adapts its probability. A flush symbol sets the range
    /// to its maximum and flushes. The drain stops where shifting `low`
    /// needs room that is not there.
    pub open spec fn drained(self, probs: Seq<u16>, cap: nat) -> Drained
        decreases self.count - self.pos,
    {
        if self.pos >= self.count {
            Drained {
                enc: LzmaRangeEncoder { count: 0, pos: 0, ..self },
                probs,
                out: Seq::empty(),
                more: false,
            }
        } else if self.widen_blocks(cap) {
            Drained { enc: self.widened(cap), probs, out: self.widen_out(cap), more: true }
        } else {
            let wide = self.widened(cap);
            let room = (cap - self.widen_out(cap).len()) as nat;
            let rest = if self.symbols@[self.pos as int] == RcSymbol::RcFlush {
                LzmaRangeEncoder { range: u32::MAX, ..wide }.flushed(probs, room)
            } else {
                wide.coded(probs[self.probs@[self.pos as int] as int]).drained(
                    wide.adapted(probs),
                    room,
                )
            };
            Drained { out: self.widen_out(cap) + rest.out, ..rest }
        }
    }
}

/// A flush leaves the model alone.
pub proof fn lemma_flushed_probs(enc: LzmaRangeEncoder, probs: Seq<u16>, cap: nat)
    ensures
        enc.flushed(probs, cap).probs == probs,
    decreases enc.count - enc.pos,
{
    if enc.pos < enc.count && !enc.shift_blocks(cap) {
        let next = LzmaRangeEncoder { pos: (enc.pos + 1) as usize, ..enc.shift_next(cap) };
        lemma_flushed_probs(next, probs, (cap - enc.shift_out(cap).len()) as nat);
    }
}

proof fn lemma_low_bits(low: u64)
    by (bit_vector)
    ensures
        (low & 0xFFFF_FFFF) == low % 0x1_0000_0000,
        (low >> 32) == low / 0x1_0000_0000,
        ((low >> 32) & 0xFF) == (low / 0x1_0000_0000) % 256,
        ((low >> 24) & 0xFF) == (low / 0x100_0000) % 256,
        (low & 0x00FF_FFFF) << 8 == (low % 0x100_0000) * 256,
        (low % 0x100_0000) * 256 <= 0xFFFF_FF00,
        (low as u32) == low % 0x1_0000_0000,
        ((low >> 32) as u32) == low / 0x1_0000_0000,
        ((low >> 32) as u8) == (low / 0x1_0000_0000) % 256,
        ((low >> 24) as u8) == (low / 0x100_0000) % 256,
{
}

/// The part of the range that a probability claims is no more than the
/// range, and fits in 32 bits.
proof fn lemma_bound(range: u32, p: u16)
    requires
        prob_valid(p),
    ensures
        0 <= (range / 2048) * p <= range,
        (range / 2048) * 2048 <= range,
        p * (range / 2048) == (range / 2048) * p,
{
    assert(p * (range as int / 2048) == (range as int / 2048) * p) by (nonlinear_arith);
    let q = range as int / 2048;
    assert(q * p <= q * 2048) by (nonlinear_arith)
        requires
            0 <= q,
            0 <= p <= 2048,
    ;
    assert(0 <= q * p) by (nonlinear_arith)
        requires
            0 <= q,
            0 <= p,
    ;
}

proof fn lemma_range_bits(range: u32)
    by (bit_vector)
    ensures
        range >> 11 == range / 2048,
        range >> 1 == range / 2,
        range < 0x100_0000 ==> range << 8 == range * 256,
{
}

/// Bit `k` of `value`, counted from the lowest.
pub open spec fn bit_of(value: u32, k: nat) -> u32 {
    ((value as nat / pow2(k)) % 2) as u32
}

/// The symbols that code the low `bit_count` bits of `symbol` with a
/// probability each, highest bit first.
pub open spec fn bittree_symbols(bit_count: nat, symbol: u32) -> Seq<RcSymbol>
    decreases bit_count,
{
    if bit_count == 0 {
        Seq::empty()
    } else {
        seq![symbol_of(bit_of(symbol, (bit_count - 1) as nat))] + bittree_symbols(
            (bit_count - 1) as nat,
            symbol,
        )
    }
}

/// The probabilities that those symbols name: the walk starts at the
/// node `node` of the tree at `base`, and each bit leads to the left or
/// the right child.
pub open spec fn bittree_probs(base: usize, bit_count: nat, symbol: u32, node: nat) -> Seq<usize>
    decreases bit_count,
{
    if bit_count == 0 {
        Seq::empty()
    } else {
        seq![(base + node) as usize] + bittree_probs(
            base,
            (bit_count - 1) as nat,
            symbol,
            2 * node + bit_of(symbol, (bit_count - 1) as nat) as nat,
        )
    }
}

/// The symbols that code the low `bit_count` bits of `symbol` with a
/// probability each, lowest bit first.
pub open spec fn reverse_symbols(bit_count: nat, symbol: u32) -> Seq<RcSymbol>
    decreases bit_count,
{
    if bit_count == 0 {
        Seq::empty()
    } else {
        seq![symbol_of(symbol % 2)] + reverse_symbols((bit_count - 1) as nat, symbol / 2)
    }
}

/// The probabilities that those symbols name, from the node `node` of
/// the tree at `base` downwards.
pub open spec fn reverse_probs(base: usize, bit_count: nat, symbol: u32, node: nat) -> Seq<usize>
    decreases bit_count,
{
    if bit_count == 0 {
        Seq::empty()
    } else {
        seq![(base + node) as usize] + reverse_probs(
            base,
            (bit_count - 1) as nat,
            symbol / 2,
            2 * node + (symbol % 2) as nat,
        )
    }
}

/// The probabilities that `rc_bittree_reverse` names. With `flags` set
/// the lowest bit is coded with the first probability of the tree, and
/// the walk goes on below the root as if the bit had been coded there.
pub open spec fn reverse_probs_flagged(base: usize, bit_count: nat, symbol: u32, flags: u8) -> Seq<
    usize,
> {
    if flags != 0 {
        seq![base] + reverse_probs(
            base,
            (bit_count - 1) as nat,
            symbol / 2,
            2 + (symbol % 2) as nat,
        )
    } else {
        reverse_probs(base, bit_count, symbol, 1)
    }
}

/// The symbols that code the low `bit_count` bits of `value` without a
/// probability, highest bit first.
pub open spec fn direct_symbols(bit_count: nat, value: u32) -> Seq<RcSymbol>
    decreases bit_count,
{
    if bit_count == 0 {
        Seq::empty()
    } else {
        seq![
            if bit_of(value, (bit_count - 1) as nat) == 0 {
                RcSymbol::RcDirect0
            } else {
                RcSymbol::RcDirect1
            },
        ] + direct_symbols((bit_count - 1) as nat, value)
    }
}

impl LzmaRangeEncoder {
    /// Everything but the queue is as in `before`.
    pub open spec fn same_coder(self, before: LzmaRangeEncoder) -> bool {
        &&& self.low == before.low
        &&& self.cache_size == before.cache_size
        &&& self.range == before.range
        &&& self.cache == before.cache
        &&& self.out_total == before.out_total
        &&& self.pos == before.pos
    }

    /// The queue is that of `before` with `syms` put behind it, naming
    /// the probabilities `names`; no other slot has changed.
    pub open spec fn queued(self, before: LzmaRangeEncoder, syms: Seq<RcSymbol>, names: Seq<usize>) -> bool {
        &&& self.same_coder(before)
        &&& self.count == before.count + syms.len()
        &&& self.symbols@ == splice(before.symbols@, before.count as int, syms)
        &&& self.probs@ == splice(before.probs@, before.count as int, names)
    }

    /// A new encoder: an empty queue, the whole range, nothing held back.
    pub fn new() -> (enc: LzmaRangeEncoder)
        ensures
            enc.low == 0,
            enc.cache_size == 0,
            enc.range == u32::MAX,
            enc.cache == 0,
            enc.out_total == 0,
            enc.count == 0,
            enc.pos == 0,
            forall|i: int| 0 <= i < 53 ==> enc.symbols@[i] == RcSymbol::RcBit0,
            forall|i: int| 0 <= i < 53 ==> enc.probs@[i] == 0,
            enc.wf(),
    {
        LzmaRangeEncoder {
            low: 0,
            cache_size: 0,
            range: u32::MAX,
            cache: 0,
            out_total: 0,
            count: 0,
            pos: 0,
            symbols: [RcSymbol::RcBit0; 53],
            probs: [0usize; 53],
        }
    }

    /// Starts a new stream: the whole range, one zero byte held back, an
    /// empty queue.
    pub fn rc_reset(&mut self)
        ensures
            *final(self) == old(self).reset_of(),
            final(self).wf(),
    {
        self.low = 0;
        self.cache_size = 1;
        self.range = u32::MAX;
        self.cache = 0;
        self.out_total = 0;
        self.count = 0;
        self.pos = 0;
    }

    /// Drops the queued symbols. The drain must stand at the start of the
    /// queue.
    pub fn rc_forget(&mut self)
        requires
            old(self).pos == 0,
        ensures
            *final(self) == (LzmaRangeEncoder { count: 0, ..*old(self) }),
    {
        self.count = 0;
    }

    /// Queues the symbol with the number `bit`, a 0 or a 1 in ordinary
    /// use, to be coded with the probability at index `prob` of the model.
    pub fn rc_bit(&mut self, prob: usize, bit: u32)
        requires
            old(self).count < RC_SYMBOLS_MAX,
            bit <= 4,
        ensures
            final(self).queued(*old(self), seq![symbol_of(bit)], seq![prob]),
    {
        let sym: RcSymbol = match RcSymbol::try_from_u32(bit) {
            Some(s) => s,
            None => RcSymbol::RcFlush,
        };
        self.symbols[self.count] = sym;
        self.probs[self.count] = prob;
        self.count += 1;
        assert(self.symbols@ =~= splice(old(self).symbols@, old(self).count as int, seq![symbol_of(bit)]));
        assert(self.probs@ =~= splice(old(self).probs@, old(self).count as int, seq![prob]));
    }

    /// Queues the low `bit_count` bits of `symbol`, highest first, each
    /// coded with the probability of the tree node that the bits before
    /// it lead to. The tree's probabilities start at index `base` of the
    /// model.
    pub fn rc_bittree(&mut self, base: usize, bit_count: u32, symbol: u32)
        requires
            bit_count <= 31,
            old(self).count + bit_count <= RC_SYMBOLS_MAX,
            base + pow2(bit_count as nat) <= usize::MAX,
        ensures
            final(self).queued(
                *old(self),
                bittree_symbols(bit_count as nat, symbol),
                bittree_probs(base, bit_count as nat, symbol, 1),
            ),
    {
        let mut model_index: usize = 1;
        let mut bit_count: u32 = bit_count;
        let ghost total: u32 = bit_count;
        let ghost mut syms: Seq<RcSymbol> = Seq::empty();
        let ghost mut names: Seq<usize> = Seq::empty();
        proof {
            vstd::arithmetic::power2::lemma2_to64();
            assert(self.symbols@ =~= splice(old(self).symbols@, old(self).count as int, syms));
            assert(self.probs@ =~= splice(old(self).probs@, old(self).count as int, names));
        }
        while bit_count != 0
            invariant
                bit_count <= total <= 31,
                old(self).count + total <= RC_SYMBOLS_MAX,
                base + pow2(total as nat) <= usize::MAX,
                syms.len() == total - bit_count,
                names.len() == total - bit_count,
                model_index < pow2((total - bit_count + 1) as nat),
                self.queued(*old(self), syms, names),
                syms + bittree_symbols(bit_count as nat, symbol) == bittree_symbols(
                    total as nat,
                    symbol,
                ),
                names + bittree_probs(base, bit_count as nat, symbol, model_index as nat)
                    == bittree_probs(base, total as nat, symbol, 1),
            decreases bit_count,
        {
            bit_count -= 1;
            proof {
                lemma_u32_shr_pow2(symbol, bit_count);
                lemma_u32_low_bit(symbol >> bit_count);
                vstd::arithmetic::power2::lemma_pow2_unfold((total - bit_count) as nat);
                vstd::arithmetic::power2::lemma_pow2_unfold((total - bit_count + 1) as nat);
                if total - bit_count < total {
                    vstd::arithmetic::power2::lemma_pow2_strictly_increases(
                        (total - bit_count) as nat,
                        total as nat,
                    );
                }
                if total < 31 {
                    vstd::arithmetic::power2::lemma_pow2_strictly_increases(total as nat, 31);
                }
                vstd::arithmetic::power2::lemma2_to64();
                lemma_usize_double(model_index);
            }
            let bit: u32 = (symbol >> bit_count) & 1;
            let ghost before = *self;
            self.rc_bit(base + model_index, bit);
            proof {
                let s1 = seq![symbol_of(bit)];
                let n1 = seq![(base + model_index) as usize];
                lemma_splice_splice(old(self).symbols@, old(self).count as int, syms, s1);
                lemma_splice_splice(old(self).probs@, old(self).count as int, names, n1);
                assert((syms + s1) + bittree_symbols(bit_count as nat, symbol) =~= syms + (s1
                    + bittree_symbols(bit_count as nat, symbol)));
                assert((names + n1) + bittree_probs(
                    base,
                    bit_count as nat,
                    symbol,
                    2 * model_index as nat + bit as nat,
                ) =~= names + (n1 + bittree_probs(
                    base,
                    bit_count as nat,
                    symbol,
                    2 * model_index as nat + bit as nat,
                )));
                syms = syms + s1;
                names = names + n1;
            }
            model_index = (model_index << 1) + bit as usize;
        }
        proof {
            assert(syms + Seq::<RcSymbol>::empty() =~= syms);
            assert(names + Seq::<usize>::empty() =~= names);
        }
    }
}

impl LzmaRangeEncoder {
    /// Queues the low `bit_count` bits of `symbol`, lowest first, each
    /// coded with the probability of the tree node that the bits before
    /// it lead to. With `flags` set the lowest bit is coded with the
    /// first probability of the tree instead of the root's.
    pub fn rc_bittree_reverse(&mut self, base: usize, bit_count: u32, symbol: u32, flags: u8)
        requires
            bit_count <= 31,
            flags != 0 ==> bit_count >= 1,
            old(self).count + bit_count <= RC_SYMBOLS_MAX,
            base + pow2(bit_count as nat) <= usize::MAX,
        ensures
            final(self).queued(
                *old(self),
                reverse_symbols(bit_count as nat, symbol),
                reverse_probs_flagged(base, bit_count as nat, symbol, flags),
            ),
    {
        let mut model_index: usize = 1;
        let mut bit_count: u32 = bit_count;
        let mut symbol: u32 = symbol;
        let ghost total: u32 = bit_count;
        let ghost whole: u32 = symbol;
        let ghost mut syms: Seq<RcSymbol> = Seq::empty();
        let ghost mut names: Seq<usize> = Seq::empty();
        let ghost mut depth: nat = 1;
        proof {
            vstd::arithmetic::power2::lemma2_to64();
            vstd::arithmetic::power2::lemma_pow2_pos(total as nat);
            assert(self.symbols@ =~= splice(old(self).symbols@, old(self).count as int, syms));
            assert(self.probs@ =~= splice(old(self).probs@, old(self).count as int, names));
            assert(syms + reverse_symbols(total as nat, whole) =~= reverse_symbols(total as nat, whole));
        }
        if flags != 0 {
            proof {
                lemma_u32_low_bit(symbol);
                lemma_usize_double(1);
            }
            let bit: u32 = symbol & 1;
            symbol >>= 1;
            self.rc_bit(base, bit);
            model_index = (model_index << 1) + bit as usize;
            bit_count -= 1;
            proof {
                syms = seq![symbol_of(bit)];
                names = seq![base];
                depth = 2;
            }
        } else {
            proof {
                assert(names + reverse_probs(base, total as nat, whole, 1) =~= reverse_probs(
                    base,
                    total as nat,
                    whole,
                    1,
                ));
            }
        }
        while bit_count != 0
            invariant
                bit_count <= total <= 31,
                old(self).count + total <= RC_SYMBOLS_MAX,
                base + pow2(total as nat) <= usize::MAX,
                syms.len() == total - bit_count,
                names.len() == total - bit_count,
                depth + bit_count == total + 1,
                model_index < pow2(depth),
                self.queued(*old(self), syms, names),
                syms + reverse_symbols(bit_count as nat, symbol) == reverse_symbols(
                    total as nat,
                    whole,
                ),
                names + reverse_probs(base, bit_count as nat, symbol, model_index as nat)
                    == reverse_probs_flagged(base, total as nat, whole, flags),
            decreases bit_count,
        {
            proof {
                lemma_u32_low_bit(symbol);
                vstd::arithmetic::power2::lemma_pow2_unfold(depth + 1);
                if depth < total {
                    vstd::arithmetic::power2::lemma_pow2_strictly_increases(depth, total as nat);
                }
                if total < 31 {
                    vstd::arithmetic::power2::lemma_pow2_strictly_increases(total as nat, 31);
                }
                vstd::arithmetic::power2::lemma2_to64();
                lemma_usize_double(model_index);
            }
            let bit: u32 = symbol & 1;
            let ghost sym_before = symbol;
            symbol >>= 1;
            self.rc_bit(base + model_index, bit);
            proof {
                let s1 = seq![symbol_of(bit)];
                let n1 = seq![(base + model_index) as usize];
                let rest_s = reverse_symbols((bit_count - 1) as nat, symbol);
                let rest_n = reverse_probs(
                    base,
                    (bit_count - 1) as nat,
                    symbol,
                    2 * model_index as nat + bit as nat,
                );
                lemma_splice_splice(old(self).symbols@, old(self).count as int, syms, s1);
                lemma_splice_splice(old(self).probs@, old(self).count as int, names, n1);
                assert((syms + s1) + rest_s =~= syms + (s1 + rest_s));
                assert((names + n1) + rest_n =~= names + (n1 + rest_n));
                syms = syms + s1;
                names = names + n1;
                depth = depth + 1;
            }
            model_index = (model_index << 1) + bit as usize;
            bit_count -= 1;
        }
        proof {
            assert(syms + Seq::<RcSymbol>::empty() =~= syms);
            assert(names + Seq::<usize>::empty() =~= names);
        }
    }

    /// Queues the low `bit_count` bits of `value`, highest first, to be
    /// coded without a probability.
    pub fn rc_direct(&mut self, value: u32, bit_count: u32)
        requires
            bit_count <= 32,
            old(self).count + bit_count <= RC_SYMBOLS_MAX,
        ensures
            final(self).queued(
                *old(self),
                direct_symbols(bit_count as nat, value),
                Seq::empty(),
            ),
    {
        let mut bit_count: u32 = bit_count;
        let ghost total: u32 = bit_count;
        let ghost mut syms: Seq<RcSymbol> = Seq::empty();
        proof {
            assert(self.symbols@ =~= splice(old(self).symbols@, old(self).count as int, syms));
            assert(self.probs@ =~= splice(old(self).probs@, old(self).count as int, Seq::empty()));
        }
        while bit_count != 0
            invariant
                bit_count <= total <= 32,
                old(self).count + total <= RC_SYMBOLS_MAX,
                syms.len() == total - bit_count,
                self.queued(*old(self), syms, Seq::empty()),
                syms + direct_symbols(bit_count as nat, value) == direct_symbols(
                    total as nat,
                    value,
                ),
            decreases bit_count,
        {
            bit_count -= 1;
            proof {
                lemma_u32_shr_pow2(value, bit_count);
                lemma_u32_low_bit(value >> bit_count);
            }
            let shifted_value: u32 = value >> bit_count;
            let bit: u32 = shifted_value & 1;
            let symbol: RcSymbol = if bit == 0 {
                RcSymbol::RcDirect0
            } else {
                RcSymbol::RcDirect1
            };
            self.symbols[self.count] = symbol;
            self.count += 1;
            proof {
                let s1 = seq![symbol];
                assert(self.symbols@ =~= splice(
                    splice(old(self).symbols@, old(self).count as int, syms),
                    old(self).count + syms.len(),
                    s1,
                ));
                lemma_splice_splice(old(self).symbols@, old(self).count as int, syms, s1);
                assert((syms + s1) + direct_symbols(bit_count as nat, value) =~= syms + (s1
                    + direct_symbols(bit_count as nat, value)));
                syms = syms + s1;
            }
        }
        proof {
            assert(syms + Seq::<RcSymbol>::empty() =~= syms);
        }
    }

    /// Queues the five flush symbols that bring every byte of the code
    /// out.
    pub fn rc_flush(&mut self)
        requires
            old(self).count + 5 <= RC_SYMBOLS_MAX,
        ensures
            final(self).queued(*old(self), Seq::new(5, |i: int| RcSymbol::RcFlush), Seq::empty()),
    {
        let mut i: usize = 0;
        proof {
            assert(self.probs@ =~= splice(old(self).probs@, old(self).count as int, Seq::empty()));
            assert(self.symbols@ =~= splice(
                old(self).symbols@,
                old(self).count as int,
                Seq::new(0, |k: int| RcSymbol::RcFlush),
            ));
        }
        while i < 5
            invariant
                i <= 5,
                old(self).count + 5 <= RC_SYMBOLS_MAX,
                self.queued(*old(self), Seq::new(i as nat, |k: int| RcSymbol::RcFlush), Seq::empty()),
            decreases 5 - i,
        {
            self.symbols[self.count] = RcSymbol::RcFlush;
            self.count += 1;
            i += 1;
            assert(self.symbols@ =~= splice(
                old(self).symbols@,
                old(self).count as int,
                Seq::new(i as nat, |k: int| RcSymbol::RcFlush),
            ));
        }
    }

    /// Takes the top byte out of `low`. Where the byte before it can no
    /// longer change, the bytes held back are written to `out` from
    /// `out_pos` on, and the top byte is held back in their place;
    /// otherwise it joins them. Returns true, with `low` not shifted,
    /// where `out` is full before every held byte is written.
    pub fn rc_shift_low(&mut self, out: &mut [u8], out_pos: &mut usize, out_size: usize) -> (blocked:
        bool)
        requires
            *old(out_pos) <= out_size <= old(out)@.len(),
            old(self).cache_size + old(self).out_total < u64::MAX,
        ensures
            blocked == old(self).shift_blocks((out_size - *old(out_pos)) as nat),
            *final(self) == old(self).shift_next((out_size - *old(out_pos)) as nat),
            *final(out_pos) == *old(out_pos) + old(self).shift_out(
                (out_size - *old(out_pos)) as nat,
            ).len(),
            final(out)@ == splice(
                old(out)@,
                *old(out_pos) as int,
                old(self).shift_out((out_size - *old(out_pos)) as nat),
            ),
    {
        proof {
            lemma_low_bits(self.low);
            lemma_splice_empty(old(out)@, *old(out_pos) as int);
        }
        let ghost held = self.held_bytes();
        let ghost start = *out_pos;
        if (#[verifier::truncate] (self.low as u32)) < 0xFF000000 || (#[verifier::truncate] ((self.low
            >> 32) as u32)) != 0 {
            while self.cache_size != 0
                invariant
                    start <= *out_pos <= out_size <= out@.len(),
                    out@.len() == old(out)@.len(),
                    start == *old(out_pos),
                    held == old(self).held_bytes(),
                    low_settled(old(self).low),
                    old(self).cache_size + old(self).out_total < u64::MAX,
                    *out_pos - start <= old(self).cache_size,
                    *self == (LzmaRangeEncoder {
                        cache: if *out_pos > start {
                            0xFF
                        } else {
                            old(self).cache
                        },
                        cache_size: (old(self).cache_size - (*out_pos - start)) as u64,
                        out_total: (old(self).out_total + (*out_pos - start)) as u64,
                        ..*old(self)
                    }),
                    out@ == splice(old(out)@, start as int, held.take(*out_pos - start)),
                decreases self.cache_size,
            {
                if *out_pos == out_size {
                    return true;
                }
                proof {
                    lemma_low_bits(self.low);
                }
                let ghost k = *out_pos - start;
                out[*out_pos] = self.cache.wrapping_add(#[verifier::truncate] ((self.low >> 32) as u8));
                *out_pos += 1;
                self.out_total += 1;
                self.cache = 0xFF;
                self.cache_size -= 1;
                assert(out@ =~= splice(old(out)@, start as int, held.take(k + 1)));
            }
            assert(held.take(old(self).cache_size as int) =~= held);
            self.cache = #[verifier::truncate] ((self.low >> 24) as u8);
            self.cache_size += 1;
            self.low = (self.low & 0x00FFFFFF) << RC_SHIFT_BITS;
            return false;
        }
        self.cache_size += 1;
        self.low = (self.low & 0x00FFFFFF) << RC_SHIFT_BITS;
        false
    }
}

impl LzmaRangeEncoder {
    /// A flush waits for room: the drain stands at a flush symbol whose
    /// range is at its maximum already.
    pub open spec fn flush_waits(self) -> bool {
        self.pos < self.count && self.range == u32::MAX && self.symbols@[self.pos as int]
            == RcSymbol::RcFlush
    }

    /// The number of bytes written and held back, plus the shifts of
    /// `low` that the symbols still to be drained can ask for, fits in
    /// 64 bits. Every shift adds a byte, and a symbol can ask for two:
    /// one to widen the range and, where it is a flush symbol, one to
    /// flush. A flush that waits for room asks for one only.
    pub open spec fn counts_fit(self) -> bool {
        self.out_total + self.cache_size + 2 * (self.count - self.pos) - (if self.flush_waits() {
            1int
        } else {
            0int
        }) <= u64::MAX
    }

    /// Widens a range below 2^24 by eight bits.
    fn rc_widen(&mut self, out: &mut [u8], out_pos: &mut usize, out_size: usize) -> (blocked: bool)
        requires
            old(self).wf(),
            *old(out_pos) <= out_size <= old(out)@.len(),
            old(self).cache_size + old(self).out_total < u64::MAX,
        ensures
            blocked == old(self).widen_blocks((out_size - *old(out_pos)) as nat),
            *final(self) == old(self).widened((out_size - *old(out_pos)) as nat),
            *final(out_pos) == *old(out_pos) + old(self).widen_out(
                (out_size - *old(out_pos)) as nat,
            ).len(),
            final(out)@ == splice(
                old(out)@,
                *old(out_pos) as int,
                old(self).widen_out((out_size - *old(out_pos)) as nat),
            ),
            final(self).wf(),
            !blocked ==> final(self).range >= old(self).range,
            !blocked && old(self).pos < old(self).count && old(self).symbols@[old(self).pos as int]
                != RcSymbol::RcFlush ==> final(self).low + final(self).range < 0x2_0000_0000,
    {
        proof {
            lemma_range_bits(self.range);
            lemma_low_bits(self.low);
            lemma_splice_empty(out@, *out_pos as int);
        }
        if self.range < RC_TOP_VALUE {
            if self.rc_shift_low(out, out_pos, out_size) {
                return true;
            }
            self.range <<= RC_SHIFT_BITS;
        }
        false
    }

    /// Codes the symbol at the drain's position, which is no flush.
    fn rc_code(&mut self, probs: &mut [u16])
        requires
            old(self).wf(),
            old(self).pos < old(self).count,
            old(self).symbols@[old(self).pos as int] != RcSymbol::RcFlush,
            old(self).low + old(self).range < 0x2_0000_0000,
            old(self).names_model(old(probs)@.len()),
            probs_valid(old(probs)@),
        ensures
            *final(self) == old(self).coded(
                old(probs)@[old(self).probs@[old(self).pos as int] as int],
            ),
            final(probs)@ == old(self).adapted(old(probs)@),
            final(self).low + final(self).range < 0x2_0000_0000,
            final(self).wf(),
            final(self).names_model(final(probs)@.len()),
            probs_valid(final(probs)@),
            final(probs)@.len() == old(probs)@.len(),
    {
        proof {
            lemma_range_bits(self.range);
        }
        match self.symbols[self.pos] {
            RcSymbol::RcBit0 => {
                let at: usize = self.probs[self.pos];
                let prob: u16 = probs[at];
                proof {
                    lemma_bound(self.range, prob);
                    lemma_prob_update_closed(prob);
                }
                self.range = (self.range >> 11) * (prob as u32);
                probs[at] = prob_update_0(prob);
            },
            RcSymbol::RcBit1 => {
                let at: usize = self.probs[self.pos];
                let prob: u16 = probs[at];
                proof {
                    lemma_bound(self.range, prob);
                    lemma_prob_update_closed(prob);
                }
                let bound: u32 = (prob as u32) * (self.range >> 11);
                self.low += bound as u64;
                self.range -= bound;
                probs[at] = prob_update_1(prob);
            },
            RcSymbol::RcDirect0 => {
                self.range >>= 1;
            },
            RcSymbol::RcDirect1 => {
                self.range >>= 1;
                self.low += self.range as u64;
            },
            RcSymbol::RcFlush => {},
        }
        self.pos += 1;
        proof {
            assert(probs@ =~= old(self).adapted(old(probs)@));
        }
    }

    /// Shifts `low` once for every symbol left in the queue and then
    /// resets the encoder.
    fn rc_flush_rest(&mut self, out: &mut [u8], out_pos: &mut usize, out_size: usize, Ghost(probs): Ghost<
        Seq<u16>,
    >) -> (more: bool)
        requires
            old(self).count <= RC_SYMBOLS_MAX,
            old(self).pos < old(self).count,
            old(self).symbols@[old(self).pos as int] == RcSymbol::RcFlush,
            old(self).range == u32::MAX,
            old(self).low < 0x2_0000_0000,
            old(self).out_total + old(self).cache_size + (old(self).count - old(self).pos)
                <= u64::MAX,
            *old(out_pos) <= out_size <= old(out)@.len(),
        ensures
            more == old(self).flushed(probs, (out_size - *old(out_pos)) as nat).more,
            *final(self) == old(self).flushed(probs, (out_size - *old(out_pos)) as nat).enc,
            *final(out_pos) == *old(out_pos) + old(self).flushed(
                probs,
                (out_size - *old(out_pos)) as nat,
            ).out.len(),
            final(out)@ == splice(
                old(out)@,
                *old(out_pos) as int,
                old(self).flushed(probs, (out_size - *old(out_pos)) as nat).out,
            ),
            old(self).flushed(probs, (out_size - *old(out_pos)) as nat).probs == probs,
            final(self).wf(),
            more ==> *final(out_pos) == out_size,
            !more ==> final(self).count == 0 && final(self).pos == 0,
    {
        let ghost goal = self.flushed(probs, (out_size - *out_pos) as nat);
        let ghost start = *out_pos;
        let ghost mut done: Seq<u8> = Seq::empty();
        proof {
            lemma_flushed_probs(*self, probs, (out_size - *out_pos) as nat);
            lemma_splice_empty(old(out)@, start as int);
            assert(done + goal.out =~= goal.out);
        }
        while self.pos < self.count
            invariant
                self.count <= RC_SYMBOLS_MAX,
                self.pos <= self.count,
                self.range == u32::MAX,
                self.low < 0x2_0000_0000,
                self.low < 0x1_0000_0000 || (self.pos < self.count && self.symbols@[self.pos as int]
                    == RcSymbol::RcFlush),
                self.out_total + self.cache_size + (self.count - self.pos) <= u64::MAX,
                start == *old(out_pos),
                start <= *out_pos <= out_size <= out@.len(),
                out@.len() == old(out)@.len(),
                done.len() == *out_pos - start,
                out@ == splice(old(out)@, start as int, done),
                goal == old(self).flushed(probs, (out_size - *old(out_pos)) as nat),
                goal.more == self.flushed(probs, (out_size - *out_pos) as nat).more,
                goal.enc == self.flushed(probs, (out_size - *out_pos) as nat).enc,
                goal.probs == self.flushed(probs, (out_size - *out_pos) as nat).probs,
                goal.probs == probs,
                goal.out == done + self.flushed(probs, (out_size - *out_pos) as nat).out,
            decreases self.count - self.pos,
        {
            let ghost before = *self;
            let ghost room = (out_size - *out_pos) as nat;
            proof {
                lemma_low_bits(self.low);
            }
            if self.rc_shift_low(out, out_pos, out_size) {
                proof {
                    lemma_splice_splice(old(out)@, start as int, done, before.shift_out(room));
                }
                return true;
            }
            self.pos += 1;
            proof {
                let o = before.shift_out(room);
                lemma_splice_splice(old(out)@, start as int, done, o);
                assert((done + o) + self.flushed(probs, (room - o.len()) as nat).out =~= done + (o
                    + self.flushed(probs, (room - o.len()) as nat).out));
                done = done + o;
            }
        }
        self.rc_reset();
        proof {
            assert(done + Seq::<u8>::empty() =~= done);
        }
        false
    }

    /// Drains the queue into `out` from `out_pos` on, and adapts each
    /// probability of `probs` as its symbol is coded. Returns true, with
    /// the drain's position kept, where `out` is full before the queue
    /// is empty: the next call goes on from there, and what this call
    /// leaves is what that call asks for.
    #[verifier::rlimit(40)]
    pub fn rc_encode(&mut self, probs: &mut [u16], out: &mut [u8], out_pos: &mut usize, out_size: usize) -> (more:
        bool)
        requires
            old(self).wf(),
            old(self).names_model(old(probs)@.len()),
            probs_valid(old(probs)@),
            old(self).counts_fit(),
            *old(out_pos) <= out_size <= old(out)@.len(),
        ensures
            more == old(self).drained(old(probs)@, (out_size - *old(out_pos)) as nat).more,
            *final(self) == old(self).drained(old(probs)@, (out_size - *old(out_pos)) as nat).enc,
            final(probs)@ == old(self).drained(
                old(probs)@,
                (out_size - *old(out_pos)) as nat,
            ).probs,
            *final(out_pos) == *old(out_pos) + old(self).drained(
                old(probs)@,
                (out_size - *old(out_pos)) as nat,
            ).out.len(),
            final(out)@ == splice(
                old(out)@,
                *old(out_pos) as int,
                old(self).drained(old(probs)@, (out_size - *old(out_pos)) as nat).out,
            ),
            final(self).wf(),
            probs_valid(final(probs)@),
            final(probs)@.len() == old(probs)@.len(),
            more ==> *final(out_pos) == out_size,
            !more ==> final(self).count == 0 && final(self).pos == 0,
            more ==> final(self).count == old(self).count && old(self).pos <= final(self).pos
                < final(self).count,
            final(self).symbols == old(self).symbols,
            final(self).probs == old(self).probs,
            final(self).names_model(final(probs)@.len()),
            final(self).counts_fit(),
    {
        let ghost goal = self.drained(probs@, (out_size - *out_pos) as nat);
        let ghost start = *out_pos;
        let ghost mut done: Seq<u8> = Seq::empty();
        proof {
            crate::rangecoder::drain_laws::lemma_drain_leaves(
                *self,
                probs@,
                (out_size - *out_pos) as nat,
            );
            lemma_splice_empty(old(out)@, start as int);
            assert(done + goal.out =~= goal.out);
        }
        while self.pos < self.count
            invariant
                self.wf(),
                self.names_model(probs@.len()),
                probs_valid(probs@),
                probs@.len() == old(probs)@.len(),
                self.counts_fit(),
                start == *old(out_pos),
                start <= *out_pos <= out_size <= out@.len(),
                out@.len() == old(out)@.len(),
                done.len() == *out_pos - start,
                out@ == splice(old(out)@, start as int, done),
                goal == old(self).drained(old(probs)@, (out_size - *old(out_pos)) as nat),
                goal.enc.symbols == old(self).symbols,
                goal.enc.probs == old(self).probs,
                goal.more ==> goal.enc.count == old(self).count && old(self).pos <= goal.enc.pos
                    < goal.enc.count,
                goal.enc.names_model(old(probs)@.len()),
                goal.enc.counts_fit(),
                goal.more == self.drained(probs@, (out_size - *out_pos) as nat).more,
                goal.enc == self.drained(probs@, (out_size - *out_pos) as nat).enc,
                goal.probs == self.drained(probs@, (out_size - *out_pos) as nat).probs,
                goal.out == done + self.drained(probs@, (out_size - *out_pos) as nat).out,
            decreases self.count - self.pos,
        {
            let ghost pre = *self;
            let ghost pre_probs = probs@;
            let ghost cap = (out_size - *out_pos) as nat;
            let ghost o = pre.widen_out(cap);
            let blocked: bool = self.rc_widen(out, out_pos, out_size);
            proof {
                lemma_splice_splice(old(out)@, start as int, done, o);
            }
            if blocked {
                proof {
                    done = done + o;
                }
                return true;
            }
            let ghost wide = *self;
            let ghost room = (cap - o.len()) as nat;
            if self.symbols[self.pos] == RcSymbol::RcFlush {
                self.range = u32::MAX;
                let ghost head = *self;
                let more: bool = self.rc_flush_rest(out, out_pos, out_size, Ghost(pre_probs));
                proof {
                    let f = head.flushed(pre_probs, room);
                    lemma_splice_splice(old(out)@, start as int, done + o, f.out);
                    assert((done + o) + f.out =~= done + (o + f.out));
                }
                return more;
            }
            self.rc_code(probs);
            proof {
                let rest = self.drained(probs@, room);
                assert((done + o) + rest.out =~= done + (o + rest.out));
                done = done + o;
            }
        }
        self.count = 0;
        self.pos = 0;
        proof {
            assert(done + Seq::<u8>::empty() =~= done);
        }
        false
    }
}

} // verus!
