use vstd::prelude::*;
use vstd::arithmetic::power2::{pow2, lemma_pow2_unfold, lemma_pow2_pos, lemma2_to64, lemma_pow2_strictly_increases};
use crate::bitops::{lemma_u32_low_bit, lemma_u32_one_shl, lemma_usize_double};
use crate::rangecoder::range_common::{prob_valid, probs_valid, Probability};

verus! {

pub const RC_MOVE_REDUCING_BITS: u32 = 4;

pub const RC_BIT_PRICE_SHIFT_BITS: u32 = 4;

pub const RC_PRICE_TABLE_SIZE: usize = 128;

pub const RC_INFINITY_PRICE: u32 = 0x4000_0000;

/// Cost of coding a bit, in sixteenths of a bit, by the probability of
/// that bit divided by 16.
pub const LZMA_RC_PRICES: [u8; 128] = [
    128, 103, 91, 84, 78, 73, 69, 66, 63, 61, 58, 56, 54, 52, 51, 49,
    48, 46, 45, 44, 43, 42, 41, 40, 39, 38, 37, 36, 35, 34, 34, 33,
    32, 31, 31, 30, 29, 29, 28, 28, 27, 26, 26, 25, 25, 24, 24, 23,
    23, 22, 22, 22, 21, 21, 20, 20, 19, 19, 19, 18, 18, 17, 17, 17,
    16, 16, 16, 15, 15, 15, 14, 14, 14, 13, 13, 13, 12, 12, 12, 11,
    11, 11, 11, 10, 10, 10, 10, 9, 9, 9, 9, 8, 8, 8, 8, 7,
    7, 7, 7, 6, 6, 6, 6, 5, 5, 5, 5, 5, 4, 4, 4, 4,
    3, 3, 3, 3, 3, 2, 2, 2, 2, 2, 2, 1, 1, 1, 1, 1,
];

/// Price of the table slot `slot`.
pub open spec fn price_at(slot: int) -> int {
    LZMA_RC_PRICES@[slot] as int
}

/// The table never rises: a likelier bit is never dearer.
pub proof fn lemma_price_table_falls(i: int, j: int)
    requires
        0 <= i <= j < 128,
    ensures
        price_at(i) >= price_at(j),
        1 <= price_at(j) <= 128,
    decreases j - i,
{
    if i < j {
        lemma_price_table_falls(i + 1, j);
        assert(price_at(i) >= price_at(i + 1));
    }
}

} // verus!

verus! {

/// The eleven-bit mask that turns the probability of a 0 into the
/// probability of `bit`: nothing for a 0, every bit for a 1.
pub open spec fn price_mask(bit: u32) -> u16 {
    (0u32.wrapping_sub(bit) & 0x7FF) as u16
}

/// Table slot that prices coding `bit` with the probability `prob`.
pub open spec fn bit_price_slot(prob: u16, bit: u32) -> int {
    ((prob ^ price_mask(bit)) >> 4) as int
}

/// Price of coding `bit` with the probability `prob`.
pub open spec fn bit_price(prob: u16, bit: u32) -> int {
    price_at(bit_price_slot(prob, bit))
}

/// Price of coding a 0 with the probability `prob`.
pub open spec fn bit_0_price(prob: u16) -> int {
    price_at(prob as int / 16)
}

/// Price of coding a 1 with the probability `prob`.
pub open spec fn bit_1_price(prob: u16) -> int {
    price_at((2047 - prob) / 16)
}

proof fn lemma_slot_bits(prob: u16, w: u32)
    by (bit_vector)
    requires
        prob < 2048,
    ensures
        ((prob ^ ((w & 0x7FF) as u16)) >> 4) < 128,
        w == 0 ==> ((prob ^ ((w & 0x7FF) as u16)) >> 4) == prob / 16,
        w == 0xFFFF_FFFFu32 ==> ((prob ^ ((w & 0x7FF) as u16)) >> 4) == (2047 - prob) as u16 / 16,
        (prob ^ 0x7FFu16) >> 4 == (2047 - prob) as u16 / 16,
        prob >> 4 == prob / 16,
        (w & 0x7FF) < 0x800,
{
}

/// Every slot lies in the table; a 0 is priced by the probability itself
/// and a 1 by its complement.
pub proof fn lemma_bit_price_slot(prob: u16, bit: u32)
    requires
        prob_valid(prob),
    ensures
        0 <= bit_price_slot(prob, bit) < 128,
        bit == 0 ==> bit_price(prob, bit) == bit_0_price(prob),
        bit == 1 ==> bit_price(prob, bit) == bit_1_price(prob),
        1 <= bit_price(prob, bit) <= 128,
{
    let w = 0u32.wrapping_sub(bit);
    lemma_slot_bits(prob, w);
    lemma_price_table_falls(0, bit_price_slot(prob, bit));
}

/// Coding a 0 never gets dearer as its probability rises.
pub proof fn lemma_bit_0_price_falls(p: u16, q: u16)
    requires
        p <= q,
        prob_valid(q),
    ensures
        bit_0_price(p) >= bit_0_price(q),
{
    lemma_price_table_falls(p as int / 16, q as int / 16);
}

/// Coding a 1 never gets cheaper as the probability of a 0 rises.
pub proof fn lemma_bit_1_price_rises(p: u16, q: u16)
    requires
        p <= q,
        prob_valid(q),
    ensures
        bit_1_price(p) <= bit_1_price(q),
{
    lemma_price_table_falls((2047 - q) / 16, (2047 - p) / 16);
}

pub fn rc_bit_price(prob: Probability, bit: u32) -> (price: u32)
    requires
        prob_valid(prob),
    ensures
        price == bit_price(prob, bit),
        bit == 0 ==> price == bit_0_price(prob),
        bit == 1 ==> price == bit_1_price(prob),
        1 <= price <= 128,
{
    let w: u32 = 0u32.wrapping_sub(bit) & 0x7FF;
    proof {
        lemma_slot_bits(prob, 0u32.wrapping_sub(bit));
        lemma_bit_price_slot(prob, bit);
    }
    let mask: u16 = w as u16;
    LZMA_RC_PRICES[((prob ^ mask) >> 4) as usize] as u32
}

pub fn rc_bit_0_price(prob: Probability) -> (price: u32)
    requires
        prob_valid(prob),
    ensures
        price == bit_0_price(prob),
{
    proof {
        lemma_slot_bits(prob, 0);
    }
    LZMA_RC_PRICES[(prob >> 4) as usize] as u32
}

pub fn rc_bit_1_price(prob: Probability) -> (price: u32)
    requires
        prob_valid(prob),
    ensures
        price == bit_1_price(prob),
{
    proof {
        lemma_slot_bits(prob, 0);
    }
    LZMA_RC_PRICES[((prob ^ 0x7FF) >> 4) as usize] as u32
}

/// Price of the path from the node `node` of a bit tree up to its root:
/// each step prices the parity of the node with the probability of its
/// parent.
pub open spec fn bittree_path_price(probs: Seq<u16>, node: nat) -> int
    decreases node,
{
    if node <= 1 {
        0
    } else {
        bit_price(probs[node as int / 2], (node % 2) as u32) + bittree_path_price(
            probs,
            node / 2,
        )
    }
}

/// Price of coding `symbol` with a bit tree of `bit_levels` levels.
pub open spec fn bittree_price(probs: Seq<u16>, bit_levels: u32, symbol: u32) -> int {
    bittree_path_price(probs, (symbol + pow2(bit_levels as nat)) as nat)
}

/// Price of coding the low `levels` bits of `symbol`, lowest first, with a
/// bit tree walked down from the node `node`.
pub open spec fn bittree_reverse_from(probs: Seq<u16>, levels: nat, symbol: u32, node: nat) -> int
    decreases levels,
{
    if levels == 0 {
        0
    } else {
        bit_price(probs[node as int], symbol % 2) + bittree_reverse_from(
            probs,
            (levels - 1) as nat,
            symbol / 2,
            2 * node + (symbol % 2) as nat,
        )
    }
}

/// Price of coding `symbol` in reverse bit order. With `flags` set the
/// lowest bit is priced with the first probability of the tree, and the
/// walk then goes on below the root as if that bit had been coded there.
pub open spec fn bittree_reverse_price(probs: Seq<u16>, bit_levels: u32, symbol: u32, flags: u8) -> int {
    if flags != 0 {
        bit_price(probs[0], symbol % 2) + bittree_reverse_from(
            probs,
            (bit_levels - 1) as nat,
            symbol / 2,
            2 + (symbol % 2) as nat,
        )
    } else {
        bittree_reverse_from(probs, bit_levels as nat, symbol, 1)
    }
}

pub fn rc_bittree_price(probs: &[u16], bit_levels: u32, symbol: u32) -> (price: u32)
    requires
        bit_levels <= 31,
        symbol < pow2(bit_levels as nat),
        pow2(bit_levels as nat) <= probs@.len(),
        probs_valid(probs@),
    ensures
        price == bittree_price(probs@, bit_levels, symbol),
        price <= 128 * bit_levels,
{
    proof {
        lemma_u32_one_shl(bit_levels);
    }
    let mut price: u32 = 0;
    let mut symbol: u32 = symbol + (1u32 << bit_levels);
    let ghost start: nat = symbol as nat;
    let mut left: u32 = bit_levels;
    while symbol != 1
        invariant
            probs_valid(probs@),
            pow2(left as nat) <= symbol < 2 * pow2(left as nat),
            left <= bit_levels <= 31,
            pow2(bit_levels as nat) <= probs@.len(),
            price <= 128 * (bit_levels - left),
            price + bittree_path_price(probs@, symbol as nat) == bittree_path_price(probs@, start),
        decreases symbol,
    {
        proof {
            lemma_u32_low_bit(symbol);
            lemma_pow2_pos(left as nat);
            if left == 0 {
                lemma2_to64();
            } else {
                lemma_pow2_unfold(left as nat);
                if left < bit_levels {
                    lemma_pow2_strictly_increases(left as nat, bit_levels as nat);
                }
            }
        }
        let bit: u32 = symbol & 1;
        symbol >>= 1;
        left = left - 1;
        price += rc_bit_price(probs[symbol as usize], bit);
    }
    price
}

pub fn rc_bittree_reverse_price(probs: &[u16], bit_levels: u32, symbol: u32, flags: u8) -> (price: u32)
    requires
        bit_levels <= 31,
        flags != 0 ==> bit_levels >= 1,
        pow2(bit_levels as nat) <= probs@.len(),
        probs_valid(probs@),
    ensures
        price == bittree_reverse_price(probs@, bit_levels, symbol, flags),
        price <= 128 * bit_levels,
{
    let mut price: u32 = 0;
    let mut model_index: usize = 1;
    let mut bit_levels: u32 = bit_levels;
    let mut symbol: u32 = symbol;
    let ghost total: int = bittree_reverse_price(probs@, bit_levels, symbol, flags);
    let ghost levels: u32 = bit_levels;
    let ghost mut depth: nat = 1;
    proof {
        lemma2_to64();
        lemma_pow2_pos(bit_levels as nat);
    }
    if flags != 0 {
        proof {
            lemma_u32_low_bit(symbol);
        }
        let bit: u32 = symbol & 1;
        symbol >>= 1;
        proof {
            lemma_u32_one_shl(bit_levels);
            lemma_pow2_unfold(bit_levels as nat);
            lemma_usize_double(1);
        }
        price += rc_bit_price(probs[0], bit);
        model_index = (model_index << 1) + bit as usize;
        bit_levels -= 1;
        proof {
            depth = 2;
        }
    }
    while bit_levels != 0
        invariant
            probs_valid(probs@),
            bit_levels <= levels <= 31,
            pow2(levels as nat) <= probs@.len(),
            model_index < pow2(depth),
            depth + bit_levels == levels + 1,
            price <= 128 * (levels - bit_levels),
            price + bittree_reverse_from(probs@, bit_levels as nat, symbol, model_index as nat)
                == total,
        decreases bit_levels,
    {
        proof {
            lemma_u32_low_bit(symbol);
            lemma_pow2_unfold(depth + 1);
            lemma_u32_one_shl(levels);
            if depth < levels {
                lemma_pow2_strictly_increases(depth, levels as nat);
            }
            lemma_usize_double(model_index);
        }
        let bit: u32 = symbol & 1;
        symbol >>= 1;
        price += rc_bit_price(probs[model_index], bit);
        model_index = (model_index << 1) + bit as usize;
        bit_levels -= 1;
        proof {
            depth = depth + 1;
        }
    }
    price
}

/// Price of `bits` bits coded without a probability: sixteen sixteenths
/// each, kept to 32 bits.
pub open spec fn direct_price(bits: u32) -> int {
    (16 * bits) % 0x1_0000_0000
}

pub fn rc_direct_price(bits: u32) -> (price: u32)
    ensures
        price == direct_price(bits),
        bits < 0x1000_0000 ==> price == 16 * bits,
{
    assert(bits << 4 == (16 * bits) % 0x1_0000_0000) by (bit_vector);
    bits << RC_BIT_PRICE_SHIFT_BITS
}

} // verus!
