use vstd::prelude::*;

verus! {

pub const RC_SHIFT_BITS: u32 = 8;

pub const RC_TOP_BITS: u32 = 24;

pub const RC_TOP_VALUE: u32 = 0x0100_0000;

pub const RC_BIT_MODEL_TOTAL_BITS: u32 = 11;

pub const RC_BIT_MODEL_TOTAL: u32 = 0x800;

pub const RC_MOVE_BITS: u32 = 5;

/// Adaptive estimate that the next bit is 0, scaled to `[0, 2048)`.
pub type Probability = u16;

/// The value every probability starts from: one half.
pub const RC_PROB_INIT: u16 = 1024;

/// A probability is a counter below `RC_BIT_MODEL_TOTAL`.
pub open spec fn prob_valid(p: u16) -> bool {
    p < 2048
}

/// The values a probability can take once it has been reset and then only
/// updated: the update rule never leaves `[31, 2017]`.
pub open spec fn prob_adapted(p: u16) -> bool {
    31 <= p <= 2017
}

/// The probability after a 0 bit was coded with it: it moves up by a
/// thirty-second of its distance to the total.
pub open spec fn prob_after_0(p: u16) -> u16 {
    (p + (2048 - p) / 32) as u16
}

/// The probability after a 1 bit was coded with it: it moves down by a
/// thirty-second of its value.
pub open spec fn prob_after_1(p: u16) -> u16 {
    (p - p / 32) as u16
}

/// Every probability of a model is a valid counter.
pub open spec fn probs_valid(probs: Seq<u16>) -> bool {
    forall|i: int| 0 <= i < probs.len() ==> prob_valid(#[trigger] probs[i])
}

/// Every probability of a model lies in the range that resets and updates
/// can reach.
pub open spec fn probs_adapted(probs: Seq<u16>) -> bool {
    forall|i: int| 0 <= i < probs.len() ==> prob_adapted(#[trigger] probs[i])
}

/// The update rule keeps a valid probability valid, and keeps an adapted
/// one adapted, whichever bit was coded.
pub proof fn lemma_prob_update_closed(p: u16)
    requires
        prob_valid(p),
    ensures
        prob_valid(prob_after_0(p)),
        prob_valid(prob_after_1(p)),
        prob_after_0(p) >= p,
        prob_after_1(p) <= p,
        prob_adapted(p) ==> prob_adapted(prob_after_0(p)) && prob_adapted(prob_after_1(p)),
{
}

/// Applies the update for a coded 0 bit.
pub fn prob_update_0(p: u16) -> (r: u16)
    requires
        prob_valid(p),
    ensures
        r == prob_after_0(p),
{
    let d: u16 = (2048 - p) >> 5;
    assert(d == (2048 - p) / 32) by (bit_vector)
        requires
            d == ((2048 - p) as u16) >> 5,
            p < 2048,
    ;
    p + d
}

/// Applies the update for a coded 1 bit.
pub fn prob_update_1(p: u16) -> (r: u16)
    requires
        prob_valid(p),
    ensures
        r == prob_after_1(p),
{
    let d: u16 = p >> 5;
    assert(d == p / 32) by (bit_vector)
        requires
            d == p >> 5,
    ;
    p - d
}

/// Resets one probability to one half.
pub fn bit_reset(prob: &mut u16)
    ensures
        *final(prob) == RC_PROB_INIT,
{
    *prob = 1024;
}

/// Resets the first `2^bit_levels` probabilities of a bit tree to one
/// half, or all of them where there are fewer, and leaves the rest
/// alone.
pub fn bittree_reset(probs: &mut [u16], bit_levels: usize)
    requires
        bit_levels < usize::BITS,
    ensures
        final(probs)@.len() == old(probs)@.len(),
        forall|i: int|
            0 <= i < old(probs)@.len() ==> final(probs)@[i] == (if i < (1usize << bit_levels) {
                RC_PROB_INIT
            } else {
                old(probs)@[i]
            }),
{
    let width: usize = 1usize << bit_levels;
    let n: usize = if width < probs.len() {
        width
    } else {
        probs.len()
    };
    let mut i: usize = 0;
    while i < n
        invariant
            n <= probs@.len(),
            n <= width,
            n == width || n == probs@.len(),
            i <= n,
            probs@.len() == old(probs)@.len(),
            forall|k: int|
                0 <= k < probs@.len() ==> probs@[k] == (if k < i {
                    RC_PROB_INIT
                } else {
                    old(probs)@[k]
                }),
        decreases n - i,
    {
        bit_reset(&mut probs[i]);
        i += 1;
    }
}

} // verus!
