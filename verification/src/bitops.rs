use vstd::prelude::*;
use vstd::arithmetic::power2::{pow2, lemma2_to64};

verus! {

/// Shifting right by one halves; masking with one takes the parity.
pub proof fn lemma_u32_low_bit(x: u32)
    by (bit_vector)
    ensures
        x >> 1 == x / 2,
        x & 1 == x % 2,
{
}

/// `1 << n` is the n-th power of two, for every shift that fits.
pub proof fn lemma_u32_one_shl(n: u32)
    requires
        n <= 31,
    ensures
        (1u32 << n) == pow2(n as nat),
        pow2(n as nat) <= 0x8000_0000,
{
    vstd::bits::lemma_u32_pow2_no_overflow(n as nat);
    vstd::bits::lemma_u32_shl_is_mul(1u32, n);
    lemma2_to64();
    if n < 31 {
        vstd::arithmetic::power2::lemma_pow2_strictly_increases(n as nat, 31);
    }
}

/// `x >> n` is `x` divided by the n-th power of two.
pub proof fn lemma_u32_shr_pow2(x: u32, n: u32)
    requires
        n <= 31,
    ensures
        (x >> n) == x as nat / pow2(n as nat),
{
    vstd::bits::lemma_u32_shr_is_div(x, n);
}

/// Shifting an index left by one doubles it, as long as the double fits.
pub proof fn lemma_usize_double(x: usize)
    by (bit_vector)
    requires
        x < 0x8000_0000,
    ensures
        x << 1 == 2 * x,
{
}

/// Keeping the low 32 bits of a position is taking it modulo 2^32.
pub proof fn lemma_usize_low32(i: usize)
    by (bit_vector)
    ensures
        (i as u32) == (i as u64) % 0x1_0000_0000u64,
{
}

/// The low 32 bits of the position `i` bytes behind `now_pos`.
pub open spec fn pc_at(now_pos: u32, i: nat) -> u32 {
    ((now_pos + i) % 0x1_0000_0000) as u32
}

/// Computes the low 32 bits of the position `i` bytes behind `now_pos`.
pub fn position_at(now_pos: u32, i: usize) -> (pc: u32)
    ensures
        pc == pc_at(now_pos, i as nat),
{
    proof {
        lemma_usize_low32(i);
        lemma_wrapping_32(now_pos, ((i as int) % 0x1_0000_0000) as u32);
    }
    now_pos.wrapping_add(#[verifier::truncate] (i as u32))
}

/// Sum of two 32-bit values, the carry out of bit 31 dropped.
pub open spec fn add32(a: u32, b: u32) -> u32 {
    ((a + b) % 0x1_0000_0000) as u32
}

/// Difference of two 32-bit values, the borrow into bit 31 dropped.
pub open spec fn sub32(a: u32, b: u32) -> u32 {
    ((a + 0x1_0000_0000 - b) % 0x1_0000_0000) as u32
}

/// Wrapping addition and subtraction are the sum and the difference
/// taken modulo 2^32.
pub proof fn lemma_wrapping_32(a: u32, b: u32)
    ensures
        a.wrapping_add(b) == add32(a, b),
        a.wrapping_sub(b) == sub32(a, b),
{
}

} // verus!
