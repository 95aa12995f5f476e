use vstd::prelude::*;

verus! {

/// The number that the bytes stand for, lowest byte first.
pub open spec fn le_value(bytes: Seq<u8>) -> nat
    decreases bytes.len(),
{
    if bytes.len() == 0 {
        0
    } else {
        (bytes[0] + 256 * le_value(bytes.skip(1))) as nat
    }
}

/// The `n` lowest bytes of `value`, lowest first.
pub open spec fn le_bytes_of(value: nat, n: nat) -> Seq<u8>
    decreases n,
{
    if n == 0 {
        Seq::empty()
    } else {
        seq![(value % 256) as u8] + le_bytes_of(value / 256, (n - 1) as nat)
    }
}

/// Bytes stand for a number below 256 to the power of their count: four
/// bytes for one below 2^32, eight for one below 2^64.
pub proof fn lemma_le_value_bound(bytes: Seq<u8>)
    ensures
        bytes.len() <= 1 ==> le_value(bytes) < 0x100,
        bytes.len() <= 2 ==> le_value(bytes) < 0x1_0000,
        bytes.len() <= 3 ==> le_value(bytes) < 0x100_0000,
        bytes.len() <= 4 ==> le_value(bytes) < 0x1_0000_0000,
        bytes.len() <= 5 ==> le_value(bytes) < 0x100_0000_0000,
        bytes.len() <= 6 ==> le_value(bytes) < 0x1_0000_0000_0000,
        bytes.len() <= 7 ==> le_value(bytes) < 0x100_0000_0000_0000,
        bytes.len() <= 8 ==> le_value(bytes) < 0x1_0000_0000_0000_0000,
    decreases bytes.len(),
{
    if bytes.len() > 0 {
        lemma_le_value_bound(bytes.skip(1));
    }
}

/// The bytes of a number stand for the number again, as far as they
/// reach.
pub proof fn lemma_le_bytes_value(value: nat, n: nat)
    ensures
        le_bytes_of(value, n).len() == n,
        n == 4 && value < 0x1_0000_0000 ==> le_value(le_bytes_of(value, n)) == value,
        n == 3 && value < 0x100_0000 ==> le_value(le_bytes_of(value, n)) == value,
        n == 2 && value < 0x1_0000 ==> le_value(le_bytes_of(value, n)) == value,
        n == 1 && value < 0x100 ==> le_value(le_bytes_of(value, n)) == value,
        n == 0 ==> le_value(le_bytes_of(value, n)) == 0,
    decreases n,
{
    if n > 0 {
        lemma_le_bytes_value(value / 256, (n - 1) as nat);
        let b = le_bytes_of(value, n);
        assert(b.skip(1) =~= le_bytes_of(value / 256, (n - 1) as nat));
    }
}

/// A 16-bit number in the byte order of the format, which is that of
/// the machine.
pub fn conv16le(num: u16) -> (r: u16)
    ensures
        r == num,
{
    num
}

/// A 32-bit number in the byte order of the format.
pub fn conv32le(num: u32) -> (r: u32)
    ensures
        r == num,
{
    num
}

/// A 64-bit number in the byte order of the format.
pub fn conv64le(num: u64) -> (r: u64)
    ensures
        r == num,
{
    num
}

/// Reads the 64-bit number that eight bytes stand for, lowest byte
/// first.
pub fn read64ne(buf: &[u8]) -> (num: u64)
    requires
        buf@.len() == 8,
    ensures
        num == le_value(buf@),
{
    let mut num: u64 = 0;
    let mut i: usize = 8;
    proof {
        assert(buf@.skip(8).len() == 0);
    }
    while i > 0
        invariant
            i <= 8,
            buf@.len() == 8,
            num == le_value(buf@.skip(i as int)),
        decreases i,
    {
        i -= 1;
        proof {
            lemma_le_value_bound(buf@.skip(i + 1));
            assert(buf@.skip(i as int).skip(1) =~= buf@.skip(i + 1));
        }
        num = num * 256 + (buf[i] as u64);
    }
    proof {
        assert(buf@.skip(0) =~= buf@);
    }
    num
}

/// Reads the 64-bit number that eight bytes stand for, lowest byte
/// first.
pub fn read64le(buf: &[u8]) -> (num: u64)
    requires
        buf@.len() == 8,
    ensures
        num == le_value(buf@),
{
    let num: u64 = read64ne(buf);
    conv64le(num)
}

/// The bytes that `read32ne` reads: the first four, or all where there
/// are fewer.
pub open spec fn first_four(buf: Seq<u8>) -> Seq<u8> {
    if buf.len() < 4 {
        buf
    } else {
        buf.take(4)
    }
}

/// Reads the 32-bit number that the first four bytes stand for, lowest
/// byte first; fewer bytes stand for their own number.
pub fn read32ne(buf: &[u8]) -> (num: u32)
    ensures
        num == le_value(first_four(buf@)),
{
    let n: usize = if buf.len() < 4 {
        buf.len()
    } else {
        4
    };
    let ghost bytes = first_four(buf@);
    let mut num: u32 = 0;
    let mut i: usize = n;
    proof {
        assert(bytes.skip(n as int).len() == 0);
    }
    while i > 0
        invariant
            i <= n <= 4,
            bytes == first_four(buf@),
            bytes.len() == n,
            n <= buf@.len(),
            num == le_value(bytes.skip(i as int)),
        decreases i,
    {
        i -= 1;
        proof {
            lemma_le_value_bound(bytes.skip(i + 1));
            assert(bytes.skip(i as int).skip(1) =~= bytes.skip(i + 1));
        }
        num = num * 256 + (buf[i] as u32);
    }
    proof {
        assert(bytes.skip(0) =~= bytes);
    }
    num
}

/// Reads the 32-bit number that the first four bytes stand for, lowest
/// byte first.
pub fn read32le(buf: &[u8]) -> (num: u32)
    ensures
        num == le_value(first_four(buf@)),
{
    let num: u32 = read32ne(buf);
    conv32le(num)
}

/// Writes the four bytes of `num`, lowest first, to the start of `buf`;
/// the bytes behind them stay.
pub fn write32ne(buf: &mut [u8], num: u32)
    requires
        old(buf)@.len() >= 4,
    ensures
        final(buf)@.len() == old(buf)@.len(),
        final(buf)@.take(4) == le_bytes_of(num as nat, 4),
        le_value(final(buf)@.take(4)) == num,
        forall|i: int| 4 <= i < old(buf)@.len() ==> final(buf)@[i] == old(buf)@[i],
{
    let mut rest: u32 = num;
    let mut i: usize = 0;
    proof {
        assert(buf@.take(0) =~= Seq::<u8>::empty());
        lemma_le_bytes_value(num as nat, 4);
    }
    while i < 4
        invariant
            i <= 4,
            buf@.len() == old(buf)@.len(),
            buf@.len() >= 4,
            buf@.take(i as int) + le_bytes_of(rest as nat, (4 - i) as nat) == le_bytes_of(
                num as nat,
                4,
            ),
            forall|k: int| 4 <= k < old(buf)@.len() ==> buf@[k] == old(buf)@[k],
        decreases 4 - i,
    {
        let ghost before = buf@;
        buf[i] = (rest % 256) as u8;
        proof {
            let tail = le_bytes_of((rest / 256) as nat, (4 - i - 1) as nat);
            assert(buf@.take(i + 1) =~= before.take(i as int) + seq![(rest % 256) as u8]);
            assert(buf@.take(i + 1) + tail =~= before.take(i as int) + (seq![(rest % 256) as u8]
                + tail));
        }
        rest = rest / 256;
        i += 1;
    }
    proof {
        assert(buf@.take(4) + Seq::<u8>::empty() =~= buf@.take(4));
    }
}

/// Writes the four bytes of `num`, lowest first, to the start of `buf`.
pub fn write32le(buf: &mut [u8], num: u32)
    requires
        old(buf)@.len() >= 4,
    ensures
        final(buf)@.len() == old(buf)@.len(),
        final(buf)@.take(4) == le_bytes_of(num as nat, 4),
        le_value(final(buf)@.take(4)) == num,
        forall|i: int| 4 <= i < old(buf)@.len() ==> final(buf)@[i] == old(buf)@[i],
{
    write32ne(buf, conv32le(num));
}

} // verus!
