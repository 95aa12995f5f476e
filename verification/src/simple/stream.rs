use vstd::prelude::*;
use crate::bitops::pc_at;
use crate::seqs::splice;
use crate::simple::arm::{
    arm_filtered,
    lemma_arm_filtered_at,
    lemma_arm_filtered_tail,
    lemma_arm_round_trip,
    lemma_word_index,
    words_end,
};
use crate::simple::arm64::{
    arm64_filtered, lemma_arm64_filtered_at, lemma_arm64_filtered_tail, lemma_arm64_round_trip,
};
use crate::simple::armthumb::{
    lemma_thumb_frame,
    lemma_thumb_pair_class,
    lemma_thumb_round_trip,
    thumb_end,
    thumb_filtered,
    thumb_matches,
    thumb_pair,
};
use crate::simple::simple_private::SimpleFilter;

verus! {

/// The bytes `s`, which lie at the position `now_pos`, as a converter
/// leaves them when it is given all of them at once.
pub open spec fn filter_stream(filter: SimpleFilter, is_encoder: bool, now_pos: u32, s: Seq<u8>) -> Seq<
    u8,
> {
    match filter {
        SimpleFilter::Arm => arm_filtered(s, now_pos, is_encoder, s.len()),
        SimpleFilter::Arm64 => arm64_filtered(s, now_pos, is_encoder, s.len()),
        SimpleFilter::ArmThumb => thumb_filtered(s, now_pos, is_encoder, s.len(), 0),
    }
}

/// The number of the bytes `s` that a converter deals with when it is
/// given all of them at once: the rest it leaves for later.
pub open spec fn filter_done(filter: SimpleFilter, s: Seq<u8>) -> nat {
    match filter {
        SimpleFilter::Arm => words_end(s.len()),
        SimpleFilter::Arm64 => words_end(s.len()),
        SimpleFilter::ArmThumb => thumb_end(s, s.len(), 0),
    }
}

/// The position `j` bytes behind the position `k` bytes behind
/// `now_pos` is the position `k + j` bytes behind it.
pub proof fn lemma_pc_at_adds(now_pos: u32, k: nat, j: nat)
    ensures
        pc_at(pc_at(now_pos, k), j) == pc_at(now_pos, k + j),
{
    let m = 0x1_0000_0000int;
    let a = (now_pos + k) as int;
    assert((a % m + j) % m == (a + j) % m) by {
        assert(a == m * (a / m) + a % m);
        assert(a % m + j == (a + j) - m * (a / m));
        vstd::arithmetic::div_mod::lemma_mod_multiples_vanish(-(a / m), a + j, m);
    }
}

/// Whole words and what is left behind them: `k` is the number of bytes
/// in the whole words of `n` bytes.
pub open spec fn is_words_end(n: int, k: int) -> bool {
    0 <= k <= n && k % 4 == 0 && n - k < 4
}

/// The number of bytes in whole words is the largest multiple of four
/// within the size, and behind it the whole words of the rest begin.
pub proof fn lemma_words_end(n: nat, m: nat)
    ensures
        is_words_end(n as int, words_end(n) as int),
        words_end(n + m) == words_end(n) + words_end((n - words_end(n) + m) as nat),
{
}

/// Behind a whole number of words a byte keeps its place in its word.
proof fn lemma_continued_index(k: int, x: int)
    requires
        k % 4 == 0,
        0 <= k <= x,
    ensures
        (x - k) % 4 == x % 4,
        (x - k) - (x - k) % 4 == (x - x % 4) - k,
        0 <= x % 4 < 4,
        0 <= x - x % 4,
{
}

#[verifier::spinoff_prover]
#[verifier::rlimit(60)]
proof fn lemma_arm_continues_low(s: Seq<u8>, w: Seq<u8>, now_pos: u32, is_encoder: bool, k: int, b: int, r: int)
    requires
        0 <= k <= s.len(),
        k % 4 == 0,
        b % 4 == 0,
        0 <= r < 4,
        0 <= b,
        b + 4 <= k,
    ensures
        arm_filtered(s + w, now_pos, is_encoder, (s + w).len())[b + r] == arm_filtered(
            s,
            now_pos,
            is_encoder,
            s.len(),
        )[b + r],
{
    let t = s + w;
    lemma_word_index(b, r);
    lemma_arm_filtered_at(t, now_pos, is_encoder, t.len(), b + r);
    lemma_arm_filtered_at(s, now_pos, is_encoder, s.len(), b + r);
    assert(t.subrange(b, b + 4) =~= s.subrange(b, b + 4));
}

#[verifier::spinoff_prover]
#[verifier::rlimit(60)]
proof fn lemma_arm_continues_high(s: Seq<u8>, w: Seq<u8>, now_pos: u32, is_encoder: bool, k: int, b: int, r: int)
    requires
        0 <= k <= s.len(),
        k % 4 == 0,
        b % 4 == 0,
        0 <= r < 4,
        k <= b,
        b + 4 <= s.len() + w.len(),
    ensures
        arm_filtered(s + w, now_pos, is_encoder, (s + w).len())[b + r] == arm_filtered(
            s.skip(k) + w,
            pc_at(now_pos, k as nat),
            is_encoder,
            (s.skip(k) + w).len(),
        )[b - k + r],
{
    let t = s + w;
    let rest = s.skip(k) + w;
    let np = pc_at(now_pos, k as nat);
    lemma_word_index(b, r);
    lemma_word_index(b - k, r);
    lemma_arm_filtered_at(t, now_pos, is_encoder, t.len(), b + r);
    lemma_arm_filtered_at(rest, np, is_encoder, rest.len(), b - k + r);
    assert(rest.subrange(b - k, b - k + 4) =~= t.subrange(b, b + 4));
    lemma_pc_at_adds(now_pos, k as nat, (b - k) as nat);
}

#[verifier::spinoff_prover]
#[verifier::rlimit(60)]
proof fn lemma_arm_continues_at(s: Seq<u8>, w: Seq<u8>, now_pos: u32, is_encoder: bool, k: int, x: int)
    requires
        is_words_end(s.len() as int, k),
        k == words_end(s.len()),
        0 <= x < s.len() + w.len(),
    ensures
        arm_filtered(s + w, now_pos, is_encoder, (s + w).len())[x] == (arm_filtered(
            s,
            now_pos,
            is_encoder,
            s.len(),
        ).take(k) + arm_filtered(
            s.skip(k) + w,
            pc_at(now_pos, k as nat),
            is_encoder,
            (s.skip(k) + w).len(),
        ))[x],
{
    let t = s + w;
    let rest = s.skip(k) + w;
    let np = pc_at(now_pos, k as nat);
    let b = x - x % 4;
    let r = x % 4;
    lemma_arm_filtered_tail(t, now_pos, is_encoder, t.len(), x);
    lemma_arm_filtered_tail(s, now_pos, is_encoder, s.len(), x);
    lemma_arm_filtered_tail(rest, np, is_encoder, rest.len(), x - k);
    lemma_words_end(s.len(), w.len());
    lemma_continued_index(0, x);
    if x < k {
        lemma_arm_continues_low(s, w, now_pos, is_encoder, k, b, r);
    } else {
        lemma_continued_index(k, x);
        assert(rest[x - k] == t[x]);
        if x < words_end(t.len()) {
            lemma_arm_continues_high(s, w, now_pos, is_encoder, k, b, r);
        }
    }
}

/// The ARM converter can go on where it has stopped: converting `s` and
/// then, from where it has stopped, the rest of `s` with `w` behind it,
/// is converting `s` and `w` at once.
pub proof fn lemma_arm_continues(s: Seq<u8>, w: Seq<u8>, now_pos: u32, is_encoder: bool)
    ensures
        arm_filtered(s + w, now_pos, is_encoder, (s + w).len()) == arm_filtered(
            s,
            now_pos,
            is_encoder,
            s.len(),
        ).take(words_end(s.len()) as int) + arm_filtered(
            s.skip(words_end(s.len()) as int) + w,
            pc_at(now_pos, words_end(s.len())),
            is_encoder,
            (s.skip(words_end(s.len()) as int) + w).len(),
        ),
        arm_filtered(s, now_pos, is_encoder, s.len()).skip(words_end(s.len()) as int) == s.skip(
            words_end(s.len()) as int,
        ),
        arm_filtered(s, now_pos, is_encoder, s.len()).len() == s.len(),
{
    let t = s + w;
    let k = words_end(s.len()) as int;
    let rest = s.skip(k) + w;
    let np = pc_at(now_pos, k as nat);
    let whole = arm_filtered(t, now_pos, is_encoder, t.len());
    let first = arm_filtered(s, now_pos, is_encoder, s.len());
    let second = arm_filtered(rest, np, is_encoder, rest.len());
    let joined = first.take(k) + second;
    lemma_words_end(s.len(), w.len());
    lemma_arm_filtered_tail(t, now_pos, is_encoder, t.len(), 0);
    lemma_arm_filtered_tail(s, now_pos, is_encoder, s.len(), 0);
    lemma_arm_filtered_tail(rest, np, is_encoder, rest.len(), 0);
    assert(joined.len() == whole.len());
    assert forall|x: int| 0 <= x < whole.len() implies whole[x] == joined[x] by {
        lemma_arm_continues_at(s, w, now_pos, is_encoder, k, x);
    }
    assert(whole =~= joined);
    assert forall|x: int| 0 <= x < s.len() - k implies first.skip(k)[x] == s.skip(k)[x] by {
        lemma_arm_filtered_tail(s, now_pos, is_encoder, s.len(), x + k);
    }
    assert(first.skip(k) =~= s.skip(k));
}

#[verifier::spinoff_prover]
#[verifier::rlimit(60)]
proof fn lemma_arm64_continues_low(s: Seq<u8>, w: Seq<u8>, now_pos: u32, is_encoder: bool, k: int, b: int, r: int)
    requires
        0 <= k <= s.len(),
        k % 4 == 0,
        b % 4 == 0,
        0 <= r < 4,
        0 <= b,
        b + 4 <= k,
    ensures
        arm64_filtered(s + w, now_pos, is_encoder, (s + w).len())[b + r] == arm64_filtered(
            s,
            now_pos,
            is_encoder,
            s.len(),
        )[b + r],
{
    let t = s + w;
    lemma_word_index(b, r);
    lemma_arm64_filtered_at(t, now_pos, is_encoder, t.len(), b + r);
    lemma_arm64_filtered_at(s, now_pos, is_encoder, s.len(), b + r);
    assert(t.subrange(b, b + 4) =~= s.subrange(b, b + 4));
}

#[verifier::spinoff_prover]
#[verifier::rlimit(60)]
proof fn lemma_arm64_continues_high(s: Seq<u8>, w: Seq<u8>, now_pos: u32, is_encoder: bool, k: int, b: int, r: int)
    requires
        0 <= k <= s.len(),
        k % 4 == 0,
        b % 4 == 0,
        0 <= r < 4,
        k <= b,
        b + 4 <= s.len() + w.len(),
    ensures
        arm64_filtered(s + w, now_pos, is_encoder, (s + w).len())[b + r] == arm64_filtered(
            s.skip(k) + w,
            pc_at(now_pos, k as nat),
            is_encoder,
            (s.skip(k) + w).len(),
        )[b - k + r],
{
    let t = s + w;
    let rest = s.skip(k) + w;
    let np = pc_at(now_pos, k as nat);
    lemma_word_index(b, r);
    lemma_word_index(b - k, r);
    lemma_arm64_filtered_at(t, now_pos, is_encoder, t.len(), b + r);
    lemma_arm64_filtered_at(rest, np, is_encoder, rest.len(), b - k + r);
    assert(rest.subrange(b - k, b - k + 4) =~= t.subrange(b, b + 4));
    lemma_pc_at_adds(now_pos, k as nat, (b - k) as nat);
}

#[verifier::spinoff_prover]
#[verifier::rlimit(60)]
proof fn lemma_arm64_continues_at(s: Seq<u8>, w: Seq<u8>, now_pos: u32, is_encoder: bool, k: int, x: int)
    requires
        is_words_end(s.len() as int, k),
        k == words_end(s.len()),
        0 <= x < s.len() + w.len(),
    ensures
        arm64_filtered(s + w, now_pos, is_encoder, (s + w).len())[x] == (arm64_filtered(
            s,
            now_pos,
            is_encoder,
            s.len(),
        ).take(k) + arm64_filtered(
            s.skip(k) + w,
            pc_at(now_pos, k as nat),
            is_encoder,
            (s.skip(k) + w).len(),
        ))[x],
{
    let t = s + w;
    let rest = s.skip(k) + w;
    let np = pc_at(now_pos, k as nat);
    let b = x - x % 4;
    let r = x % 4;
    lemma_arm64_filtered_tail(t, now_pos, is_encoder, t.len(), x);
    lemma_arm64_filtered_tail(s, now_pos, is_encoder, s.len(), x);
    lemma_arm64_filtered_tail(rest, np, is_encoder, rest.len(), x - k);
    lemma_words_end(s.len(), w.len());
    lemma_continued_index(0, x);
    if x < k {
        lemma_arm64_continues_low(s, w, now_pos, is_encoder, k, b, r);
    } else {
        lemma_continued_index(k, x);
        assert(rest[x - k] == t[x]);
        if x < words_end(t.len()) {
            lemma_arm64_continues_high(s, w, now_pos, is_encoder, k, b, r);
        }
    }
}

/// The ARM64 converter can go on where it has stopped.
pub proof fn lemma_arm64_continues(s: Seq<u8>, w: Seq<u8>, now_pos: u32, is_encoder: bool)
    ensures
        arm64_filtered(s + w, now_pos, is_encoder, (s + w).len()) == arm64_filtered(
            s,
            now_pos,
            is_encoder,
            s.len(),
        ).take(words_end(s.len()) as int) + arm64_filtered(
            s.skip(words_end(s.len()) as int) + w,
            pc_at(now_pos, words_end(s.len())),
            is_encoder,
            (s.skip(words_end(s.len()) as int) + w).len(),
        ),
        arm64_filtered(s, now_pos, is_encoder, s.len()).skip(words_end(s.len()) as int) == s.skip(
            words_end(s.len()) as int,
        ),
        arm64_filtered(s, now_pos, is_encoder, s.len()).len() == s.len(),
{
    let t = s + w;
    let k = words_end(s.len()) as int;
    let rest = s.skip(k) + w;
    let np = pc_at(now_pos, k as nat);
    let whole = arm64_filtered(t, now_pos, is_encoder, t.len());
    let first = arm64_filtered(s, now_pos, is_encoder, s.len());
    let second = arm64_filtered(rest, np, is_encoder, rest.len());
    let joined = first.take(k) + second;
    lemma_words_end(s.len(), w.len());
    lemma_arm64_filtered_tail(t, now_pos, is_encoder, t.len(), 0);
    lemma_arm64_filtered_tail(s, now_pos, is_encoder, s.len(), 0);
    lemma_arm64_filtered_tail(rest, np, is_encoder, rest.len(), 0);
    assert(joined.len() == whole.len());
    assert forall|x: int| 0 <= x < whole.len() implies whole[x] == joined[x] by {
        lemma_arm64_continues_at(s, w, now_pos, is_encoder, k, x);
    }
    assert(whole =~= joined);
    assert forall|x: int| 0 <= x < s.len() - k implies first.skip(k)[x] == s.skip(k)[x] by {
        lemma_arm64_filtered_tail(s, now_pos, is_encoder, s.len(), x + k);
    }
    assert(first.skip(k) =~= s.skip(k));
}

/// Where the ARM-Thumb scan ends: no earlier than it starts, no later
/// than the size, and with fewer than four bytes left; no byte from
/// there on has changed.
pub proof fn lemma_thumb_end(buf: Seq<u8>, now_pos: u32, is_encoder: bool, size: nat, i: nat)
    requires
        i <= size <= buf.len(),
    ensures
        i <= thumb_end(buf, size, i) <= size,
        size < thumb_end(buf, size, i) + 4,
        thumb_filtered(buf, now_pos, is_encoder, size, i).len() == buf.len(),
        forall|x: int|
            thumb_end(buf, size, i) <= x < buf.len() ==> #[trigger] thumb_filtered(
                buf,
                now_pos,
                is_encoder,
                size,
                i,
            )[x] == buf[x],
    decreases size - i,
{
    let out = thumb_filtered(buf, now_pos, is_encoder, size, i);
    if i + 4 > size {
    } else {
        let w = buf.subrange(i as int, i as int + 4);
        if thumb_matches(w) {
            let p = thumb_pair(w, pc_at(now_pos, i), is_encoder);
            lemma_thumb_pair_class(w, pc_at(now_pos, i), is_encoder);
            let next = splice(buf, i as int, p);
            lemma_thumb_end(next, now_pos, is_encoder, size, i + 4);
            lemma_thumb_end_local(buf, next, size, i + 4);
            let r = thumb_filtered(next, now_pos, is_encoder, size, i + 4);
            assert(out == r);
            assert forall|x: int| thumb_end(buf, size, i) <= x < buf.len() implies out[x]
                == buf[x] by {
                assert(r[x] == next[x]);
                assert(next[x] == buf[x]);
            }
        } else {
            lemma_thumb_end(buf, now_pos, is_encoder, size, i + 2);
            let r = thumb_filtered(buf, now_pos, is_encoder, size, i + 2);
            assert(out == r);
            assert forall|x: int| thumb_end(buf, size, i) <= x < buf.len() implies out[x]
                == buf[x] by {
                assert(r[x] == buf[x]);
            }
        }
    }
}

/// Where the scan from `i` on ends depends on the bytes from `i` on
/// alone.
pub proof fn lemma_thumb_end_local(a: Seq<u8>, b: Seq<u8>, size: nat, i: nat)
    requires
        a.len() == b.len(),
        forall|x: int| i <= x < a.len() ==> a[x] == b[x],
    ensures
        thumb_end(a, size, i) == thumb_end(b, size, i),
    decreases size - i,
{
    if i + 4 > size || size > a.len() {
    } else {
        assert(a.subrange(i as int, i as int + 4) =~= b.subrange(i as int, i as int + 4));
        if thumb_matches(a.subrange(i as int, i as int + 4)) {
            lemma_thumb_end_local(a, b, size, i + 4);
        } else {
            lemma_thumb_end_local(a, b, size, i + 2);
        }
    }
}

/// The scan does not care where the buffer begins: the scan of a buffer
/// from `j` on is the scan of the buffer without its first `i` bytes
/// from `j - i` on, at the position `i` bytes further.
pub proof fn lemma_thumb_shift(t: Seq<u8>, now_pos: u32, is_encoder: bool, size: nat, i: nat, j: nat)
    requires
        i <= j <= size <= t.len(),
    ensures
        thumb_filtered(t, now_pos, is_encoder, size, j) == t.take(i as int) + thumb_filtered(
            t.skip(i as int),
            pc_at(now_pos, i),
            is_encoder,
            (size - i) as nat,
            (j - i) as nat,
        ),
        thumb_end(t, size, j) == i + thumb_end(t.skip(i as int), (size - i) as nat, (j - i) as nat),
    decreases size - j,
{
    let u = t.skip(i as int);
    let np = pc_at(now_pos, i);
    if j + 4 > size {
        assert(t =~= t.take(i as int) + u);
    } else {
        let w = t.subrange(j as int, j as int + 4);
        assert(u.subrange(j - i, j - i + 4) =~= w);
        lemma_pc_at_adds(now_pos, i, (j - i) as nat);
        if thumb_matches(w) {
            let p = thumb_pair(w, pc_at(now_pos, j), is_encoder);
            lemma_thumb_pair_class(w, pc_at(now_pos, j), is_encoder);
            let t1 = splice(t, j as int, p);
            let u1 = splice(u, j - i, p);
            assert(t1.skip(i as int) =~= u1);
            assert(t1.take(i as int) =~= t.take(i as int));
            lemma_thumb_shift(t1, now_pos, is_encoder, size, i, j + 4);
            lemma_thumb_end_local(t, t1, size, j + 4);
            lemma_thumb_end_local(u, u1, (size - i) as nat, (j - i + 4) as nat);
        } else {
            lemma_thumb_shift(t, now_pos, is_encoder, size, i, j + 2);
        }
    }
}

/// The scan of `b` and `w` at once, from `i` on, is the scan of `b` from
/// `i` on and then, from where that has stopped, the scan of the rest
/// with `w` behind it.
pub proof fn lemma_thumb_continues_from(b: Seq<u8>, w: Seq<u8>, now_pos: u32, is_encoder: bool, i: nat)
    requires
        i <= b.len(),
    ensures
        thumb_filtered(b + w, now_pos, is_encoder, (b + w).len(), i) == thumb_filtered(
            b,
            now_pos,
            is_encoder,
            b.len(),
            i,
        ).take(thumb_end(b, b.len(), i) as int) + thumb_filtered(
            b.skip(thumb_end(b, b.len(), i) as int) + w,
            pc_at(now_pos, thumb_end(b, b.len(), i)),
            is_encoder,
            (b.skip(thumb_end(b, b.len(), i) as int) + w).len(),
            0,
        ),
        thumb_end(b + w, (b + w).len(), i) == thumb_end(b, b.len(), i) + thumb_end(
            b.skip(thumb_end(b, b.len(), i) as int) + w,
            (b.skip(thumb_end(b, b.len(), i) as int) + w).len(),
            0,
        ),
    decreases b.len() - i,
{
    let t = b + w;
    let n = b.len();
    let k = thumb_end(b, n, i);
    lemma_thumb_end(b, now_pos, is_encoder, n, i);
    if i + 4 > n {
        lemma_thumb_shift(t, now_pos, is_encoder, t.len(), i, i);
        assert(t.take(i as int) =~= b.take(i as int));
        assert(t.skip(i as int) =~= b.skip(i as int) + w);
    } else {
        let win = b.subrange(i as int, i as int + 4);
        assert(t.subrange(i as int, i as int + 4) =~= win);
        if thumb_matches(win) {
            let p = thumb_pair(win, pc_at(now_pos, i), is_encoder);
            lemma_thumb_pair_class(win, pc_at(now_pos, i), is_encoder);
            let b1 = splice(b, i as int, p);
            assert(splice(t, i as int, p) =~= b1 + w);
            lemma_thumb_end_local(t, b1 + w, t.len(), i + 4);
            lemma_thumb_continues_from(b1, w, now_pos, is_encoder, i + 4);
            lemma_thumb_end_local(b, b1, n, i + 4);
            lemma_thumb_end(b1, now_pos, is_encoder, n, i + 4);
            let k1 = thumb_end(b1, n, i + 4);
            assert(k1 == k);
            assert(b1.skip(k as int) =~= b.skip(k as int));
        } else {
            lemma_thumb_continues_from(b, w, now_pos, is_encoder, i + 2);
        }
    }
}

/// Every converter can go on where it has stopped: converting `s` and
/// then, from where the converter has stopped, the rest of `s` with `w`
/// behind it, is converting `s` and `w` at once. What the converter has
/// not dealt with, it has not changed.
pub proof fn lemma_filter_continues(filter: SimpleFilter, is_encoder: bool, now_pos: u32, s: Seq<u8>, w: Seq<
    u8,
>)
    ensures
        filter_done(filter, s) <= s.len(),
        s.len() < filter_done(filter, s) + 4,
        filter_stream(filter, is_encoder, now_pos, s).len() == s.len(),
        filter_stream(filter, is_encoder, now_pos, s).skip(filter_done(filter, s) as int)
            == s.skip(filter_done(filter, s) as int),
        filter_stream(filter, is_encoder, now_pos, s + w) == filter_stream(
            filter,
            is_encoder,
            now_pos,
            s,
        ).take(filter_done(filter, s) as int) + filter_stream(
            filter,
            is_encoder,
            pc_at(now_pos, filter_done(filter, s)),
            s.skip(filter_done(filter, s) as int) + w,
        ),
{
    match filter {
        SimpleFilter::Arm => {
            lemma_arm_continues(s, w, now_pos, is_encoder);
            lemma_words_end(s.len(), 0);
        },
        SimpleFilter::Arm64 => {
            lemma_arm64_continues(s, w, now_pos, is_encoder);
            lemma_words_end(s.len(), 0);
        },
        SimpleFilter::ArmThumb => {
            lemma_thumb_continues_from(s, w, now_pos, is_encoder, 0);
            lemma_thumb_end(s, now_pos, is_encoder, s.len(), 0);
            let k = thumb_end(s, s.len(), 0) as int;
            assert(thumb_filtered(s, now_pos, is_encoder, s.len(), 0).skip(k) =~= s.skip(k));
        },
    }
}

proof fn lemma_arm_prefix(p: Seq<u8>, q: Seq<u8>, now_pos: u32, is_encoder: bool)
    ensures
        arm_filtered(p + q, now_pos, is_encoder, p.len()) == arm_filtered(
            p,
            now_pos,
            is_encoder,
            p.len(),
        ) + q,
{
    let t = p + q;
    let a = arm_filtered(t, now_pos, is_encoder, p.len());
    let b = arm_filtered(p, now_pos, is_encoder, p.len()) + q;
    lemma_arm_filtered_tail(t, now_pos, is_encoder, p.len(), 0);
    lemma_arm_filtered_tail(p, now_pos, is_encoder, p.len(), 0);
    lemma_words_end(p.len(), 0);
    assert forall|x: int| 0 <= x < t.len() implies a[x] == b[x] by {
        lemma_arm_filtered_tail(t, now_pos, is_encoder, p.len(), x);
        lemma_arm_filtered_tail(p, now_pos, is_encoder, p.len(), x);
        if x < words_end(p.len()) {
            lemma_continued_index(0, x);
            lemma_arm_filtered_at(t, now_pos, is_encoder, p.len(), x);
            lemma_arm_filtered_at(p, now_pos, is_encoder, p.len(), x);
            assert(t.subrange(x - x % 4, x - x % 4 + 4) =~= p.subrange(x - x % 4, x - x % 4 + 4));
        }
    }
    assert(a =~= b);
}

proof fn lemma_arm64_prefix(p: Seq<u8>, q: Seq<u8>, now_pos: u32, is_encoder: bool)
    ensures
        arm64_filtered(p + q, now_pos, is_encoder, p.len()) == arm64_filtered(
            p,
            now_pos,
            is_encoder,
            p.len(),
        ) + q,
{
    let t = p + q;
    let a = arm64_filtered(t, now_pos, is_encoder, p.len());
    let b = arm64_filtered(p, now_pos, is_encoder, p.len()) + q;
    lemma_arm64_filtered_tail(t, now_pos, is_encoder, p.len(), 0);
    lemma_arm64_filtered_tail(p, now_pos, is_encoder, p.len(), 0);
    lemma_words_end(p.len(), 0);
    assert forall|x: int| 0 <= x < t.len() implies a[x] == b[x] by {
        lemma_arm64_filtered_tail(t, now_pos, is_encoder, p.len(), x);
        lemma_arm64_filtered_tail(p, now_pos, is_encoder, p.len(), x);
        if x < words_end(p.len()) {
            lemma_continued_index(0, x);
            lemma_arm64_filtered_at(t, now_pos, is_encoder, p.len(), x);
            lemma_arm64_filtered_at(p, now_pos, is_encoder, p.len(), x);
            assert(t.subrange(x - x % 4, x - x % 4 + 4) =~= p.subrange(x - x % 4, x - x % 4 + 4));
        }
    }
    assert(a =~= b);
}

proof fn lemma_thumb_prefix(p: Seq<u8>, q: Seq<u8>, now_pos: u32, is_encoder: bool, i: nat)
    requires
        i <= p.len(),
    ensures
        thumb_filtered(p + q, now_pos, is_encoder, p.len(), i) == thumb_filtered(
            p,
            now_pos,
            is_encoder,
            p.len(),
            i,
        ) + q,
        thumb_end(p + q, p.len(), i) == thumb_end(p, p.len(), i),
    decreases p.len() - i,
{
    let t = p + q;
    if i + 4 > p.len() {
    } else {
        let win = p.subrange(i as int, i as int + 4);
        assert(t.subrange(i as int, i as int + 4) =~= win);
        if thumb_matches(win) {
            let pair = thumb_pair(win, pc_at(now_pos, i), is_encoder);
            lemma_thumb_pair_class(win, pc_at(now_pos, i), is_encoder);
            let front = splice(p, i as int, pair);
            assert(splice(t, i as int, pair) =~= front + q);
            lemma_thumb_prefix(front, q, now_pos, is_encoder, i + 4);
            lemma_thumb_end_local(t, front + q, p.len(), i + 4);
            lemma_thumb_end_local(p, front, p.len(), i + 4);
        } else {
            lemma_thumb_prefix(p, q, now_pos, is_encoder, i + 2);
        }
    }
}

/// A converter that is given the first `size` bytes of a longer buffer
/// converts them as if they stood alone, and leaves the rest.
pub proof fn lemma_filter_prefix(filter: SimpleFilter, is_encoder: bool, now_pos: u32, buf: Seq<u8>, size: nat)
    requires
        size <= buf.len(),
    ensures
        filter_stream(filter, is_encoder, now_pos, buf.take(size as int)) + buf.skip(size as int)
            == (match filter {
            SimpleFilter::Arm => arm_filtered(buf, now_pos, is_encoder, size),
            SimpleFilter::Arm64 => arm64_filtered(buf, now_pos, is_encoder, size),
            SimpleFilter::ArmThumb => thumb_filtered(buf, now_pos, is_encoder, size, 0),
        }),
        filter_done(filter, buf.take(size as int)) == (match filter {
            SimpleFilter::Arm => words_end(size),
            SimpleFilter::Arm64 => words_end(size),
            SimpleFilter::ArmThumb => thumb_end(buf, size, 0),
        }),
{
    let p = buf.take(size as int);
    let q = buf.skip(size as int);
    assert(p + q =~= buf);
    match filter {
        SimpleFilter::Arm => {
            lemma_arm_prefix(p, q, now_pos, is_encoder);
        },
        SimpleFilter::Arm64 => {
            lemma_arm64_prefix(p, q, now_pos, is_encoder);
        },
        SimpleFilter::ArmThumb => {
            lemma_thumb_prefix(p, q, now_pos, is_encoder, 0);
        },
    }
}

/// Whether a converter undoes itself on data that lie at `now_pos`:
/// the position must be a multiple of four for ARM and of two for
/// ARM-Thumb, whose instructions are counted in such units; ARM64 does
/// at any position.
pub open spec fn placed(filter: SimpleFilter, now_pos: u32) -> bool {
    match filter {
        SimpleFilter::Arm => now_pos % 4 == 0,
        SimpleFilter::Arm64 => true,
        SimpleFilter::ArmThumb => now_pos % 2 == 0,
    }
}

/// A stream that is encoded and then decoded, or decoded and then
/// encoded, at the same position is the stream again, byte for byte.
pub proof fn lemma_stream_round_trip(filter: SimpleFilter, is_encoder: bool, now_pos: u32, s: Seq<u8>)
    requires
        placed(filter, now_pos),
    ensures
        filter_stream(filter, is_encoder, now_pos, s).len() == s.len(),
        filter_stream(filter, !is_encoder, now_pos, filter_stream(filter, is_encoder, now_pos, s))
            == s,
{
    match filter {
        SimpleFilter::Arm => {
            lemma_arm_filtered_tail(s, now_pos, is_encoder, s.len(), 0);
            lemma_arm_round_trip(s, now_pos, is_encoder, s.len());
        },
        SimpleFilter::Arm64 => {
            lemma_arm64_filtered_tail(s, now_pos, is_encoder, s.len(), 0);
            lemma_arm64_round_trip(s, now_pos, is_encoder, s.len());
        },
        SimpleFilter::ArmThumb => {
            lemma_thumb_frame(s, now_pos, is_encoder, s.len(), 0);
            lemma_thumb_round_trip(s, now_pos, is_encoder, s.len());
        },
    }
}

} // verus!
