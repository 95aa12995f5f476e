use vstd::prelude::*;

verus! {

/// `s` with the items from `at` on overwritten by `ins`, as far as `ins`
/// reaches.
pub open spec fn splice<T>(s: Seq<T>, at: int, ins: Seq<T>) -> Seq<T> {
    Seq::new(
        s.len(),
        |i: int|
            if at <= i < at + ins.len() {
                ins[i - at]
            } else {
                s[i]
            },
    )
}

/// Overwriting with nothing changes nothing.
pub proof fn lemma_splice_empty<T>(s: Seq<T>, at: int)
    ensures
        splice(s, at, Seq::<T>::empty()) == s,
{
    assert(splice(s, at, Seq::<T>::empty()) =~= s);
}

/// Overwriting with `a` and then, right behind it, with `b` is one
/// overwrite with `a + b`.
pub proof fn lemma_splice_splice<T>(s: Seq<T>, at: int, a: Seq<T>, b: Seq<T>)
    requires
        0 <= at,
    ensures
        splice(splice(s, at, a), at + a.len(), b) == splice(s, at, a + b),
{
    assert(splice(splice(s, at, a), at + a.len(), b) =~= splice(s, at, a + b));
}

} // verus!
