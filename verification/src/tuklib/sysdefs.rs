use vstd::prelude::*;
use vstd::std_specs::cmp::PartialOrdIs;
use vstd::std_specs::cmp::PartialOrdSpec;

verus! {

/// Sets every item of the slice to a default value of its type.
pub fn memzero<T: Default>(slice: &mut [T])
    ensures
        final(slice)@.len() == old(slice)@.len(),
        forall|i: int|
            0 <= i < old(slice)@.len() ==> call_ensures(T::default, (), #[trigger] final(slice)@[i]),
{
    let n: usize = slice.len();
    let mut i: usize = 0;
    while i < n
        invariant
            i <= n,
            n == slice@.len(),
            slice@.len() == old(slice)@.len(),
            forall|k: int| 0 <= k < i ==> call_ensures(T::default, (), #[trigger] slice@[k]),
        decreases n - i,
    {
        slice[i] = T::default();
        i += 1;
    }
}

/// The smaller of two values; the second where neither is smaller.
pub fn my_min<T: Ord>(x: T, y: T) -> (m: T)
    ensures
        m == x || m == y,
        T::obeys_partial_cmp_spec() ==> m == (if x.is_lt(&y) {
            x
        } else {
            y
        }),
{
    if x < y {
        x
    } else {
        y
    }
}

/// The greater of two values; the second where neither is greater.
pub fn my_max<T: Ord>(x: T, y: T) -> (m: T)
    ensures
        m == x || m == y,
        T::obeys_partial_cmp_spec() ==> m == (if x.is_gt(&y) {
            x
        } else {
            y
        }),
{
    if x > y {
        x
    } else {
        y
    }
}

} // verus!
