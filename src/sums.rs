//! Sums of non-negative terms, and an overflow-checked total.

use vstd::prelude::*;

use crate::error::GenericError;

verus! {

/// The weights `w` of the items of `s`, summed.
pub open spec fn sum_of<T>(s: Seq<T>, w: spec_fn(T) -> int) -> int
    decreases s.len(),
{
    if s.len() == 0 {
        0
    } else {
        sum_of(s.drop_last(), w) + w(s.last())
    }
}

pub proof fn lemma_sum_of_prefix<T>(s: Seq<T>, w: spec_fn(T) -> int, j: int)
    requires
        0 <= j <= s.len(),
        forall|x: T| #[trigger] w(x) >= 0,
    ensures
        sum_of(s.take(j), w) <= sum_of(s, w),
    decreases s.len() - j,
{
    if j < s.len() {
        lemma_sum_of_prefix(s, w, j + 1);
        assert(s.take(j + 1).drop_last() =~= s.take(j));
    } else {
        assert(s.take(j) =~= s);
    }
}

pub proof fn lemma_sum_nonneg<T>(s: Seq<T>, w: spec_fn(T) -> int)
    requires
        forall|x: T| #[trigger] w(x) >= 0,
    ensures
        sum_of(s, w) >= 0,
    decreases s.len(),
{
    if s.len() > 0 {
        lemma_sum_nonneg(s.drop_last(), w);
    }
}

/// The plain sum of a sequence of integers.
pub open spec fn total(s: Seq<u64>) -> int {
    sum_of(s, |x: u64| x as int)
}

/// The sum of `values`; an error when it does not fit in `u64`.
pub fn checked_total(values: &Vec<u64>) -> (r: Result<u64, GenericError>)
    ensures
        r is Ok <==> total(values@) <= u64::MAX,
        r matches Ok(v) ==> v == total(values@),
        r matches Err(e) ==> e == GenericError::Overflow,
{
    let ghost w = |x: u64| x as int;
    let mut sum: u64 = 0;
    let mut i: usize = 0;
    while i < values.len()
        invariant
            w == (|x: u64| x as int),
            0 <= i <= values@.len(),
            sum == sum_of(values@.take(i as int), w),
        decreases values@.len() - i,
    {
        assert(values@.take(i + 1).drop_last() =~= values@.take(i as int));
        assert(values@.take(i + 1).last() == values@[i as int]);
        if sum > u64::MAX - values[i] {
            proof {
                lemma_sum_of_prefix(values@, w, i + 1);
            }
            return Err(GenericError::Overflow);
        }
        sum = sum + values[i];
        i = i + 1;
    }
    assert(values@.take(i as int) =~= values@);
    Ok(sum)
}

} // verus!
