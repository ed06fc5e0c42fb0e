//! Boat races: holding the button for `t` of `time` milliseconds moves the
//! boat `t * (time - t)` millimetres.

use vstd::prelude::*;

use crate::error::GenericError;

verus! {

/// The number of hold times in `[0, n)` that travel further than `distance`.
pub open spec fn ways_below(time: int, distance: int, n: int) -> int
    decreases n,
{
    if n <= 0 {
        0
    } else {
        ways_below(time, distance, n - 1) + if (n - 1) * (time - (n - 1)) > distance { 1int } else { 0 }
    }
}

/// The number of whole hold times in `[0, time]` that beat `distance`.
pub open spec fn ways_to_beat(time: int, distance: int) -> int {
    ways_below(time, distance, time + 1)
}

/// Counts the hold times that beat `distance` in a race of `time`.
pub fn count_ways_to_beat(time: u64, distance: u64) -> (r: u64)
    requires
        time < u64::MAX,
    ensures
        r == ways_to_beat(time as int, distance as int),
{
    let mut count: u64 = 0;
    let mut t: u64 = 0;
    while t <= time
        invariant
            time < u64::MAX,
            0 <= t <= time + 1,
            count == ways_below(time as int, distance as int, t as int),
            count <= t,
        decreases time + 1 - t,
    {
        assert(t * (time - t) <= u64::MAX * u64::MAX) by (nonlinear_arith)
            requires
                t <= time,
                time < u64::MAX,
        ;
        let travelled: u128 = (t as u128) * ((time - t) as u128);
        if travelled > distance as u128 {
            count = count + 1;
        }
        t = t + 1;
    }
    count
}

/// The product over the races of the number of ways to win each; an error
/// when it does not fit in `u64`.
pub fn product_of_ways(times: &Vec<u64>, distances: &Vec<u64>) -> (r: Result<u64, GenericError>)
    requires
        times@.len() == distances@.len(),
        forall|i: int| 0 <= i < times@.len() ==> #[trigger] times@[i] < u64::MAX,
    ensures
        r is Ok <==> product_ways(times@, distances@, times@.len() as int) <= u64::MAX,
        r matches Ok(v) ==> v == product_ways(times@, distances@, times@.len() as int),
        r matches Err(e) ==> e == GenericError::Overflow,
{
    let n = times.len();
    let mut ways: Vec<u64> = Vec::new();
    let mut i: usize = 0;
    while i < n
        invariant
            n == times@.len(),
            times@.len() == distances@.len(),
            forall|i: int| 0 <= i < times@.len() ==> #[trigger] times@[i] < u64::MAX,
            0 <= i <= n,
            ways@.len() == i,
            forall|k: int| 0 <= k < i ==> #[trigger] ways@[k] == ways_to_beat(times@[k] as int, distances@[k] as int),
        decreases n - i,
    {
        ways.push(count_ways_to_beat(times[i], distances[i]));
        i = i + 1;
    }
    let mut k: usize = 0;
    while k < n
        invariant
            n == times@.len(),
            times@.len() == distances@.len(),
            ways@.len() == n,
            forall|j: int| 0 <= j < n ==> #[trigger] ways@[j] == ways_to_beat(times@[j] as int, distances@[j] as int),
            0 <= k <= n,
            forall|j: int| 0 <= j < k ==> #[trigger] ways@[j] != 0,
        decreases n - k,
    {
        if ways[k] == 0 {
            proof {
                assert(ways@[k as int] == ways_to_beat(times@[k as int] as int, distances@[k as int] as int));
                lemma_product_zero_from(times@, distances@, k as int);
            }
            return Ok(0);
        }
        k = k + 1;
    }
    let mut product: u64 = 1;
    let mut i: usize = 0;
    while i < n
        invariant
            n == times@.len(),
            ways@.len() == n,
            times@.len() == distances@.len(),
            forall|k: int| 0 <= k < n ==> #[trigger] ways@[k] == ways_to_beat(times@[k] as int, distances@[k] as int),
            forall|j: int| 0 <= j < n ==> #[trigger] ways@[j] != 0,
            0 <= i <= n,
            product == product_ways(times@, distances@, i as int),
            product >= 1,
        decreases n - i,
    {
        match product.checked_mul(ways[i]) {
            Some(p) => {
                assert(p >= 1) by (nonlinear_arith)
                    requires
                        p == product * ways@[i as int],
                        product >= 1,
                        ways@[i as int] >= 1,
                ;
                product = p;
            },
            None => {
                proof {
                    assert forall|k: int| 0 <= k < times@.len() implies #[trigger] ways_to_beat(times@[k] as int, distances@[k] as int) >= 1 by {
                        assert(ways@[k] != 0);
                    }
                    lemma_product_grows(times@, distances@, i as int + 1);
                }
                return Err(GenericError::Overflow);
            },
        }
        i = i + 1;
    }
    Ok(product)
}

/// The ways to win each of the first `n` races, multiplied.
pub open spec fn product_ways(times: Seq<u64>, distances: Seq<u64>, n: int) -> int
    decreases n,
{
    if n <= 0 {
        1
    } else {
        product_ways(times, distances, n - 1) * ways_to_beat(times[n - 1] as int, distances[n - 1] as int)
    }
}

/// With every race winnable, a product that exceeds `u64::MAX` on a prefix
/// exceeds it in full.
proof fn lemma_product_grows(times: Seq<u64>, distances: Seq<u64>, n: int)
    requires
        0 <= n <= times.len(),
        times.len() == distances.len(),
        forall|k: int| 0 <= k < times.len() ==> #[trigger] ways_to_beat(times[k] as int, distances[k] as int) >= 1,
        product_ways(times, distances, n) > u64::MAX,
    ensures
        product_ways(times, distances, times.len() as int) > u64::MAX,
    decreases times.len() - n,
{
    if n < times.len() {
        let w = ways_to_beat(times[n] as int, distances[n] as int);
        assert(w >= 1);
        assert(product_ways(times, distances, n) * w >= product_ways(times, distances, n)) by (nonlinear_arith)
            requires
                w >= 1,
                product_ways(times, distances, n) > 0,
        ;
        lemma_product_grows(times, distances, n + 1);
    }
}

/// A race that cannot be won makes the whole product zero.
proof fn lemma_product_zero_from(times: Seq<u64>, distances: Seq<u64>, k: int)
    requires
        0 <= k < times.len(),
        ways_to_beat(times[k] as int, distances[k] as int) == 0,
    ensures
        product_ways(times, distances, times.len() as int) == 0,
    decreases times.len() - k,
{
    lemma_product_zero_after(times, distances, k + 1);
}

proof fn lemma_product_zero_after(times: Seq<u64>, distances: Seq<u64>, n: int)
    requires
        1 <= n <= times.len(),
        exists|k: int| 0 <= k < n && #[trigger] ways_to_beat(times[k] as int, distances[k] as int) == 0,
    ensures
        product_ways(times, distances, n) == 0,
        product_ways(times, distances, times.len() as int) == 0,
    decreases times.len() - n, 1int,
{
    lemma_product_zero_at(times, distances, n);
    if n < times.len() {
        lemma_product_zero_after(times, distances, n + 1);
    }
}

proof fn lemma_product_zero_at(times: Seq<u64>, distances: Seq<u64>, n: int)
    requires
        1 <= n <= times.len(),
        exists|k: int| 0 <= k < n && #[trigger] ways_to_beat(times[k] as int, distances[k] as int) == 0,
    ensures
        product_ways(times, distances, n) == 0,
    decreases n,
{
    let k = choose|k: int| 0 <= k < n && #[trigger] ways_to_beat(times[k] as int, distances[k] as int) == 0;
    if k < n - 1 {
        lemma_product_zero_at(times, distances, n - 1);
    }
}

} // verus!
