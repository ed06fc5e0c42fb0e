//! Scratchcards: matches between winning numbers and the numbers one holds,
//! the points they score, and the copies they win.

use vstd::prelude::*;

use vstd::arithmetic::power2::{lemma2_to64, lemma2_to64_rest, lemma_pow2_strictly_increases, lemma_pow2_unfold, pow2};

use crate::error::GenericError;
use crate::sums::{checked_total, sum_of, total};

verus! {

/// How often `x` occurs in `ys`.
pub open spec fn occurrences(ys: Seq<u32>, x: u32) -> int
    decreases ys.len(),
{
    if ys.len() == 0 {
        0
    } else {
        occurrences(ys.drop_last(), x) + if ys.last() == x { 1int } else { 0 }
    }
}

/// The number of equal pairs between `ws` and `ys`.
pub open spec fn match_count(ws: Seq<u32>, ys: Seq<u32>) -> int {
    sum_of(ws, |w: u32| occurrences(ys, w))
}

pub struct Card {
    pub id: u32,
    pub winning_numbers: Vec<u32>,
    pub your_numbers: Vec<u32>,
    pub num_matches: usize,
}

impl Card {
    pub fn new(id: u32) -> (r: Card)
        ensures
            r.id == id,
            r.winning_numbers@.len() == 0,
            r.your_numbers@.len() == 0,
            r.num_matches == 0,
    {
        Card { id, winning_numbers: Vec::new(), your_numbers: Vec::new(), num_matches: 0 }
    }

    /// A card with its numbers, its count of matches worked out.
    pub fn with_numbers(id: u32, winning_numbers: Vec<u32>, your_numbers: Vec<u32>) -> (r: Card)
        requires
            winning_numbers@.len() * your_numbers@.len() <= usize::MAX,
        ensures
            r.id == id,
            r.winning_numbers@ == winning_numbers@,
            r.your_numbers@ == your_numbers@,
            r.num_matches == match_count(winning_numbers@, your_numbers@),
    {
        let ghost ws = winning_numbers@;
        let ghost ys = your_numbers@;
        let ghost w = |x: u32| occurrences(ys, x);
        let wlen = winning_numbers.len();
        let ylen = your_numbers.len();
        let mut count: usize = 0;
        let mut i: usize = 0;
        while i < wlen
            invariant
                wlen == ws.len(),
                ylen == ys.len(),
                ws == winning_numbers@,
                ys == your_numbers@,
                w == (|x: u32| occurrences(ys, x)),
                wlen * ylen <= usize::MAX,
                0 <= i <= wlen,
                count == sum_of(ws.take(i as int), w),
                count <= i * ylen,
            decreases wlen - i,
        {
            let x = winning_numbers[i];
            let ghost before = count;
            let mut j: usize = 0;
            while j < ylen
                invariant
                    wlen == ws.len(),
                    ylen == ys.len(),
                    ys == your_numbers@,
                    wlen * ylen <= usize::MAX,
                    i < wlen,
                    0 <= j <= ylen,
                    before <= i * ylen,
                    count == before + occurrences(ys.take(j as int), x),
                    count <= before + j,
                decreases ylen - j,
            {
                assert(ys.take(j + 1).drop_last() =~= ys.take(j as int));
                assert(ys.take(j + 1).last() == ys[j as int]);
                assert(before + j + 1 <= wlen * ylen) by (nonlinear_arith)
                    requires
                        before <= i * ylen,
                        j < ylen,
                        i < wlen,
                ;
                if your_numbers[j] == x {
                    count = count + 1;
                }
                j = j + 1;
            }
            assert(ys.take(j as int) =~= ys);
            assert(ws.take(i + 1).drop_last() =~= ws.take(i as int));
            assert(ws.take(i + 1).last() == x);
            assert(count <= (i + 1) * ylen) by (nonlinear_arith)
                requires
                    count <= before + ylen,
                    before <= i * ylen,
            ;
            i = i + 1;
        }
        assert(ws.take(i as int) =~= ws);
        Card { id, winning_numbers, your_numbers, num_matches: count }
    }
}

/// A card with `m` matches scores `2^(m-1)` points, or none without matches.
pub open spec fn points(m: int) -> int {
    if m <= 0 {
        0
    } else {
        pow2((m - 1) as nat) as int
    }
}

/// The points of a card with `num_matches` matches; `None` when they do not fit in `u64`.
pub fn card_points(num_matches: usize) -> (r: Option<u64>)
    ensures
        r is Some <==> points(num_matches as int) <= u64::MAX,
        r matches Some(p) ==> p == points(num_matches as int),
{
    if num_matches == 0 {
        return Some(0);
    }
    if num_matches > 64 {
        proof {
            lemma2_to64_rest();
            if num_matches - 1 > 64 {
                lemma_pow2_strictly_increases(64, (num_matches - 1) as nat);
            }
        }
        return None;
    }
    proof {
        lemma2_to64();
    }
    let mut p: u64 = 1;
    let mut k: usize = 0;
    while k < num_matches - 1
        invariant
            num_matches <= 64,
            0 <= k <= num_matches - 1,
            p == pow2(k as nat),
        decreases num_matches - 1 - k,
    {
        proof {
            lemma2_to64_rest();
            lemma_pow2_unfold((k + 1) as nat);
            if k + 1 < 63 {
                lemma_pow2_strictly_increases((k + 1) as nat, 63);
            }
        }
        p = p * 2;
        k = k + 1;
    }
    Some(p)
}


/// The match counts of the cards, in order.
pub open spec fn matches_of(cards: Seq<Card>) -> Seq<int> {
    cards.map_values(|c: Card| c.num_matches as int)
}

/// The points of each card.
pub open spec fn card_point_terms(cards: Seq<Card>) -> Seq<u64> {
    cards.map_values(|c: Card| points(c.num_matches as int) as u64)
}

/// The points of all cards together; an error when a card's points or the
/// sum does not fit in `u64`.
pub fn total_points(cards: &Vec<Card>) -> (r: Result<u64, GenericError>)
    ensures
        r is Ok <==> (forall|i: int| 0 <= i < cards@.len() ==> points(#[trigger] cards@[i].num_matches as int) <= u64::MAX)
            && total(card_point_terms(cards@)) <= u64::MAX,
        r matches Ok(v) ==> v == total(card_point_terms(cards@)),
        r matches Err(e) ==> e == GenericError::Overflow,
{
    let mut terms: Vec<u64> = Vec::new();
    let mut i: usize = 0;
    while i < cards.len()
        invariant
            0 <= i <= cards@.len(),
            terms@ == card_point_terms(cards@.take(i as int)),
            forall|j: int| 0 <= j < i ==> points(#[trigger] cards@[j].num_matches as int) <= u64::MAX,
        decreases cards@.len() - i,
    {
        match card_points(cards[i].num_matches) {
            Some(p) => {
                terms.push(p);
            },
            None => {
                return Err(GenericError::Overflow);
            },
        }
        assert(terms@ =~= card_point_terms(cards@.take(i + 1)));
        i = i + 1;
    }
    assert(cards@.take(i as int) =~= cards@);
    checked_total(&terms)
}

/// How many of each card one holds after the first `k` cards have handed out
/// their copies: each copy of card `c` with `m` matches wins one copy of each
/// of the `m` cards after it (those that exist).
pub open spec fn copies_after(ms: Seq<int>, k: int) -> Seq<int>
    decreases k,
{
    if k <= 0 {
        Seq::new(ms.len(), |t: int| 1int)
    } else {
        let c = copies_after(ms, k - 1);
        let src = k - 1;
        Seq::new(ms.len(), |t: int| if src < t <= src + ms[src] { c[t] + c[src] } else { c[t] })
    }
}

/// The number of cards held in the end, all copies counted.
pub open spec fn total_cards(ms: Seq<int>) -> int {
    sum_of(copies_after(ms, ms.len() as int), |x: int| x)
}

/// The number of cards held once every card has won its copies; an error when
/// a count does not fit in `u64`.
pub fn total_cards_won(cards: &Vec<Card>) -> (r: Result<u64, GenericError>)
    ensures
        r matches Ok(v) ==> v == total_cards(matches_of(cards@)),
        r matches Err(e) ==> e == GenericError::Overflow && (total_cards(matches_of(cards@)) > u64::MAX
            || exists|k: int, t: int|
            0 <= k <= cards@.len() && 0 <= t < cards@.len() && #[trigger] copies_after(matches_of(cards@), k)[t] > u64::MAX),
{
    let ghost ms = matches_of(cards@);
    let n = cards.len();
    let mut counts: Vec<u64> = Vec::new();
    let mut t: usize = 0;
    while t < n
        invariant
            n == cards@.len(),
            0 <= t <= n,
            counts@.len() == t,
            forall|u: int| 0 <= u < t ==> #[trigger] counts@[u] == 1,
        decreases n - t,
    {
        counts.push(1);
        t = t + 1;
    }
    assert(counts@.map_values(|x: u64| x as int) =~= copies_after(ms, 0));
    let mut k: usize = 0;
    while k < n
        invariant
            n == cards@.len(),
            ms == matches_of(cards@),
            0 <= k <= n,
            counts@.len() == n,
            counts@.map_values(|x: u64| x as int) == copies_after(ms, k as int),
        decreases n - k,
    {
        let ghost c = copies_after(ms, k as int);
        let here = counts[k];
        let m = cards[k].num_matches;
        assert(ms[k as int] == m);
        assert(c[k as int] == here);
        let mut t: usize = k + 1;
        while t < n && t - k <= m
            invariant
                n == cards@.len(),
                ms == matches_of(cards@),
                k < n,
                k + 1 <= t <= n,
                m == ms[k as int],
                here == c[k as int],
                c == copies_after(ms, k as int),
                counts@.len() == n,
                forall|u: int| 0 <= u < n ==> #[trigger] counts@[u] as int == if k < u < t && u <= k + m { c[u] + here } else { c[u] },
            decreases n - t,
        {
            if counts[t] > u64::MAX - here {
                assert(c[t as int] + c[k as int] > u64::MAX);
                assert(copies_after(ms, k + 1)[t as int] > u64::MAX);
                return Err(GenericError::Overflow);
            }
            counts.set(t, counts[t] + here);
            t = t + 1;
        }
        assert(counts@.map_values(|x: u64| x as int) =~= copies_after(ms, k + 1));
        k = k + 1;
    }
    let mut values: Vec<u64> = Vec::new();
    let mut i: usize = 0;
    while i < n
        invariant
            n == counts@.len(),
            0 <= i <= n,
            values@ == counts@.take(i as int),
        decreases n - i,
    {
        values.push(counts[i]);
        assert(values@ =~= counts@.take(i + 1));
        i = i + 1;
    }
    assert(values@ =~= counts@);
    let r = checked_total(&values);
    proof {
        lemma_total_as_int(counts@);
    }
    r
}

proof fn lemma_total_as_int(s: Seq<u64>)
    ensures
        total(s) == sum_of(s.map_values(|x: u64| x as int), |x: int| x),
    decreases s.len(),
{
    if s.len() > 0 {
        lemma_total_as_int(s.drop_last());
        assert(s.map_values(|x: u64| x as int).drop_last() =~= s.drop_last().map_values(|x: u64| x as int));
    }
}

} // verus!
