//! Camel cards: hands of five cards, their kinds, their order, and the
//! winnings of a list of bids.

use vstd::prelude::*;
use vstd::std_specs::iter::IteratorSpec;

use crate::error::GenericError;
use crate::sums::{checked_total, total};

verus! {

/// A card, weakest first. A jack is read as a joker when jokers are enabled.
#[derive(Debug, Clone, Copy, PartialEq, Eq, Structural)]
pub enum Card {
    Joker,
    Two,
    Three,
    Four,
    Five,
    Six,
    Seven,
    Eight,
    Nine,
    Ten,
    Jack,
    Queen,
    King,
    Ace,
}

impl Card {
    pub open spec fn strength(self) -> int {
        match self {
            Card::Joker => 0,
            Card::Two => 1,
            Card::Three => 2,
            Card::Four => 3,
            Card::Five => 4,
            Card::Six => 5,
            Card::Seven => 6,
            Card::Eight => 7,
            Card::Nine => 8,
            Card::Ten => 9,
            Card::Jack => 10,
            Card::Queen => 11,
            Card::King => 12,
            Card::Ace => 13,
        }
    }

    pub fn rank(&self) -> (r: u8)
        ensures
            r == self.strength(),
    {
        match self {
            Card::Joker => 0,
            Card::Two => 1,
            Card::Three => 2,
            Card::Four => 3,
            Card::Five => 4,
            Card::Six => 5,
            Card::Seven => 6,
            Card::Eight => 7,
            Card::Nine => 8,
            Card::Ten => 9,
            Card::Jack => 10,
            Card::Queen => 11,
            Card::King => 12,
            Card::Ace => 13,
        }
    }

    /// The card that `c` names; with `jokers`, `J` names the joker.
    pub open spec fn spec_from_char(c: char, jokers: bool) -> Option<Card> {
        if c == '2' {
            Some(Card::Two)
        } else if c == '3' {
            Some(Card::Three)
        } else if c == '4' {
            Some(Card::Four)
        } else if c == '5' {
            Some(Card::Five)
        } else if c == '6' {
            Some(Card::Six)
        } else if c == '7' {
            Some(Card::Seven)
        } else if c == '8' {
            Some(Card::Eight)
        } else if c == '9' {
            Some(Card::Nine)
        } else if c == 'T' {
            Some(Card::Ten)
        } else if c == 'J' {
            Some(if jokers { Card::Joker } else { Card::Jack })
        } else if c == 'Q' {
            Some(Card::Queen)
        } else if c == 'K' {
            Some(Card::King)
        } else if c == 'A' {
            Some(Card::Ace)
        } else {
            None
        }
    }

    pub fn from_char(c: char, jokers: bool) -> (r: Option<Card>)
        ensures
            r == Card::spec_from_char(c, jokers),
    {
        if c == '2' {
            Some(Card::Two)
        } else if c == '3' {
            Some(Card::Three)
        } else if c == '4' {
            Some(Card::Four)
        } else if c == '5' {
            Some(Card::Five)
        } else if c == '6' {
            Some(Card::Six)
        } else if c == '7' {
            Some(Card::Seven)
        } else if c == '8' {
            Some(Card::Eight)
        } else if c == '9' {
            Some(Card::Nine)
        } else if c == 'T' {
            Some(Card::Ten)
        } else if c == 'J' {
            Some(if jokers { Card::Joker } else { Card::Jack })
        } else if c == 'Q' {
            Some(Card::Queen)
        } else if c == 'K' {
            Some(Card::King)
        } else if c == 'A' {
            Some(Card::Ace)
        } else {
            None
        }
    }
}

/// The kinds of hand, weakest first.
#[derive(Debug, Clone, Copy, PartialEq, Eq, Structural)]
pub enum HandType {
    HighCard,
    OnePair,
    TwoPair,
    ThreeOfAKind,
    FullHouse,
    FourOfAKind,
    FiveOfAKind,
}

impl HandType {
    pub open spec fn strength(self) -> int {
        match self {
            HandType::HighCard => 0,
            HandType::OnePair => 1,
            HandType::TwoPair => 2,
            HandType::ThreeOfAKind => 3,
            HandType::FullHouse => 4,
            HandType::FourOfAKind => 5,
            HandType::FiveOfAKind => 6,
        }
    }

    pub fn rank(&self) -> (r: u8)
        ensures
            r == self.strength(),
    {
        match self {
            HandType::HighCard => 0,
            HandType::OnePair => 1,
            HandType::TwoPair => 2,
            HandType::ThreeOfAKind => 3,
            HandType::FullHouse => 4,
            HandType::FourOfAKind => 5,
            HandType::FiveOfAKind => 6,
        }
    }
}

/// How many of the first `n` cards equal `c`.
pub open spec fn count_of(cards: Seq<Card>, c: Card, n: int) -> int
    decreases n,
{
    if n <= 0 {
        0
    } else {
        count_of(cards, c, n - 1) + if cards[n - 1] == c { 1int } else { 0 }
    }
}

/// How many different cards other than the joker occur among the first `n`.
pub open spec fn distinct_count(cards: Seq<Card>, n: int) -> int
    decreases n,
{
    if n <= 0 {
        0
    } else {
        distinct_count(cards, n - 1) + if cards[n - 1] != Card::Joker && count_of(cards, cards[n - 1], n - 1) == 0 { 1int } else { 0 }
    }
}

/// The largest number of equal cards, jokers left out, among the first `n` positions.
pub open spec fn top_count(cards: Seq<Card>, n: int) -> int
    decreases n,
{
    if n <= 0 {
        0
    } else {
        let c = cards[n - 1];
        let here = if c != Card::Joker { count_of(cards, c, cards.len() as int) } else { 0 };
        let rest = top_count(cards, n - 1);
        if here > rest { here } else { rest }
    }
}

/// The kind of a hand, from the number of different cards other than the
/// joker and the size of the largest group once every joker has joined it.
pub open spec fn kind_of(distinct: int, largest: int) -> HandType {
    if distinct <= 1 {
        HandType::FiveOfAKind
    } else if distinct == 2 {
        if largest == 4 { HandType::FourOfAKind } else { HandType::FullHouse }
    } else if distinct == 3 {
        if largest == 3 { HandType::ThreeOfAKind } else { HandType::TwoPair }
    } else if distinct == 4 {
        HandType::OnePair
    } else {
        HandType::HighCard
    }
}

/// The kind of the five cards: jokers join the largest group of other cards.
pub open spec fn hand_kind(cards: Seq<Card>) -> HandType {
    kind_of(
        distinct_count(cards, 5),
        top_count(cards, 5) + count_of(cards, Card::Joker, 5),
    )
}

/// Five cards and their kind.
#[derive(Debug, Clone, Copy, PartialEq, Eq)]
pub struct Hand {
    pub cards: [Card; 5],
    pub hand_type: HandType,
}

fn count_exec(cards: &Vec<Card>, c: Card, n: usize) -> (r: usize)
    requires
        n <= cards@.len(),
    ensures
        r == count_of(cards@, c, n as int),
        r <= n,
{
    let mut k: usize = 0;
    let mut r: usize = 0;
    while k < n
        invariant
            n <= cards@.len(),
            0 <= k <= n,
            r == count_of(cards@, c, k as int),
            r <= k,
        decreases n - k,
    {
        if cards[k] == c {
            r = r + 1;
        }
        k = k + 1;
    }
    r
}

/// The kind of five cards.
pub fn classify(cards: &Vec<Card>) -> (r: HandType)
    requires
        cards@.len() == 5,
    ensures
        r == hand_kind(cards@),
{
    let mut distinct: usize = 0;
    let mut top: usize = 0;
    let mut k: usize = 0;
    while k < 5
        invariant
            cards@.len() == 5,
            0 <= k <= 5,
            distinct == distinct_count(cards@, k as int),
            top == top_count(cards@, k as int),
            distinct <= k,
            top <= 5,
        decreases 5 - k,
    {
        let c = cards[k];
        if c != Card::Joker {
            if count_exec(cards, c, k) == 0 {
                distinct = distinct + 1;
            }
            let here = count_exec(cards, c, 5);
            if here > top {
                top = here;
            }
        }
        k = k + 1;
    }
    let jokers = count_exec(cards, Card::Joker, 5);
    let largest = top + jokers;
    if distinct <= 1 {
        HandType::FiveOfAKind
    } else if distinct == 2 {
        if largest == 4 { HandType::FourOfAKind } else { HandType::FullHouse }
    } else if distinct == 3 {
        if largest == 3 { HandType::ThreeOfAKind } else { HandType::TwoPair }
    } else if distinct == 4 {
        HandType::OnePair
    } else {
        HandType::HighCard
    }
}

/// The cards that `s` names, one per character, or `None` when one is not a card.
pub open spec fn cards_of(s: Seq<char>, jokers: bool) -> Option<Seq<Card>>
    decreases s.len(),
{
    if s.len() == 0 {
        Some(seq![])
    } else {
        match (cards_of(s.drop_last(), jokers), Card::spec_from_char(s.last(), jokers)) {
            (Some(cs), Some(c)) => Some(cs.push(c)),
            _ => None,
        }
    }
}

/// `s` names exactly five cards.
pub open spec fn names_hand(s: Seq<char>, jokers: bool) -> bool {
    cards_of(s, jokers) is Some && cards_of(s, jokers)->0.len() == 5
}

impl Hand {
    /// Reads a hand of five card characters, jacks read as jokers when `jokers`
    /// is set.
    pub fn parse(input: &str, jokers: bool) -> (r: Result<Hand, GenericError>)
        ensures
            r matches Ok(h) ==> cards_of(input@, jokers) == Some(h.cards@) && h.hand_type == hand_kind(h.cards@),
            r is Ok <==> names_hand(input@, jokers),
            r matches Err(e) ==> e == GenericError::InvalidInput,
    {
        broadcast use vstd::string::axiom_spec_iter, vstd::string::next_postcondition;

        let ghost s = input@;
        let mut it = input.chars();
        let mut cards: Vec<Card> = Vec::new();
        let ghost mut index: int = 0;
        loop
            invariant
                s == input@,
                it.obeys_prophetic_iter_laws(),
                it.remaining() == s.skip(index),
                0 <= index <= s.len(),
                cards_of(s.take(index), jokers) == Some(cards@),
                cards@.len() == index,
                index <= 5,
            decreases s.len() - index,
        {
            match it.next() {
                None => {
                    assert(s.take(index) =~= s);
                    if cards.len() != 5 {
                        return Err(GenericError::InvalidInput);
                    }
                    let kind = classify(&cards);
                    let hand = Hand { cards: [cards[0], cards[1], cards[2], cards[3], cards[4]], hand_type: kind };
                    assert(hand.cards@ =~= cards@);
                    return Ok(hand);
                },
                Some(c) => {
                    assert(c == s[index]);
                    assert(s.take(index + 1).drop_last() =~= s.take(index));
                    assert(s.take(index + 1).last() == c);
                    match Card::from_char(c, jokers) {
                        None => {
                            proof {
                                lemma_cards_prefix_fails(s, index + 1, jokers);
                            }
                            return Err(GenericError::InvalidInput);
                        },
                        Some(card) => {
                            if cards.len() == 5 {
                                proof {
                                    lemma_cards_too_many(s, index + 1, jokers);
                                }
                                return Err(GenericError::InvalidInput);
                            }
                            cards.push(card);
                        },
                    }
                    assert(s.skip(index).drop_first() =~= s.skip(index + 1));
                    proof {
                        index = index + 1;
                    }
                },
            }
        }
    }
}

proof fn lemma_cards_prefix_fails(s: Seq<char>, n: int, jokers: bool)
    requires
        0 <= n <= s.len(),
        cards_of(s.take(n), jokers) is None,
    ensures
        cards_of(s, jokers) is None,
    decreases s.len() - n,
{
    if n < s.len() {
        assert(s.take(n + 1).drop_last() =~= s.take(n));
        lemma_cards_prefix_fails(s, n + 1, jokers);
    } else {
        assert(s.take(n) =~= s);
    }
}

proof fn lemma_cards_too_many(s: Seq<char>, n: int, jokers: bool)
    requires
        0 <= n <= s.len(),
        cards_of(s.take(n), jokers) is Some,
        cards_of(s.take(n), jokers)->0.len() > 5,
    ensures
        !names_hand(s, jokers),
    decreases s.len() - n,
{
    if n < s.len() {
        assert(s.take(n + 1).drop_last() =~= s.take(n));
        if cards_of(s.take(n + 1), jokers) is None {
            lemma_cards_prefix_fails(s, n + 1, jokers);
        } else {
            lemma_cards_too_many(s, n + 1, jokers);
        }
    } else {
        assert(s.take(n) =~= s);
    }
}


/// `x` loses to `y` at the first position, from `i` on, where their cards differ.
pub open spec fn cards_less(x: Seq<Card>, y: Seq<Card>, i: int) -> bool
    decreases 5 - i,
{
    if i >= 5 || i < 0 {
        false
    } else if x[i].strength() != y[i].strength() {
        x[i].strength() < y[i].strength()
    } else {
        cards_less(x, y, i + 1)
    }
}

proof fn lemma_cards_not_less_self(x: Seq<Card>, i: int)
    ensures
        !cards_less(x, x, i),
    decreases 5 - i,
{
    if 0 <= i < 5 {
        lemma_cards_not_less_self(x, i + 1);
    }
}

/// `a` is weaker than `b`: a weaker kind, or the same kind and a weaker card
/// at the first position where they differ.
pub open spec fn hand_less(a: Hand, b: Hand) -> bool {
    ||| a.hand_type.strength() < b.hand_type.strength()
    ||| a.hand_type.strength() == b.hand_type.strength() && cards_less(a.cards@, b.cards@, 0)
}

impl Hand {
    pub fn is_weaker_than(&self, other: &Hand) -> (r: bool)
        ensures
            r == hand_less(*self, *other),
    {
        let a = self.hand_type.rank();
        let b = other.hand_type.rank();
        if a != b {
            return a < b;
        }
        let mut i: usize = 0;
        while i < 5
            invariant
                0 <= i <= 5,
                hand_less(*self, *other) == cards_less(self.cards@, other.cards@, i as int),
                a == b,
                a == self.hand_type.strength(),
                b == other.hand_type.strength(),
            decreases 5 - i,
        {
            let x = self.cards[i].rank();
            let y = other.cards[i].rank();
            if x != y {
                return x < y;
            }
            i = i + 1;
        }
        false
    }
}

/// Hand `j` comes before hand `i` once the hands are sorted from weakest to
/// strongest, equal hands kept in their given order.
pub open spec fn ranks_below(hands: Seq<(Hand, usize)>, i: int, j: int) -> bool {
    ||| hand_less(hands[j].0, hands[i].0)
    ||| j < i && !hand_less(hands[i].0, hands[j].0) && !hand_less(hands[j].0, hands[i].0)
}

/// How many of the first `n` hands come before hand `i`.
pub open spec fn below_count(hands: Seq<(Hand, usize)>, i: int, n: int) -> int
    decreases n,
{
    if n <= 0 {
        0
    } else {
        below_count(hands, i, n - 1) + if ranks_below(hands, i, n - 1) { 1int } else { 0 }
    }
}

/// Each hand's bid times its rank, the weakest hand ranking 1.
pub open spec fn winnings_terms(hands: Seq<(Hand, usize)>) -> Seq<int> {
    Seq::new(hands.len(), |i: int| (below_count(hands, i, hands.len() as int) + 1) * hands[i].1)
}

/// The total winnings: each hand's bid times its rank from weakest to
/// strongest, equal hands ranked in their given order. An error when a term
/// or the sum does not fit in `u64`.
pub fn total_winnings(hands: &Vec<(Hand, usize)>) -> (r: Result<u64, GenericError>)
    ensures
        r is Ok <==> (forall|i: int| 0 <= i < hands@.len() ==> #[trigger] winnings_terms(hands@)[i] <= u64::MAX)
            && total(winnings_terms(hands@).map_values(|t: int| t as u64)) <= u64::MAX,
        r matches Ok(v) ==> v == total(winnings_terms(hands@).map_values(|t: int| t as u64)),
        r matches Err(e) ==> e == GenericError::Overflow,
{
    let ghost hs = hands@;
    let n = hands.len();
    let mut terms: Vec<u64> = Vec::new();
    let mut i: usize = 0;
    while i < n
        invariant
            n == hs.len(),
            hs == hands@,
            0 <= i <= n,
            terms@ == winnings_terms(hs).take(i as int).map_values(|t: int| t as u64),
            forall|j: int| 0 <= j < i ==> #[trigger] winnings_terms(hs)[j] <= u64::MAX,
        decreases n - i,
    {
        let mine = &hands[i].0;
        let mut below: usize = 0;
        let mut j: usize = 0;
        while j < n
            invariant
                n == hs.len(),
                hs == hands@,
                i < n,
                *mine == hs[i as int].0,
                0 <= j <= n,
                below == below_count(hs, i as int, j as int),
                below <= j,
                j > i ==> below < j,
            decreases n - j,
        {
            proof {
                lemma_cards_not_less_self(hs[i as int].0.cards@, 0);
            }
            let theirs = &hands[j].0;
            let weaker = theirs.is_weaker_than(mine);
            let stronger = mine.is_weaker_than(theirs);
            if weaker || (j < i && !weaker && !stronger) {
                below = below + 1;
            }
            j = j + 1;
        }
        let ghost term = winnings_terms(hs)[i as int];
        assert(term == (below + 1) * hs[i as int].1);
        match ((below as u64) + 1).checked_mul(hands[i].1 as u64) {
            Some(t) => {
                terms.push(t);
            },
            None => {
                return Err(GenericError::Overflow);
            },
        }
        assert(terms@ =~= winnings_terms(hs).take(i + 1).map_values(|t: int| t as u64));
        i = i + 1;
    }
    assert(winnings_terms(hs).take(i as int) =~= winnings_terms(hs));
    checked_total(&terms)
}

} // verus!
