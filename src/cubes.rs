//! Cube games: draws of red, green and blue cubes from a bag.

use vstd::prelude::*;

use crate::error::GenericError;
use crate::sums::{checked_total, total};

verus! {

/// The number of red, green and blue cubes shown in one draw.
#[derive(Debug, Clone, Copy, PartialEq, Eq, Structural)]
pub struct Draw {
    pub r: usize,
    pub g: usize,
    pub b: usize,
}

impl Draw {
    /// The product of the three counts.
    pub fn power(&self) -> (p: usize)
        requires
            self.r * self.g <= usize::MAX,
            self.r * self.g * self.b <= usize::MAX,
        ensures
            p == self.r * self.g * self.b,
    {
        self.r * self.g * self.b
    }
}

/// A draw that a bag of 12 red, 13 green and 14 blue cubes could give.
pub open spec fn valid_draw(d: Draw) -> bool {
    d.r <= 12 && d.g <= 13 && d.b <= 14
}

pub fn is_valid_draw_for_part_1(draw: &Draw) -> (r: bool)
    ensures
        r == valid_draw(*draw),
{
    draw.r <= 12 && draw.g <= 13 && draw.b <= 14
}

pub open spec fn all_valid(draws: Seq<Draw>) -> bool {
    forall|i: int| 0 <= i < draws.len() ==> valid_draw(#[trigger] draws[i])
}

/// The fewest cubes of each colour that make every draw possible.
pub open spec fn fewest(draws: Seq<Draw>) -> Draw
    decreases draws.len(),
{
    if draws.len() == 0 {
        Draw { r: 0, g: 0, b: 0 }
    } else {
        let f = fewest(draws.drop_last());
        let d = draws.last();
        Draw {
            r: if d.r > f.r { d.r } else { f.r },
            g: if d.g > f.g { d.g } else { f.g },
            b: if d.b > f.b { d.b } else { f.b },
        }
    }
}

/// Every draw of a game is possible.
pub fn game_is_possible(draws: &Vec<Draw>) -> (r: bool)
    ensures
        r == all_valid(draws@),
{
    let mut i: usize = 0;
    while i < draws.len()
        invariant
            0 <= i <= draws@.len(),
            forall|j: int| 0 <= j < i ==> valid_draw(#[trigger] draws@[j]),
        decreases draws@.len() - i,
    {
        if !is_valid_draw_for_part_1(&draws[i]) {
            return false;
        }
        i = i + 1;
    }
    true
}

/// The componentwise largest counts over the draws of a game.
pub fn fewest_cubes(draws: &Vec<Draw>) -> (r: Draw)
    ensures
        r == fewest(draws@),
{
    let mut best = Draw { r: 0, g: 0, b: 0 };
    let mut i: usize = 0;
    while i < draws.len()
        invariant
            0 <= i <= draws@.len(),
            best == fewest(draws@.take(i as int)),
        decreases draws@.len() - i,
    {
        let d = draws[i];
        assert(draws@.take(i + 1).drop_last() =~= draws@.take(i as int));
        assert(draws@.take(i + 1).last() == d);
        best = Draw {
            r: if d.r > best.r { d.r } else { best.r },
            g: if d.g > best.g { d.g } else { best.g },
            b: if d.b > best.b { d.b } else { best.b },
        };
        i = i + 1;
    }
    assert(draws@.take(i as int) =~= draws@);
    best
}

/// The id of each game whose draws are all possible, zero for the others.
pub open spec fn possible_ids(games: Seq<(usize, Vec<Draw>)>) -> Seq<u64> {
    games.map_values(|g: (usize, Vec<Draw>)| if all_valid(g.1@) { g.0 as u64 } else { 0 })
}

/// The sum of the ids of the games whose draws are all possible.
pub fn sum_possible_game_ids(games: &Vec<(usize, Vec<Draw>)>) -> (r: Result<u64, GenericError>)
    ensures
        r is Ok <==> total(possible_ids(games@)) <= u64::MAX,
        r matches Ok(v) ==> v == total(possible_ids(games@)),
        r matches Err(e) ==> e == GenericError::Overflow,
{
    let mut terms: Vec<u64> = Vec::new();
    let mut i: usize = 0;
    while i < games.len()
        invariant
            0 <= i <= games@.len(),
            terms@ == possible_ids(games@.take(i as int)),
        decreases games@.len() - i,
    {
        let game = &games[i];
        let term: u64 = if game_is_possible(&game.1) { game.0 as u64 } else { 0 };
        terms.push(term);
        assert(terms@ =~= possible_ids(games@.take(i + 1)));
        i = i + 1;
    }
    assert(games@.take(i as int) =~= games@);
    checked_total(&terms)
}

pub open spec fn power_of(d: Draw) -> int {
    d.r * d.g * d.b
}

/// The power of `d`, or `None` when it does not fit in `u64`.
fn checked_power(d: &Draw) -> (r: Option<u64>)
    ensures
        r matches Some(p) ==> p == power_of(*d),
        r is None <==> power_of(*d) > u64::MAX,
{
    if d.b == 0 {
        assert(power_of(*d) == 0) by (nonlinear_arith)
            requires
                d.b == 0,
                power_of(*d) == d.r * d.g * d.b,
        ;
        return Some(0);
    }
    match (d.r as u64).checked_mul(d.g as u64) {
        Some(x) => {
            let p = x.checked_mul(d.b as u64);
            assert(power_of(*d) == x * d.b);
            p
        },
        None => {
            assert(power_of(*d) > u64::MAX) by (nonlinear_arith)
                requires
                    d.r * d.g > u64::MAX,
                    d.b > 0,
                    power_of(*d) == d.r * d.g * d.b,
            ;
            None
        },
    }
}

/// The power of the fewest cubes of each game.
pub open spec fn game_powers(games: Seq<Vec<Draw>>) -> Seq<int> {
    games.map_values(|g: Vec<Draw>| power_of(fewest(g@)))
}

/// The sum over the games of the power of their fewest cubes; an error when
/// a power or the sum does not fit in `u64`.
pub fn sum_of_powers(games: &Vec<Vec<Draw>>) -> (r: Result<u64, GenericError>)
    ensures
        r is Ok <==> (forall|i: int| 0 <= i < games@.len() ==> #[trigger] game_powers(games@)[i] <= u64::MAX)
            && total(game_powers(games@).map_values(|p: int| p as u64)) <= u64::MAX,
        r matches Ok(v) ==> v == total(game_powers(games@).map_values(|p: int| p as u64)),
        r matches Err(e) ==> e == GenericError::Overflow,
{
    let mut terms: Vec<u64> = Vec::new();
    let mut i: usize = 0;
    while i < games.len()
        invariant
            0 <= i <= games@.len(),
            terms@ == game_powers(games@.take(i as int)).map_values(|p: int| p as u64),
            forall|j: int| 0 <= j < i ==> #[trigger] game_powers(games@)[j] <= u64::MAX,
        decreases games@.len() - i,
    {
        let f = fewest_cubes(&games[i]);
        assert(game_powers(games@)[i as int] == power_of(f));
        match checked_power(&f) {
            Some(p) => {
                terms.push(p);
            },
            None => {
                return Err(GenericError::Overflow);
            },
        }
        assert(terms@ =~= game_powers(games@.take(i + 1)).map_values(|p: int| p as u64));
        i = i + 1;
    }
    assert(games@.take(i as int) =~= games@);
    checked_total(&terms)
}

} // verus!
