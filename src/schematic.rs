//! Engine schematic rows: numbers and symbols found on one line of a grid,
//! and the adjacency rules between them.

use std::str::FromStr;
use vstd::prelude::*;
use vstd::std_specs::iter::IteratorSpec;
use vstd::string::StringSliceAdditionalSpecFns;

use crate::error::GenericError;
use crate::sums::{lemma_sum_nonneg, lemma_sum_of_prefix, sum_of};

verus! {

/// A run of digits: its value and the indices of its first and last digit.
#[derive(Debug, Clone, Copy, PartialEq, Eq, Structural)]
pub struct Number {
    pub value: u32,
    pub start_index: i64,
    pub end_index: i64,
}

impl Number {
    pub fn new(value: u32, start_index: i64, end_index: i64) -> (r: Number)
        ensures
            r == (Number { value, start_index, end_index }),
    {
        Number { value, start_index, end_index }
    }

    /// `index` touches the number, diagonals included.
    pub open spec fn adjacent(self, index: int) -> bool {
        self.start_index - 1 <= index <= self.end_index + 1
    }

    pub fn is_index_adjacent(&self, index: i64) -> (r: bool)
        ensures
            r == self.adjacent(index as int),
    {
        index as i128 >= self.start_index as i128 - 1 && index as i128 <= self.end_index as i128 + 1
    }
}

/// A character other than a digit or `.`, and its index.
#[derive(Debug, Clone, Copy, PartialEq, Eq, Structural)]
pub struct Symbol {
    pub value: char,
    pub index: i64,
}

impl Symbol {
    pub fn new(value: char, index: i64) -> (r: Symbol)
        ensures
            r == (Symbol { value, index }),
    {
        Symbol { value, index }
    }
}

pub open spec fn is_digit_char(c: char) -> bool {
    '0' <= c <= '9'
}

pub open spec fn digit_of(c: char) -> int {
    c as int - '0' as int
}

/// The numbers and symbols of a line, left to right; `None` when a number's
/// value does not fit in `u32`.
pub open spec fn scan(s: Seq<char>) -> Option<(Seq<Number>, Seq<Symbol>)>
    decreases s.len(),
{
    if s.len() == 0 {
        Some((seq![], seq![]))
    } else {
        match scan(s.drop_last()) {
            None => None,
            Some((ns, ss)) => {
                let i = s.len() - 1;
                let c = s.last();
                if c == '.' {
                    Some((ns, ss))
                } else if is_digit_char(c) {
                    if i > 0 && is_digit_char(s[i - 1]) {
                        let prev = ns.last();
                        let v = prev.value * 10 + digit_of(c);
                        if v > u32::MAX {
                            None
                        } else {
                            Some(
                                (
                                    ns.update(
                                        ns.len() - 1,
                                        Number {
                                            value: v as u32,
                                            start_index: prev.start_index,
                                            end_index: i as i64,
                                        },
                                    ),
                                    ss,
                                ),
                            )
                        }
                    } else {
                        Some(
                            (
                                ns.push(
                                    Number {
                                        value: digit_of(c) as u32,
                                        start_index: i as i64,
                                        end_index: i as i64,
                                    },
                                ),
                                ss,
                            ),
                        )
                    }
                } else {
                    Some((ns, ss.push(Symbol { value: c, index: i as i64 })))
                }
            },
        }
    }
}

/// A string has at least as many bytes as characters.
proof fn lemma_chars_within_bytes(chars: Seq<char>)
    ensures
        chars.len() <= vstd::utf8::encode_utf8(chars).len(),
    decreases chars.len(),
{
    if chars.len() > 0 {
        lemma_chars_within_bytes(chars.drop_first());
        assert(vstd::utf8::encode_scalar(chars[0] as u32).len() >= 1);
    }
}

/// A line whose start cannot be read cannot be read as a whole.
proof fn lemma_scan_prefix_fails(s: Seq<char>, n: int)
    requires
        0 <= n <= s.len(),
        scan(s.take(n)) is None,
    ensures
        scan(s) is None,
    decreases s.len() - n,
{
    if n < s.len() {
        assert(s.take(n + 1).drop_last() =~= s.take(n));
        lemma_scan_prefix_fails(s, n + 1);
    } else {
        assert(s.take(n) =~= s);
    }
}

/// The numbers of `ns` that `index` touches, in order.
pub open spec fn adjacent_numbers(ns: Seq<Number>, index: int) -> Seq<Number>
    decreases ns.len(),
{
    if ns.len() == 0 {
        seq![]
    } else if ns.last().adjacent(index) {
        adjacent_numbers(ns.drop_last(), index).push(ns.last())
    } else {
        adjacent_numbers(ns.drop_last(), index)
    }
}

/// One line of the schematic.
#[derive(Debug, PartialEq)]
pub struct Row {
    pub numbers: Vec<Number>,
    pub symbols: Vec<Symbol>,
}

impl Row {
    pub fn new() -> (r: Row)
        ensures
            r.numbers@.len() == 0,
            r.symbols@.len() == 0,
    {
        Row { numbers: Vec::new(), symbols: Vec::new() }
    }

    /// Some symbol of this row touches `number`.
    pub open spec fn touches(&self, number: Number) -> bool {
        exists|j: int| 0 <= j < self.symbols@.len() && number.adjacent(#[trigger] self.symbols@[j].index as int)
    }

    pub fn is_number_adjacent_to_symbol(&self, number: &Number) -> (r: bool)
        ensures
            r == self.touches(*number),
    {
        let mut j: usize = 0;
        while j < self.symbols.len()
            invariant
                0 <= j <= self.symbols@.len(),
                forall|t: int| 0 <= t < j ==> !number.adjacent(#[trigger] self.symbols@[t].index as int),
            decreases self.symbols@.len() - j,
        {
            if number.is_index_adjacent(self.symbols[j].index) {
                return true;
            }
            j = j + 1;
        }
        false
    }

    /// Appends to `output` the numbers of this row that `symbol` touches, in order.
    pub fn collect_numbers_symbol_is_adjacent_to(&self, symbol: &Symbol, output: &mut Vec<Number>)
        ensures
            final(output)@ == old(output)@ + adjacent_numbers(self.numbers@, symbol.index as int),
    {
        let ghost start = output@;
        let mut j: usize = 0;
        while j < self.numbers.len()
            invariant
                0 <= j <= self.numbers@.len(),
                output@ == start + adjacent_numbers(self.numbers@.take(j as int), symbol.index as int),
            decreases self.numbers@.len() - j,
        {
            let n = self.numbers[j];
            assert(self.numbers@.take(j + 1).drop_last() =~= self.numbers@.take(j as int));
            assert(self.numbers@.take(j + 1).last() == n);
            if n.is_index_adjacent(symbol.index) {
                output.push(n);
            }
            assert(output@ =~= start + adjacent_numbers(self.numbers@.take(j + 1), symbol.index as int));
            j = j + 1;
        }
        assert(self.numbers@.take(j as int) =~= self.numbers@);
    }

    /// Reads a line: each maximal run of digits is a number, `.` is empty
    /// space, and any other character is a symbol. Fails when a number does
    /// not fit in `u32`.
    pub fn parse(line: &str) -> (r: Result<Row, GenericError>)
        requires
            line@.len() <= i64::MAX,
        ensures
            scan(line@) is None ==> r == Err::<Row, GenericError>(GenericError::InvalidInput),
            scan(line@) matches Some((ns, ss)) ==> r matches Ok(row) && row.numbers@ == ns
                && row.symbols@ == ss,
    {
        broadcast use vstd::string::axiom_spec_iter, vstd::string::next_postcondition;

        let ghost s = line@;
        let mut it = line.chars();
        let mut output = Row::new();
        let mut index: u64 = 0;
        let mut last_was_digit = false;
        assert(s.take(0) =~= Seq::<char>::empty());
        loop
            invariant
                s == line@,
                s.len() <= i64::MAX,
                it.obeys_prophetic_iter_laws(),
                it.remaining() == s.skip(index as int),
                0 <= index <= s.len(),
                scan(s.take(index as int)) == Some((output.numbers@, output.symbols@)),
                last_was_digit == (index > 0 && is_digit_char(s[index - 1])),
                last_was_digit ==> output.numbers@.len() > 0,
            decreases s.len() - index,
        {
            let ghost before = it.remaining();
            let next = it.next();
            match next {
                None => {
                    assert(s.take(index as int) =~= s);
                    return Ok(output);
                },
                Some(c) => {
                    let ghost t = s.take(index + 1);
                    assert(c == s[index as int]);
                    assert(index < s.len());
                    assert(t.drop_last() =~= s.take(index as int));
                    assert(t.last() == c);
                    if c == '.' {
                        last_was_digit = false;
                    } else if c >= '0' && c <= '9' {
                        let d = (c as u32) - ('0' as u32);
                        if last_was_digit {
                            let k = output.numbers.len() - 1;
                            let prev = output.numbers[k];
                            assert(t[index - 1] == s[index - 1]);
                            assert(output.numbers@.last() == prev);
                            if prev.value > (u32::MAX - d) / 10 {
                                assert(prev.value * 10 + d > u32::MAX) by (nonlinear_arith)
                                    requires
                                        prev.value > (u32::MAX - d) / 10,
                                        d <= 9,
                                ;
                                proof {
                                    lemma_scan_prefix_fails(s, index + 1);
                                }
                                return Err(GenericError::InvalidInput);
                            }
                            let updated = Number::new(prev.value * 10 + d, prev.start_index, index as i64);
                            output.numbers.set(k, updated);
                        } else {
                            output.numbers.push(Number::new(d, index as i64, index as i64));
                        }
                        last_was_digit = true;
                    } else {
                        output.symbols.push(Symbol::new(c, index as i64));
                        last_was_digit = false;
                    }
                    assert(s.skip(index as int).drop_first() =~= s.skip(index + 1));
                    index = index + 1;
                },
            }
        }
    }
}

/// A number of row `r` that touches a symbol in row `r - 1`, `r` or `r + 1`.
pub open spec fn is_part(rows: Seq<Row>, r: int, number: Number) -> bool {
    ||| r > 0 && rows[r - 1].touches(number)
    ||| rows[r].touches(number)
    ||| r + 1 < rows.len() && rows[r + 1].touches(number)
}

pub open spec fn part_weight(rows: Seq<Row>, r: int) -> spec_fn(Number) -> int {
    |n: Number| if is_part(rows, r, n) { n.value as int } else { 0 }
}

/// The sum of the part numbers of row `r`.
pub open spec fn row_part_sum(rows: Seq<Row>, r: int) -> int {
    sum_of(rows[r].numbers@, part_weight(rows, r))
}

/// The sum of all part numbers of the grid.
pub open spec fn part_total(rows: Seq<Row>) -> int {
    sum_of(Seq::new(rows.len(), |r: int| row_part_sum(rows, r)), |x: int| x)
}

/// The numbers that a symbol of row `r` at `index` touches, from the row above,
/// the same row and the row below, in that order.
pub open spec fn gear_candidates(rows: Seq<Row>, r: int, index: int) -> Seq<Number> {
    (if r > 0 { adjacent_numbers(rows[r - 1].numbers@, index) } else { seq![] })
        + adjacent_numbers(rows[r].numbers@, index)
        + (if r + 1 < rows.len() { adjacent_numbers(rows[r + 1].numbers@, index) } else { seq![] })
}

/// A `*` that touches exactly two numbers weighs their product.
pub open spec fn gear_weight(rows: Seq<Row>, r: int) -> spec_fn(Symbol) -> int {
    |s: Symbol|
        if s.value == '*' && gear_candidates(rows, r, s.index as int).len() == 2 {
            gear_candidates(rows, r, s.index as int)[0].value as int * gear_candidates(
                rows,
                r,
                s.index as int,
            )[1].value as int
        } else {
            0
        }
}

pub open spec fn row_gear_sum(rows: Seq<Row>, r: int) -> int {
    sum_of(rows[r].symbols@, gear_weight(rows, r))
}

/// The sum of all gear ratios of the grid.
pub open spec fn gear_total(rows: Seq<Row>) -> int {
    sum_of(Seq::new(rows.len(), |r: int| row_gear_sum(rows, r)), |x: int| x)
}

proof fn lemma_rows_prefix(rows_sums: Seq<int>, r: int)
    requires
        0 <= r < rows_sums.len(),
        forall|i: int| 0 <= i < rows_sums.len() ==> #[trigger] rows_sums[i] >= 0,
    ensures
        sum_of(rows_sums.take(r + 1), |x: int| x) == sum_of(rows_sums.take(r), |x: int| x) + rows_sums[r],
        sum_of(rows_sums.take(r + 1), |x: int| x) <= sum_of(rows_sums, |x: int| x),
    decreases rows_sums.len() - r,
{
    assert(rows_sums.take(r + 1).drop_last() =~= rows_sums.take(r));
    if r + 1 < rows_sums.len() {
        lemma_rows_prefix(rows_sums, r + 1);
    } else {
        assert(rows_sums.take(r + 1) =~= rows_sums);
    }
}

proof fn lemma_part_sums_nonneg(rows: Seq<Row>)
    ensures
        forall|x: Number, r: int| #[trigger] part_weight(rows, r)(x) >= 0,
        forall|i: int| 0 <= i < rows.len() ==> #[trigger] row_part_sum(rows, i) >= 0,
{
    assert forall|i: int| 0 <= i < rows.len() implies #[trigger] row_part_sum(rows, i) >= 0 by {
        lemma_sum_nonneg(rows[i].numbers@, part_weight(rows, i));
    }
}

proof fn lemma_gear_weight_nonneg(rows: Seq<Row>, r: int)
    ensures
        forall|x: Symbol| #[trigger] gear_weight(rows, r)(x) >= 0,
{
    assert forall|x: Symbol| #[trigger] gear_weight(rows, r)(x) >= 0 by {
        let c = gear_candidates(rows, r, x.index as int);
        if x.value == '*' && c.len() == 2 {
            assert(c[0].value as int * c[1].value as int >= 0) by (nonlinear_arith);
        }
    }
}

proof fn lemma_gear_sums_nonneg(rows: Seq<Row>)
    ensures
        forall|i: int| 0 <= i < rows.len() ==> #[trigger] row_gear_sum(rows, i) >= 0,
{
    assert forall|i: int| 0 <= i < rows.len() implies #[trigger] row_gear_sum(rows, i) >= 0 by {
        lemma_gear_weight_nonneg(rows, i);
        lemma_sum_nonneg(rows[i].symbols@, gear_weight(rows, i));
    }
}

/// The sum of the numbers that touch a symbol in their own row or in a row
/// next to it; an error when it does not fit in `u64`.
pub fn sum_part_numbers(rows: &Vec<Row>) -> (r: Result<u64, GenericError>)
    ensures
        r is Ok <==> part_total(rows@) <= u64::MAX,
        r matches Ok(v) ==> v == part_total(rows@),
        r matches Err(e) ==> e == GenericError::Overflow,
{
    let ghost sums = Seq::new(rows@.len(), |r: int| row_part_sum(rows@, r));
    let n_rows = rows.len();
    let mut total: u64 = 0;
    let mut r: usize = 0;
    while r < n_rows
        invariant
            n_rows == rows@.len(),
            sums == Seq::new(rows@.len(), |r: int| row_part_sum(rows@, r)),
            0 <= r <= rows@.len(),
            total == sum_of(sums.take(r as int), |x: int| x),
        decreases rows@.len() - r,
    {
        let ghost w = part_weight(rows@, r as int);
        let row = &rows[r];
        let mut j: usize = 0;
        while j < row.numbers.len()
            invariant
                row == rows@[r as int],
                n_rows == rows@.len(),
                r < rows@.len(),
                w == part_weight(rows@, r as int),
                sums == Seq::new(rows@.len(), |r: int| row_part_sum(rows@, r)),
                0 <= j <= row.numbers@.len(),
                total == sum_of(sums.take(r as int), |x: int| x) + sum_of(row.numbers@.take(j as int), w),
            decreases row.numbers@.len() - j,
        {
            let n = row.numbers[j];
            assert(row.numbers@.take(j + 1).drop_last() =~= row.numbers@.take(j as int));
            assert(row.numbers@.take(j + 1).last() == n);
            let above = r > 0 && rows[r - 1].is_number_adjacent_to_symbol(&n);
            let part = above || row.is_number_adjacent_to_symbol(&n) || (r + 1 < n_rows
                && rows[r + 1].is_number_adjacent_to_symbol(&n));
            assert(part == is_part(rows@, r as int, n));
            if part {
                if total > u64::MAX - n.value as u64 {
                    proof {
                        lemma_part_sums_nonneg(rows@);
                        lemma_sum_of_prefix(row.numbers@, w, j + 1);
                        lemma_rows_prefix(sums, r as int);
                    }
                    return Err(GenericError::Overflow);
                }
                total = total + n.value as u64;
            }
            j = j + 1;
        }
        proof {
            assert(row.numbers@.take(j as int) =~= row.numbers@);
            lemma_part_sums_nonneg(rows@);
            lemma_rows_prefix(sums, r as int);
        }
        r = r + 1;
    }
    assert(sums.take(r as int) =~= sums);
    Ok(total)
}

/// The sum of the gear ratios: for each `*` that touches exactly two numbers
/// (in its own row or a row next to it), their product. An error when the sum
/// does not fit in `u64`.
pub fn sum_gear_ratios(rows: &Vec<Row>) -> (r: Result<u64, GenericError>)
    ensures
        r is Ok <==> gear_total(rows@) <= u64::MAX,
        r matches Ok(v) ==> v == gear_total(rows@),
        r matches Err(e) ==> e == GenericError::Overflow,
{
    let ghost sums = Seq::new(rows@.len(), |r: int| row_gear_sum(rows@, r));
    let n_rows = rows.len();
    let mut total: u64 = 0;
    let mut r: usize = 0;
    while r < n_rows
        invariant
            n_rows == rows@.len(),
            sums == Seq::new(rows@.len(), |r: int| row_gear_sum(rows@, r)),
            0 <= r <= rows@.len(),
            total == sum_of(sums.take(r as int), |x: int| x),
        decreases rows@.len() - r,
    {
        let ghost w = gear_weight(rows@, r as int);
        let row = &rows[r];
        proof {
            lemma_gear_weight_nonneg(rows@, r as int);
        }
        let mut j: usize = 0;
        while j < row.symbols.len()
            invariant
                row == rows@[r as int],
                n_rows == rows@.len(),
                r < rows@.len(),
                w == gear_weight(rows@, r as int),
                forall|x: Symbol| #[trigger] w(x) >= 0,
                sums == Seq::new(rows@.len(), |r: int| row_gear_sum(rows@, r)),
                0 <= j <= row.symbols@.len(),
                total == sum_of(sums.take(r as int), |x: int| x) + sum_of(row.symbols@.take(j as int), w),
            decreases row.symbols@.len() - j,
        {
            let symbol = row.symbols[j];
            assert(row.symbols@.take(j + 1).drop_last() =~= row.symbols@.take(j as int));
            assert(row.symbols@.take(j + 1).last() == symbol);
            if symbol.value == '*' {
                let mut near: Vec<Number> = Vec::new();
                if r > 0 {
                    rows[r - 1].collect_numbers_symbol_is_adjacent_to(&symbol, &mut near);
                }
                row.collect_numbers_symbol_is_adjacent_to(&symbol, &mut near);
                if r + 1 < n_rows {
                    rows[r + 1].collect_numbers_symbol_is_adjacent_to(&symbol, &mut near);
                }
                assert(near@ =~= gear_candidates(rows@, r as int, symbol.index as int));
                if near.len() == 2 {
                    let a = near[0].value as u64;
                    let b = near[1].value as u64;
                    assert(a * b <= u32::MAX as u64 * u32::MAX as u64) by (nonlinear_arith)
                        requires
                            a <= u32::MAX,
                            b <= u32::MAX,
                    ;
                    let ratio = a * b;
                    if total > u64::MAX - ratio {
                        proof {
                            lemma_gear_sums_nonneg(rows@);
                            lemma_sum_of_prefix(row.symbols@, w, j + 1);
                            lemma_rows_prefix(sums, r as int);
                        }
                        return Err(GenericError::Overflow);
                    }
                    total = total + ratio;
                }
            }
            j = j + 1;
        }
        proof {
            assert(row.symbols@.take(j as int) =~= row.symbols@);
            lemma_gear_sums_nonneg(rows@);
            lemma_rows_prefix(sums, r as int);
        }
        r = r + 1;
    }
    assert(sums.take(r as int) =~= sums);
    Ok(total)
}

impl FromStr for Row {
    type Err = GenericError;

    fn from_str(input: &str) -> Result<Row, GenericError> {
        let n = input.as_bytes().len();
        if n as u64 > i64::MAX as u64 {
            return Err(GenericError::InvalidInput);
        }
        proof {
            lemma_chars_within_bytes(input@);
            assert(input.spec_bytes() == vstd::utf8::encode_utf8(input@));
            assert(n == input.spec_bytes().len());
        }
        Row::parse(input)
    }
}

} // verus!
