//! Lists of unsigned decimal numbers separated by whitespace.

use vstd::prelude::*;
use vstd::std_specs::iter::IteratorSpec;

use crate::error::GenericError;

verus! {

pub open spec fn is_space(c: char) -> bool {
    c == ' ' || c == '\t' || c == '\n' || c == '\r'
}

pub open spec fn is_decimal(c: char) -> bool {
    '0' <= c <= '9'
}

/// The numbers read so far from `s`, and whether `s` ends inside a number;
/// `None` when `s` holds a character that is neither a digit nor whitespace,
/// or a number that does not fit in `usize`.
pub open spec fn scan_numbers(s: Seq<char>) -> Option<(Seq<usize>, bool)>
    decreases s.len(),
{
    if s.len() == 0 {
        Some((seq![], false))
    } else {
        match scan_numbers(s.drop_last()) {
            None => None,
            Some((ns, inside)) => {
                let c = s.last();
                if is_space(c) {
                    Some((ns, false))
                } else if !is_decimal(c) {
                    None
                } else if inside {
                    let v = ns.last() * 10 + (c as int - '0' as int);
                    if v > usize::MAX {
                        None
                    } else {
                        Some((ns.update(ns.len() - 1, v as usize), true))
                    }
                } else {
                    Some((ns.push((c as int - '0' as int) as usize), true))
                }
            },
        }
    }
}

/// The numbers that `s` holds, when it can be read.
pub open spec fn numbers_of(s: Seq<char>) -> Seq<usize> {
    match scan_numbers(s) {
        Some((ns, _)) => ns,
        None => seq![],
    }
}

proof fn lemma_scan_numbers_prefix(s: Seq<char>, n: int)
    requires
        0 <= n <= s.len(),
        scan_numbers(s.take(n)) is None,
    ensures
        scan_numbers(s) is None,
    decreases s.len() - n,
{
    if n < s.len() {
        assert(s.take(n + 1).drop_last() =~= s.take(n));
        lemma_scan_numbers_prefix(s, n + 1);
    } else {
        assert(s.take(n) =~= s);
    }
}

/// Reads the whitespace-separated decimal numbers of `text`, in order.
pub fn parse_numbers(text: &str) -> (r: Result<Vec<usize>, GenericError>)
    ensures
        scan_numbers(text@) is None ==> r == Err::<Vec<usize>, GenericError>(GenericError::InvalidInput),
        scan_numbers(text@) is Some ==> r is Ok && r->Ok_0@ == numbers_of(text@),
{
    broadcast use vstd::string::axiom_spec_iter, vstd::string::next_postcondition;

    let ghost s = text@;
    let mut it = text.chars();
    let mut numbers: Vec<usize> = Vec::new();
    let mut inside = false;
    let ghost mut index: int = 0;
    loop
        invariant
            s == text@,
            it.obeys_prophetic_iter_laws(),
            it.remaining() == s.skip(index),
            0 <= index <= s.len(),
            scan_numbers(s.take(index)) == Some((numbers@, inside)),
            inside ==> numbers@.len() > 0,
        decreases s.len() - index,
    {
        match it.next() {
            None => {
                assert(s.take(index) =~= s);
                return Ok(numbers);
            },
            Some(c) => {
                assert(c == s[index]);
                assert(s.take(index + 1).drop_last() =~= s.take(index));
                assert(s.take(index + 1).last() == c);
                if c == ' ' || c == '\t' || c == '\n' || c == '\r' {
                    inside = false;
                } else if c >= '0' && c <= '9' {
                    let d = ((c as u32) - ('0' as u32)) as usize;
                    if inside {
                        let k = numbers.len() - 1;
                        let prev = numbers[k];
                        assert(numbers@.last() == prev);
                        if prev > (usize::MAX - d) / 10 {
                            assert(prev * 10 + d > usize::MAX) by (nonlinear_arith)
                                requires
                                    prev > (usize::MAX - d) / 10,
                                    d <= 9,
                            ;
                            proof {
                                lemma_scan_numbers_prefix(s, index + 1);
                            }
                            return Err(GenericError::InvalidInput);
                        }
                        numbers.set(k, prev * 10 + d);
                    } else {
                        numbers.push(d);
                    }
                    inside = true;
                } else {
                    proof {
                        lemma_scan_numbers_prefix(s, index + 1);
                    }
                    return Err(GenericError::InvalidInput);
                }
                assert(s.skip(index).drop_first() =~= s.skip(index + 1));
                proof {
                    index = index + 1;
                }
            },
        }
    }
}

} // verus!
