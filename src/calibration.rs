//! Calibration values: the first and last digit of each line, with digits
//! either only as characters or also spelled out as words.

use vstd::prelude::*;
use vstd::utf8::encode_utf8;

verus! {

pub open spec fn is_digit_byte(b: u8) -> bool {
    '0' as u8 <= b <= '9' as u8
}

/// The spelling of the digit `k` (one to nine) in bytes.
pub open spec fn word(k: int) -> Seq<u8> {
    if k == 1 {
        seq!['o' as u8, 'n' as u8, 'e' as u8]
    } else if k == 2 {
        seq!['t' as u8, 'w' as u8, 'o' as u8]
    } else if k == 3 {
        seq!['t' as u8, 'h' as u8, 'r' as u8, 'e' as u8, 'e' as u8]
    } else if k == 4 {
        seq!['f' as u8, 'o' as u8, 'u' as u8, 'r' as u8]
    } else if k == 5 {
        seq!['f' as u8, 'i' as u8, 'v' as u8, 'e' as u8]
    } else if k == 6 {
        seq!['s' as u8, 'i' as u8, 'x' as u8]
    } else if k == 7 {
        seq!['s' as u8, 'e' as u8, 'v' as u8, 'e' as u8, 'n' as u8]
    } else if k == 8 {
        seq!['e' as u8, 'i' as u8, 'g' as u8, 'h' as u8, 't' as u8]
    } else {
        seq!['n' as u8, 'i' as u8, 'n' as u8, 'e' as u8]
    }
}

/// `p` occurs in `s` starting at index `i`.
pub open spec fn occurs_at(s: Seq<u8>, i: int, p: Seq<u8>) -> bool {
    0 <= i && i + p.len() <= s.len() && s.subrange(i, i + p.len()) == p
}

/// The smallest `k` in `[k, 9]` whose spelling starts at `i`.
pub open spec fn word_from(s: Seq<u8>, i: int, k: int) -> Option<int>
    decreases 10 - k,
{
    if k > 9 || k < 1 {
        None
    } else if occurs_at(s, i, word(k)) {
        Some(k)
    } else {
        word_from(s, i, k + 1)
    }
}

/// The digit that starts at index `i`: a digit character, or with `words` also
/// a spelled-out digit.
pub open spec fn value_at(s: Seq<u8>, i: int, words: bool) -> Option<int> {
    if 0 <= i < s.len() && is_digit_byte(s[i]) {
        Some(s[i] - ('0' as u8))
    } else if words && 0 <= i < s.len() {
        word_from(s, i, 1)
    } else {
        None
    }
}

/// The digit at the lowest index `>= i`.
pub open spec fn first_from(s: Seq<u8>, i: int, words: bool) -> Option<int>
    decreases s.len() - i,
{
    if i >= s.len() || i < 0 {
        None
    } else if value_at(s, i, words) is Some {
        value_at(s, i, words)
    } else {
        first_from(s, i + 1, words)
    }
}

/// The digit at the highest index `< i`.
pub open spec fn last_before(s: Seq<u8>, i: int, words: bool) -> Option<int>
    decreases i,
{
    if i <= 0 {
        None
    } else if value_at(s, i - 1, words) is Some {
        value_at(s, i - 1, words)
    } else {
        last_before(s, i - 1, words)
    }
}

/// Ten times the first digit plus the last digit; zero for a line without digits.
pub open spec fn line_value(s: Seq<u8>, words: bool) -> int {
    match (first_from(s, 0, words), last_before(s, s.len() as int, words)) {
        (Some(a), Some(b)) => 10 * a + b,
        _ => 0,
    }
}

pub open spec fn total_value(lines: Seq<Seq<u8>>, words: bool) -> int
    decreases lines.len(),
{
    if lines.len() == 0 {
        0
    } else {
        total_value(lines.drop_last(), words) + line_value(lines.last(), words)
    }
}

fn word_bytes(k: u8) -> (r: Vec<u8>)
    requires
        1 <= k <= 9,
    ensures
        r@ == word(k as int),
{
    let r = if k == 1 {
        vec!['o' as u8, 'n' as u8, 'e' as u8]
    } else if k == 2 {
        vec!['t' as u8, 'w' as u8, 'o' as u8]
    } else if k == 3 {
        vec!['t' as u8, 'h' as u8, 'r' as u8, 'e' as u8, 'e' as u8]
    } else if k == 4 {
        vec!['f' as u8, 'o' as u8, 'u' as u8, 'r' as u8]
    } else if k == 5 {
        vec!['f' as u8, 'i' as u8, 'v' as u8, 'e' as u8]
    } else if k == 6 {
        vec!['s' as u8, 'i' as u8, 'x' as u8]
    } else if k == 7 {
        vec!['s' as u8, 'e' as u8, 'v' as u8, 'e' as u8, 'n' as u8]
    } else if k == 8 {
        vec!['e' as u8, 'i' as u8, 'g' as u8, 'h' as u8, 't' as u8]
    } else {
        vec!['n' as u8, 'i' as u8, 'n' as u8, 'e' as u8]
    };
    assert(r@ =~= word(k as int));
    r
}

fn occurs_at_exec(s: &[u8], i: usize, p: &Vec<u8>) -> (r: bool)
    ensures
        r == occurs_at(s@, i as int, p@),
{
    if i > s.len() || p.len() > s.len() - i {
        return false;
    }
    let sl = s.len();
    let mut j: usize = 0;
    while j < p.len()
        invariant
            sl == s@.len(),
            i + p@.len() <= s@.len(),
            0 <= j <= p@.len(),
            forall|t: int| 0 <= t < j ==> s@[i + t] == p@[t],
        decreases p@.len() - j,
    {
        if s[i + j] != p[j] {
            assert(s@.subrange(i as int, i + p@.len())[j as int] != p@[j as int]);
            return false;
        }
        j = j + 1;
    }
    assert(s@.subrange(i as int, i + p@.len()) =~= p@);
    true
}

/// The digit that starts at `i`, as `value_at` describes it.
fn value_at_exec(s: &[u8], i: usize, words: bool) -> (r: Option<u8>)
    requires
        i < s@.len(),
    ensures
        r matches Some(v) ==> value_at(s@, i as int, words) == Some(v as int) && v <= 9,
        r is None ==> value_at(s@, i as int, words) is None,
{
    if s[i] >= '0' as u8 && s[i] <= '9' as u8 {
        return Some(s[i] - ('0' as u8));
    }
    if !words {
        return None;
    }
    let mut k: u8 = 1;
    while k <= 9
        invariant
            1 <= k <= 10,
            !is_digit_byte(s@[i as int]),
            words,
            word_from(s@, i as int, k as int) == value_at(s@, i as int, words),
        decreases 10 - k,
    {
        let w = word_bytes(k);
        if occurs_at_exec(s, i, &w) {
            return Some(k);
        }
        k = k + 1;
    }
    None
}

/// The first digit of the line, or the last one when `from_end` is set.
pub open spec fn found_value(s: Seq<u8>, words: bool, from_end: bool) -> Option<int> {
    if from_end {
        last_before(s, s.len() as int, words)
    } else {
        first_from(s, 0, words)
    }
}

/// Finds the first digit of `line`, or its last when `from_end` is set; with
/// `words`, spelled-out digits count too.
pub fn find_value(line: &[u8], words: bool, from_end: bool) -> (r: Option<u8>)
    ensures
        r matches Some(v) ==> found_value(line@, words, from_end) == Some(v as int) && v <= 9,
        r is None <==> found_value(line@, words, from_end) is None,
{
    let n = line.len();
    let mut found: Option<u8> = None;
    if !from_end {
        let mut i: usize = 0;
        while i < n && found.is_none()
            invariant
                n == line@.len(),
                0 <= i <= n,
                found is None ==> first_from(line@, 0, words) == first_from(line@, i as int, words),
                found matches Some(a) ==> first_from(line@, 0, words) == Some(a as int) && a <= 9,
            decreases n - i,
        {
            found = value_at_exec(line, i, words);
            i = i + 1;
        }
    } else {
        let mut j: usize = n;
        while j > 0 && found.is_none()
            invariant
                n == line@.len(),
                0 <= j <= n,
                found is None ==> last_before(line@, n as int, words) == last_before(line@, j as int, words),
                found matches Some(b) ==> last_before(line@, n as int, words) == Some(b as int) && b <= 9,
            decreases j,
        {
            found = value_at_exec(line, j - 1, words);
            j = j - 1;
        }
    }
    found
}

/// The calibration value of one line.
pub fn line_calibration(s: &[u8], words: bool) -> (r: u8)
    ensures
        r == line_value(s@, words),
        r <= 99,
{
    match (find_value(s, words, false), find_value(s, words, true)) {
        (Some(a), Some(b)) => 10 * a + b,
        _ => 0,
    }
}

/// The lines as UTF-8 bytes.
pub open spec fn line_bytes(lines: Seq<String>) -> Seq<Seq<u8>> {
    lines.map_values(|l: String| encode_utf8(l@))
}

fn total_calibration(lines: &Vec<String>, words: bool) -> (r: usize)
    requires
        lines@.len() <= usize::MAX / 100,
    ensures
        r == total_value(line_bytes(lines@), words),
{
    let ghost all = line_bytes(lines@);
    let mut sum: usize = 0;
    let mut i: usize = 0;
    while i < lines.len()
        invariant
            lines@.len() <= usize::MAX / 100,
            all == line_bytes(lines@),
            0 <= i <= lines@.len(),
            sum == total_value(all.take(i as int), words),
            sum <= 100 * i,
        decreases lines@.len() - i,
    {
        let bytes = lines[i].as_str().as_bytes();
        let v = line_calibration(bytes, words);
        assert(all.take(i + 1).drop_last() =~= all.take(i as int));
        assert(all.take(i + 1).last() == all[i as int]);
        sum = sum + v as usize;
        i = i + 1;
    }
    assert(all.take(i as int) =~= all);
    sum
}

/// The two calibration totals of `lines`: with digit characters only, and with
/// spelled-out digits counted as well.
pub fn run(lines: &Vec<String>) -> (r: (usize, usize))
    requires
        lines@.len() <= usize::MAX / 100,
    ensures
        r.0 == total_value(line_bytes(lines@), false),
        r.1 == total_value(line_bytes(lines@), true),
{
    (total_calibration(lines, false), total_calibration(lines, true))
}

} // verus!
