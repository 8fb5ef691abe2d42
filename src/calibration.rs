//! Calibration values: the first and the last digit of a line make a
//! two-digit number. Digits are ASCII digits or, when spelled words count,
//! the digits 1 to 9 written as ASCII digits or as "one" to "nine".
use crate::text::{bytes_eq, copy_range, is_digit, views};
use vstd::prelude::*;
use vstd::string::StringSliceAdditionalSpecFns;

verus! {

/// The spelling of the digit `k`, for `1 <= k <= 9`.
pub open spec fn word(k: int) -> Seq<u8> {
    if k == 1 {
        "one".spec_bytes()
    } else if k == 2 {
        "two".spec_bytes()
    } else if k == 3 {
        "three".spec_bytes()
    } else if k == 4 {
        "four".spec_bytes()
    } else if k == 5 {
        "five".spec_bytes()
    } else if k == 6 {
        "six".spec_bytes()
    } else if k == 7 {
        "seven".spec_bytes()
    } else if k == 8 {
        "eight".spec_bytes()
    } else {
        "nine".spec_bytes()
    }
}

/// `w` occurs in `s` at position `i`.
pub open spec fn occurs_at(s: Seq<u8>, i: int, w: Seq<u8>) -> bool {
    0 <= i && i + w.len() <= s.len() && s.subrange(i, i + w.len()) == w
}

/// The spelled digit that starts at position `i` of `s`, if any.
pub open spec fn word_at(s: Seq<u8>, i: int) -> Option<nat> {
    if occurs_at(s, i, word(1)) {
        Some(1)
    } else if occurs_at(s, i, word(2)) {
        Some(2)
    } else if occurs_at(s, i, word(3)) {
        Some(3)
    } else if occurs_at(s, i, word(4)) {
        Some(4)
    } else if occurs_at(s, i, word(5)) {
        Some(5)
    } else if occurs_at(s, i, word(6)) {
        Some(6)
    } else if occurs_at(s, i, word(7)) {
        Some(7)
    } else if occurs_at(s, i, word(8)) {
        Some(8)
    } else if occurs_at(s, i, word(9)) {
        Some(9)
    } else {
        None
    }
}

/// The digit that starts at position `i` of `s`: any ASCII digit, or with
/// `words` a digit from 1 to 9, written as one or spelled out.
pub open spec fn digit_at(s: Seq<u8>, i: int, words: bool) -> Option<nat> {
    if !words {
        if is_digit(s[i]) {
            Some((s[i] - 48) as nat)
        } else {
            None
        }
    } else if 49 <= s[i] <= 57 {
        Some((s[i] - 48) as nat)
    } else {
        word_at(s, i)
    }
}

/// The first digit of `s` at or after position `i`.
pub open spec fn first_from(s: Seq<u8>, i: int, words: bool) -> Option<nat>
    decreases s.len() - i,
{
    if i < 0 || i >= s.len() {
        None
    } else {
        match digit_at(s, i, words) {
            Some(d) => Some(d),
            None => first_from(s, i + 1, words),
        }
    }
}

/// The last digit of `s` that starts before position `i`.
pub open spec fn last_before(s: Seq<u8>, i: int, words: bool) -> Option<nat>
    decreases i,
{
    if i <= 0 || i > s.len() {
        None
    } else {
        match digit_at(s, i - 1, words) {
            Some(d) => Some(d),
            None => last_before(s, i - 1, words),
        }
    }
}

/// The calibration value of a line: ten times its first digit plus its last;
/// `None` for a line without a digit.
pub open spec fn calibration(s: Seq<u8>, words: bool) -> Option<nat> {
    match (first_from(s, 0, words), last_before(s, s.len() as int, words)) {
        (Some(a), Some(b)) => Some(10 * a + b),
        _ => None,
    }
}

fn occurs_at_exec(s: &[u8], i: usize, w: &[u8]) -> (r: bool)
    requires
        i <= s@.len(),
    ensures
        r == occurs_at(s@, i as int, w@),
{
    if w.len() > s.len() - i {
        return false;
    }
    let part = copy_range(s, i, i + w.len());
    bytes_eq(part.as_slice(), w)
}

fn word_at_exec(s: &[u8], i: usize) -> (r: Option<u32>)
    requires
        i <= s@.len(),
    ensures
        r is Some <==> word_at(s@, i as int) is Some,
        r is Some ==> r->0 == word_at(s@, i as int)->0,
{
    if occurs_at_exec(s, i, "one".as_bytes()) {
        Some(1)
    } else if occurs_at_exec(s, i, "two".as_bytes()) {
        Some(2)
    } else if occurs_at_exec(s, i, "three".as_bytes()) {
        Some(3)
    } else if occurs_at_exec(s, i, "four".as_bytes()) {
        Some(4)
    } else if occurs_at_exec(s, i, "five".as_bytes()) {
        Some(5)
    } else if occurs_at_exec(s, i, "six".as_bytes()) {
        Some(6)
    } else if occurs_at_exec(s, i, "seven".as_bytes()) {
        Some(7)
    } else if occurs_at_exec(s, i, "eight".as_bytes()) {
        Some(8)
    } else if occurs_at_exec(s, i, "nine".as_bytes()) {
        Some(9)
    } else {
        None
    }
}

/// The digit that starts at position `i` of `line`, if any.
pub fn digit_at_exec(line: &[u8], i: usize, words: bool) -> (r: Option<u32>)
    requires
        i < line@.len(),
    ensures
        r is Some <==> digit_at(line@, i as int, words) is Some,
        r is Some ==> r->0 == digit_at(line@, i as int, words)->0,
{
    let b = line[i];
    if !words {
        if 48 <= b && b <= 57 {
            Some((b - 48) as u32)
        } else {
            None
        }
    } else if 49 <= b && b <= 57 {
        Some((b - 48) as u32)
    } else {
        word_at_exec(line, i)
    }
}

proof fn lemma_digit_range(s: Seq<u8>, i: int, words: bool)
    requires
        0 <= i < s.len(),
        digit_at(s, i, words) is Some,
    ensures
        digit_at(s, i, words)->0 <= 9,
        words ==> digit_at(s, i, words)->0 >= 1,
        s[i] != 48 ==> digit_at(s, i, words)->0 >= 1,
{
}

/// The first digit of `line`.
pub fn first_digit(line: &[u8], words: bool) -> (r: Option<u32>)
    ensures
        r is Some <==> first_from(line@, 0, words) is Some,
        r is Some ==> r->0 == first_from(line@, 0, words)->0 && r->0 <= 9,
        r is Some && words ==> r->0 >= 1,
{
    let n = line.len();
    let mut i: usize = 0;
    while i < n
        invariant
            n == line@.len(),
            i <= n,
            first_from(line@, 0, words) == first_from(line@, i as int, words),
        decreases n - i,
    {
        match digit_at_exec(line, i, words) {
            Some(d) => {
                proof { lemma_digit_range(line@, i as int, words); }
                return Some(d);
            },
            None => {},
        }
        i += 1;
    }
    None
}

/// The last digit of `line`.
pub fn last_digit(line: &[u8], words: bool) -> (r: Option<u32>)
    ensures
        r is Some <==> last_before(line@, line@.len() as int, words) is Some,
        r is Some ==> r->0 == last_before(line@, line@.len() as int, words)->0 && r->0 <= 9,
        r is Some && words ==> r->0 >= 1,
{
    let n = line.len();
    let mut j: usize = n;
    while j > 0
        invariant
            n == line@.len(),
            j <= n,
            last_before(line@, n as int, words) == last_before(line@, j as int, words),
        decreases j,
    {
        match digit_at_exec(line, j - 1, words) {
            Some(d) => {
                proof { lemma_digit_range(line@, j - 1, words); }
                return Some(d);
            },
            None => {},
        }
        j -= 1;
    }
    None
}

/// The calibration value of one line.
pub fn calibration_value(line: &[u8], words: bool) -> (r: Option<u32>)
    ensures
        r is Some <==> calibration(line@, words) is Some,
        r is Some ==> r->0 == calibration(line@, words)->0,
{
    let a = match first_digit(line, words) {
        Some(a) => a,
        None => return None,
    };
    let b = match last_digit(line, words) {
        Some(b) => b,
        None => return None,
    };
    Some(10 * a + b)
}

/// The sum of the calibration values of the first `n` lines; `None` where a
/// line has no digit or the running sum passes `u64::MAX`.
pub open spec fn calibration_upto(ls: Seq<Seq<u8>>, n: int, words: bool) -> Option<nat>
    decreases n,
{
    if n <= 0 {
        Some(0)
    } else {
        match calibration_upto(ls, n - 1, words) {
            None => None,
            Some(total) => match calibration(ls[n - 1], words) {
                None => None,
                Some(v) => if total + v > u64::MAX {
                    None
                } else {
                    Some(total + v)
                },
            },
        }
    }
}

proof fn lemma_calibration_none(ls: Seq<Seq<u8>>, i: int, n: int, words: bool)
    requires
        0 < i <= n,
        calibration_upto(ls, i, words) is None,
    ensures
        calibration_upto(ls, n, words) is None,
    decreases n - i,
{
    if i < n {
        lemma_calibration_none(ls, i, n - 1, words);
    }
}

/// The sum of the calibration values of all lines.
pub fn calibration_sum(lines: &Vec<Vec<u8>>, words: bool) -> (r: Option<u64>)
    ensures
        r is Some <==> calibration_upto(views(lines@), lines@.len() as int, words) is Some,
        r is Some ==> r->0 == calibration_upto(views(lines@), lines@.len() as int, words)->0,
{
    let ghost ls = views(lines@);
    let mut total: u64 = 0;
    let mut i: usize = 0;
    while i < lines.len()
        invariant
            i <= lines@.len(),
            ls == views(lines@),
            calibration_upto(ls, i as int, words) == Some(total as nat),
        decreases lines.len() - i,
    {
        assert(ls[i as int] == lines@[i as int]@);
        let v = match calibration_value(lines[i].as_slice(), words) {
            Some(v) => v,
            None => {
                proof { lemma_calibration_none(ls, i + 1, ls.len() as int, words); }
                return None;
            },
        };
        if total > u64::MAX - v as u64 {
            proof { lemma_calibration_none(ls, i + 1, ls.len() as int, words); }
            return None;
        }
        total = total + v as u64;
        i += 1;
    }
    Some(total)
}

proof fn lemma_first_from_range(s: Seq<u8>, i: int, words: bool)
    requires
        first_from(s, i, words) is Some,
        words || !s.contains(48u8),
    ensures
        1 <= first_from(s, i, words)->0 <= 9,
    decreases s.len() - i,
{
    if 0 <= i < s.len() {
        if digit_at(s, i, words) is Some {
            if s[i] == 48 {
                assert(s.contains(48u8));
            }
            lemma_digit_range(s, i, words);
        } else {
            lemma_first_from_range(s, i + 1, words);
        }
    }
}

proof fn lemma_last_before_range(s: Seq<u8>, i: int, words: bool)
    requires
        last_before(s, i, words) is Some,
        words || !s.contains(48u8),
    ensures
        1 <= last_before(s, i, words)->0 <= 9,
    decreases i,
{
    if 0 < i <= s.len() {
        if digit_at(s, i - 1, words) is Some {
            if s[i - 1] == 48 {
                assert(s.contains(48u8));
            }
            lemma_digit_range(s, i - 1, words);
        } else {
            lemma_last_before_range(s, i - 1, words);
        }
    }
}

/// A calibration value is a two-digit number from 11 to 99 whenever its
/// digits cannot be zero: always when spelled words count, and otherwise for
/// a line without the digit `0`.
pub proof fn lemma_calibration_two_digits(s: Seq<u8>, words: bool)
    requires
        calibration(s, words) is Some,
        words || !s.contains(48u8),
    ensures
        11 <= calibration(s, words)->0 <= 99,
{
    lemma_first_from_range(s, 0, words);
    lemma_last_before_range(s, s.len() as int, words);
}

} // verus!
