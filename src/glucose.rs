//! Reading the glucose column: the `"Low"` sentinel, signed 32-bit
//! integers, and the rule that negative values are sensor errors.

use vstd::prelude::*;

verus! {

/// The value that stands for a `"Low"` reading, below the sensor's floor.
pub const LOW_READING_MGDL: i32 = 30;

/// Saturation point of the digit accumulator: one past the largest magnitude
/// that a negative `i32` can take.
const MAGNITUDE_CAP: u64 = 2147483649;

pub open spec fn is_digit(c: char) -> bool {
    '0' <= c && c <= '9'
}

pub open spec fn digit_value(c: char) -> int {
    c as int - '0' as int
}

pub open spec fn all_digits(s: Seq<char>) -> bool {
    forall|i: int| 0 <= i < s.len() ==> is_digit(#[trigger] s[i])
}

/// The number that a run of decimal digits spells.
pub open spec fn digits_value(s: Seq<char>) -> int
    decreases s.len(),
{
    if s.len() == 0 {
        0
    } else {
        digits_value(s.drop_last()) * 10 + digit_value(s.last())
    }
}

/// The integer that `s` spells: an optional `+` or `-`, then one or more
/// ASCII digits, and nothing else.
pub open spec fn signed_value(s: Seq<char>) -> Option<int> {
    if s.len() > 0 && (s[0] == '-' || s[0] == '+') {
        let d = s.subrange(1, s.len() as int);
        if d.len() > 0 && all_digits(d) {
            Some(if s[0] == '-' { -digits_value(d) } else { digits_value(d) })
        } else {
            None
        }
    } else if s.len() > 0 && all_digits(s) {
        Some(digits_value(s))
    } else {
        None
    }
}

/// The `i32` that `s` spells, if it spells an integer in that range.
pub open spec fn int32_of(s: Seq<char>) -> Option<i32> {
    match signed_value(s) {
        Some(v) => if i32::MIN <= v <= i32::MAX { Some(v as i32) } else { None },
        None => None,
    }
}

pub open spec fn is_low_token(s: Seq<char>) -> bool {
    s == seq!['L', 'o', 'w']
}

/// The cleaned glucose value of a cell: `"Low"` reads as 30, an integer
/// reads as itself unless it is negative, anything else has no value.
pub open spec fn glucose_value(s: Seq<char>) -> Option<i32> {
    if is_low_token(s) {
        Some(LOW_READING_MGDL)
    } else {
        match int32_of(s) {
            Some(v) => if v < 0 { None } else { Some(v) },
            None => None,
        }
    }
}

proof fn lemma_digits_value_nonneg(s: Seq<char>)
    requires
        all_digits(s),
    ensures
        digits_value(s) >= 0,
    decreases s.len(),
{
    if s.len() > 0 {
        lemma_digits_value_nonneg(s.drop_last());
    }
}

/// Whether `text` is exactly the sentinel `Low` (case-sensitive).
pub fn is_low(text: &str) -> (r: bool)
    ensures
        r == is_low_token(text@),
{
    if text.unicode_len() != 3 {
        return false;
    }
    let r = text.get_char(0) == 'L' && text.get_char(1) == 'o' && text.get_char(2) == 'w';
    if r {
        assert(text@ =~= seq!['L', 'o', 'w']);
    }
    r
}

/// Reads `text` as a signed decimal `i32`; `None` when it is not one or
/// does not fit.
pub fn parse_int32(text: &str) -> (r: Option<i32>)
    ensures
        r == int32_of(text@),
{
    let n = text.unicode_len();
    if n == 0 {
        return None;
    }
    let first = text.get_char(0);
    let signed = first == '-' || first == '+';
    let start: usize = if signed { 1 } else { 0 };
    if start == n {
        return None;
    }
    let mut acc: u64 = 0;
    let mut i: usize = start;
    while i < n
        invariant
            n == text@.len(),
            n > 0,
            first == text@[0],
            signed == (first == '-' || first == '+'),
            start == (if signed { 1usize } else { 0usize }),
            start <= i <= n,
            all_digits(text@.subrange(start as int, i as int)),
            acc <= MAGNITUDE_CAP,
            digits_value(text@.subrange(start as int, i as int)) >= MAGNITUDE_CAP
                ==> acc == MAGNITUDE_CAP,
            digits_value(text@.subrange(start as int, i as int)) < MAGNITUDE_CAP
                ==> acc == digits_value(text@.subrange(start as int, i as int)),
        decreases n - i,
    {
        let c = text.get_char(i);
        let ghost prev = text@.subrange(start as int, i as int);
        let ghost next = text@.subrange(start as int, i + 1);
        assert(next.drop_last() =~= prev);
        if !('0' <= c && c <= '9') {
            assert(!all_digits(text@.subrange(start as int, n as int))) by {
                assert(text@.subrange(start as int, n as int)[i - start] == c);
            }
            if signed {
                assert(text@.subrange(1, text@.len() as int) =~= text@.subrange(start as int, n as int));
            } else {
                assert(text@.subrange(0, n as int) =~= text@);
            }
            return None;
        }
        proof {
            lemma_digits_value_nonneg(prev);
        }
        let d = (c as u32 - '0' as u32) as u64;
        if acc >= MAGNITUDE_CAP {
            acc = MAGNITUDE_CAP;
        } else {
            let v = acc * 10 + d;
            acc = if v > MAGNITUDE_CAP { MAGNITUDE_CAP } else { v };
        }
        assert(all_digits(next)) by {
            assert forall|j: int| 0 <= j < next.len() implies is_digit(#[trigger] next[j]) by {
                if j < prev.len() {
                    assert(next[j] == prev[j]);
                }
            }
        }
        i = i + 1;
    }
    let ghost d = text@.subrange(start as int, n as int);
    if signed {
        assert(text@.subrange(1, text@.len() as int) =~= d);
    } else {
        assert(d =~= text@);
    }
    proof {
        lemma_digits_value_nonneg(d);
    }
    if first == '-' {
        if acc <= 2147483648 {
            Some((0 - (acc as i64)) as i32)
        } else {
            None
        }
    } else {
        if acc <= 2147483647 {
            Some(acc as i32)
        } else {
            None
        }
    }
}

/// The cleaned glucose value of a cell, as `glucose_value` states it.
pub fn parse_glucose(text: &str) -> (r: Option<i32>)
    ensures
        r == glucose_value(text@),
        is_low_token(text@) ==> r == Some(LOW_READING_MGDL),
        r matches Some(v) ==> v >= 0,
{
    if is_low(text) {
        return Some(LOW_READING_MGDL);
    }
    match parse_int32(text) {
        Some(v) => if v < 0 { None } else { Some(v) },
        None => None,
    }
}

} // verus!
