//! Timestamps of the form `mm:ss.xx`, read as a number of milliseconds.

use vstd::prelude::*;
use vstd::slice::slice_subrange;

use crate::text::{find_char, find_in};

verus! {

/// An ASCII decimal digit.
pub open spec fn is_ascii_digit(c: char) -> bool {
    '0' <= c <= '9'
}

/// The value of an ASCII decimal digit.
pub open spec fn digit_value(c: char) -> nat {
    (c as int - '0' as int) as nat
}

/// The value of a string of decimal digits, most significant first.
pub open spec fn digits_value(s: Seq<char>) -> nat
    decreases s.len(),
{
    if s.len() == 0 {
        0
    } else {
        digits_value(s.drop_last()) * 10 + digit_value(s.last())
    }
}

/// `s` without one leading `+`, if it has one.
pub open spec fn unsigned_digits(s: Seq<char>) -> Seq<char> {
    if s.len() > 0 && s[0] == '+' {
        s.drop_first()
    } else {
        s
    }
}

/// What parsing `s` as a decimal `u64` gives: an optional `+` followed by one or
/// more ASCII digits whose value fits in a `u64`; anything else is rejected.
pub open spec fn spec_parse_u64(s: Seq<char>) -> Option<u64> {
    let d = unsigned_digits(s);
    if d.len() > 0 && (forall|i: int| 0 <= i < d.len() ==> is_ascii_digit(#[trigger] d[i]))
        && digits_value(d) <= u64::MAX {
        Some(digits_value(d) as u64)
    } else {
        None
    }
}

proof fn lemma_digits_value_prefix(s: Seq<char>, k: int)
    requires
        0 <= k <= s.len(),
    ensures
        digits_value(s.take(k)) <= digits_value(s),
    decreases s.len(),
{
    if k == s.len() {
        assert(s.take(k) =~= s);
    } else {
        lemma_digits_value_prefix(s.drop_last(), k);
        assert(s.drop_last().take(k) =~= s.take(k));
    }
}

/// Parses `s` as a decimal `u64`.
pub fn parse_u64(s: &[char]) -> (r: Option<u64>)
    ensures
        r == spec_parse_u64(s@),
{
    let start: usize = if s.len() > 0 && s[0] == '+' {
        1
    } else {
        0
    };
    let ghost d = unsigned_digits(s@);
    assert(d =~= s@.subrange(start as int, s@.len() as int));
    if start == s.len() {
        return None;
    }
    let mut value: u64 = 0;
    let mut i: usize = start;
    while i < s.len()
        invariant
            start <= i <= s@.len(),
            d =~= s@.subrange(start as int, s@.len() as int),
            d == unsigned_digits(s@),
            forall|j: int| start <= j < i ==> is_ascii_digit(#[trigger] s@[j]),
            value == digits_value(s@.subrange(start as int, i as int)),
        decreases s.len() - i,
    {
        let c = s[i];
        if !('0' <= c && c <= '9') {
            assert(d[i - start] == c);
            assert(!is_ascii_digit(d[i - start]));
            return None;
        }
        let digit: u64 = (c as u32 - '0' as u32) as u64;
        assert(s@.subrange(start as int, i + 1 as int).drop_last() =~= s@.subrange(
            start as int,
            i as int,
        ));
        if value > (u64::MAX - digit) / 10 {
            proof {
                assert(s@.subrange(start as int, i + 1 as int) =~= d.take(i + 1 - start));
                lemma_digits_value_prefix(d, i + 1 - start);
                assert(digits_value(d) > u64::MAX);
            }
            return None;
        }
        value = value * 10 + digit;
        i += 1;
    }
    assert(s@.subrange(start as int, i as int) =~= d);
    Some(value)
}

/// The part of `s` before the first `c`, or all of `s` when there is none.
pub open spec fn piece_before(s: Seq<char>, c: char) -> Seq<char> {
    match find_in(s, c, 0, s.len() as int) {
        Some(i) => s.take(i),
        None => s,
    }
}

/// The part of `s` after the first `c`, if there is one.
pub open spec fn piece_after(s: Seq<char>, c: char) -> Option<Seq<char>> {
    match find_in(s, c, 0, s.len() as int) {
        Some(i) => Some(s.skip(i + 1)),
        None => None,
    }
}

/// The hundredths field of a seconds part `ss.xx`: the digits after the first
/// `.` and up to the next one; 0 when there is no `.` or they do not parse.
pub open spec fn hundredths(sec: Seq<char>) -> u64 {
    match piece_after(sec, '.') {
        Some(r) => match spec_parse_u64(piece_before(r, '.')) {
            Some(x) => x,
            None => 0,
        },
        None => 0,
    }
}

/// The time, in milliseconds, that a timestamp `mm:ss.xx` stands for:
/// minutes before the first `:`, seconds between it and the next `:` or `.`,
/// and hundredths after the `.`.  `None` when minutes or seconds do not parse
/// or there is no `:`.
pub open spec fn timestamp_millis(ts: Seq<char>) -> Option<u128> {
    match (spec_parse_u64(piece_before(ts, ':')), piece_after(ts, ':')) {
        (Some(m), Some(rest)) => {
            let sec = piece_before(rest, ':');
            match spec_parse_u64(piece_before(sec, '.')) {
                Some(s) => Some(
                    (m as int * 60000 + s as int * 1000 + hundredths(sec) as int * 10) as u128,
                ),
                None => None,
            }
        },
        _ => None,
    }
}

/// Splits off the part of `s` before the first `c`; also gives the part after
/// it, if there is a `c`.
fn split_first<'a>(s: &'a [char], c: char) -> (r: (&'a [char], Option<&'a [char]>))
    ensures
        r.0@ == piece_before(s@, c),
        r.1 matches Some(a) ==> piece_after(s@, c) == Some(a@),
        r.1 is None ==> piece_after(s@, c) is None,
{
    match find_char(s, c, 0, s.len()) {
        Some(i) => {
            proof {
                crate::text::lemma_find_in(s@, c, 0, s@.len() as int);
            }
            let before = slice_subrange(s, 0, i);
            let after = slice_subrange(s, i + 1, s.len());
            assert(after@ =~= s@.skip(i + 1));
            assert(before@ =~= s@.take(i as int));
            (before, Some(after))
        },
        None => (s, None),
    }
}

/// Reads a timestamp `mm:ss.xx` given as characters, as milliseconds.
pub fn parse_timestamp_chars(ts: &[char]) -> (r: Option<u128>)
    ensures
        r == timestamp_millis(ts@),
{
    let (minutes_part, rest) = split_first(ts, ':');
    let minutes = match parse_u64(minutes_part) {
        Some(m) => m,
        None => return None,
    };
    let rest = match rest {
        Some(r) => r,
        None => return None,
    };
    let (sec_part, _) = split_first(rest, ':');
    let (seconds_part, after_dot) = split_first(sec_part, '.');
    let seconds = match parse_u64(seconds_part) {
        Some(s) => s,
        None => return None,
    };
    let hundredths: u64 = match after_dot {
        Some(r) => {
            let (h, _) = split_first(r, '.');
            match parse_u64(h) {
                Some(x) => x,
                None => 0,
            }
        },
        None => 0,
    };
    Some(minutes as u128 * 60000 + seconds as u128 * 1000 + hundredths as u128 * 10)
}

/// Reads a timestamp `mm:ss.xx` as milliseconds: minutes before the first `:`,
/// seconds up to the following `:` or `.`, and optional hundredths after the
/// `.`.  Returns `None` when minutes or seconds are not decimal numbers or there
/// is no `:`.
pub fn parse_timestamp(ts: &str) -> (r: Option<u128>)
    ensures
        r == timestamp_millis(ts@),
{
    let chars = crate::text::chars_of(ts);
    parse_timestamp_chars(chars.as_slice())
}

/// A timestamp written exactly as `mm:ss.xx`: two digits of minutes, two of
/// seconds (the first from 0 to 5) and two of hundredths.
pub open spec fn is_mm_ss_xx(ts: Seq<char>) -> bool {
    &&& ts.len() == 8
    &&& is_ascii_digit(ts[0]) && is_ascii_digit(ts[1])
    &&& ts[2] == ':'
    &&& '0' <= ts[3] <= '5' && is_ascii_digit(ts[4])
    &&& ts[5] == '.'
    &&& is_ascii_digit(ts[6]) && is_ascii_digit(ts[7])
}

/// Dictionary order of texts by character, the order of `str`.
pub open spec fn text_less(a: Seq<char>, b: Seq<char>) -> bool
    decreases a.len(),
{
    if a.len() == 0 {
        b.len() > 0
    } else if b.len() == 0 {
        false
    } else if a[0] != b[0] {
        a[0] < b[0]
    } else {
        text_less(a.drop_first(), b.drop_first())
    }
}

/// The milliseconds that a `mm:ss.xx` timestamp stands for, digit by digit.
pub open spec fn mm_ss_xx_millis(ts: Seq<char>) -> nat {
    (digit_value(ts[0]) * 10 + digit_value(ts[1])) * 60000 + (digit_value(ts[3]) * 10
        + digit_value(ts[4])) * 1000 + (digit_value(ts[6]) * 10 + digit_value(ts[7])) * 10
}

proof fn lemma_two_digits(x: Seq<char>)
    requires
        x.len() == 2,
        is_ascii_digit(x[0]),
        is_ascii_digit(x[1]),
    ensures
        spec_parse_u64(x) == Some((digit_value(x[0]) * 10 + digit_value(x[1])) as u64),
        find_in(x, ':', 0, 2) is None,
        find_in(x, '.', 0, 2) is None,
{
    assert(unsigned_digits(x) == x);
    assert(x.drop_last().drop_last() =~= Seq::<char>::empty());
    assert(x.drop_last().last() == x[0]);
    assert(digits_value(x.drop_last().drop_last()) == 0);
    assert(digits_value(x.drop_last()) == digit_value(x[0]));
    assert(digits_value(x) == digit_value(x[0]) * 10 + digit_value(x[1]));
    reveal_with_fuel(find_in, 3);
}

/// A `mm:ss.xx` timestamp reads as minutes, seconds and hundredths.
pub proof fn lemma_mm_ss_xx_millis(ts: Seq<char>)
    requires
        is_mm_ss_xx(ts),
    ensures
        timestamp_millis(ts) == Some(mm_ss_xx_millis(ts) as u128),
{
    reveal_with_fuel(find_in, 4);
    assert(find_in(ts, ':', 0, 8) == Some(2int));
    let m = ts.take(2);
    assert(m[0] == ts[0] && m[1] == ts[1]);
    lemma_two_digits(m);
    let rest = ts.skip(3);
    assert(rest.len() == 5);
    assert(rest[0] == ts[3] && rest[1] == ts[4] && rest[2] == '.' && rest[3] == ts[6] && rest[4]
        == ts[7]);
    assert(find_in(rest, ':', 0, 5) is None) by {
        reveal_with_fuel(find_in, 6);
    }
    assert(piece_before(rest, ':') == rest);
    assert(find_in(rest, '.', 0, 5) == Some(2int));
    let sec = rest.take(2);
    assert(sec[0] == ts[3] && sec[1] == ts[4]);
    lemma_two_digits(sec);
    let h = rest.skip(3);
    assert(h.len() == 2 && h[0] == ts[6] && h[1] == ts[7]);
    lemma_two_digits(h);
    assert(piece_before(h, '.') == h);
}

/// For timestamps written as `mm:ss.xx`, the earlier time is the one that
/// comes first in dictionary order, and equal times are equal texts.
pub proof fn lemma_timestamp_order(a: Seq<char>, b: Seq<char>)
    requires
        is_mm_ss_xx(a),
        is_mm_ss_xx(b),
    ensures
        timestamp_millis(a) is Some,
        timestamp_millis(b) is Some,
        text_less(a, b) <==> timestamp_millis(a).unwrap() < timestamp_millis(b).unwrap(),
        a == b <==> timestamp_millis(a).unwrap() == timestamp_millis(b).unwrap(),
{
    lemma_mm_ss_xx_millis(a);
    lemma_mm_ss_xx_millis(b);
    reveal_with_fuel(text_less, 9);
    let a1 = a.drop_first();
    let a2 = a1.drop_first();
    let a3 = a2.drop_first();
    let a4 = a3.drop_first();
    let a5 = a4.drop_first();
    let a6 = a5.drop_first();
    let a7 = a6.drop_first();
    let b1 = b.drop_first();
    let b2 = b1.drop_first();
    let b3 = b2.drop_first();
    let b4 = b3.drop_first();
    let b5 = b4.drop_first();
    let b6 = b5.drop_first();
    let b7 = b6.drop_first();
    assert(a1[0] == a[1] && a2[0] == a[2] && a3[0] == a[3] && a4[0] == a[4] && a5[0] == a[5]
        && a6[0] == a[6] && a7[0] == a[7] && a7.len() == 1);
    assert(b1[0] == b[1] && b2[0] == b[2] && b3[0] == b[3] && b4[0] == b[4] && b5[0] == b[5]
        && b6[0] == b[6] && b7[0] == b[7] && b7.len() == 1);
    assert(a7.drop_first().len() == 0 && b7.drop_first().len() == 0);
    if a =~= b {
    }
}

} // verus!
