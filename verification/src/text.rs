//! Character classes, searching and trimming over sequences of `char`.

use vstd::prelude::*;

verus! {

/// The Unicode `White_Space` property (PropList.txt), which `char::is_whitespace`
/// reports: tab, line feed, vertical tab, form feed, carriage return, space,
/// next line, no-break space, ogham space mark, the spaces U+2000 to U+200A,
/// line and paragraph separators, narrow no-break space, medium mathematical
/// space and ideographic space.
pub open spec fn unicode_white_space(c: char) -> bool {
    let v = c as int;
    ||| 0x09 <= v <= 0x0D
    ||| v == 0x20
    ||| v == 0x85
    ||| v == 0xA0
    ||| v == 0x1680
    ||| 0x2000 <= v <= 0x200A
    ||| v == 0x2028
    ||| v == 0x2029
    ||| v == 0x202F
    ||| v == 0x205F
    ||| v == 0x3000
}

/// A character in the ASCII range.
pub open spec fn is_ascii_char(c: char) -> bool {
    (c as int) < 0x80
}

/// An ASCII letter or digit.
pub open spec fn is_ascii_alphanumeric(c: char) -> bool {
    ||| 'a' <= c <= 'z'
    ||| 'A' <= c <= 'Z'
    ||| '0' <= c <= '9'
}

/// The ASCII lowercase of a character: `A` to `Z` become `a` to `z`, every
/// other character stays as it is.
pub open spec fn ascii_lower(c: char) -> char {
    if 'A' <= c <= 'Z' {
        ((c as int) + 32) as char
    } else {
        c
    }
}

/// The ASCII uppercase of a character: `a` to `z` become `A` to `Z`, every
/// other character stays as it is.
pub open spec fn ascii_upper(c: char) -> char {
    if 'a' <= c <= 'z' {
        ((c as int) - 32) as char
    } else {
        c
    }
}

/// Whether a character outside the ASCII range and outside `White_Space` is
/// alphanumeric, as `char::is_alphanumeric` reports it.
pub uninterp spec fn alphanumeric_beyond_ascii(c: char) -> bool;

/// The lowercase mapping of a character outside the ASCII range, as
/// `char::to_lowercase` yields it.
pub uninterp spec fn lowercase_beyond_ascii(c: char) -> Seq<char>;

/// The Unicode alphanumeric class of a character (`Alphabetic` or `Numeric`),
/// as `char::is_alphanumeric` reports it: in the ASCII range, the letters and
/// the digits; a `White_Space` character (general category Zs, Zl, Zp or Cc)
/// is never alphanumeric.
pub open spec fn unicode_alphanumeric(c: char) -> bool {
    if is_ascii_char(c) {
        is_ascii_alphanumeric(c)
    } else {
        !unicode_white_space(c) && alphanumeric_beyond_ascii(c)
    }
}

/// The characters of the Unicode lowercase mapping of a character, as
/// `char::to_lowercase` yields them: in the ASCII range, the ASCII lowercase.
pub open spec fn unicode_lowercase(c: char) -> Seq<char> {
    if is_ascii_char(c) {
        seq![ascii_lower(c)]
    } else {
        lowercase_beyond_ascii(c)
    }
}

/// Whether a character has the Unicode `White_Space` property (what
/// `char::is_whitespace` reports).
pub fn char_is_whitespace(c: char) -> (r: bool)
    ensures
        r == unicode_white_space(c),
{
    let v = c as u32;
    (0x09 <= v && v <= 0x0D) || v == 0x20 || v == 0x85 || v == 0xA0 || v == 0x1680 || (0x2000 <= v
        && v <= 0x200A) || v == 0x2028 || v == 0x2029 || v == 0x202F || v == 0x205F || v == 0x3000
}

/// Calls `char::is_alphanumeric`.  The contract states that in the ASCII range
/// exactly the letters and digits are alphanumeric (they are `Alphabetic` or
/// `Numeric` in the Unicode Character Database), and that no `White_Space`
/// character is (those are of general category Zs, Zl, Zp or Cc, which are
/// neither); for other characters it names the result.
#[verifier::external_body]
pub(crate) fn char_is_alphanumeric(c: char) -> (r: bool)
    ensures
        r == unicode_alphanumeric(c),
        unicode_white_space(c) ==> !r,
        !is_ascii_char(c) && !unicode_white_space(c) ==> r == alphanumeric_beyond_ascii(c),
{
    c.is_alphanumeric()
}

/// Calls `char::to_lowercase` and collects what it yields.  The contract
/// states that an ASCII character maps to its ASCII lowercase (the one-to-one
/// mapping of UnicodeData.txt there); beyond ASCII it names the result and, as
/// the documentation promises, says that it holds one or more characters, none
/// of them an ASCII capital letter (no lowercase mapping in UnicodeData.txt or
/// SpecialCasing.txt yields one).
#[verifier::external_body]
pub(crate) fn char_to_lowercase(c: char) -> (r: Vec<char>)
    ensures
        r@ == unicode_lowercase(c),
        !is_ascii_char(c) ==> r@ == lowercase_beyond_ascii(c),
        r@.len() >= 1,
        forall|i: int| 0 <= i < r@.len() ==> !('A' <= #[trigger] r@[i] <= 'Z'),
{
    c.to_lowercase().collect()
}

/// The number of bytes of a character in UTF-8.
pub open spec fn utf8_width(c: char) -> nat {
    let v = c as int;
    if v < 0x80 {
        1
    } else if v < 0x800 {
        2
    } else if v < 0x10000 {
        3
    } else {
        4
    }
}

/// The number of bytes of a sequence of characters in UTF-8.
pub open spec fn utf8_len(s: Seq<char>) -> nat
    decreases s.len(),
{
    if s.len() == 0 {
        0
    } else {
        utf8_len(s.drop_last()) + utf8_width(s.last())
    }
}

/// The UTF-8 length of a concatenation is the sum of the lengths.
pub proof fn lemma_utf8_len_add(a: Seq<char>, b: Seq<char>)
    ensures
        utf8_len(a + b) == utf8_len(a) + utf8_len(b),
    decreases b.len(),
{
    if b.len() == 0 {
        assert(a + b =~= a);
    } else {
        lemma_utf8_len_add(a, b.drop_last());
        assert((a + b).drop_last() =~= a + b.drop_last());
    }
}

/// The number of bytes of a character in UTF-8.
pub fn char_utf8_width(c: char) -> (r: usize)
    ensures
        r == utf8_width(c),
        1 <= r <= 4,
{
    let v = c as u32;
    if v < 0x80 {
        1
    } else if v < 0x800 {
        2
    } else if v < 0x10000 {
        3
    } else {
        4
    }
}

/// Collects the characters of a string slice, in order.
pub fn chars_of(s: &str) -> (v: Vec<char>)
    ensures
        v@ == s@,
{
    let mut v: Vec<char> = Vec::new();
    for c in it: s.chars()
        invariant
            v@ == it.seq().take(it.index()),
    {
        v.push(c);
    }
    v
}

/// The first index `i` with `from <= i < to` at which `s` holds `c`.
pub open spec fn find_in(s: Seq<char>, c: char, from: int, to: int) -> Option<int>
    decreases to - from,
{
    if from >= to {
        None
    } else if s[from] == c {
        Some(from)
    } else {
        find_in(s, c, from + 1, to)
    }
}

/// A found index lies in the searched range and holds the character; a miss
/// means the character does not occur in the range.
pub proof fn lemma_find_in(s: Seq<char>, c: char, from: int, to: int)
    ensures
        find_in(s, c, from, to) matches Some(i) ==> from <= i < to && s[i] == c && (forall|j: int|
            from <= j < i ==> s[j] != c),
        find_in(s, c, from, to) is None ==> forall|j: int| from <= j < to ==> s[j] != c,
    decreases to - from,
{
    if from < to {
        lemma_find_in(s, c, from + 1, to);
    }
}

/// The search for `c` may skip a stretch that holds no `c`.
pub proof fn lemma_find_in_skip(s: Seq<char>, c: char, from: int, k: int, to: int)
    requires
        from <= k,
        forall|j: int| from <= j < k && j < to ==> s[j] != c,
    ensures
        find_in(s, c, from, to) == find_in(s, c, k, to),
    decreases k - from,
{
    if from < k && from < to {
        lemma_find_in_skip(s, c, from + 1, k, to);
    }
}

/// The search finds `c` at the first place in the range that holds it.
pub proof fn lemma_find_in_at(s: Seq<char>, c: char, from: int, k: int, to: int)
    requires
        from <= k < to,
        s[k] == c,
        forall|j: int| from <= j < k ==> s[j] != c,
    ensures
        find_in(s, c, from, to) == Some(k),
{
    lemma_find_in_skip(s, c, from, k, to);
}

/// The search for `c` fails on a range that holds no `c`.
pub proof fn lemma_find_in_absent(s: Seq<char>, c: char, from: int, to: int)
    requires
        forall|j: int| from <= j < to ==> s[j] != c,
    ensures
        find_in(s, c, from, to) is None,
{
    if from < to {
        lemma_find_in_skip(s, c, from, to, to);
    }
}

/// Finds the first `c` in `s[from..to]`.
pub fn find_char(s: &[char], c: char, from: usize, to: usize) -> (r: Option<usize>)
    requires
        from <= to <= s@.len(),
    ensures
        r matches Some(i) ==> find_in(s@, c, from as int, to as int) == Some(i as int),
        r is None ==> find_in(s@, c, from as int, to as int) is None,
{
    let mut k = from;
    while k < to
        invariant
            from <= k <= to <= s@.len(),
            forall|j: int| from <= j < k ==> s@[j] != c,
        decreases to - k,
    {
        if s[k] == c {
            proof {
                lemma_find_in_skip(s@, c, from as int, k as int, to as int);
            }
            return Some(k);
        }
        k += 1;
    }
    proof {
        lemma_find_in_skip(s@, c, from as int, k as int, to as int);
    }
    None
}

/// The length of `s` once its trailing white space is removed.
pub open spec fn trim_end_len(s: Seq<char>) -> nat
    decreases s.len(),
{
    if s.len() > 0 && unicode_white_space(s.last()) {
        trim_end_len(s.drop_last())
    } else {
        s.len()
    }
}

/// The number of leading white-space characters of `s`.
pub open spec fn trim_start_len(s: Seq<char>) -> nat
    decreases s.len(),
{
    if s.len() > 0 && unicode_white_space(s[0]) {
        1 + trim_start_len(s.drop_first())
    } else {
        0
    }
}

/// `s` without its leading white space.
pub open spec fn trim_start(s: Seq<char>) -> Seq<char> {
    s.skip(trim_start_len(s) as int)
}

/// `s` without its trailing white space.
pub open spec fn trim_end(s: Seq<char>) -> Seq<char> {
    s.take(trim_end_len(s) as int)
}

/// `s` without leading and trailing white space.
pub open spec fn trim(s: Seq<char>) -> Seq<char> {
    trim_end(trim_start(s))
}

/// Facts about trimming: the lengths stay in range, and what is left neither
/// starts nor ends with white space.
pub proof fn lemma_trim_bounds(s: Seq<char>)
    ensures
        trim_end_len(s) <= s.len(),
        trim_start_len(s) <= s.len(),
        trim_end_len(s) > 0 ==> !unicode_white_space(s[trim_end_len(s) - 1]),
        trim_start_len(s) < s.len() ==> !unicode_white_space(s[trim_start_len(s) as int]),
        forall|i: int| trim_end_len(s) <= i < s.len() ==> unicode_white_space(#[trigger] s[i]),
        forall|i: int| 0 <= i < trim_start_len(s) ==> unicode_white_space(#[trigger] s[i]),
    decreases s.len(),
{
    if s.len() > 0 {
        lemma_trim_bounds(s.drop_last());
        lemma_trim_bounds(s.drop_first());
        if unicode_white_space(s[0]) {
            assert forall|i: int| 0 <= i < trim_start_len(s) implies unicode_white_space(
                #[trigger] s[i],
            ) by {
                if i > 0 {
                    assert(s[i] == s.drop_first()[i - 1]);
                }
            }
        }
        if unicode_white_space(s.last()) {
            assert forall|i: int| trim_end_len(s) <= i < s.len() implies unicode_white_space(
                #[trigger] s[i],
            ) by {
                if i < s.len() - 1 {
                    assert(s[i] == s.drop_last()[i]);
                }
            }
        }
    }
}

/// What trimming leaves is a contiguous part of `s` that, unless empty,
/// neither starts nor ends with white space.
pub proof fn lemma_trim_edges(s: Seq<char>)
    ensures
        trim(s).len() <= s.len(),
        trim_start_len(s) + trim(s).len() <= s.len(),
        trim(s).len() > 0 ==> !unicode_white_space(trim(s)[0]) && !unicode_white_space(
            trim(s).last(),
        ),
        forall|k: int|
            0 <= k < trim(s).len() ==> #[trigger] trim(s)[k] == s[trim_start_len(s) + k],
{
    lemma_trim_bounds(s);
    let u = trim_start(s);
    lemma_trim_bounds(u);
    if trim(s).len() > 0 {
        assert(trim(s)[0] == u[0]);
        assert(u[0] == s[trim_start_len(s) as int]);
        assert(trim(s).last() == u[trim_end_len(u) - 1]);
    }
}

/// A sequence that neither starts nor ends with white space is its own trim.
pub proof fn lemma_trim_identity(x: Seq<char>)
    requires
        x.len() > 0 ==> !unicode_white_space(x[0]) && !unicode_white_space(x.last()),
    ensures
        trim(x) == x,
{
    assert(trim_start(x) =~= x);
    assert(trim(x) =~= x);
}

/// The end of `s[lo..hi]` once trailing white space is removed, as an index into `s`.
pub fn trim_end_index(s: &[char], lo: usize, hi: usize) -> (r: usize)
    requires
        lo <= hi <= s@.len(),
    ensures
        r == lo + trim_end_len(s@.subrange(lo as int, hi as int)),
{
    let mut k = hi;
    while k > lo
        invariant
            lo <= k <= hi <= s@.len(),
            trim_end_len(s@.subrange(lo as int, hi as int)) == trim_end_len(
                s@.subrange(lo as int, k as int),
            ),
        ensures
            trim_end_len(s@.subrange(lo as int, hi as int)) == k - lo,
        decreases k,
    {
        if !char_is_whitespace(s[k - 1]) {
            assert(s@.subrange(lo as int, k as int).last() == s@[k - 1]);
            break;
        }
        assert(s@.subrange(lo as int, k as int).drop_last() =~= s@.subrange(
            lo as int,
            k - 1 as int,
        ));
        k -= 1;
    }
    k
}

/// The start of `s[lo..hi]` once leading white space is removed, as an index into `s`.
pub fn trim_start_index(s: &[char], lo: usize, hi: usize) -> (r: usize)
    requires
        lo <= hi <= s@.len(),
    ensures
        r == lo + trim_start_len(s@.subrange(lo as int, hi as int)),
{
    let mut k = lo;
    while k < hi
        invariant
            lo <= k <= hi <= s@.len(),
            trim_start_len(s@.subrange(lo as int, hi as int)) == (k - lo) + trim_start_len(
                s@.subrange(k as int, hi as int),
            ),
        ensures
            trim_start_len(s@.subrange(lo as int, hi as int)) == k - lo,
        decreases hi - k,
    {
        if !char_is_whitespace(s[k]) {
            assert(s@.subrange(k as int, hi as int)[0] == s@[k as int]);
            break;
        }
        assert(s@.subrange(k as int, hi as int).drop_first() =~= s@.subrange(
            k + 1 as int,
            hi as int,
        ));
        k += 1;
    }
    k
}

/// The range of `s[lo..hi]` that is left once leading and trailing white space
/// is removed.
pub fn trim_range(s: &[char], lo: usize, hi: usize) -> (r: (usize, usize))
    requires
        lo <= hi <= s@.len(),
    ensures
        lo <= r.0 <= r.1 <= hi,
        s@.subrange(r.0 as int, r.1 as int) == trim(s@.subrange(lo as int, hi as int)),
{
    let a = trim_start_index(s, lo, hi);
    proof {
        lemma_trim_bounds(s@.subrange(lo as int, hi as int));
    }
    let b = trim_end_index(s, a, hi);
    proof {
        lemma_trim_bounds(s@.subrange(a as int, hi as int));
        assert(s@.subrange(a as int, hi as int) =~= trim_start(s@.subrange(lo as int, hi as int)));
        assert(s@.subrange(a as int, b as int) =~= trim_end(s@.subrange(a as int, hi as int)));
    }
    (a, b)
}

/// Calls `String::from_iter` on characters: the string holds them in order.
#[verifier::external_body]
pub(crate) fn string_from_chars(s: &[char]) -> (r: String)
    ensures
        r@ == s@,
{
    s.iter().collect()
}

} // verus!
