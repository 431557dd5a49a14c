//! Matching lyric files against a song: normalised names and the
//! `artist - title` split of a file name.

use vstd::prelude::*;
use vstd::string::StrSliceExecFns;

use crate::text::{
    char_is_alphanumeric, char_to_lowercase, chars_of, find_char, find_in, lemma_find_in,
    string_from_chars, trim, trim_range, unicode_alphanumeric, unicode_lowercase,
    lemma_trim_edges, lemma_trim_identity, trim_start, trim_start_len, unicode_white_space,
    ascii_lower, ascii_upper, is_ascii_alphanumeric, is_ascii_char,
};

verus! {

/// The lowercase mapping of every character of `s`, concatenated.
pub open spec fn lowered(s: Seq<char>) -> Seq<char>
    decreases s.len(),
{
    if s.len() == 0 {
        Seq::empty()
    } else {
        lowered(s.drop_last()) + unicode_lowercase(s.last())
    }
}

/// The alphanumeric characters of `s`, in order.
pub open spec fn alphanumerics(s: Seq<char>) -> Seq<char>
    decreases s.len(),
{
    if s.len() == 0 {
        Seq::empty()
    } else if unicode_alphanumeric(s.last()) {
        alphanumerics(s.drop_last()).push(s.last())
    } else {
        alphanumerics(s.drop_last())
    }
}

/// The alphanumeric characters of `s`, after a single space when `s` starts
/// with a character that is not alphanumeric.
pub open spec fn squeezed(s: Seq<char>) -> Seq<char> {
    if s.len() > 0 && !unicode_alphanumeric(s[0]) {
        seq![' '] + alphanumerics(s)
    } else {
        alphanumerics(s)
    }
}

/// The normal form of a name: lower-cased, with everything but letters and
/// digits dropped, and trimmed.
pub open spec fn normalized(s: Seq<char>) -> Seq<char> {
    trim(squeezed(lowered(s)))
}

/// Brings a name into the form in which names are compared: lower case,
/// letters and digits only.
pub fn normalize(input: &str) -> (r: String)
    ensures
        r@ == normalized(input@),
        r@ == alphanumerics(lowered(input@)),
        forall|k: int| 0 <= k < r@.len() ==> unicode_alphanumeric(#[trigger] r@[k]),
        forall|k: int| 0 <= k < r@.len() ==> !('A' <= #[trigger] r@[k] <= 'Z'),
{
    let chars = chars_of(input);
    let mut out: Vec<char> = Vec::new();
    let mut last_space = false;
    let mut i: usize = 0;
    while i < chars.len()
        invariant
            i <= chars@.len(),
            chars@ == input@,
            out@ == squeezed(lowered(chars@.take(i as int))),
            last_space ==> out@.len() > 0,
            out@.len() == 0 <==> lowered(chars@.take(i as int)).len() == 0,
            forall|k: int| 0 <= k < out@.len() ==> !('A' <= #[trigger] out@[k] <= 'Z'),
        decreases chars.len() - i,
    {
        let lower = char_to_lowercase(chars[i]);
        let ghost done = lowered(chars@.take(i as int));
        assert(chars@.take(i + 1).drop_last() =~= chars@.take(i as int));
        assert(lowered(chars@.take(i + 1)) == done + unicode_lowercase(chars@[i as int]));
        let mut j: usize = 0;
        while j < lower.len()
            invariant
                j <= lower@.len(),
                lower@ == unicode_lowercase(chars@[i as int]),
                out@ == squeezed(done + lower@.take(j as int)),
                last_space ==> out@.len() > 0,
                out@.len() == 0 <==> (done + lower@.take(j as int)).len() == 0,
                forall|k: int| 0 <= k < out@.len() ==> !('A' <= #[trigger] out@[k] <= 'Z'),
                forall|k: int| 0 <= k < lower@.len() ==> !('A' <= #[trigger] lower@[k] <= 'Z'),
            decreases lower.len() - j,
        {
            let ch = lower[j];
            let ghost p = done + lower@.take(j as int);
            let ghost q = done + lower@.take(j + 1);
            proof {
                assert(q =~= p.push(ch));
                assert(q.drop_last() =~= p);
                if p.len() > 0 {
                    assert(q[0] == p[0]);
                }
            }
            if char_is_alphanumeric(ch) {
                out.push(ch);
                last_space = false;
            } else {
                if !last_space && out.len() == 0 {
                    out.push(' ');
                    last_space = true;
                }
            }
            proof {
                if p.len() == 0 {
                    assert(alphanumerics(p) =~= Seq::<char>::empty());
                }
                assert(out@ =~= squeezed(q));
            }
            j += 1;
        }
        assert(lower@.take(j as int) =~= lower@);
        i += 1;
    }
    assert(chars@.take(i as int) =~= chars@);
    let (a, b) = trim_range(out.as_slice(), 0, out.len());
    assert(out@.subrange(0, out@.len() as int) =~= out@);
    let kept = vstd::slice::slice_subrange(out.as_slice(), a, b);
    proof {
        lemma_normalized_shape(input@);
        assert forall|k: int| 0 <= k < kept@.len() implies !('A' <= #[trigger] kept@[k] <= 'Z') by {
            assert(kept@[k] == out@[a + k]);
        }
    }
    string_from_chars(kept)
}

/// The artist and title in a name `artist - title`: the parts before and
/// after the first `-`, trimmed, when neither is empty.
pub open spec fn artist_title(s: Seq<char>) -> Option<(Seq<char>, Seq<char>)> {
    match find_in(s, '-', 0, s.len() as int) {
        Some(i) => {
            let a = trim(s.take(i));
            let t = trim(s.skip(i + 1));
            if a.len() > 0 && t.len() > 0 {
                Some((a, t))
            } else {
                None
            }
        },
        None => None,
    }
}

/// Splits a name `artist - title` at its first `-`; `None` when there is no
/// `-` or either side is blank.
pub fn split_artist_title(input: &str) -> (r: Option<(&str, &str)>)
    ensures
        r matches Some((a, t)) ==> artist_title(input@) == Some((a@, t@)),
        r is None ==> artist_title(input@) is None,
{
    let chars = chars_of(input);
    let n = chars.len();
    let dash = match find_char(chars.as_slice(), '-', 0, n) {
        Some(i) => i,
        None => return None,
    };
    proof {
        lemma_find_in(chars@, '-', 0, n as int);
    }
    let (a0, a1) = trim_range(chars.as_slice(), 0, dash);
    let (t0, t1) = trim_range(chars.as_slice(), dash + 1, n);
    assert(chars@.subrange(0, dash as int) =~= chars@.take(dash as int));
    assert(chars@.subrange(dash + 1, n as int) =~= chars@.skip(dash + 1));
    if a0 == a1 || t0 == t1 {
        return None;
    }
    Some((input.substring_char(a0, a1), input.substring_char(t0, t1)))
}

/// A normalised name is exactly the alphanumeric characters of the
/// lowercased name, in order: every character of it is alphanumeric, so it
/// holds no white space (and no space) at all.
pub proof fn lemma_normalized_shape(s: Seq<char>)
    ensures
        normalized(s) == alphanumerics(lowered(s)),
        forall|k: int|
            0 <= k < normalized(s).len() ==> unicode_alphanumeric(#[trigger] normalized(s)[k])
                && !unicode_white_space(normalized(s)[k]) && normalized(s)[k] != ' ',
{
    let l = lowered(s);
    let a = alphanumerics(l);
    lemma_alphanumerics_only(l);
    assert forall|k: int| 0 <= k < a.len() implies !unicode_white_space(#[trigger] a[k]) by {
        assert(unicode_alphanumeric(a[k]));
    }
    if l.len() > 0 && !unicode_alphanumeric(l[0]) {
        let q = seq![' '] + a;
        assert(q.drop_first() =~= a);
        lemma_trim_identity(a);
        assert(trim_start_len(a) == 0);
        assert(trim_start_len(q) == 1);
        assert(trim_start(q) =~= a);
    } else {
        lemma_trim_identity(a);
    }
}

proof fn lemma_alphanumerics_only(s: Seq<char>)
    ensures
        forall|k: int| 0 <= k < alphanumerics(s).len() ==> unicode_alphanumeric(#[trigger] alphanumerics(s)[k]),
    decreases s.len(),
{
    if s.len() > 0 {
        let a = alphanumerics(s.drop_last());
        lemma_alphanumerics_only(s.drop_last());
        assert forall|k: int| 0 <= k < alphanumerics(s).len() implies unicode_alphanumeric(
            #[trigger] alphanumerics(s)[k],
        ) by {
            if unicode_alphanumeric(s.last()) {
                assert(alphanumerics(s) == a.push(s.last()));
                if k < a.len() {
                    assert(alphanumerics(s)[k] == a[k]);
                }
            } else {
                assert(alphanumerics(s) == a);
            }
        }
    }
}

/// When a name splits into artist and title, both are non-empty, neither
/// starts or ends with white space, and the artist holds no `-`.
pub proof fn lemma_artist_title_shape(s: Seq<char>)
    ensures
        artist_title(s) matches Some((a, t)) ==> {
            &&& a.len() > 0 && t.len() > 0
            &&& !unicode_white_space(a[0]) && !unicode_white_space(a.last())
            &&& !unicode_white_space(t[0]) && !unicode_white_space(t.last())
            &&& forall|k: int| 0 <= k < a.len() ==> #[trigger] a[k] != '-'
        },
{
    lemma_find_in(s, '-', 0, s.len() as int);
    if let Some(i) = find_in(s, '-', 0, s.len() as int) {
        let x = s.take(i);
        lemma_trim_edges(x);
        lemma_trim_edges(s.skip(i + 1));
        crate::text::lemma_trim_bounds(x);
        assert forall|k: int| 0 <= k < trim(x).len() implies #[trigger] trim(x)[k] != '-' by {
            assert(trim(x)[k] == x[trim_start_len(x) + k]);
            assert(x[trim_start_len(x) + k] == s[trim_start_len(x) + k]);
        }
    }
}

/// Every character of `s` is in the ASCII range.
pub open spec fn all_ascii(s: Seq<char>) -> bool {
    forall|i: int| 0 <= i < s.len() ==> is_ascii_char(#[trigger] s[i])
}

/// `s` with `A` to `Z` turned into `a` to `z`, as `str::to_ascii_lowercase` does.
pub open spec fn ascii_lowercase_of(s: Seq<char>) -> Seq<char> {
    s.map_values(|c: char| ascii_lower(c))
}

/// `s` with `a` to `z` turned into `A` to `Z`, as `str::to_ascii_uppercase` does.
pub open spec fn ascii_uppercase_of(s: Seq<char>) -> Seq<char> {
    s.map_values(|c: char| ascii_upper(c))
}

proof fn lemma_char_cases(c: char)
    requires
        is_ascii_char(c),
    ensures
        is_ascii_char(ascii_upper(c)),
        is_ascii_char(ascii_lower(c)),
        ascii_lower(ascii_upper(c)) == ascii_lower(c),
        ascii_lower(ascii_lower(c)) == ascii_lower(c),
        !('A' <= ascii_lower(c) <= 'Z'),
        unicode_alphanumeric(ascii_lower(c)) == unicode_alphanumeric(c),
{
}

proof fn lemma_lowered_ascii(s: Seq<char>)
    requires
        all_ascii(s),
    ensures
        lowered(s) == ascii_lowercase_of(s),
    decreases s.len(),
{
    if s.len() > 0 {
        let d = s.drop_last();
        assert(all_ascii(d)) by {
            assert forall|i: int| 0 <= i < d.len() implies is_ascii_char(#[trigger] d[i]) by {
                assert(d[i] == s[i]);
            }
        }
        lemma_lowered_ascii(d);
        assert(is_ascii_char(s.last()));
        assert(ascii_lowercase_of(s) =~= ascii_lowercase_of(d) + seq![ascii_lower(s.last())]);
    }
}

/// The alphanumerics of `s` are characters of `s`.
proof fn lemma_alphanumerics_from(s: Seq<char>)
    ensures
        forall|k: int|
            0 <= k < alphanumerics(s).len() ==> exists|j: int|
                0 <= j < s.len() && s[j] == #[trigger] alphanumerics(s)[k],
        alphanumerics(s).len() <= s.len(),
    decreases s.len(),
{
    if s.len() > 0 {
        let d = s.drop_last();
        lemma_alphanumerics_from(d);
        let a = alphanumerics(d);
        assert forall|k: int| 0 <= k < alphanumerics(s).len() implies exists|j: int|
            0 <= j < s.len() && s[j] == #[trigger] alphanumerics(s)[k] by {
            if k < a.len() {
                assert(alphanumerics(s)[k] == a[k]);
                let j = choose|j: int| 0 <= j < d.len() && d[j] == a[k];
                assert(s[j] == d[j]);
            } else {
                assert(alphanumerics(s)[k] == s.last());
                assert(s[s.len() - 1] == s.last());
            }
        }
    }
}

/// A sequence of alphanumerics is its own alphanumerics.
proof fn lemma_alphanumerics_of_alphanumerics(s: Seq<char>)
    requires
        forall|i: int| 0 <= i < s.len() ==> unicode_alphanumeric(#[trigger] s[i]),
    ensures
        alphanumerics(s) == s,
    decreases s.len(),
{
    if s.len() > 0 {
        let d = s.drop_last();
        assert forall|i: int| 0 <= i < d.len() implies unicode_alphanumeric(#[trigger] d[i]) by {
            assert(d[i] == s[i]);
        }
        lemma_alphanumerics_of_alphanumerics(d);
        assert(unicode_alphanumeric(s[s.len() - 1]));
        assert(d.push(s.last()) =~= s);
    }
}

/// For a name in ASCII, the normal form is its lowercase letters and digits.
proof fn lemma_normalized_ascii(s: Seq<char>)
    requires
        all_ascii(s),
    ensures
        normalized(s) == alphanumerics(ascii_lowercase_of(s)),
        forall|i: int|
            0 <= i < normalized(s).len() ==> is_ascii_alphanumeric(#[trigger] normalized(s)[i])
                && !('A' <= normalized(s)[i] <= 'Z'),
{
    lemma_lowered_ascii(s);
    let l = ascii_lowercase_of(s);
    let a = alphanumerics(l);
    lemma_alphanumerics_from(l);
    lemma_normalized_shape(s);
    assert forall|k: int| 0 <= k < a.len() implies is_ascii_alphanumeric(#[trigger] a[k]) && !(
    'A' <= a[k] <= 'Z') by {
        let j = choose|j: int| 0 <= j < l.len() && l[j] == a[k];
        assert(l[j] == ascii_lower(s[j]));
        lemma_char_cases(s[j]);
    }
}

/// Normalising a name written in ASCII is unaffected by its ASCII case.
pub proof fn lemma_normalize_ignores_ascii_case(s: Seq<char>)
    requires
        all_ascii(s),
    ensures
        normalized(ascii_uppercase_of(s)) == normalized(s),
        normalized(ascii_lowercase_of(s)) == normalized(s),
{
    let u = ascii_uppercase_of(s);
    let w = ascii_lowercase_of(s);
    assert forall|i: int| 0 <= i < u.len() implies is_ascii_char(#[trigger] u[i]) by {
        lemma_char_cases(s[i]);
    }
    assert forall|i: int| 0 <= i < w.len() implies is_ascii_char(#[trigger] w[i]) by {
        lemma_char_cases(s[i]);
    }
    lemma_lowered_ascii(s);
    lemma_lowered_ascii(u);
    lemma_lowered_ascii(w);
    assert forall|i: int| 0 <= i < s.len() implies ascii_lowercase_of(u)[i] == ascii_lowercase_of(
        s,
    )[i] && ascii_lowercase_of(w)[i] == ascii_lowercase_of(s)[i] by {
        lemma_char_cases(s[i]);
    }
    assert(ascii_lowercase_of(u) =~= ascii_lowercase_of(s));
    assert(ascii_lowercase_of(w) =~= ascii_lowercase_of(s));
}

/// Normalising a name written in ASCII a second time changes nothing.
pub proof fn lemma_normalize_idempotent_ascii(s: Seq<char>)
    requires
        all_ascii(s),
    ensures
        normalized(normalized(s)) == normalized(s),
{
    lemma_normalized_ascii(s);
    let n = normalized(s);
    assert(all_ascii(n));
    lemma_normalized_ascii(n);
    assert forall|i: int| 0 <= i < n.len() implies ascii_lowercase_of(n)[i] == n[i] by {}
    assert(ascii_lowercase_of(n) =~= n);
    assert forall|i: int| 0 <= i < n.len() implies unicode_alphanumeric(#[trigger] n[i]) by {}
    lemma_alphanumerics_of_alphanumerics(n);
}

/// A name `artist-title` whose artist part holds no `-` splits at that `-`:
/// into the trimmed artist and the trimmed title, whatever the title holds
/// (further dashes included), exactly when neither trimmed part is empty.
pub proof fn lemma_split_at_first_dash(a: Seq<char>, t: Seq<char>)
    requires
        forall|i: int| 0 <= i < a.len() ==> a[i] != '-',
    ensures
        artist_title(a + seq!['-'] + t) == (if trim(a).len() > 0 && trim(t).len() > 0 {
            Some((trim(a), trim(t)))
        } else {
            None
        }),
{
    let s = a + seq!['-'] + t;
    crate::text::lemma_find_in_at(s, '-', 0, a.len() as int, s.len() as int);
    assert(s.take(a.len() as int) =~= a);
    assert(s.skip(a.len() + 1 as int) =~= t);
}

/// A name without a `-` does not split.
pub proof fn lemma_no_dash_no_split(s: Seq<char>)
    requires
        forall|i: int| 0 <= i < s.len() ==> s[i] != '-',
    ensures
        artist_title(s) is None,
{
    crate::text::lemma_find_in_absent(s, '-', 0, s.len() as int);
}

} // verus!
