//! Lyric files with `[mm:ss.xx]` timestamps: parsing, the line that is current
//! at a playback position, and the text of a line.

use vstd::prelude::*;
use vstd::string::StrSliceExecFns;
use vstd::slice::slice_subrange;

use crate::text::{
    char_is_whitespace, char_utf8_width, chars_of, find_char, find_in, lemma_find_in,
    lemma_utf8_len_add, lemma_trim_identity, trim, trim_end_index, trim_end_len, trim_start, unicode_white_space,
    utf8_len, utf8_width,
};
use crate::timestamp::{parse_timestamp_chars, timestamp_millis};

verus! {

/// One timed line: the time at which it starts, in milliseconds, and the
/// character range of its text in the source.  The start is `None` when the
/// text would begin inside a character (see [`text_start`]).
#[derive(Debug, Clone, Copy)]
pub struct LyricLine {
    pub time: u128,
    pub text_start: Option<usize>,
    pub text_end: usize,
}

/// A parsed lyric file: its source text and its timed lines, ordered by time.
#[derive(Debug)]
pub struct Lyrics {
    source: String,
    lines: Vec<LyricLine>,
}

// ---------------------------------------------------------------------------
// What a lyric file holds
// ---------------------------------------------------------------------------

/// The end of the line that starts at `ls`: just past its `\n`, or the end of `s`.
pub open spec fn line_end(s: Seq<char>, ls: int) -> int {
    match find_in(s, '\n', ls, s.len() as int) {
        Some(i) => i + 1,
        None => s.len() as int,
    }
}

/// Scans `s[p..le]` for bracketed tags `[...]`, left to right.  Gives the
/// times of the tags that read as timestamps, in order, and the position just
/// past the last closed tag (or `p` when there is none).  A `[` without a
/// later `]` ends the scan.
pub open spec fn scan_tags(s: Seq<char>, p: int, le: int) -> (Seq<u128>, int)
    decreases le - p,
{
    match find_in(s, '[', p, le) {
        None => (seq![], p),
        Some(j) => match find_in(s, ']', j, le) {
            None => (seq![], p),
            Some(k) => {
                proof {
                    lemma_find_in(s, '[', p, le);
                    lemma_find_in(s, ']', j, le);
                }
                let rest = scan_tags(s, k + 1, le);
                match timestamp_millis(s.subrange(j + 1, k)) {
                    Some(t) => (seq![t] + rest.0, rest.1),
                    None => rest,
                }
            }
        },
    }
}

/// The first position at or after `p` in `s[..le]` that is not white space
/// (a line feed counts as not white space here).
pub open spec fn skip_blank(s: Seq<char>, p: int, le: int) -> int
    decreases le - p,
{
    if p < le && s[p] != '\n' && unicode_white_space(s[p]) {
        skip_blank(s, p + 1, le)
    } else {
        p
    }
}

/// The character at which `k` bytes of UTF-8, counted from the start of
/// `s[p]`, end; `None` when they end inside a character.
pub open spec fn char_after_bytes(s: Seq<char>, p: int, k: int) -> Option<int>
    decreases k,
{
    if k <= 0 {
        Some(p)
    } else if p < 0 || p >= s.len() {
        None
    } else if utf8_width(s[p]) <= k {
        char_after_bytes(s, p + 1, k - utf8_width(s[p]))
    } else {
        None
    }
}

/// Where the text of a line starts, when its tags end at `p`, the white
/// space after them ends at `q` and its text ends at `te`.  The start is
/// measured as the file does it: `q - p` bytes (one per white-space
/// character skipped) past `p`, but no further than `te`.  `None` when that
/// byte position falls inside a character, which happens when a skipped
/// white-space character takes more than one byte in UTF-8.
pub open spec fn text_start(s: Seq<char>, p: int, q: int, te: int) -> Option<int> {
    if te < p || q - p > utf8_len(s.subrange(p, te)) {
        Some(te)
    } else {
        char_after_bytes(s, p, q - p)
    }
}

/// The timed lines that the line `s[ls..le]` gives: one per timestamp tag, in
/// the order of the tags, all with the same text.  The text ends before the
/// line's trailing white space and starts as [`text_start`] says, after the
/// last tag and the white space that follows it.
pub open spec fn line_entries(s: Seq<char>, ls: int, le: int) -> Seq<LyricLine> {
    let scan = scan_tags(s, ls, le);
    let te = ls + trim_end_len(s.subrange(ls, le));
    let st = match text_start(s, scan.1, skip_blank(s, scan.1, le), te) {
        Some(c) => Some(c as usize),
        None => None,
    };
    scan.0.map_values(|t: u128| LyricLine { time: t, text_start: st, text_end: te as usize })
}

/// The timed lines of the lines of `s` from position `ls` on, in file order.
pub open spec fn entries_from(s: Seq<char>, ls: int) -> Seq<LyricLine>
    decreases s.len() - ls,
{
    if ls >= s.len() {
        seq![]
    } else {
        proof {
            lemma_find_in(s, '\n', ls, s.len() as int);
        }
        line_entries(s, ls, line_end(s, ls)) + entries_from(s, line_end(s, ls))
    }
}

/// The timed lines of a lyric file, in file order.
pub open spec fn lyric_entries(s: Seq<char>) -> Seq<LyricLine> {
    entries_from(s, 0)
}

/// How many of the entries start at or before `t`.
pub open spec fn entries_started_by(s: Seq<LyricLine>, t: u128) -> nat
    decreases s.len(),
{
    if s.len() == 0 {
        0
    } else {
        entries_started_by(s.drop_last(), t) + if s.last().time <= t {
            1nat
        } else {
            0nat
        }
    }
}

/// Inserts `x` into `s` after every entry that does not start later than it.
pub open spec fn insert_by_time(s: Seq<LyricLine>, x: LyricLine) -> Seq<LyricLine> {
    s.insert(entries_started_by(s, x.time) as int, x)
}

/// `s` ordered by time; entries with equal times keep their order (a stable sort).
pub open spec fn sort_by_time(s: Seq<LyricLine>) -> Seq<LyricLine>
    decreases s.len(),
{
    if s.len() == 0 {
        s
    } else {
        insert_by_time(sort_by_time(s.drop_last()), s.last())
    }
}

/// The entries of `s` are in order of time.
pub open spec fn entries_sorted(s: Seq<LyricLine>) -> bool {
    forall|i: int, j: int| 0 <= i <= j < s.len() ==> s[i].time <= s[j].time
}

/// The text of an entry of `s`; `None` when it would start inside a character.
pub open spec fn entry_text(s: Seq<char>, l: LyricLine) -> Option<Seq<char>> {
    match l.text_start {
        Some(a) => Some(s.subrange(a as int, l.text_end as int)),
        None => None,
    }
}

/// The timed lines of a lyric file as (time in milliseconds, text), ordered by
/// time, lines of equal time in file order.  A text is `None` when it would
/// start inside a character.
pub open spec fn timed_lines(s: Seq<char>) -> Seq<(u128, Option<Seq<char>>)> {
    sort_by_time(lyric_entries(s)).map_values(|l: LyricLine| (l.time, entry_text(s, l)))
}

/// How many of the timed lines start at or before `t`.
pub open spec fn lines_started_by(lines: Seq<(u128, Option<Seq<char>>)>, t: u128) -> nat
    decreases lines.len(),
{
    if lines.len() == 0 {
        0
    } else {
        lines_started_by(lines.drop_last(), t) + if lines.last().0 <= t {
            1nat
        } else {
            0nat
        }
    }
}

/// The text of line `number`, counting from 1; empty for 0 and past the last line.
pub open spec fn line_text(lines: Seq<(u128, Option<Seq<char>>)>, number: int) -> Seq<char> {
    if 1 <= number <= lines.len() {
        match lines[number - 1].1 {
            Some(x) => x,
            None => Seq::empty(),
        }
    } else {
        Seq::empty()
    }
}

/// Whether line `number` can be read: it is 0, past the last line, or its text
/// does not start inside a character.
pub open spec fn line_readable(lines: Seq<(u128, Option<Seq<char>>)>, number: int) -> bool {
    1 <= number <= lines.len() ==> lines[number - 1].1 is Some
}

/// A lyric line's fields lie within a text of length `n`.
pub open spec fn entry_in_bounds(l: LyricLine, n: int) -> bool {
    &&& l.text_end <= n
    &&& l.text_start matches Some(a) ==> a <= l.text_end
}

// ---------------------------------------------------------------------------
// Parsing
// ---------------------------------------------------------------------------

proof fn lemma_utf8_len_split(s: Seq<char>, p: int, c: int, e: int)
    requires
        0 <= p <= c <= e <= s.len(),
    ensures
        utf8_len(s.subrange(p, e)) == utf8_len(s.subrange(p, c)) + utf8_len(s.subrange(c, e)),
        c < e ==> utf8_len(s.subrange(c, e)) >= utf8_width(s[c]),
{
    lemma_utf8_len_add(s.subrange(p, c), s.subrange(c, e));
    assert(s.subrange(p, c) + s.subrange(c, e) =~= s.subrange(p, e));
    if c < e {
        lemma_utf8_len_add(seq![s[c]], s.subrange(c + 1, e));
        assert(seq![s[c]] + s.subrange(c + 1, e) =~= s.subrange(c, e));
        assert(seq![s[c]].drop_last() =~= Seq::<char>::empty());
    }
}

/// Finds where the text of a line starts (see [`text_start`]).
fn locate_text_start(s: &[char], p: usize, q: usize, te: usize) -> (r: Option<usize>)
    requires
        p <= q <= s@.len(),
        te <= s@.len(),
    ensures
        r == (match text_start(s@, p as int, q as int, te as int) {
            Some(c) => Some(c as usize),
            None => None,
        }),
        r matches Some(c) ==> c <= te,
{
    if te < p {
        return Some(te);
    }
    let k = q - p;
    let mut c = p;
    let mut acc: usize = 0;
    while acc < k
        invariant
            p <= c <= te <= s@.len(),
            k == q - p,
            acc <= k,
            acc == utf8_len(s@.subrange(p as int, c as int)),
            char_after_bytes(s@, p as int, k as int) == char_after_bytes(
                s@,
                c as int,
                k - acc,
            ),
        decreases k - acc,
    {
        proof {
            lemma_utf8_len_split(s@, p as int, c as int, te as int);
        }
        if c >= te {
            return Some(te);
        }
        let w = char_utf8_width(s[c]);
        if w > k - acc {
            return None;
        }
        assert(s@.subrange(p as int, c + 1).drop_last() =~= s@.subrange(p as int, c as int));
        acc = acc + w;
        c = c + 1;
    }
    proof {
        lemma_utf8_len_split(s@, p as int, c as int, te as int);
    }
    Some(c)
}

/// Appends to `out` the timed lines of the line `s[ls..le]`.
fn scan_line(s: &Vec<char>, ls: usize, le: usize, out: &mut Vec<LyricLine>)
    requires
        ls <= le <= s@.len(),
    ensures
        final(out)@ == old(out)@ + line_entries(s@, ls as int, le as int),
        forall|i: int|
            0 <= i < line_entries(s@, ls as int, le as int).len() ==> entry_in_bounds(
                #[trigger] line_entries(s@, ls as int, le as int)[i],
                le as int,
            ),
{
    let ghost sv = s@;
    let mut stamps: Vec<u128> = Vec::new();
    let mut p: usize = ls;
    loop
        invariant
            ls <= p <= le <= sv.len(),
            sv == s@,
            scan_tags(sv, ls as int, le as int) == (
                stamps@ + scan_tags(sv, p as int, le as int).0,
                scan_tags(sv, p as int, le as int).1,
            ),
        ensures
            ls <= p <= le,
            scan_tags(sv, ls as int, le as int) == (stamps@, p as int),
        decreases le - p,
    {
        let j = match find_char(s.as_slice(), '[', p, le) {
            Some(j) => j,
            None => {
                assert(stamps@ + seq![] =~= stamps@);
                break ;
            },
        };
        proof {
            lemma_find_in(sv, '[', p as int, le as int);
        }
        let k = match find_char(s.as_slice(), ']', j, le) {
            Some(k) => k,
            None => {
                assert(stamps@ + seq![] =~= stamps@);
                break ;
            },
        };
        proof {
            lemma_find_in(sv, ']', j as int, le as int);
        }
        let ts = slice_subrange(s.as_slice(), j + 1, k);
        match parse_timestamp_chars(ts) {
            Some(t) => {
                assert(stamps@.push(t) + scan_tags(sv, k + 1, le as int).0 =~= stamps@ + (seq![t]
                    + scan_tags(sv, k + 1, le as int).0));
                stamps.push(t);
            },
            None => {},
        }
        p = k + 1;
    }
    let mut q: usize = p;
    while q < le
        invariant
            p <= q <= le <= sv.len(),
            sv == s@,
            skip_blank(sv, p as int, le as int) == skip_blank(sv, q as int, le as int),
        ensures
            skip_blank(sv, p as int, le as int) == q,
        decreases le - q,
    {
        let c = s[q];
        if c == '\n' || !char_is_whitespace(c) {
            break ;
        }
        q += 1;
    }
    let te = trim_end_index(s.as_slice(), ls, le);
    proof {
        crate::text::lemma_trim_bounds(sv.subrange(ls as int, le as int));
    }
    let st = locate_text_start(s.as_slice(), p, q, te);
    let ghost entries = line_entries(sv, ls as int, le as int);
    assert(entries.len() == stamps@.len());
    let ghost start = out@;
    let mut i: usize = 0;
    while i < stamps.len()
        invariant
            i <= stamps@.len() == entries.len(),
            entries == line_entries(sv, ls as int, le as int),
            sv == s@,
            te <= le,
            st matches Some(a) ==> a <= te,
            forall|m: int|
                0 <= m < entries.len() ==> #[trigger] entries[m] == (LyricLine {
                    time: stamps@[m],
                    text_start: st,
                    text_end: te,
                }),
            out@ == start + entries.take(i as int),
        decreases stamps.len() - i,
    {
        out.push(LyricLine { time: stamps[i], text_start: st, text_end: te });
        assert(entries.take(i + 1) =~= entries.take(i as int).push(entries[i as int]));
        i += 1;
    }
    assert(entries.take(i as int) =~= entries);
}

// ---------------------------------------------------------------------------
// Ordering by time
// ---------------------------------------------------------------------------

proof fn lemma_entries_started_bound(s: Seq<LyricLine>, t: u128)
    ensures
        entries_started_by(s, t) <= s.len(),
    decreases s.len(),
{
    if s.len() > 0 {
        lemma_entries_started_bound(s.drop_last(), t);
    }
}

/// In entries ordered by time, those that start by `t` are exactly a prefix,
/// and its length is the count of them.
proof fn lemma_sorted_entries_partition(s: Seq<LyricLine>, t: u128)
    requires
        entries_sorted(s),
    ensures
        entries_started_by(s, t) <= s.len(),
        forall|i: int| 0 <= i < entries_started_by(s, t) ==> #[trigger] s[i].time <= t,
        forall|i: int| entries_started_by(s, t) <= i < s.len() ==> #[trigger] s[i].time > t,
    decreases s.len(),
{
    if s.len() > 0 {
        let d = s.drop_last();
        lemma_sorted_entries_partition(d, t);
        let c = entries_started_by(d, t);
        if s.last().time <= t {
            if c < d.len() {
                assert(d[c as int].time > t);
                assert(s[c as int].time <= s[s.len() - 1].time);
            }
        }
        assert forall|i: int| 0 <= i < entries_started_by(s, t) implies #[trigger] s[i].time <= t by {
            if i < d.len() {
                assert(s[i] == d[i]);
            }
        }
        assert forall|i: int| entries_started_by(s, t) <= i < s.len() implies #[trigger] s[i].time
            > t by {
            if i < d.len() {
                assert(s[i] == d[i]);
            }
        }
    }
}

/// Inserting by time keeps entries ordered by time.
proof fn lemma_insert_sorted(s: Seq<LyricLine>, x: LyricLine)
    requires
        entries_sorted(s),
    ensures
        entries_sorted(insert_by_time(s, x)),
        insert_by_time(s, x).len() == s.len() + 1,
{
    lemma_sorted_entries_partition(s, x.time);
    let k = entries_started_by(s, x.time) as int;
    let r = insert_by_time(s, x);
    assert forall|i: int, j: int| 0 <= i <= j < r.len() implies r[i].time <= r[j].time by {
        if i < k && j < k {
            assert(r[i] == s[i] && r[j] == s[j]);
        } else if i < k && j == k {
            assert(r[i] == s[i]);
        } else if i < k {
            assert(r[i] == s[i] && r[j] == s[j - 1]);
        } else if i == k && j > k {
            assert(r[j] == s[j - 1]);
        } else if i > k {
            assert(r[i] == s[i - 1] && r[j] == s[j - 1]);
        }
    }
}

/// Sorting by time gives entries in order of time.
pub proof fn lemma_sort_by_time_sorted(s: Seq<LyricLine>)
    ensures
        entries_sorted(sort_by_time(s)),
        sort_by_time(s).len() == s.len(),
    decreases s.len(),
{
    if s.len() > 0 {
        lemma_sort_by_time_sorted(s.drop_last());
        lemma_insert_sorted(sort_by_time(s.drop_last()), s.last());
    }
}

/// Sorting by time keeps every entry, each as often as it occurs.
pub proof fn lemma_sort_by_time_permutes(s: Seq<LyricLine>)
    ensures
        sort_by_time(s).to_multiset() =~= s.to_multiset(),
    decreases s.len(),
{
    broadcast use vstd::seq_lib::to_multiset_build, vstd::seq_lib::to_multiset_insert;

    if s.len() > 0 {
        let d = s.drop_last();
        lemma_sort_by_time_permutes(d);
        lemma_sort_by_time_sorted(d);
        lemma_entries_started_bound(sort_by_time(d), s.last().time);
        assert(d.push(s.last()) =~= s);
    }
}

/// Orders entries by time, keeping the file order of entries with equal times.
fn sort_lines(v: &Vec<LyricLine>, Ghost(n): Ghost<int>) -> (r: Vec<LyricLine>)
    requires
        forall|i: int| 0 <= i < v@.len() ==> entry_in_bounds(#[trigger] v@[i], n),
    ensures
        r@ == sort_by_time(v@),
        entries_sorted(r@),
        forall|i: int| 0 <= i < r@.len() ==> entry_in_bounds(#[trigger] r@[i], n),
{
    let mut out: Vec<LyricLine> = Vec::new();
    let mut i: usize = 0;
    while i < v.len()
        invariant
            i <= v@.len(),
            forall|m: int| 0 <= m < v@.len() ==> entry_in_bounds(#[trigger] v@[m], n),
            out@ == sort_by_time(v@.take(i as int)),
            entries_sorted(out@),
            out@.len() == i,
            forall|m: int| 0 <= m < out@.len() ==> entry_in_bounds(#[trigger] out@[m], n),
        decreases v.len() - i,
    {
        let x = v[i];
        let mut k: usize = out.len();
        while k > 0 && out[k - 1].time > x.time
            invariant
                k <= out@.len(),
                entries_sorted(out@),
                forall|m: int| k <= m < out@.len() ==> #[trigger] out@[m].time > x.time,
            decreases k,
        {
            k -= 1;
        }
        proof {
            lemma_sorted_entries_partition(out@, x.time);
            let c = entries_started_by(out@, x.time) as int;
            if c < k {
                assert(out@[k - 1].time <= x.time);
                assert(out@[c].time > x.time);
            }
            if k < c {
                assert(out@[k as int].time > x.time);
            }
            assert(v@.take(i + 1).drop_last() =~= v@.take(i as int));
            lemma_insert_sorted(out@, x);
        }
        let ghost before = out@;
        out.insert(k, x);
        assert forall|m: int| 0 <= m < out@.len() implies entry_in_bounds(#[trigger] out@[m], n) by {
            if m > k {
                assert(out@[m] == before[m - 1]);
            } else if m < k {
                assert(out@[m] == before[m]);
            }
        }
        i += 1;
    }
    assert(v@.take(i as int) =~= v@);
    out
}

// ---------------------------------------------------------------------------
// Lyrics
// ---------------------------------------------------------------------------

/// When exactly the first `k` lines start by `t`, `k` of them do.
proof fn lemma_lines_started_partition(v: Seq<(u128, Option<Seq<char>>)>, t: u128, k: int)
    requires
        0 <= k <= v.len(),
        forall|i: int| 0 <= i < k ==> #[trigger] v[i].0 <= t,
        forall|i: int| k <= i < v.len() ==> #[trigger] v[i].0 > t,
    ensures
        lines_started_by(v, t) == k,
    decreases v.len(),
{
    if v.len() > 0 {
        let d = v.drop_last();
        if k == v.len() {
            assert forall|i: int| 0 <= i < k - 1 implies #[trigger] d[i].0 <= t by {
                assert(d[i] == v[i]);
            }
            lemma_lines_started_partition(d, t, k - 1);
        } else {
            assert forall|i: int| 0 <= i < k implies #[trigger] d[i].0 <= t by {
                assert(d[i] == v[i]);
            }
            assert forall|i: int| k <= i < d.len() implies #[trigger] d[i].0 > t by {
                assert(d[i] == v[i]);
            }
            lemma_lines_started_partition(d, t, k);
        }
    }
}

impl Lyrics {
    #[verifier::type_invariant]
    spec fn well_formed(self) -> bool {
        &&& self.lines@ == sort_by_time(lyric_entries(self.source@))
        &&& entries_sorted(self.lines@)
        &&& forall|i: int|
            0 <= i < self.lines@.len() ==> entry_in_bounds(
                #[trigger] self.lines@[i],
                self.source@.len() as int,
            )
    }

    /// Parses a lyric file.  Each line of `source` may hold any number of
    /// timestamp tags `[mm:ss.xx]`; every tag that reads as a timestamp gives a
    /// timed line whose text is what follows the last tag of the line, without
    /// the white space around it.  The timed lines are ordered by time; lines
    /// with equal times keep their order in the file.
    ///
    /// The white space skipped after the tags is counted one byte per
    /// character, so after a white-space character that takes several bytes
    /// in UTF-8 the text starts that many bytes too early: inside that
    /// character (the line then cannot be read, see
    /// [`Lyrics::is_line_readable`]) or at a later white-space character.
    pub fn from(source: String) -> (r: Lyrics)
        ensures
            r@ == timed_lines(source@),
    {
        let chars = chars_of(source.as_str());
        let n = chars.len();
        let ghost sv = chars@;
        let mut entries: Vec<LyricLine> = Vec::new();
        let mut ls: usize = 0;
        while ls < n
            invariant
                ls <= n == sv.len(),
                sv == chars@,
                entries@ + entries_from(sv, ls as int) == lyric_entries(sv),
                forall|i: int| 0 <= i < entries@.len() ==> entry_in_bounds(#[trigger] entries@[i], n as int),
            decreases n - ls,
        {
            proof {
                lemma_find_in(sv, '\n', ls as int, n as int);
            }
            let le = match find_char(chars.as_slice(), '\n', ls, n) {
                Some(i) => i + 1,
                None => n,
            };
            let ghost before = entries@;
            scan_line(&chars, ls, le, &mut entries);
            assert(entries@ + entries_from(sv, le as int) =~= before + entries_from(sv, ls as int));
            assert forall|i: int| 0 <= i < entries@.len() implies entry_in_bounds(
                #[trigger] entries@[i],
                n as int,
            ) by {
                if i >= before.len() {
                    assert(entries@[i] == line_entries(sv, ls as int, le as int)[i - before.len()]);
                }
            }
            ls = le;
        }
        assert(entries@ + entries_from(sv, ls as int) =~= entries@);
        let lines = sort_lines(&entries, Ghost(n as int));
        let r = Lyrics { source, lines };
        assert(r@ =~= timed_lines(sv));
        r
    }

    /// The number of the line that is current at `time` (in milliseconds),
    /// counting from 1: how many timed lines start at or before `time`.  0
    /// before the first line starts.
    pub fn get_current_line_number(&self, time: u128) -> (r: usize)
        ensures
            r == lines_started_by(self@, time),
    {
        proof {
            use_type_invariant(self);
        }
        let mut lo: usize = 0;
        let mut hi: usize = self.lines.len();
        while lo < hi
            invariant
                lo <= hi <= self.lines@.len(),
                entries_sorted(self.lines@),
                forall|i: int| 0 <= i < lo ==> #[trigger] self.lines@[i].time <= time,
                forall|i: int| hi <= i < self.lines@.len() ==> #[trigger] self.lines@[i].time > time,
            decreases hi - lo,
        {
            let mid = lo + (hi - lo) / 2;
            if self.lines[mid].time <= time {
                lo = mid + 1;
            } else {
                hi = mid;
            }
        }
        proof {
            let v = self@;
            assert forall|i: int| 0 <= i < lo implies #[trigger] v[i].0 <= time by {
                assert(v[i].0 == self.lines@[i].time);
            }
            assert forall|i: int| lo <= i < v.len() implies #[trigger] v[i].0 > time by {
                assert(v[i].0 == self.lines@[i].time);
            }
            lemma_lines_started_partition(v, time, lo as int);
        }
        lo
    }

    /// The text of line `number`, counting from 1; empty for 0 and for numbers
    /// past the last line.  The line must be readable: its text must not start
    /// inside a character.
    pub fn get_line(&self, number: usize) -> (r: &str)
        requires
            line_readable(self@, number as int),
        ensures
            r@ == line_text(self@, number as int),
            number == 0 || number > self@.len() ==> r@ == Seq::<char>::empty(),
            1 <= number <= self@.len() ==> Some(r@) == self@[number - 1].1,
    {
        proof {
            use_type_invariant(self);
            reveal_strlit("");
        }
        if number == 0 || number - 1 >= self.lines.len() {
            return "";
        }
        let line = self.lines[number - 1];
        proof {
            assert(self@[number - 1].1 == entry_text(self.source@, self.lines@[number - 1]));
        }
        match line.text_start {
            Some(a) => self.source.as_str().substring_char(a, line.text_end),
            None => "",
        }
    }

    /// Whether line `number` can be read with [`Lyrics::get_line`]: it is 0,
    /// past the last line, or its text does not start inside a character.
    pub fn is_line_readable(&self, number: usize) -> (r: bool)
        ensures
            r == line_readable(self@, number as int),
    {
        if number == 0 || number - 1 >= self.lines.len() {
            return true;
        }
        proof {
            assert(self@[number - 1].1 == entry_text(self.source@, self.lines@[number - 1]));
        }
        self.lines[number - 1].text_start.is_some()
    }
}

impl View for Lyrics {
    type V = Seq<(u128, Option<Seq<char>>)>;

    /// The timed lines as (time in milliseconds, text), in order of time.
    closed spec fn view(&self) -> Seq<(u128, Option<Seq<char>>)> {
        self.lines@.map_values(|l: LyricLine| (l.time, entry_text(self.source@, l)))
    }
}

// ---------------------------------------------------------------------------
// Laws
// ---------------------------------------------------------------------------

/// The timed lines of any lyric file are in order of time.
pub proof fn lemma_timed_lines_sorted(src: Seq<char>)
    ensures
        forall|i: int, j: int|
            0 <= i <= j < timed_lines(src).len() ==> timed_lines(src)[i].0 <= timed_lines(src)[j].0,
        timed_lines(src).len() == lyric_entries(src).len(),
{
    lemma_sort_by_time_sorted(lyric_entries(src));
    let s = sort_by_time(lyric_entries(src));
    assert forall|i: int, j: int| 0 <= i <= j < timed_lines(src).len() implies timed_lines(
        src,
    )[i].0 <= timed_lines(src)[j].0 by {
        assert(timed_lines(src)[i].0 == s[i].time);
        assert(timed_lines(src)[j].0 == s[j].time);
    }
}

/// The current line number never decreases as time goes on.
pub proof fn lemma_line_number_monotone(lines: Seq<(u128, Option<Seq<char>>)>, t1: u128, t2: u128)
    requires
        t1 <= t2,
    ensures
        lines_started_by(lines, t1) <= lines_started_by(lines, t2),
    decreases lines.len(),
{
    if lines.len() > 0 {
        lemma_line_number_monotone(lines.drop_last(), t1, t2);
    }
}

/// The current line number is at most the number of lines.
pub proof fn lemma_line_number_bounded(lines: Seq<(u128, Option<Seq<char>>)>, t: u128)
    ensures
        lines_started_by(lines, t) <= lines.len(),
    decreases lines.len(),
{
    if lines.len() > 0 {
        lemma_line_number_bounded(lines.drop_last(), t);
    }
}

/// At time `t`, the lines of a lyric file that have started are exactly those
/// before the current line number; the current line is the latest of them,
/// and no line is current before the first one starts.
pub proof fn lemma_current_line(src: Seq<char>, t: u128)
    ensures
        ({
            let v = timed_lines(src);
            let n = lines_started_by(v, t) as int;
            &&& n <= v.len()
            &&& forall|i: int| 0 <= i < n ==> #[trigger] v[i].0 <= t
            &&& forall|i: int| n <= i < v.len() ==> #[trigger] v[i].0 > t
            &&& n > 0 ==> line_text(v, n) == (match v[n - 1].1 {
                Some(x) => x,
                None => Seq::<char>::empty(),
            })
            &&& n == 0 ==> line_text(v, n) == Seq::<char>::empty()
        }),
{
    let s = sort_by_time(lyric_entries(src));
    let v = timed_lines(src);
    lemma_sort_by_time_sorted(lyric_entries(src));
    lemma_sorted_entries_partition(s, t);
    let k = entries_started_by(s, t) as int;
    assert forall|i: int| 0 <= i < k implies #[trigger] v[i].0 <= t by {
        assert(v[i].0 == s[i].time);
    }
    assert forall|i: int| k <= i < v.len() implies #[trigger] v[i].0 > t by {
        assert(v[i].0 == s[i].time);
    }
    lemma_lines_started_partition(v, t, k);
}

/// Every entry survives the ordering by time, each as often as it occurs.
pub proof fn lemma_timed_lines_keep_entries(src: Seq<char>)
    ensures
        sort_by_time(lyric_entries(src)).to_multiset() =~= lyric_entries(src).to_multiset(),
{
    lemma_sort_by_time_permutes(lyric_entries(src));
}

proof fn lemma_scan_tags_no_bracket(s: Seq<char>, p: int, le: int)
    requires
        forall|i: int| 0 <= i < s.len() ==> s[i] != '[',
        0 <= p,
        le <= s.len(),
    ensures
        scan_tags(s, p, le).0.len() == 0,
{
    lemma_find_in(s, '[', p, le);
}

proof fn lemma_entries_from_no_bracket(s: Seq<char>, ls: int)
    requires
        forall|i: int| 0 <= i < s.len() ==> s[i] != '[',
        0 <= ls,
    ensures
        entries_from(s, ls).len() == 0,
    decreases s.len() - ls,
{
    if ls < s.len() {
        lemma_find_in(s, '\n', ls, s.len() as int);
        lemma_scan_tags_no_bracket(s, ls, line_end(s, ls));
        lemma_entries_from_no_bracket(s, line_end(s, ls));
    }
}

/// A file without any `[` has no timed lines.
pub proof fn lemma_no_tags_no_lines(src: Seq<char>)
    requires
        forall|i: int| 0 <= i < src.len() ==> src[i] != '[',
    ensures
        timed_lines(src).len() == 0,
{
    lemma_entries_from_no_bracket(src, 0);
    lemma_timed_lines_sorted(src);
}



/// An entry of `s` lies within `s`, and its text, when it can be read, holds
/// no line feed and does not end in white space.
pub open spec fn entry_text_clean(s: Seq<char>, e: LyricLine) -> bool {
    &&& entry_in_bounds(e, s.len() as int)
    &&& e.text_start matches Some(a) ==> {
        let x = s.subrange(a as int, e.text_end as int);
        &&& forall|i: int| 0 <= i < x.len() ==> #[trigger] x[i] != '\n'
        &&& x.len() > 0 ==> !unicode_white_space(x.last())
    }
}

/// The text of the line starting at `ls` starts where skipping white space
/// character by character would put it (true unless a skipped white-space
/// character takes more than one byte in UTF-8).
pub open spec fn line_start_agrees(s: Seq<char>, ls: int) -> bool {
    let le = line_end(s, ls);
    let scan = scan_tags(s, ls, le);
    let q = skip_blank(s, scan.1, le);
    let te = ls + trim_end_len(s.subrange(ls, le));
    scan.0.len() > 0 ==> (text_start(s, scan.1, q, te) matches Some(c) ==> c == (if q <= te {
        q
    } else {
        te
    }))
}

/// Every timed line of `s` starts where skipping white space character by
/// character would put it.
pub open spec fn text_starts_agree(s: Seq<char>) -> bool {
    forall|ls: int|
        0 <= ls < s.len() && (ls == 0 || s[ls - 1] == '\n') ==> #[trigger] line_start_agrees(s, ls)
}

proof fn lemma_scan_tags_advances(s: Seq<char>, p: int, le: int)
    requires
        p <= le,
    ensures
        p <= scan_tags(s, p, le).1 <= le,
    decreases le - p,
{
    lemma_find_in(s, '[', p, le);
    if let Some(j) = find_in(s, '[', p, le) {
        lemma_find_in(s, ']', j, le);
        if let Some(k) = find_in(s, ']', j, le) {
            lemma_scan_tags_advances(s, k + 1, le);
        }
    }
}

proof fn lemma_skip_blank(s: Seq<char>, p: int, le: int)
    requires
        0 <= p <= le <= s.len(),
    ensures
        p <= skip_blank(s, p, le) <= le,
        skip_blank(s, p, le) < le ==> s[skip_blank(s, p, le)] == '\n' || !unicode_white_space(
            s[skip_blank(s, p, le)],
        ),
    decreases le - p,
{
    if p < le && s[p] != '\n' && unicode_white_space(s[p]) {
        lemma_skip_blank(s, p + 1, le);
    }
}

proof fn lemma_char_after_bytes_from(s: Seq<char>, p: int, k: int)
    ensures
        char_after_bytes(s, p, k) matches Some(c) ==> c >= p,
    decreases k,
{
    if k > 0 && 0 <= p < s.len() && utf8_width(s[p]) <= k {
        lemma_char_after_bytes_from(s, p + 1, k - utf8_width(s[p]));
    }
}

proof fn lemma_text_start_range(s: Seq<char>, p: int, q: int, te: int)
    requires
        0 <= p,
        te <= s.len(),
    ensures
        text_start(s, p, q, te) matches Some(c) ==> (c == te || p <= c),
        text_start(s, p, q, te) matches Some(c) ==> p <= te ==> c <= te,
{
    lemma_char_after_bytes_from(s, p, q - p);
    if p <= te && q - p <= utf8_len(s.subrange(p, te)) {
        lemma_char_after_bytes_upto(s, p, q - p, te);
    }
}

proof fn lemma_char_after_bytes_upto(s: Seq<char>, p: int, k: int, te: int)
    requires
        p <= te <= s.len(),
        0 <= p,
        k <= utf8_len(s.subrange(p, te)),
    ensures
        char_after_bytes(s, p, k) matches Some(c) ==> c <= te,
    decreases k,
{
    if k > 0 && 0 <= p < s.len() && utf8_width(s[p]) <= k {
        if p < te {
            lemma_utf8_len_split(s, p, p + 1, te);
            assert(s.subrange(p, p + 1).drop_last() =~= Seq::<char>::empty());
            assert(s.subrange(p, p + 1).last() == s[p]);
            assert(utf8_len(s.subrange(p, p + 1).drop_last()) == 0);
            assert(utf8_len(s.subrange(p, p + 1)) == utf8_width(s[p]));
            lemma_char_after_bytes_upto(s, p + 1, k - utf8_width(s[p]), te);
        } else {
            assert(s.subrange(p, te) =~= Seq::<char>::empty());
        }
    }
}

/// The entries of the line at `ls` lie in the line, their texts hold no line
/// feed and do not end in white space; where the text starts as character
/// skipping would put it, it does not start in white space either.
proof fn lemma_line_entries_clean(s: Seq<char>, ls: int)
    requires
        0 <= ls < s.len() <= usize::MAX,
    ensures
        forall|i: int|
            0 <= i < line_entries(s, ls, line_end(s, ls)).len() ==> {
                let e = #[trigger] line_entries(s, ls, line_end(s, ls))[i];
                &&& entry_text_clean(s, e)
                &&& ls <= e.text_end <= line_end(s, ls)
                &&& e.text_start matches Some(a) ==> ls <= a
                &&& line_start_agrees(s, ls) ==> (e.text_start matches Some(a) ==> trim(
                    s.subrange(a as int, e.text_end as int),
                ) == s.subrange(a as int, e.text_end as int))
            },
{
    lemma_find_in(s, '\n', ls, s.len() as int);
    let le = line_end(s, ls);
    let scan = scan_tags(s, ls, le);
    let sub = s.subrange(ls, le);
    crate::text::lemma_trim_bounds(sub);
    let te = ls + trim_end_len(sub);
    lemma_scan_tags_advances(s, ls, le);
    let p = scan.1;
    lemma_skip_blank(s, p, le);
    let q = skip_blank(s, p, le);
    lemma_text_start_range(s, p, q, te);
    // No line feed before `te`.
    if let Some(nl) = find_in(s, '\n', ls, s.len() as int) {
        assert(sub.last() == s[nl]);
        assert(sub.drop_last().len() == sub.len() - 1);
        crate::text::lemma_trim_bounds(sub.drop_last());
        assert(te <= nl);
    }
    assert forall|j: int| ls <= j < te implies s[j] != '\n' by {}
    assert forall|i: int| 0 <= i < line_entries(s, ls, le).len() implies {
        let e = #[trigger] line_entries(s, ls, le)[i];
        &&& entry_text_clean(s, e)
        &&& ls <= e.text_end <= le
        &&& e.text_start matches Some(a) ==> ls <= a
        &&& line_start_agrees(s, ls) ==> (e.text_start matches Some(a) ==> trim(
            s.subrange(a as int, e.text_end as int),
        ) == s.subrange(a as int, e.text_end as int))
    } by {
        let e = line_entries(s, ls, le)[i];
        assert(e.text_end == te);
        if let Some(a) = e.text_start {
            let x = s.subrange(a as int, te);
            assert forall|m: int| 0 <= m < x.len() implies #[trigger] x[m] != '\n' by {
                assert(x[m] == s[a + m]);
            }
            if x.len() > 0 {
                assert(x.last() == s[te - 1]);
                assert(sub[trim_end_len(sub) - 1] == s[te - 1]);
            }
            if line_start_agrees(s, ls) && x.len() > 0 {
                assert(scan.0.len() > 0);
                assert(x[0] == s[a as int]);
                lemma_trim_identity(x);
            }
            if x.len() == 0 {
                lemma_trim_identity(x);
            }
        }
    }
}

proof fn lemma_entries_from_clean(s: Seq<char>, ls: int)
    requires
        0 <= ls,
        s.len() <= usize::MAX,
        ls == 0 || ls >= s.len() || s[ls - 1] == '\n',
    ensures
        forall|i: int|
            0 <= i < entries_from(s, ls).len() ==> {
                let e = #[trigger] entries_from(s, ls)[i];
                &&& entry_text_clean(s, e)
                &&& ls <= e.text_end
                &&& e.text_start matches Some(a) ==> ls <= a
                &&& text_starts_agree(s) ==> (e.text_start matches Some(a) ==> trim(
                    s.subrange(a as int, e.text_end as int),
                ) == s.subrange(a as int, e.text_end as int))
            },
    decreases s.len() - ls,
{
    if ls < s.len() {
        lemma_find_in(s, '\n', ls, s.len() as int);
        let le = line_end(s, ls);
        lemma_line_entries_clean(s, ls);
        lemma_entries_from_clean(s, le);
        let a = line_entries(s, ls, le);
        let b = entries_from(s, le);
        assert(text_starts_agree(s) ==> line_start_agrees(s, ls));
        assert forall|i: int| 0 <= i < entries_from(s, ls).len() implies {
            let e = #[trigger] entries_from(s, ls)[i];
            &&& entry_text_clean(s, e)
            &&& ls <= e.text_end
            &&& e.text_start matches Some(x) ==> ls <= x
            &&& text_starts_agree(s) ==> (e.text_start matches Some(x) ==> trim(
                s.subrange(x as int, e.text_end as int),
            ) == s.subrange(x as int, e.text_end as int))
        } by {
            if i < a.len() {
                assert(entries_from(s, ls)[i] == a[i]);
            } else {
                assert(entries_from(s, ls)[i] == b[i - a.len()]);
            }
        }
    }
}

/// The text of every readable timed line holds no line feed and does not end
/// in white space.
pub proof fn lemma_line_text_clean(src: Seq<char>, i: int)
    requires
        0 <= i < timed_lines(src).len(),
        src.len() <= usize::MAX,
    ensures
        timed_lines(src)[i].1 matches Some(x) ==> (forall|m: int|
            0 <= m < x.len() ==> #[trigger] x[m] != '\n') && (x.len() > 0
            ==> !unicode_white_space(x.last())),
        text_starts_agree(src) ==> (timed_lines(src)[i].1 matches Some(x) ==> trim(x) == x),
{
    broadcast use vstd::seq_lib::to_multiset_contains;

    let e = lyric_entries(src);
    let s = sort_by_time(e);
    lemma_timed_lines_sorted(src);
    lemma_sort_by_time_permutes(e);
    lemma_entries_from_clean(src, 0);
    let x = s[i];
    assert(s.contains(x));
    assert(s.to_multiset().count(x) > 0);
    assert(e.contains(x));
    let k = choose|k: int| 0 <= k < e.len() && e[k] == x;
    assert(entry_text_clean(src, e[k]));
    assert(timed_lines(src)[i].1 == entry_text(src, x));
}

/// Entry `a` does not lie after entry `b` in the file: its text ends no later,
/// and starts no later when both starts are known.
pub open spec fn entry_not_after(a: LyricLine, b: LyricLine) -> bool {
    &&& a.text_end <= b.text_end
    &&& a.text_start matches Some(u) ==> (b.text_start matches Some(v) ==> u <= v)
}

proof fn lemma_entries_from_ordered(s: Seq<char>, ls: int)
    requires
        0 <= ls,
        s.len() <= usize::MAX,
        ls == 0 || ls >= s.len() || s[ls - 1] == '\n',
    ensures
        forall|i: int, j: int|
            0 <= i < j < entries_from(s, ls).len() ==> entry_not_after(
                #[trigger] entries_from(s, ls)[i],
                #[trigger] entries_from(s, ls)[j],
            ),
    decreases s.len() - ls,
{
    if ls < s.len() {
        lemma_find_in(s, '\n', ls, s.len() as int);
        let le = line_end(s, ls);
        lemma_line_entries_clean(s, ls);
        lemma_entries_from_clean(s, le);
        lemma_entries_from_ordered(s, le);
        let a = line_entries(s, ls, le);
        let b = entries_from(s, le);
        let all = entries_from(s, ls);
        assert(all == a + b);
        assert forall|i: int, j: int| 0 <= i < j < all.len() implies entry_not_after(
            #[trigger] all[i],
            #[trigger] all[j],
        ) by {
            if j < a.len() {
                assert(all[i] == a[i] && all[j] == a[j]);
                assert(a[i].text_end == a[j].text_end && a[i].text_start == a[j].text_start);
            } else if i < a.len() {
                assert(all[i] == a[i] && all[j] == b[j - a.len()]);
                assert(entry_text_clean(s, a[i]));
            } else {
                assert(all[i] == b[i - a.len()] && all[j] == b[j - a.len()]);
            }
        }
    }
}

proof fn lemma_sort_keeps_file_order(s: Seq<LyricLine>)
    requires
        forall|i: int, j: int|
            0 <= i < j < s.len() ==> entry_not_after(#[trigger] s[i], #[trigger] s[j]),
    ensures
        forall|i: int, j: int|
            0 <= i < j < sort_by_time(s).len() && sort_by_time(s)[i].time == sort_by_time(s)[j].time
                ==> entry_not_after(#[trigger] sort_by_time(s)[i], #[trigger] sort_by_time(s)[j]),
    decreases s.len(),
{
    broadcast use vstd::seq_lib::to_multiset_contains;

    if s.len() > 0 {
        let d = s.drop_last();
        let x = s.last();
        assert forall|i: int, j: int| 0 <= i < j < d.len() implies entry_not_after(
            #[trigger] d[i],
            #[trigger] d[j],
        ) by {
            assert(d[i] == s[i] && d[j] == s[j]);
        }
        lemma_sort_keeps_file_order(d);
        let sd = sort_by_time(d);
        lemma_sort_by_time_sorted(d);
        lemma_sort_by_time_permutes(d);
        lemma_sorted_entries_partition(sd, x.time);
        let k = entries_started_by(sd, x.time) as int;
        let r = sort_by_time(s);
        assert(r == sd.insert(k, x));
        assert forall|m: int| 0 <= m < sd.len() implies entry_not_after(#[trigger] sd[m], x) by {
            assert(sd.contains(sd[m]));
            assert(sd.to_multiset().count(sd[m]) > 0);
            assert(d.contains(sd[m]));
            let n = choose|n: int| 0 <= n < d.len() && d[n] == sd[m];
            assert(s[n] == d[n]);
            assert(entry_not_after(s[n], s[s.len() - 1]));
        }
        assert forall|i: int, j: int|
            0 <= i < j < r.len() && r[i].time == r[j].time implies entry_not_after(
            #[trigger] r[i],
            #[trigger] r[j],
        ) by {
            if j < k {
                assert(r[i] == sd[i] && r[j] == sd[j]);
            } else if j == k {
                assert(r[i] == sd[i] && r[j] == x);
            } else if i < k {
                assert(r[i] == sd[i] && r[j] == sd[j - 1]);
            } else if i == k {
                assert(r[i] == x && r[j] == sd[j - 1]);
                assert(sd[j - 1].time > x.time);
            } else {
                assert(r[i] == sd[i - 1] && r[j] == sd[j - 1]);
            }
        }
    }
}

/// Lines of a lyric file that start at the same time come out in the order
/// of their places in the file: the text of the earlier one ends no later,
/// and starts no later when both starts are known.
pub proof fn lemma_equal_times_keep_text_order(src: Seq<char>)
    requires
        src.len() <= usize::MAX,
    ensures
        forall|i: int, j: int|
            0 <= i < j < sort_by_time(lyric_entries(src)).len() && sort_by_time(
                lyric_entries(src),
            )[i].time == sort_by_time(lyric_entries(src))[j].time ==> entry_not_after(
                #[trigger] sort_by_time(lyric_entries(src))[i],
                #[trigger] sort_by_time(lyric_entries(src))[j],
            ),
{
    lemma_entries_from_ordered(src, 0);
    lemma_sort_keeps_file_order(lyric_entries(src));
}

/// The entries of `s` that start exactly at `t`, in their order in `s`.
pub open spec fn entries_at(s: Seq<LyricLine>, t: u128) -> Seq<LyricLine>
    decreases s.len(),
{
    if s.len() == 0 {
        Seq::empty()
    } else if s.last().time == t {
        entries_at(s.drop_last(), t).push(s.last())
    } else {
        entries_at(s.drop_last(), t)
    }
}

proof fn lemma_entries_at_add(a: Seq<LyricLine>, b: Seq<LyricLine>, t: u128)
    ensures
        entries_at(a + b, t) == entries_at(a, t) + entries_at(b, t),
    decreases b.len(),
{
    if b.len() == 0 {
        assert(a + b =~= a);
        assert(entries_at(a, t) + entries_at(b, t) =~= entries_at(a, t));
    } else {
        lemma_entries_at_add(a, b.drop_last(), t);
        assert((a + b).drop_last() =~= a + b.drop_last());
        assert((a + b).last() == b.last());
        if b.last().time == t {
            assert(entries_at(a, t) + entries_at(b, t) =~= (entries_at(a, t) + entries_at(
                b.drop_last(),
                t,
            )).push(b.last()));
        }
    }
}

proof fn lemma_entries_at_none(b: Seq<LyricLine>, t: u128)
    requires
        forall|i: int| 0 <= i < b.len() ==> #[trigger] b[i].time != t,
    ensures
        entries_at(b, t) == Seq::<LyricLine>::empty(),
    decreases b.len(),
{
    if b.len() > 0 {
        assert forall|i: int| 0 <= i < b.drop_last().len() implies #[trigger] b.drop_last()[i].time
            != t by {
            assert(b.drop_last()[i] == b[i]);
        }
        lemma_entries_at_none(b.drop_last(), t);
    }
}

/// Ordering by time is stable: the entries that start at any one time come
/// out in the order in which they went in.
pub proof fn lemma_sort_by_time_stable(s: Seq<LyricLine>, t: u128)
    ensures
        entries_at(sort_by_time(s), t) == entries_at(s, t),
    decreases s.len(),
{
    if s.len() > 0 {
        let d = s.drop_last();
        let x = s.last();
        let sd = sort_by_time(d);
        lemma_sort_by_time_stable(d, t);
        lemma_sort_by_time_sorted(d);
        lemma_sorted_entries_partition(sd, x.time);
        let k = entries_started_by(sd, x.time) as int;
        let a = sd.take(k);
        let b = sd.skip(k);
        assert(sort_by_time(s) =~= a + seq![x] + b);
        assert(sd =~= a + b);
        lemma_entries_at_add(a + seq![x], b, t);
        lemma_entries_at_add(a, seq![x], t);
        lemma_entries_at_add(a, b, t);
        assert(seq![x].drop_last() =~= Seq::<LyricLine>::empty());
        assert(entries_at(seq![x].drop_last(), t) == Seq::<LyricLine>::empty());
        assert(seq![x].last() == x);
        if x.time == t {
            assert forall|i: int| 0 <= i < b.len() implies #[trigger] b[i].time != t by {
                assert(b[i] == sd[k + i]);
            }
            lemma_entries_at_none(b, t);
            assert(entries_at(seq![x], t) =~= seq![x]);
            assert(entries_at(a, t) + seq![x] + Seq::<LyricLine>::empty() =~= (entries_at(a, t)
                + Seq::<LyricLine>::empty()).push(x));
        } else {
            assert(entries_at(seq![x], t) =~= Seq::<LyricLine>::empty());
            assert(entries_at(a, t) + Seq::<LyricLine>::empty() =~= entries_at(a, t));
        }
    }
}

/// In a lyric file, the lines that start at any one time keep the order in
/// which their tags stand in the file.
pub proof fn lemma_equal_times_keep_file_order(src: Seq<char>, t: u128)
    ensures
        entries_at(sort_by_time(lyric_entries(src)), t) == entries_at(lyric_entries(src), t),
{
    lemma_sort_by_time_stable(lyric_entries(src), t);
}

/// Line 0 has no text, for any lines; line `n` from 1 to the number of lines
/// has the text of the `n`-th line (empty when it cannot be read); past the
/// last line there is no text.
pub proof fn lemma_line_numbers_from_one(lines: Seq<(u128, Option<Seq<char>>)>, n: int)
    ensures
        line_text(lines, 0) == Seq::<char>::empty(),
        n > lines.len() ==> line_text(lines, n) == Seq::<char>::empty(),
        1 <= n <= lines.len() ==> (lines[n - 1].1 matches Some(x) ==> line_text(lines, n) == x),
        1 <= n <= lines.len() ==> (lines[n - 1].1 is None ==> line_text(lines, n)
            == Seq::<char>::empty()),
        line_readable(lines, 0),
{
}

// ---------------------------------------------------------------------------
// Lines made of timestamp tags and a text
// ---------------------------------------------------------------------------

/// The tag `[x]`.
pub open spec fn tag(x: Seq<char>) -> Seq<char> {
    seq!['['] + x + seq![']']
}

/// The tags `[x]` for each of `stamps`, one after another, followed by `text`.
pub open spec fn tagged_line(stamps: Seq<Seq<char>>, text: Seq<char>) -> Seq<char>
    decreases stamps.len(),
{
    if stamps.len() == 0 {
        text
    } else {
        tag(stamps[0]) + tagged_line(stamps.drop_first(), text)
    }
}

/// How many of `stamps` read as timestamps.
pub open spec fn stamp_count(stamps: Seq<Seq<char>>) -> nat
    decreases stamps.len(),
{
    if stamps.len() == 0 {
        0
    } else {
        (if timestamp_millis(stamps[0]) is Some {
            1nat
        } else {
            0nat
        }) + stamp_count(stamps.drop_first())
    }
}

/// How many of `stamps` read as timestamps at or before `t`.
pub open spec fn stamps_started_by(stamps: Seq<Seq<char>>, t: u128) -> nat
    decreases stamps.len(),
{
    if stamps.len() == 0 {
        0
    } else {
        (if timestamp_millis(stamps[0]) matches Some(v) && v <= t {
            1nat
        } else {
            0nat
        }) + stamps_started_by(stamps.drop_first(), t)
    }
}

/// The contents of tags that the tagged-line laws speak of: no brackets and
/// no line feed inside.
pub open spec fn plain_tag_contents(stamps: Seq<Seq<char>>) -> bool {
    forall|i: int, m: int|
        0 <= i < stamps.len() && 0 <= m < stamps[i].len() ==> #[trigger] stamps[i][m] != '['
            && stamps[i][m] != ']' && stamps[i][m] != '\n'
}

/// A text that the tagged-line laws speak of: no `[`, no line feed, and no
/// white space at either end.
pub open spec fn plain_text(text: Seq<char>) -> bool {
    &&& forall|m: int| 0 <= m < text.len() ==> #[trigger] text[m] != '[' && text[m] != '\n'
    &&& text.len() > 0 ==> !unicode_white_space(text[0]) && !unicode_white_space(text.last())
}

spec fn stamp_times(stamps: Seq<Seq<char>>) -> Seq<u128>
    decreases stamps.len(),
{
    if stamps.len() == 0 {
        Seq::empty()
    } else {
        match timestamp_millis(stamps[0]) {
            Some(t) => seq![t] + stamp_times(stamps.drop_first()),
            None => stamp_times(stamps.drop_first()),
        }
    }
}

proof fn lemma_plain_tail(stamps: Seq<Seq<char>>)
    requires
        plain_tag_contents(stamps),
        stamps.len() > 0,
    ensures
        plain_tag_contents(stamps.drop_first()),
{
    assert forall|i: int, m: int|
        0 <= i < stamps.drop_first().len() && 0 <= m < stamps.drop_first()[i].len() implies #[trigger] stamps.drop_first()[i][m]
        != '[' && stamps.drop_first()[i][m] != ']' && stamps.drop_first()[i][m] != '\n' by {
        assert(stamps.drop_first()[i] == stamps[i + 1]);
    }
}

proof fn lemma_tagged_line_shape(stamps: Seq<Seq<char>>, text: Seq<char>)
    requires
        plain_tag_contents(stamps),
        plain_text(text),
    ensures
        tagged_line(stamps, text).len() >= text.len(),
        tagged_line(stamps, text).subrange(
            tagged_line(stamps, text).len() - text.len(),
            tagged_line(stamps, text).len() as int,
        ) == text,
        forall|i: int|
            0 <= i < tagged_line(stamps, text).len() ==> #[trigger] tagged_line(stamps, text)[i]
                != '\n',
        tagged_line(stamps, text).len() > 0 ==> !unicode_white_space(
            tagged_line(stamps, text).last(),
        ),
    decreases stamps.len(),
{
    let l = tagged_line(stamps, text);
    if stamps.len() == 0 {
        assert(l.subrange(0, l.len() as int) =~= text);
    } else {
        let x = stamps[0];
        let r = tagged_line(stamps.drop_first(), text);
        lemma_plain_tail(stamps);
        lemma_tagged_line_shape(stamps.drop_first(), text);
        assert(l == tag(x) + r);
        assert(l.subrange(l.len() - text.len(), l.len() as int) =~= r.subrange(
            r.len() - text.len(),
            r.len() as int,
        ));
        assert forall|i: int| 0 <= i < l.len() implies #[trigger] l[i] != '\n' by {
            if i == 0 {
            } else if i <= x.len() {
                assert(l[i] == x[i - 1]);
            } else if i == x.len() + 1 {
            } else {
                assert(l[i] == r[i - x.len() - 2]);
            }
        }
        if r.len() > 0 {
            assert(l.last() == r.last());
        } else {
            assert(l.last() == ']');
        }
    }
}

/// Scanning a stretch `tagged_line(stamps, text)` followed by a line feed.
proof fn lemma_tagged_scan(
    s: Seq<char>,
    p: int,
    le: int,
    stamps: Seq<Seq<char>>,
    text: Seq<char>,
)
    requires
        0 <= p <= le <= s.len(),
        s.subrange(p, le) == tagged_line(stamps, text) + seq!['\n'],
        plain_tag_contents(stamps),
        plain_text(text),
    ensures
        scan_tags(s, p, le) == (stamp_times(stamps), le - 1 - text.len()),
    decreases stamps.len(),
{
    let u = s.subrange(p, le);
    lemma_tagged_line_shape(stamps, text);
    if stamps.len() == 0 {
        assert(tagged_line(stamps, text) == text);
        assert(u.len() == text.len() + 1);
        assert forall|j: int| p <= j < le implies s[j] != '[' by {
            assert(s[j] == u[j - p]);
            if j - p < text.len() {
                assert(u[j - p] == text[j - p]);
                assert(text[j - p] != '[');
            } else {
                assert(u[j - p] == '\n');
            }
        }
        crate::text::lemma_find_in_absent(s, '[', p, le);
        assert(stamp_times(stamps) == Seq::<u128>::empty());
    } else {
        let x = stamps[0];
        let r = tagged_line(stamps.drop_first(), text);
        lemma_plain_tail(stamps);
        assert(u =~= seq!['['] + x + seq![']'] + (r + seq!['\n']));
        assert(s[p] == u[0]);
        crate::text::lemma_find_in_at(s, '[', p, p, le);
        let k = p + 1 + x.len();
        assert forall|j: int| p <= j < k implies s[j] != ']' by {
            assert(s[j] == u[j - p]);
            if j > p {
                assert(u[j - p] == x[j - p - 1]);
            }
        }
        assert(s[k] == u[k - p]);
        crate::text::lemma_find_in_at(s, ']', p, k, le);
        assert(s.subrange(p + 1, k) =~= x) by {
            assert forall|m: int| 0 <= m < x.len() implies s.subrange(p + 1, k)[m] == x[m] by {
                assert(s[p + 1 + m] == u[1 + m]);
            }
        }
        assert(s.subrange(k + 1, le) =~= r + seq!['\n']) by {
            assert forall|m: int| 0 <= m < le - k - 1 implies s.subrange(k + 1, le)[m] == (r
                + seq!['\n'])[m] by {
                assert(s[k + 1 + m] == u[k + 1 + m - p]);
            }
        }
        lemma_tagged_scan(s, k + 1, le, stamps.drop_first(), text);
    }
}

proof fn lemma_entries_started_add(a: Seq<LyricLine>, b: Seq<LyricLine>, t: u128)
    ensures
        entries_started_by(a + b, t) == entries_started_by(a, t) + entries_started_by(b, t),
    decreases b.len(),
{
    if b.len() == 0 {
        assert(a + b =~= a);
    } else {
        lemma_entries_started_add(a, b.drop_last(), t);
        assert((a + b).drop_last() =~= a + b.drop_last());
    }
}

proof fn lemma_entries_started_insert(s: Seq<LyricLine>, k: int, x: LyricLine, t: u128)
    requires
        0 <= k <= s.len(),
    ensures
        entries_started_by(s.insert(k, x), t) == entries_started_by(s, t) + (if x.time <= t {
            1nat
        } else {
            0nat
        }),
{
    assert(s.insert(k, x) =~= s.take(k) + seq![x] + s.skip(k));
    assert(s =~= s.take(k) + s.skip(k));
    lemma_entries_started_add(s.take(k) + seq![x], s.skip(k), t);
    lemma_entries_started_add(s.take(k), seq![x], t);
    lemma_entries_started_add(s.take(k), s.skip(k), t);
    assert(seq![x].drop_last() =~= Seq::<LyricLine>::empty());
    assert(entries_started_by(seq![x].drop_last(), t) == 0);
}

/// Ordering by time keeps how many entries start by any time.
proof fn lemma_sort_keeps_started(s: Seq<LyricLine>, t: u128)
    ensures
        entries_started_by(sort_by_time(s), t) == entries_started_by(s, t),
    decreases s.len(),
{
    if s.len() > 0 {
        let d = s.drop_last();
        lemma_sort_keeps_started(d, t);
        lemma_sort_by_time_sorted(d);
        lemma_entries_started_bound(sort_by_time(d), s.last().time);
        lemma_entries_started_insert(
            sort_by_time(d),
            entries_started_by(sort_by_time(d), s.last().time) as int,
            s.last(),
            t,
        );
    }
}

proof fn lemma_started_map(s: Seq<LyricLine>, src: Seq<char>, t: u128)
    ensures
        lines_started_by(s.map_values(|l: LyricLine| (l.time, entry_text(src, l))), t)
            == entries_started_by(s, t),
    decreases s.len(),
{
    if s.len() > 0 {
        lemma_started_map(s.drop_last(), src, t);
        assert(s.map_values(|l: LyricLine| (l.time, entry_text(src, l))).drop_last() =~= s.drop_last().map_values(
            |l: LyricLine| (l.time, entry_text(src, l)),
        ));
    }
}

proof fn lemma_stamp_times_started(
    stamps: Seq<Seq<char>>,
    t: u128,
    st: Option<usize>,
    te: usize,
)
    ensures
        entries_started_by(
            stamp_times(stamps).map_values(
                |v: u128| LyricLine { time: v, text_start: st, text_end: te },
            ),
            t,
        ) == stamps_started_by(stamps, t),
        stamp_times(stamps).len() == stamp_count(stamps),
    decreases stamps.len(),
{
    if stamps.len() > 0 {
        let rest = stamps.drop_first();
        lemma_stamp_times_started(rest, t, st, te);
        let mk = |v: u128| LyricLine { time: v, text_start: st, text_end: te };
        if let Some(v) = timestamp_millis(stamps[0]) {
            assert(stamp_times(stamps).map_values(mk) =~= seq![mk(v)] + stamp_times(rest).map_values(
                mk,
            ));
            lemma_entries_started_add(seq![mk(v)], stamp_times(rest).map_values(mk), t);
            assert(seq![mk(v)].drop_last() =~= Seq::<LyricLine>::empty());
            assert(entries_started_by(seq![mk(v)].drop_last(), t) == 0);
        }
    }
}

/// A line made of tags `[x]` and a text: every tag whose content reads as a
/// timestamp, whatever its time (0 included) and however many there are,
/// gives one timed line carrying the text; the tags that do not read as
/// timestamps give none.  So the file has as many timed lines as timestamp
/// tags, each with the line's text, and at any time `t` as many of them have
/// started as tags read as times at or before `t`.
pub proof fn lemma_tagged_line(stamps: Seq<Seq<char>>, text: Seq<char>, t: u128)
    requires
        plain_tag_contents(stamps),
        plain_text(text),
        tagged_line(stamps, text).len() + 1 <= usize::MAX,
    ensures
        ({
            let v = timed_lines(tagged_line(stamps, text) + seq!['\n']);
            &&& v.len() == stamp_count(stamps)
            &&& forall|i: int| 0 <= i < v.len() ==> #[trigger] v[i].1 == Some(text)
            &&& lines_started_by(v, t) == stamps_started_by(stamps, t)
        }),
{
    broadcast use vstd::seq_lib::to_multiset_contains;

    let l = tagged_line(stamps, text);
    let src = l + seq!['\n'];
    let n = src.len() as int;
    lemma_tagged_line_shape(stamps, text);
    assert(src.subrange(0, n) =~= src);
    lemma_tagged_scan(src, 0, n, stamps, text);
    let pe = l.len() - text.len();
    // The line runs to the end of the file.
    assert forall|j: int| 0 <= j < l.len() implies src[j] != '\n' by {
        assert(src[j] == l[j]);
    }
    crate::text::lemma_find_in_at(src, '\n', 0, l.len() as int, n);
    assert(line_end(src, 0) == n);
    assert(entries_from(src, n) == Seq::<LyricLine>::empty());
    // Where the text ends.
    assert(src.drop_last() =~= l);
    assert(trim_end_len(src) == trim_end_len(l));
    if l.len() > 0 {
        assert(l.drop_last().len() == l.len() - 1);
    }
    assert(trim_end_len(l) == l.len());
    let te = l.len() as int;
    // Where the text starts.
    if text.len() > 0 {
        assert(src[pe] == l[pe]);
        assert(l[pe] == l.subrange(pe, l.len() as int)[0]);
    }
    assert(skip_blank(src, pe, n) == pe);
    assert(src.subrange(pe, te) =~= Seq::<char>::empty() || te > pe);
    assert(char_after_bytes(src, pe, 0) == Some(pe));
    assert(text_start(src, pe, pe, te) == Some(pe));
    let mk = |v: u128| LyricLine { time: v, text_start: Some(pe as usize), text_end: te as usize };
    let e = lyric_entries(src);
    assert(e =~= line_entries(src, 0, n) + entries_from(src, n));
    assert(e =~= stamp_times(stamps).map_values(mk));
    lemma_stamp_times_started(stamps, t, Some(pe as usize), te as usize);
    lemma_sort_by_time_sorted(e);
    lemma_sort_by_time_permutes(e);
    lemma_sort_keeps_started(e, t);
    lemma_started_map(sort_by_time(e), src, t);
    let v = timed_lines(src);
    assert(src.subrange(pe, te) =~= text);
    assert forall|i: int| 0 <= i < v.len() implies #[trigger] v[i].1 == Some(text) by {
        let y = sort_by_time(e)[i];
        assert(sort_by_time(e).contains(y));
        assert(sort_by_time(e).to_multiset().count(y) > 0);
        assert(e.contains(y));
        assert(v[i].1 == entry_text(src, y));
    }
}

/// The entries that one line `tagged_line(stamps, text)` gives, wherever in a
/// file it stands.
proof fn lemma_tagged_entries_at(
    s: Seq<char>,
    ls: int,
    le: int,
    stamps: Seq<Seq<char>>,
    text: Seq<char>,
)
    requires
        0 <= ls <= le <= s.len() <= usize::MAX,
        s.subrange(ls, le) == tagged_line(stamps, text) + seq!['\n'],
        plain_tag_contents(stamps),
        plain_text(text),
    ensures
        line_end(s, ls) == le,
        ({
            let e = line_entries(s, ls, le);
            &&& e.len() == stamp_count(stamps)
            &&& forall|t: u128| entries_started_by(e, t) == #[trigger] stamps_started_by(stamps, t)
            &&& forall|i: int| 0 <= i < e.len() ==> entry_text(s, #[trigger] e[i]) == Some(text)
        }),
{
    let l = tagged_line(stamps, text);
    let u = s.subrange(ls, le);
    lemma_tagged_line_shape(stamps, text);
    lemma_tagged_scan(s, ls, le, stamps, text);
    let pe = le - 1 - text.len();
    assert forall|j: int| ls <= j < ls + l.len() implies s[j] != '\n' by {
        assert(s[j] == u[j - ls]);
        assert(u[j - ls] == l[j - ls]);
    }
    assert(s[ls + l.len()] == u[l.len() as int]);
    crate::text::lemma_find_in_at(s, '\n', ls, ls + l.len(), s.len() as int);
    assert(u.drop_last() =~= l);
    assert(trim_end_len(u) == trim_end_len(l));
    if l.len() > 0 {
        assert(l.drop_last().len() == l.len() - 1);
    }
    assert(trim_end_len(l) == l.len());
    let te = ls + l.len();
    if text.len() > 0 {
        assert(s[pe] == u[pe - ls]);
        assert(u[pe - ls] == l[pe - ls]);
        assert(l[pe - ls] == l.subrange(l.len() - text.len(), l.len() as int)[0]);
    } else {
        assert(s[pe] == u[pe - ls]);
    }
    assert(skip_blank(s, pe, le) == pe);
    assert(char_after_bytes(s, pe, 0) == Some(pe));
    assert(text_start(s, pe, pe, te) == Some(pe));
    let mk = |v: u128| LyricLine { time: v, text_start: Some(pe as usize), text_end: te as usize };
    let e = line_entries(s, ls, le);
    assert(e =~= stamp_times(stamps).map_values(mk));
    assert forall|t: u128| entries_started_by(e, t) == #[trigger] stamps_started_by(stamps, t) by {
        lemma_stamp_times_started(stamps, t, Some(pe as usize), te as usize);
    }
    lemma_stamp_times_started(stamps, 0, Some(pe as usize), te as usize);
    assert(s.subrange(pe, te) =~= text) by {
        assert forall|m: int| 0 <= m < text.len() implies s.subrange(pe, te)[m] == text[m] by {
            assert(s[pe + m] == u[pe + m - ls]);
            assert(u[pe + m - ls] == l[pe + m - ls]);
            assert(l[pe + m - ls] == l.subrange(l.len() - text.len(), l.len() as int)[m]);
        }
    }
}

/// A file of lines, each made of tags and a text and ended by a line feed.
pub open spec fn tagged_file(lines: Seq<(Seq<Seq<char>>, Seq<char>)>) -> Seq<char>
    decreases lines.len(),
{
    if lines.len() == 0 {
        Seq::empty()
    } else {
        tagged_line(lines[0].0, lines[0].1) + seq!['\n'] + tagged_file(lines.drop_first())
    }
}

/// How many tags of the file's lines read as timestamps.
pub open spec fn file_stamp_count(lines: Seq<(Seq<Seq<char>>, Seq<char>)>) -> nat
    decreases lines.len(),
{
    if lines.len() == 0 {
        0
    } else {
        stamp_count(lines[0].0) + file_stamp_count(lines.drop_first())
    }
}

/// How many tags of the file's lines read as times at or before `t`.
pub open spec fn file_started_by(lines: Seq<(Seq<Seq<char>>, Seq<char>)>, t: u128) -> nat
    decreases lines.len(),
{
    if lines.len() == 0 {
        0
    } else {
        stamps_started_by(lines[0].0, t) + file_started_by(lines.drop_first(), t)
    }
}

/// The lines of a tagged file are all of the kind the laws speak of.
pub open spec fn plain_tagged_lines(lines: Seq<(Seq<Seq<char>>, Seq<char>)>) -> bool {
    forall|j: int|
        0 <= j < lines.len() ==> plain_tag_contents(#[trigger] lines[j].0) && plain_text(
            lines[j].1,
        )
}

proof fn lemma_tagged_file_entries(s: Seq<char>, ls: int, lines: Seq<(Seq<Seq<char>>, Seq<char>)>)
    requires
        0 <= ls <= s.len() <= usize::MAX,
        s.subrange(ls, s.len() as int) == tagged_file(lines),
        plain_tagged_lines(lines),
    ensures
        entries_from(s, ls).len() == file_stamp_count(lines),
        forall|t: u128| entries_started_by(entries_from(s, ls), t) == #[trigger] file_started_by(lines, t),
        forall|i: int|
            0 <= i < entries_from(s, ls).len() ==> exists|j: int|
                0 <= j < lines.len() && entry_text(s, #[trigger] entries_from(s, ls)[i]) == Some(
                    lines[j].1,
                ),
    decreases lines.len(),
{
    if lines.len() == 0 {
        assert(ls == s.len());
    } else {
        let (stamps, text) = lines[0];
        let rest = lines.drop_first();
        let l = tagged_line(stamps, text);
        let le = ls + l.len() + 1;
        assert(plain_tag_contents(lines[0].0) && plain_text(lines[0].1));
        assert(plain_tagged_lines(rest)) by {
            assert forall|j: int| 0 <= j < rest.len() implies plain_tag_contents(
                #[trigger] rest[j].0,
            ) && plain_text(rest[j].1) by {
                assert(rest[j] == lines[j + 1]);
            }
        }
        let f = tagged_file(lines);
        assert(f == l + seq!['\n'] + tagged_file(rest));
        assert(s.subrange(ls, le) =~= l + seq!['\n']) by {
            assert forall|m: int| 0 <= m < l.len() + 1 implies s.subrange(ls, le)[m] == (l
                + seq!['\n'])[m] by {
                assert(s[ls + m] == f[m]);
            }
        }
        assert(s.subrange(le, s.len() as int) =~= tagged_file(rest)) by {
            assert forall|m: int| 0 <= m < s.len() - le implies s.subrange(
                le,
                s.len() as int,
            )[m] == tagged_file(rest)[m] by {
                assert(s[le + m] == f[l.len() + 1 + m]);
            }
        }
        lemma_tagged_entries_at(s, ls, le, stamps, text);
        lemma_tagged_file_entries(s, le, rest);
        let a = line_entries(s, ls, le);
        let b = entries_from(s, le);
        assert(entries_from(s, ls) == a + b);
        assert forall|t: u128| entries_started_by(entries_from(s, ls), t) == #[trigger] file_started_by(
            lines,
            t,
        ) by {
            lemma_entries_started_add(a, b, t);
            assert(entries_started_by(a, t) == stamps_started_by(stamps, t));
            assert(entries_started_by(b, t) == file_started_by(rest, t));
        }
        assert forall|i: int| 0 <= i < entries_from(s, ls).len() implies exists|j: int|
            0 <= j < lines.len() && entry_text(s, #[trigger] entries_from(s, ls)[i]) == Some(
                lines[j].1,
            ) by {
            if i < a.len() {
                assert(entries_from(s, ls)[i] == a[i]);
                assert(entry_text(s, a[i]) == Some(lines[0].1));
            } else {
                assert(entries_from(s, ls)[i] == b[i - a.len()]);
                let j = choose|j: int|
                    0 <= j < rest.len() && entry_text(s, b[i - a.len()]) == Some(rest[j].1);
                assert(rest[j] == lines[j + 1]);
            }
        }
    }
}

/// In a file whose lines are made of tags `[x]` and a text, every tag that
/// reads as a timestamp, on any line and whatever its time (0 included),
/// gives one timed line, and no other tag does: the file has as many timed
/// lines as timestamp tags, each timed line carries the text of one of the
/// file's lines, and at any time `t` as many have started as tags read as
/// times at or before `t`.
pub proof fn lemma_tagged_file(lines: Seq<(Seq<Seq<char>>, Seq<char>)>, t: u128)
    requires
        plain_tagged_lines(lines),
        tagged_file(lines).len() <= usize::MAX,
    ensures
        ({
            let v = timed_lines(tagged_file(lines));
            &&& v.len() == file_stamp_count(lines)
            &&& lines_started_by(v, t) == file_started_by(lines, t)
            &&& forall|i: int|
                0 <= i < v.len() ==> exists|j: int|
                    0 <= j < lines.len() && #[trigger] v[i].1 == Some(lines[j].1)
        }),
{
    broadcast use vstd::seq_lib::to_multiset_contains;

    let src = tagged_file(lines);
    assert(src.subrange(0, src.len() as int) =~= src);
    lemma_tagged_file_entries(src, 0, lines);
    let e = lyric_entries(src);
    assert(entries_started_by(e, t) == file_started_by(lines, t));
    lemma_sort_by_time_sorted(e);
    lemma_sort_by_time_permutes(e);
    lemma_sort_keeps_started(e, t);
    lemma_started_map(sort_by_time(e), src, t);
    let v = timed_lines(src);
    assert forall|i: int| 0 <= i < v.len() implies exists|j: int|
        0 <= j < lines.len() && #[trigger] v[i].1 == Some(lines[j].1) by {
        let y = sort_by_time(e)[i];
        assert(sort_by_time(e).contains(y));
        assert(sort_by_time(e).to_multiset().count(y) > 0);
        assert(e.contains(y));
        let k = choose|k: int| 0 <= k < e.len() && e[k] == y;
        assert(v[i].1 == entry_text(src, y));
        let j = choose|j: int| 0 <= j < lines.len() && entry_text(src, e[k]) == Some(lines[j].1);
    }
}

} // verus!
