//! The two recognised log-line shapes, and the entry that a line yields.
//!
//! A line is either
//! - pipe-separated: `TIMESTAMP | LEVEL | MESSAGE`, where the timestamp is
//!   `YYYY-MM-DD`, then `T` or a whitespace character, then `HH:MM:SS.`, three
//!   to six fraction digits and an optional `Z`; or
//! - whitespace-separated: `YYYY-MM-DDTHH:MM:SS.ffffffZ LEVEL MESSAGE`.
//!
//! Digits are ASCII digits; whitespace is Unicode `White_Space`. The level
//! is a run of non-whitespace characters, and the message is the non-empty
//! rest of the line, without line feeds. Where several readings of a line
//! fit, the one chosen is the one a backtracking matcher picks: repetitions
//! are greedy and the longest level that leaves a valid rest wins.

use vstd::prelude::*;
use vstd::slice::slice_to_vec;
use crate::level::{level_of, level_of_chars, LogLevel};
use crate::text::{
    char_is_digit, chars_of, is_digit, is_ws, lemma_word_run_bound, lemma_ws_run_bound, skip_word,
    skip_ws, string_of, word_run, ws_run,
};

verus! {

/// Number of ASCII digits in `s` starting at `i`.
pub open spec fn digit_run(s: Seq<char>, i: int) -> nat
    decreases s.len() - i,
{
    if 0 <= i < s.len() && is_digit(s[i]) {
        1 + digit_run(s, i + 1)
    } else {
        0
    }
}

/// `YYYY-MM-DD`, a separator, `HH:MM:SS.`: the first twenty characters of
/// every timestamp. With `t_only` the separator is `T`; otherwise it may also
/// be a whitespace character.
pub open spec fn stamp_head(s: Seq<char>, t_only: bool) -> bool {
    &&& s.len() >= 20
    &&& is_digit(s[0]) && is_digit(s[1]) && is_digit(s[2]) && is_digit(s[3])
    &&& s[4] == '-' && is_digit(s[5]) && is_digit(s[6])
    &&& s[7] == '-' && is_digit(s[8]) && is_digit(s[9])
    &&& (s[10] == 'T' || (!t_only && is_ws(s[10])))
    &&& is_digit(s[11]) && is_digit(s[12]) && s[13] == ':'
    &&& is_digit(s[14]) && is_digit(s[15]) && s[16] == ':'
    &&& is_digit(s[17]) && is_digit(s[18]) && s[19] == '.'
}

/// `t` is a whole timestamp of the pipe-separated shape (which includes the
/// timestamps of the whitespace-separated shape).
pub open spec fn stamp_shape(t: Seq<char>) -> bool {
    let f = if t.len() > 0 && t[t.len() - 1] == 'Z' { t.len() - 1 } else { t.len() as int };
    &&& stamp_head(t, false)
    &&& 23 <= f <= 26
    &&& forall|k: int| 20 <= k < f ==> is_digit(#[trigger] t[k])
}

/// Where the timestamp of a pipe-separated line ends.
pub open spec fn pipe_stamp_end(s: Seq<char>) -> Option<int> {
    if stamp_head(s, false) && 3 <= digit_run(s, 20) <= 6 {
        let e: int = 20int + digit_run(s, 20);
        if e < s.len() && s[e] == 'Z' {
            Some(e + 1)
        } else {
            Some(e)
        }
    } else {
        None
    }
}

/// No line feed in `s` from `i` on.
pub open spec fn no_newline_from(s: Seq<char>, i: int) -> bool {
    forall|k: int| i <= k < s.len() ==> #[trigger] s[k] != '\n'
}

/// Where the message starts when optional whitespace and then a non-empty
/// message without line feed must fill `s` from `q` to its end.
pub open spec fn message_start(s: Seq<char>, q: int) -> Option<int> {
    let w: int = q + ws_run(s, q);
    if w < s.len() {
        if no_newline_from(s, w) {
            Some(w)
        } else {
            None
        }
    } else if q < s.len() && s[s.len() - 1] != '\n' {
        Some(s.len() - 1)
    } else {
        None
    }
}

/// Where the pipe after a level of `k` characters from `a` stands, `b` being
/// the end of the non-whitespace run that starts at `a`.
pub open spec fn pipe_after_level(s: Seq<char>, a: int, b: int, k: int) -> int {
    if a + k == b {
        b + ws_run(s, b)
    } else {
        a + k
    }
}

/// A level of `k` characters from `a` is followed by a pipe and a message.
pub open spec fn level_fits(s: Seq<char>, a: int, b: int, k: int) -> bool {
    let p: int = pipe_after_level(s, a, b, k);
    &&& 0 <= p < s.len()
    &&& s[p] == '|'
    &&& message_start(s, p + 1) is Some
}

/// The longest level of at most `k` characters from `a` that fits.
pub open spec fn longest_level(s: Seq<char>, a: int, b: int, k: int) -> Option<int>
    decreases k,
{
    if k <= 0 {
        None
    } else if level_fits(s, a, b, k) {
        Some(k)
    } else {
        longest_level(s, a, b, k - 1)
    }
}

/// How a line splits: end of the timestamp, start and end of the level, and
/// start of the message, which runs to the end of the line.
pub type Split = (int, int, int, int);

pub open spec fn pipe_split(s: Seq<char>) -> Option<Split> {
    match pipe_stamp_end(s) {
        None => None,
        Some(e) => {
            let p: int = e + ws_run(s, e);
            if p < s.len() && s[p] == '|' {
                let a: int = p + 1 + ws_run(s, p + 1);
                let b: int = a + word_run(s, a);
                match longest_level(s, a, b, b - a) {
                    None => None,
                    Some(k) => Some(
                        (e, a, a + k, message_start(s, pipe_after_level(s, a, b, k) + 1)->0),
                    ),
                }
            } else {
                None
            }
        },
    }
}

pub open spec fn space_split(s: Seq<char>) -> Option<Split> {
    if stamp_head(s, true) && s.len() >= 27 && (forall|k: int| 20 <= k < 26 ==> is_digit(#[trigger] s[k]))
        && s[26] == 'Z' && ws_run(s, 27) >= 1 {
        let a: int = 27int + ws_run(s, 27);
        let b: int = a + word_run(s, a);
        if a < b && b < s.len() && message_start(s, b + 1) is Some {
            Some((27int, a, b, message_start(s, b + 1)->0))
        } else {
            None
        }
    } else {
        None
    }
}

/// The split of a line: the pipe-separated shape is tried first.
pub open spec fn split_of(s: Seq<char>) -> Option<Split> {
    match pipe_split(s) {
        Some(t) => Some(t),
        None => space_split(s),
    }
}

pub open spec fn split_ints(t: (usize, usize, usize, usize)) -> Split {
    (t.0 as int, t.1 as int, t.2 as int, t.3 as int)
}

pub proof fn lemma_digit_run_bound(s: Seq<char>, i: int)
    requires
        0 <= i <= s.len(),
    ensures
        i + digit_run(s, i) <= s.len(),
        forall|k: int| i <= k < i + digit_run(s, i) ==> is_digit(#[trigger] s[k]),
        i + digit_run(s, i) < s.len() ==> !is_digit(s[i + digit_run(s, i)]),
    decreases s.len() - i,
{
    if i < s.len() && is_digit(s[i]) {
        lemma_digit_run_bound(s, i + 1);
    }
}

fn digits_from(v: &Vec<char>, i: usize) -> (r: usize)
    requires
        i <= v@.len(),
    ensures
        r == i + digit_run(v@, i as int),
        r <= v@.len(),
{
    proof {
        lemma_digit_run_bound(v@, i as int);
    }
    let mut j = i;
    while j < v.len() && char_is_digit(v[j])
        invariant
            i <= j <= v@.len(),
            digit_run(v@, i as int) == (j - i) + digit_run(v@, j as int),
        decreases v@.len() - j,
    {
        j = j + 1;
    }
    j
}

fn has_stamp_head(v: &Vec<char>, t_only: bool) -> (r: bool)
    ensures
        r == stamp_head(v@, t_only),
{
    v.len() >= 20 && char_is_digit(v[0]) && char_is_digit(v[1]) && char_is_digit(v[2])
        && char_is_digit(v[3]) && v[4] == '-' && char_is_digit(v[5]) && char_is_digit(v[6])
        && v[7] == '-' && char_is_digit(v[8]) && char_is_digit(v[9]) && (v[10] == 'T' || (!t_only
        && crate::text::char_is_ws(v[10]))) && char_is_digit(v[11]) && char_is_digit(v[12])
        && v[13] == ':' && char_is_digit(v[14]) && char_is_digit(v[15]) && v[16] == ':'
        && char_is_digit(v[17]) && char_is_digit(v[18]) && v[19] == '.'
}

fn newline_free_from(v: &Vec<char>, i: usize) -> (r: bool)
    requires
        i <= v@.len(),
    ensures
        r == no_newline_from(v@, i as int),
{
    let mut j = i;
    while j < v.len()
        invariant
            i <= j <= v@.len(),
            forall|k: int| i <= k < j ==> #[trigger] v@[k] != '\n',
        decreases v@.len() - j,
    {
        if v[j] == '\n' {
            return false;
        }
        j = j + 1;
    }
    true
}

fn find_message_start(v: &Vec<char>, q: usize) -> (r: Option<usize>)
    requires
        q <= v@.len(),
    ensures
        r matches Some(m) ==> message_start(v@, q as int) == Some(m as int),
        r is None ==> message_start(v@, q as int) is None,
{
    let w = skip_ws(v, q);
    if w < v.len() {
        if newline_free_from(v, w) {
            Some(w)
        } else {
            None
        }
    } else if q < v.len() && v[v.len() - 1] != '\n' {
        Some(v.len() - 1)
    } else {
        None
    }
}

fn fits_level(v: &Vec<char>, a: usize, b: usize, k: usize) -> (r: bool)
    requires
        0 < k,
        a + k <= b <= v@.len(),
    ensures
        r == level_fits(v@, a as int, b as int, k as int),
{
    let p = if a + k == b {
        skip_ws(v, b)
    } else {
        a + k
    };
    p < v.len() && v[p] == '|' && find_message_start(v, p + 1).is_some()
}

fn pipe_split_chars(v: &Vec<char>) -> (r: Option<(usize, usize, usize, usize)>)
    ensures
        r matches Some(t) ==> pipe_split(v@) == Some(split_ints(t)),
        r is None ==> pipe_split(v@) is None,
{
    if !has_stamp_head(v, false) {
        return None;
    }
    let f = digits_from(v, 20);
    if f - 20 < 3 || f - 20 > 6 {
        return None;
    }
    let e = if f < v.len() && v[f] == 'Z' {
        f + 1
    } else {
        f
    };
    assert(pipe_stamp_end(v@) == Some(e as int));
    let p = skip_ws(v, e);
    if !(p < v.len() && v[p] == '|') {
        return None;
    }
    let a = skip_ws(v, p + 1);
    let b = skip_word(v, a);
    let mut k = b - a;
    while k > 0
        invariant
            a <= b <= v@.len(),
            p < v@.len(),
            v@[p as int] == '|',
            pipe_stamp_end(v@) == Some(e as int),
            p == e + ws_run(v@, e as int),
            a == p + 1 + ws_run(v@, p + 1),
            b == a + word_run(v@, a as int),
            k <= b - a,
            longest_level(v@, a as int, b as int, (b - a) as int) == longest_level(
                v@,
                a as int,
                b as int,
                k as int,
            ),
        decreases k,
    {
        if fits_level(v, a, b, k) {
            let q = if a + k == b {
                skip_ws(v, b)
            } else {
                a + k
            };
            assert(q as int == pipe_after_level(v@, a as int, b as int, k as int));
            assert(level_fits(v@, a as int, b as int, k as int));
            assert(q < v.len());
            let m = find_message_start(v, q + 1);
            match m {
                Some(m) => {
                    return Some((e, a, a + k, m));
                },
                None => {
                    return None;
                },
            }
        }
        k = k - 1;
    }
    None
}

fn space_split_chars(v: &Vec<char>) -> (r: Option<(usize, usize, usize, usize)>)
    ensures
        r matches Some(t) ==> space_split(v@) == Some(split_ints(t)),
        r is None ==> space_split(v@) is None,
{
    if !(has_stamp_head(v, true) && v.len() >= 27) {
        return None;
    }
    let mut i: usize = 20;
    while i < 26
        invariant
            20 <= i <= 26,
            v@.len() >= 27,
            forall|k: int| 20 <= k < i ==> is_digit(#[trigger] v@[k]),
        decreases 26 - i,
    {
        if !char_is_digit(v[i]) {
            return None;
        }
        i = i + 1;
    }
    if v[26] != 'Z' {
        return None;
    }
    let a = skip_ws(v, 27);
    if a == 27 {
        return None;
    }
    let b = skip_word(v, a);
    if !(a < b && b < v.len()) {
        return None;
    }
    match find_message_start(v, b + 1) {
        Some(m) => Some((27, a, b, m)),
        None => None,
    }
}

/// How the line `v` splits into timestamp, level and message, if it has one
/// of the two shapes.
pub fn split_chars(v: &Vec<char>) -> (r: Option<(usize, usize, usize, usize)>)
    ensures
        r matches Some(t) ==> split_of(v@) == Some(split_ints(t)),
        r is None ==> split_of(v@) is None,
{
    match pipe_split_chars(v) {
        Some(t) => Some(t),
        None => space_split_chars(v),
    }
}

/// What a log line yields once it is recognised.
#[derive(Clone, Debug)]
pub struct LogEntry {
    /// Microseconds since the Unix epoch, UTC.
    pub timestamp: i64,
    pub level: LogLevel,
    /// Reserved for a component name; no recognised line shape carries one,
    /// so it is always `None`.
    pub component: Option<String>,
    /// The message; continuation lines are appended to it, each after a
    /// line feed.
    pub message: String,
}

/// The mathematical value of a log entry.
pub struct EntryView {
    pub timestamp: i64,
    pub level: LogLevel,
    pub component: Option<Seq<char>>,
    pub message: Seq<char>,
}

impl View for LogEntry {
    type V = EntryView;

    open spec fn view(&self) -> EntryView {
        EntryView {
            timestamp: self.timestamp,
            level: self.level,
            component: match self.component {
                Some(c) => Some(c@),
                None => None,
            },
            message: self.message@,
        }
    }
}

pub open spec fn opt_view(r: Option<LogEntry>) -> Option<EntryView> {
    match r {
        Some(e) => Some(e@),
        None => None,
    }
}

/// The instant, in microseconds since the Unix epoch, that the timestamp
/// parser gives for the timestamp text `t`, or `None` where it rejects it.
pub uninterp spec fn parsed_micros(t: Seq<char>) -> Option<i64>;

/// The text of the timestamp of a line that has one of the two shapes.
pub open spec fn stamp_text(s: Seq<char>) -> Seq<char> {
    let sp = split_of(s)->0;
    s.subrange(0, sp.0)
}

/// The entry that a line of one of the two shapes yields, given what the
/// timestamp parser made of its timestamp.
pub open spec fn entry_with_stamp(s: Seq<char>, stamp: Option<i64>) -> Option<EntryView> {
    match split_of(s) {
        None => None,
        Some(sp) => match stamp {
            None => None,
            Some(t) => Some(
                EntryView {
                    timestamp: t,
                    level: level_of(s.subrange(sp.1, sp.2)),
                    component: None,
                    message: s.subrange(sp.3, s.len() as int),
                },
            ),
        },
    }
}

/// The text handed to the timestamp parser for the timestamp `t`: a
/// timestamp with `T` between date and time and no `Z` is in UTC, which a
/// `Z` appended to it says explicitly. Others go as they are.
pub open spec fn utc_stamp(t: Seq<char>) -> Seq<char> {
    if t.len() > 10 && t[10] == 'T' && t[t.len() - 1] != 'Z' {
        t.push('Z')
    } else {
        t
    }
}

/// The entry that a line yields.
pub open spec fn entry_of(s: Seq<char>) -> Option<EntryView> {
    entry_with_stamp(s, parsed_micros(utc_stamp(stamp_text(s))))
}

/// Relies on `dateparser::parse_with_timezone` with UTC as the zone for
/// strings without one, and on `DateTime::timestamp_micros`. For a string of
/// the timestamp shape no clock and no local zone enters the result, so it
/// depends on the text alone.
#[verifier::external_body]
fn parse_stamp(t: &str) -> (r: Option<i64>)
    requires
        stamp_shape(t@),
    ensures
        r == parsed_micros(t@),
{
    dateparser::parse_with_timezone(t, &chrono::Utc).ok().map(|d| d.timestamp_micros())
}

proof fn lemma_stamp_shape(s: Seq<char>)
    requires
        split_of(s) is Some,
    ensures
        stamp_shape(stamp_text(s)),
        stamp_shape(utc_stamp(stamp_text(s))),
{
    let t = stamp_text(s);
    let sp = split_of(s)->0;
    if pipe_split(s) is Some {
        lemma_digit_run_bound(s, 20);
        let f: int = 20int + digit_run(s, 20);
        assert(t.len() == sp.0);
        if f < s.len() && s[f] == 'Z' {
            assert(t[t.len() - 1] == 'Z');
        } else {
            assert(t[t.len() - 1] == s[f - 1]);
        }
        assert forall|k: int| 20 <= k < f implies is_digit(#[trigger] t[k]) by {
            assert(t[k] == s[k]);
        }
    } else {
        assert(t.len() == 27);
        assert(t[26] == 'Z');
        assert forall|k: int| 20 <= k < 26 implies is_digit(#[trigger] t[k]) by {
            assert(t[k] == s[k]);
        }
    }
    let u = utc_stamp(t);
    if u != t {
        assert forall|k: int| 0 <= k < t.len() implies #[trigger] u[k] == t[k] by {}
        assert(u[u.len() - 1] == 'Z');
    }
}

/// Builds the entry of a line whose split is `sp`, given what the timestamp
/// parser made of its timestamp.
fn entry_from_split(v: &Vec<char>, sp: (usize, usize, usize, usize), stamp: Option<i64>) -> (r:
    Option<LogEntry>)
    requires
        split_of(v@) == Some(split_ints(sp)),
    ensures
        opt_view(r) == entry_with_stamp(v@, stamp),
{
    proof {
        lemma_split_bounds(v@);
    }
    match stamp {
        None => None,
        Some(t) => {
            let level = level_of_chars(v, sp.1, sp.2);
            let message = string_of(&v.as_slice()[sp.3..v.len()]);
            Some(LogEntry { timestamp: t, level, component: None, message })
        },
    }
}

pub proof fn lemma_split_bounds(s: Seq<char>)
    requires
        split_of(s) is Some,
    ensures
        split_of(s) matches Some(sp) ==> 0 <= sp.0 <= sp.1 <= sp.2 <= sp.3 < s.len(),
{
    if pipe_split(s) is Some {
        lemma_digit_run_bound(s, 20);
        let e = pipe_stamp_end(s)->0;
        lemma_ws_run_bound(s, e);
        let p: int = e + ws_run(s, e);
        lemma_ws_run_bound(s, p + 1);
        let a: int = p + 1 + ws_run(s, p + 1);
        lemma_word_run_bound(s, a);
        let b: int = a + word_run(s, a);
        lemma_longest_level(s, a, b, b - a);
        let k = longest_level(s, a, b, b - a)->0;
        let q = pipe_after_level(s, a, b, k);
        lemma_ws_run_bound(s, b);
        lemma_message_start(s, q + 1);
    } else {
        lemma_ws_run_bound(s, 27);
        let a: int = 27int + ws_run(s, 27);
        lemma_word_run_bound(s, a);
        let b: int = a + word_run(s, a);
        lemma_message_start(s, b + 1);
    }
}

proof fn lemma_longest_level(s: Seq<char>, a: int, b: int, k: int)
    ensures
        longest_level(s, a, b, k) matches Some(j) ==> 0 < j <= k && level_fits(s, a, b, j),
    decreases k,
{
    if k > 0 && !level_fits(s, a, b, k) {
        lemma_longest_level(s, a, b, k - 1);
    }
}

proof fn lemma_message_start(s: Seq<char>, q: int)
    requires
        0 <= q <= s.len(),
    ensures
        message_start(s, q) matches Some(m) ==> q <= m < s.len(),
{
    lemma_ws_run_bound(s, q);
}

/// How one line reads.
pub enum LineRead {
    /// The line starts a new entry.
    Entry(LogEntry),
    /// The line has neither shape: it continues the previous entry.
    Continuation,
    /// The line has one of the shapes but its timestamp does not parse: it
    /// is dropped.
    Discarded,
}

/// How the line `v` reads: an entry, a continuation or a dropped line.
pub fn read_line_chars(v: &Vec<char>) -> (r: LineRead)
    ensures
        split_of(v@) is None <==> r is Continuation,
        r matches LineRead::Entry(e) ==> entry_of(v@) == Some(e@),
        r is Discarded <==> (split_of(v@) is Some && entry_of(v@) is None),
{
    match split_chars(v) {
        None => LineRead::Continuation,
        Some(sp) => {
            proof {
                lemma_stamp_shape(v@);
            }
            let mut t: Vec<char> = slice_to_vec(&v.as_slice()[0..sp.0]);
            if t.len() > 10 && t[10] == 'T' && t[t.len() - 1] != 'Z' {
                t.push('Z');
            }
            let text = string_of(t.as_slice());
            let stamp = parse_stamp(text.as_str());
            match entry_from_split(v, sp, stamp) {
                Some(e) => LineRead::Entry(e),
                None => LineRead::Discarded,
            }
        },
    }
}

impl LogEntry {
    /// The entry that `line` yields: `None` where the line has neither shape,
    /// or where its timestamp does not parse.
    pub fn parse(line: &str) -> (r: Option<LogEntry>)
        ensures
            opt_view(r) == entry_of(line@),
    {
        let v = chars_of(line);
        match read_line_chars(&v) {
            LineRead::Entry(e) => Some(e),
            _ => None,
        }
    }

    /// The entry that `line` yields when its timestamp parses to `stamp`
    /// (`None`: it does not parse).
    pub fn parse_with_stamp(line: &str, stamp: Option<i64>) -> (r: Option<LogEntry>)
        ensures
            opt_view(r) == entry_with_stamp(line@, stamp),
    {
        let v = chars_of(line);
        match split_chars(&v) {
            None => None,
            Some(sp) => entry_from_split(&v, sp, stamp),
        }
    }
}

} // verus!
