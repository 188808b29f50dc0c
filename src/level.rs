//! Severity levels of log entries.

use vstd::prelude::*;
use crate::text::{char_is_ws, chars_of, is_ws, trimmed, ws_run, ws_run_back};

verus! {

#[derive(Clone, Copy, Debug, PartialEq, Eq, Structural)]
pub enum LogLevel {
    Error,
    Warn,
    Info,
    Debug,
    Trace,
    Unknown,
}

/// `c` upper-cases to the letter `u`, whose lower-case form is `l`. Besides
/// the two ASCII forms, the dotless `ı` (U+0131) upper-cases to `I`; no other
/// character upper-cases to a letter of a level name.
pub open spec fn upper_is(c: char, u: char, l: char) -> bool {
    c == u || c == l || (u == 'I' && c == '\u{131}')
}

/// `t` spells the ASCII word whose upper-case letters are `up` and whose
/// lower-case letters are `low`: each character upper-cases to its letter.
pub open spec fn spells(t: Seq<char>, up: Seq<char>, low: Seq<char>) -> bool {
    t.len() == up.len() && t.len() == low.len() && forall|i: int|
        0 <= i < t.len() ==> upper_is(#[trigger] t[i], up[i], low[i])
}

/// The level that a trimmed token names.
pub open spec fn level_of(t: Seq<char>) -> LogLevel {
    if spells(t, seq!['E', 'R', 'R', 'O', 'R'], seq!['e', 'r', 'r', 'o', 'r']) {
        LogLevel::Error
    } else if spells(t, seq!['W', 'A', 'R', 'N'], seq!['w', 'a', 'r', 'n']) || spells(
        t,
        seq!['W', 'A', 'R', 'N', 'I', 'N', 'G'],
        seq!['w', 'a', 'r', 'n', 'i', 'n', 'g'],
    ) {
        LogLevel::Warn
    } else if spells(t, seq!['I', 'N', 'F', 'O'], seq!['i', 'n', 'f', 'o']) {
        LogLevel::Info
    } else if spells(t, seq!['D', 'E', 'B', 'U', 'G'], seq!['d', 'e', 'b', 'u', 'g']) {
        LogLevel::Debug
    } else if spells(t, seq!['T', 'R', 'A', 'C', 'E'], seq!['t', 'r', 'a', 'c', 'e']) {
        LogLevel::Trace
    } else {
        LogLevel::Unknown
    }
}

fn spells_word(v: &Vec<char>, from: usize, to: usize, up: &[char], low: &[char]) -> (r: bool)
    requires
        from <= to <= v@.len(),
    ensures
        r == spells(v@.subrange(from as int, to as int), up@, low@),
{
    if to - from != up.len() || up.len() != low.len() {
        return false;
    }
    let mut i: usize = 0;
    while i < up.len()
        invariant
            to - from == up@.len(),
            up@.len() == low@.len(),
            from <= to <= v@.len(),
            i <= up@.len(),
            forall|k: int|
                0 <= k < i ==> upper_is(#[trigger] v@[from + k], up@[k], low@[k]),
        decreases up@.len() - i,
    {
        let c = v[from + i];
        if !(c == up[i] || c == low[i] || (up[i] == 'I' && c == '\u{131}')) {
            assert(v@.subrange(from as int, to as int)[i as int] == c);
            return false;
        }
        i = i + 1;
    }
    assert forall|k: int| 0 <= k < up@.len() implies upper_is(
        #[trigger] v@.subrange(from as int, to as int)[k],
        up@[k],
        low@[k],
    ) by {
        assert(v@.subrange(from as int, to as int)[k] == v@[from + k]);
    }
    true
}

impl LogLevel {
    /// The level a token names: surrounding whitespace is ignored, a token
    /// names a level when it upper-cases to the name, `WARN` and `WARNING`
    /// both give `Warn`, and any other token gives `Unknown`.
    pub fn from_str(s: &str) -> (r: LogLevel)
        ensures
            r == level_of(trimmed(s@)),
    {
        let v = chars_of(s);
        let mut a: usize = 0;
        while a < v.len() && char_is_ws(v[a])
            invariant
                a <= v@.len(),
                v@ == s@,
                ws_run(v@, 0) == a + ws_run(v@, a as int),
            decreases v@.len() - a,
        {
            a = a + 1;
        }
        assert(ws_run(v@, a as int) == 0);
        if a == v.len() {
            assert(v@.subrange(a as int, a as int) =~= trimmed(s@));
            return level_of_chars(&v, a, a);
        }
        let mut b: usize = v.len();
        while b > a && char_is_ws(v[b - 1])
            invariant
                a < v@.len(),
                a < b <= v@.len(),
                v@ == s@,
                ws_run(v@, 0) == a,
                ws_run_back(v@, v@.len() as int) == (v@.len() - b) + ws_run_back(v@, b as int),
                !is_ws(v@[a as int]),
            decreases b,
        {
            b = b - 1;
        }
        assert(ws_run_back(v@, b as int) == 0);
        assert(v@.subrange(a as int, b as int) =~= trimmed(s@));
        level_of_chars(&v, a, b)
    }

    /// The upper-case name of the level.
    pub fn name(&self) -> (r: String)
        ensures
            r@ == level_name(*self),
    {
        match self {
            LogLevel::Error => String::from_str("ERROR"),
            LogLevel::Warn => String::from_str("WARN"),
            LogLevel::Info => String::from_str("INFO"),
            LogLevel::Debug => String::from_str("DEBUG"),
            LogLevel::Trace => String::from_str("TRACE"),
            LogLevel::Unknown => String::from_str("UNKNOWN"),
        }
    }
}

pub open spec fn level_name(l: LogLevel) -> Seq<char> {
    match l {
        LogLevel::Error => "ERROR"@,
        LogLevel::Warn => "WARN"@,
        LogLevel::Info => "INFO"@,
        LogLevel::Debug => "DEBUG"@,
        LogLevel::Trace => "TRACE"@,
        LogLevel::Unknown => "UNKNOWN"@,
    }
}

/// The level named by the characters `v[from..to]`.
pub fn level_of_chars(v: &Vec<char>, from: usize, to: usize) -> (r: LogLevel)
    requires
        from <= to <= v@.len(),
    ensures
        r == level_of(v@.subrange(from as int, to as int)),
{
    if spells_word(v, from, to, &['E', 'R', 'R', 'O', 'R'], &['e', 'r', 'r', 'o', 'r']) {
        LogLevel::Error
    } else if spells_word(v, from, to, &['W', 'A', 'R', 'N'], &['w', 'a', 'r', 'n'])
        || spells_word(
        v,
        from,
        to,
        &['W', 'A', 'R', 'N', 'I', 'N', 'G'],
        &['w', 'a', 'r', 'n', 'i', 'n', 'g'],
    ) {
        LogLevel::Warn
    } else if spells_word(v, from, to, &['I', 'N', 'F', 'O'], &['i', 'n', 'f', 'o']) {
        LogLevel::Info
    } else if spells_word(v, from, to, &['D', 'E', 'B', 'U', 'G'], &['d', 'e', 'b', 'u', 'g']) {
        LogLevel::Debug
    } else if spells_word(v, from, to, &['T', 'R', 'A', 'C', 'E'], &['t', 'r', 'a', 'c', 'e']) {
        LogLevel::Trace
    } else {
        LogLevel::Unknown
    }
}

/// Each of the level names `ERROR`, `WARN`, `WARNING`, `INFO`, `DEBUG` and
/// `TRACE`, written in any case (any token that upper-cases to the name) and
/// with any surrounding whitespace, gives its
/// level; every other token gives `Unknown`.
pub proof fn law_level_tokens(s: Seq<char>)
    ensures
        spells(trimmed(s), seq!['E', 'R', 'R', 'O', 'R'], seq!['e', 'r', 'r', 'o', 'r'])
            ==> level_of(trimmed(s)) == LogLevel::Error,
        spells(trimmed(s), seq!['W', 'A', 'R', 'N'], seq!['w', 'a', 'r', 'n']) ==> level_of(
            trimmed(s),
        ) == LogLevel::Warn,
        spells(
            trimmed(s),
            seq!['W', 'A', 'R', 'N', 'I', 'N', 'G'],
            seq!['w', 'a', 'r', 'n', 'i', 'n', 'g'],
        ) ==> level_of(trimmed(s)) == LogLevel::Warn,
        spells(trimmed(s), seq!['I', 'N', 'F', 'O'], seq!['i', 'n', 'f', 'o']) ==> level_of(
            trimmed(s),
        ) == LogLevel::Info,
        spells(trimmed(s), seq!['D', 'E', 'B', 'U', 'G'], seq!['d', 'e', 'b', 'u', 'g'])
            ==> level_of(trimmed(s)) == LogLevel::Debug,
        spells(trimmed(s), seq!['T', 'R', 'A', 'C', 'E'], seq!['t', 'r', 'a', 'c', 'e'])
            ==> level_of(trimmed(s)) == LogLevel::Trace,
        !spells(trimmed(s), seq!['E', 'R', 'R', 'O', 'R'], seq!['e', 'r', 'r', 'o', 'r'])
            && !spells(trimmed(s), seq!['W', 'A', 'R', 'N'], seq!['w', 'a', 'r', 'n'])
            && !spells(
            trimmed(s),
            seq!['W', 'A', 'R', 'N', 'I', 'N', 'G'],
            seq!['w', 'a', 'r', 'n', 'i', 'n', 'g'],
        ) && !spells(trimmed(s), seq!['I', 'N', 'F', 'O'], seq!['i', 'n', 'f', 'o']) && !spells(
            trimmed(s),
            seq!['D', 'E', 'B', 'U', 'G'],
            seq!['d', 'e', 'b', 'u', 'g'],
        ) && !spells(trimmed(s), seq!['T', 'R', 'A', 'C', 'E'], seq!['t', 'r', 'a', 'c', 'e'])
            ==> level_of(trimmed(s)) == LogLevel::Unknown,
{
    let t = trimmed(s);
    if t.len() > 0 {
        // The names of equal length differ in their first letter.
        let c = t[0];
        assert(c == t[0]);
    }
}

} // verus!
