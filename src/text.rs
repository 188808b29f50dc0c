//! Character-level helpers shared by the line grammar and the level parser.

use vstd::prelude::*;

verus! {

/// Unicode `White_Space`: the set that `char::is_whitespace`, `str::trim`
/// and the `\s` class of a regular expression all use.
pub open spec fn is_ws(c: char) -> bool {
    ||| ('\u{9}' <= c && c <= '\u{d}')
    ||| c == ' '
    ||| c == '\u{85}'
    ||| c == '\u{a0}'
    ||| c == '\u{1680}'
    ||| ('\u{2000}' <= c && c <= '\u{200a}')
    ||| c == '\u{2028}'
    ||| c == '\u{2029}'
    ||| c == '\u{202f}'
    ||| c == '\u{205f}'
    ||| c == '\u{3000}'
}

pub open spec fn is_digit(c: char) -> bool {
    '0' <= c && c <= '9'
}

/// Number of whitespace characters in `s` starting at `i`.
pub open spec fn ws_run(s: Seq<char>, i: int) -> nat
    decreases s.len() - i,
{
    if 0 <= i < s.len() && is_ws(s[i]) {
        1 + ws_run(s, i + 1)
    } else {
        0
    }
}

/// Number of non-whitespace characters in `s` starting at `i`.
pub open spec fn word_run(s: Seq<char>, i: int) -> nat
    decreases s.len() - i,
{
    if 0 <= i < s.len() && !is_ws(s[i]) {
        1 + word_run(s, i + 1)
    } else {
        0
    }
}

/// Number of whitespace characters of `s` that end just before `j`.
pub open spec fn ws_run_back(s: Seq<char>, j: int) -> nat
    decreases j,
{
    if 0 < j <= s.len() && is_ws(s[j - 1]) {
        1 + ws_run_back(s, j - 1)
    } else {
        0
    }
}

/// `s` without leading and trailing whitespace.
pub open spec fn trimmed(s: Seq<char>) -> Seq<char> {
    let a = ws_run(s, 0) as int;
    if a == s.len() {
        Seq::empty()
    } else {
        s.subrange(a, s.len() - ws_run_back(s, s.len() as int))
    }
}

pub fn char_is_ws(c: char) -> (r: bool)
    ensures
        r == is_ws(c),
{
    ('\u{9}' <= c && c <= '\u{d}') || c == ' ' || c == '\u{85}' || c == '\u{a0}'
        || c == '\u{1680}' || ('\u{2000}' <= c && c <= '\u{200a}') || c == '\u{2028}'
        || c == '\u{2029}' || c == '\u{202f}' || c == '\u{205f}' || c == '\u{3000}'
}

pub fn char_is_digit(c: char) -> (r: bool)
    ensures
        r == is_digit(c),
{
    '0' <= c && c <= '9'
}

pub proof fn lemma_ws_run_bound(s: Seq<char>, i: int)
    requires
        0 <= i <= s.len(),
    ensures
        i + ws_run(s, i) <= s.len(),
        forall|k: int| i <= k < i + ws_run(s, i) ==> is_ws(#[trigger] s[k]),
        i + ws_run(s, i) < s.len() ==> !is_ws(s[i + ws_run(s, i)]),
    decreases s.len() - i,
{
    if i < s.len() && is_ws(s[i]) {
        lemma_ws_run_bound(s, i + 1);
    }
}

pub proof fn lemma_word_run_bound(s: Seq<char>, i: int)
    requires
        0 <= i <= s.len(),
    ensures
        i + word_run(s, i) <= s.len(),
        forall|k: int| i <= k < i + word_run(s, i) ==> !is_ws(#[trigger] s[k]),
        i + word_run(s, i) < s.len() ==> is_ws(s[i + word_run(s, i)]),
    decreases s.len() - i,
{
    if i < s.len() && !is_ws(s[i]) {
        lemma_word_run_bound(s, i + 1);
    }
}

/// Index of the first non-whitespace character of `v` at or after `i`.
pub fn skip_ws(v: &Vec<char>, i: usize) -> (r: usize)
    requires
        i <= v@.len(),
    ensures
        r == i + ws_run(v@, i as int),
        r <= v@.len(),
{
    proof {
        lemma_ws_run_bound(v@, i as int);
    }
    let mut j = i;
    while j < v.len() && char_is_ws(v[j])
        invariant
            i <= j <= v@.len(),
            ws_run(v@, i as int) == (j - i) + ws_run(v@, j as int),
        decreases v@.len() - j,
    {
        j = j + 1;
    }
    j
}

/// Index just past the last non-whitespace character of the run that starts at `i`.
pub fn skip_word(v: &Vec<char>, i: usize) -> (r: usize)
    requires
        i <= v@.len(),
    ensures
        r == i + word_run(v@, i as int),
        r <= v@.len(),
{
    proof {
        lemma_word_run_bound(v@, i as int);
    }
    let mut j = i;
    while j < v.len() && !char_is_ws(v[j])
        invariant
            i <= j <= v@.len(),
            word_run(v@, i as int) == (j - i) + word_run(v@, j as int),
        decreases v@.len() - j,
    {
        j = j + 1;
    }
    j
}

/// The characters of `s`, in order.
pub fn chars_of(s: &str) -> (r: Vec<char>)
    ensures
        r@ == s@,
{
    let mut r: Vec<char> = Vec::new();
    for c in it: s.chars()
        invariant
            r@ == it.seq().take(it.index() as int),
    {
        r.push(c);
    }
    r
}

/// Relies on `FromIterator<char>` for `String`: the string holds the given
/// characters in order.
#[verifier::external_body]
pub fn string_of(cs: &[char]) -> (r: String)
    ensures
        r@ == cs@,
{
    cs.iter().collect()
}

/// `ws_run` counts exactly a whitespace stretch that ends at the end of `s`
/// or before a non-whitespace character.
pub proof fn lemma_ws_run_exact(s: Seq<char>, i: int, n: int)
    requires
        0 <= i,
        0 <= n,
        i + n <= s.len(),
        forall|k: int| i <= k < i + n ==> is_ws(#[trigger] s[k]),
        i + n == s.len() || !is_ws(s[i + n]),
    ensures
        ws_run(s, i) == n,
    decreases n,
{
    if n > 0 {
        lemma_ws_run_exact(s, i + 1, n - 1);
    }
}

/// `word_run` counts exactly a non-whitespace stretch that ends at the end of
/// `s` or before a whitespace character.
pub proof fn lemma_word_run_exact(s: Seq<char>, i: int, n: int)
    requires
        0 <= i,
        0 <= n,
        i + n <= s.len(),
        forall|k: int| i <= k < i + n ==> !is_ws(#[trigger] s[k]),
        i + n == s.len() || is_ws(s[i + n]),
    ensures
        word_run(s, i) == n,
    decreases n,
{
    if n > 0 {
        lemma_word_run_exact(s, i + 1, n - 1);
    }
}

} // verus!
