//! What the line grammar guarantees about well-formed lines.

use vstd::prelude::*;
use crate::level::level_of;
use crate::line::{
    digit_run, entry_of, level_fits, longest_level, message_start, parsed_micros,
    pipe_after_level, pipe_split, pipe_stamp_end, space_split, split_of, stamp_head,
    stamp_shape, stamp_text, no_newline_from, utc_stamp, EntryView,
};
use crate::text::{
    is_digit, is_ws, lemma_word_run_bound, lemma_word_run_exact, lemma_ws_run_bound,
    lemma_ws_run_exact, word_run,
};

verus! {

pub open spec fn all_ws(w: Seq<char>) -> bool {
    forall|k: int| 0 <= k < w.len() ==> is_ws(#[trigger] w[k])
}

/// A non-empty token without whitespace.
pub open spec fn plain_word(t: Seq<char>) -> bool {
    t.len() > 0 && forall|k: int| 0 <= k < t.len() ==> !is_ws(#[trigger] t[k])
}

/// A non-empty message that starts with a non-whitespace character and holds
/// no line feed.
pub open spec fn plain_message(m: Seq<char>) -> bool {
    &&& m.len() > 0
    &&& !is_ws(m[0])
    &&& forall|k: int| 0 <= k < m.len() ==> #[trigger] m[k] != '\n'
}

/// The entry that a recognised line with timestamp `ts`, level token `level`
/// and message `msg` yields.
pub open spec fn expected_entry(ts: Seq<char>, level: Seq<char>, msg: Seq<char>) -> Option<
    EntryView,
> {
    match parsed_micros(utc_stamp(ts)) {
        None => None,
        Some(t) => Some(
            EntryView { timestamp: t, level: level_of(level), component: None, message: msg },
        ),
    }
}

pub open spec fn pipe_line(
    ts: Seq<char>,
    w1: Seq<char>,
    w2: Seq<char>,
    level: Seq<char>,
    w3: Seq<char>,
    w4: Seq<char>,
    msg: Seq<char>,
) -> Seq<char> {
    ts + w1 + seq!['|'] + w2 + level + w3 + seq!['|'] + w4 + msg
}

pub open spec fn space_line(
    ts: Seq<char>,
    w1: Seq<char>,
    level: Seq<char>,
    w2: Seq<char>,
    msg: Seq<char>,
) -> Seq<char> {
    ts + w1 + level + w2 + msg
}

/// A timestamp of the whitespace-separated shape: `YYYY-MM-DDTHH:MM:SS.ffffffZ`.
pub open spec fn space_stamp_shape(t: Seq<char>) -> bool {
    &&& t.len() == 27
    &&& stamp_head(t, true)
    &&& forall|k: int| 20 <= k < 26 ==> is_digit(#[trigger] t[k])
    &&& t[26] == 'Z'
}

proof fn lemma_digit_run_exact(s: Seq<char>, i: int, n: int)
    requires
        0 <= i,
        0 <= n,
        i + n <= s.len(),
        forall|k: int| i <= k < i + n ==> is_digit(#[trigger] s[k]),
        i + n == s.len() || !is_digit(s[i + n]),
    ensures
        digit_run(s, i) == n,
    decreases n,
{
    if n > 0 {
        lemma_digit_run_exact(s, i + 1, n - 1);
    }
}

proof fn lemma_longest_is(s: Seq<char>, a: int, b: int, k: int, l: int)
    requires
        0 < l <= k,
        level_fits(s, a, b, l),
        forall|x: int| l < x <= k ==> !level_fits(s, a, b, x),
    ensures
        longest_level(s, a, b, k) == Some(l),
    decreases k,
{
    if k > l {
        lemma_longest_is(s, a, b, k - 1, l);
    }
}

/// A pipe-separated line whose message holds no pipe yields an entry whose
/// message is exactly the text after the second pipe and the whitespace that
/// follows it; its level is read from the token between the pipes, and the
/// entry exists exactly when the timestamp parses.
#[verifier::rlimit(50)]
pub proof fn law_pipe_line_message(
    ts: Seq<char>,
    w1: Seq<char>,
    w2: Seq<char>,
    level: Seq<char>,
    w3: Seq<char>,
    w4: Seq<char>,
    msg: Seq<char>,
)
    requires
        stamp_shape(ts),
        all_ws(w1),
        all_ws(w2),
        all_ws(w3),
        all_ws(w4),
        plain_word(level),
        plain_message(msg),
        forall|k: int| 0 <= k < msg.len() ==> #[trigger] msg[k] != '|',
    ensures
        stamp_text(pipe_line(ts, w1, w2, level, w3, w4, msg)) == ts,
        entry_of(pipe_line(ts, w1, w2, level, w3, w4, msg)) == expected_entry(ts, level, msg),
{
    let s = pipe_line(ts, w1, w2, level, w3, w4, msg);
    let e = ts.len() as int;
    let p: int = e + w1.len();
    let a: int = p + 1 + w2.len();
    let l = level.len() as int;
    let j: int = a + l;
    let q: int = j + w3.len();
    let m: int = q + 1 + w4.len();
    let n = s.len() as int;
    assert(n == m + msg.len());
    assert forall|k: int| 0 <= k < e implies #[trigger] s[k] == ts[k] by {}
    assert forall|k: int| e <= k < p implies is_ws(#[trigger] s[k]) by {
        assert(s[k] == w1[k - e]);
    }
    assert(s[p] == '|');
    assert forall|k: int| p + 1 <= k < a implies is_ws(#[trigger] s[k]) by {
        assert(s[k] == w2[k - p - 1]);
    }
    assert forall|k: int| a <= k < j implies #[trigger] s[k] == level[k - a] by {}
    assert forall|k: int| j <= k < q implies is_ws(#[trigger] s[k]) by {
        assert(s[k] == w3[k - j]);
    }
    assert(s[q] == '|');
    assert forall|k: int| q + 1 <= k < m implies is_ws(#[trigger] s[k]) by {
        assert(s[k] == w4[k - q - 1]);
    }
    assert forall|k: int| m <= k < n implies #[trigger] s[k] == msg[k - m] by {}
    // No pipe after the second one.
    assert forall|k: int| q < k < n implies #[trigger] s[k] != '|' by {
        if k < m {
            assert(is_ws(s[k]));
        } else {
            assert(s[k] == msg[k - m]);
        }
    }
    // The timestamp.
    let f: int = if ts[e - 1] == 'Z' { e - 1 } else { e };
    assert(stamp_head(s, false));
    assert(forall|k: int| 20 <= k < f ==> is_digit(#[trigger] s[k]));
    assert(!is_digit(s[f])) by {
        if f == e {
            if p > e {
                assert(is_ws(s[e]));
            } else {
                assert(s[e] == '|');
            }
        }
    }
    lemma_digit_run_exact(s, 20, f - 20);
    assert(pipe_stamp_end(s) == Some(e)) by {
        if f == e {
            if p > e {
                assert(is_ws(s[e]));
            } else {
                assert(s[e] == '|');
            }
        }
    }
    lemma_ws_run_exact(s, e, w1.len() as int);
    lemma_ws_run_exact(s, p + 1, w2.len() as int);
    // The level.
    lemma_word_run_bound(s, a);
    let b: int = a + word_run(s, a);
    assert(b >= j) by {
        if b < j {
            assert(!is_ws(s[b]));
        }
    }
    if w3.len() > 0 {
        lemma_word_run_exact(s, a, l);
    } else {
        assert(b > j);
    }
    lemma_ws_run_exact(s, q + 1, w4.len() as int);
    assert(message_start(s, q + 1) == Some(m)) by {
        assert(no_newline_from(s, m));
    }
    lemma_ws_run_bound(s, b);
    if w3.len() > 0 {
        lemma_ws_run_exact(s, j, w3.len() as int);
    }
    assert(pipe_after_level(s, a, b, l) == q);
    assert(level_fits(s, a, b, l));
    assert forall|x: int| l < x <= b - a implies !level_fits(s, a, b, x) by {
        let y = pipe_after_level(s, a, b, x);
        assert(y > q);
    }
    lemma_longest_is(s, a, b, b - a, l);
    assert(pipe_split(s) == Some((e, a, j, m)));
    assert(s.subrange(0, e) =~= ts);
    assert(s.subrange(a, j) =~= level);
    assert(s.subrange(m, n) =~= msg);
}

/// A whitespace-separated line whose level token does not start with a pipe
/// yields an entry whose message is exactly the text after the level and the
/// whitespace that follows it; the entry exists exactly when the timestamp
/// parses.
#[verifier::rlimit(50)]
pub proof fn law_space_line_message(
    ts: Seq<char>,
    w1: Seq<char>,
    level: Seq<char>,
    w2: Seq<char>,
    msg: Seq<char>,
)
    requires
        space_stamp_shape(ts),
        all_ws(w1),
        w1.len() > 0,
        all_ws(w2),
        w2.len() > 0,
        plain_word(level),
        level[0] != '|',
        plain_message(msg),
    ensures
        stamp_text(space_line(ts, w1, level, w2, msg)) == ts,
        entry_of(space_line(ts, w1, level, w2, msg)) == expected_entry(ts, level, msg),
{
    let s = space_line(ts, w1, level, w2, msg);
    let a: int = 27int + w1.len();
    let b: int = a + level.len();
    let m: int = b + w2.len();
    let n = s.len() as int;
    assert(n == m + msg.len());
    assert forall|k: int| 0 <= k < 27 implies #[trigger] s[k] == ts[k] by {}
    assert forall|k: int| 27 <= k < a implies is_ws(#[trigger] s[k]) by {
        assert(s[k] == w1[k - 27]);
    }
    assert forall|k: int| a <= k < b implies #[trigger] s[k] == level[k - a] by {}
    assert forall|k: int| b <= k < m implies is_ws(#[trigger] s[k]) by {
        assert(s[k] == w2[k - b]);
    }
    assert forall|k: int| m <= k < n implies #[trigger] s[k] == msg[k - m] by {}
    // The pipe-separated reading fails at the level token.
    assert(!is_digit(s[26]));
    lemma_digit_run_exact(s, 20, 6);
    assert(pipe_stamp_end(s) == Some(27int));
    lemma_ws_run_exact(s, 27, w1.len() as int);
    assert(s[a] == level[0]);
    assert(pipe_split(s) is None);
    // The whitespace-separated reading.
    lemma_word_run_exact(s, a, level.len() as int);
    lemma_ws_run_exact(s, b + 1, w2.len() - 1);
    assert(message_start(s, b + 1) == Some(m)) by {
        assert(no_newline_from(s, m));
    }
    assert(space_split(s) == Some((27int, a, b, m)));
    assert(split_of(s) == Some((27int, a, b, m)));
    assert(s.subrange(0, 27) =~= ts);
    assert(s.subrange(a, b) =~= level);
    assert(s.subrange(m, n) =~= msg);
}

} // verus!
