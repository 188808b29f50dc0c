//! The entries of one log file: its bytes are cut into lines, each line is
//! read, and lines of neither shape are appended to the entry before them.

use vstd::prelude::*;
use vstd::utf8::{decode_utf8, valid_utf8};
use crate::line::{entry_of, read_line_chars, split_of, EntryView, LineRead, LogEntry};
use crate::text::{chars_of, string_of};

verus! {

/// Number of bytes from `i` on before the next line feed or the end of `b`.
pub open spec fn line_len(b: Seq<u8>, i: int) -> nat
    decreases b.len() - i,
{
    if i < 0 || i >= b.len() || b[i] == 10 {
        0
    } else {
        1 + line_len(b, i + 1)
    }
}

/// A line cut at a line feed loses a carriage return that ends it.
pub open spec fn strip_cr(l: Seq<u8>) -> Seq<u8> {
    if l.len() > 0 && l[l.len() - 1] == 13 {
        l.drop_last()
    } else {
        l
    }
}

/// The lines of `b` from `i` on, as `BufRead::lines` cuts them: at each line
/// feed, without it and without a carriage return before it. A last line
/// without a line feed counts when the data is `complete`; where reading
/// stopped on an error it is lost.
pub open spec fn raw_lines(b: Seq<u8>, i: int, complete: bool) -> Seq<Seq<u8>>
    decreases b.len() - i,
{
    if i < 0 || i >= b.len() {
        seq![]
    } else {
        let e = i + line_len(b, i);
        if e < b.len() {
            seq![strip_cr(b.subrange(i, e))] + raw_lines(b, e + 1, complete)
        } else if complete {
            seq![b.subrange(i, b.len() as int)]
        } else {
            seq![]
        }
    }
}

/// The text of the lines up to the first one that is not UTF-8.
pub open spec fn text_lines(ls: Seq<Seq<u8>>) -> Seq<Seq<char>>
    decreases ls.len(),
{
    if ls.len() == 0 || !valid_utf8(ls[0]) {
        seq![]
    } else {
        seq![decode_utf8(ls[0])] + text_lines(ls.drop_first())
    }
}

/// The number of bytes of the lines up to the first one that is not UTF-8.
pub open spec fn text_size(ls: Seq<Seq<u8>>) -> nat
    decreases ls.len(),
{
    if ls.len() == 0 || !valid_utf8(ls[0]) {
        0
    } else {
        ls[0].len() + text_size(ls.drop_first())
    }
}

/// Number of NUL characters that end `s`.
pub open spec fn nul_tail(s: Seq<char>) -> nat
    decreases s.len(),
{
    if s.len() > 0 && s[s.len() - 1] == '\0' {
        1 + nul_tail(s.drop_last())
    } else {
        0
    }
}

/// `s` without the NUL characters that end it.
pub open spec fn trim_nul(s: Seq<char>) -> Seq<char> {
    s.subrange(0, s.len() - nul_tail(s))
}

/// `e` with the continuation line `t` appended to its message.
pub open spec fn continued(e: EntryView, t: Seq<char>) -> EntryView {
    EntryView { message: e.message + seq!['\n'] + t, ..e }
}

/// The entries after reading `line` on top of the entries `prev`.
pub open spec fn after_line(prev: Seq<EntryView>, line: Seq<char>) -> Seq<EntryView> {
    let t = trim_nul(line);
    if split_of(t) is None {
        if prev.len() == 0 {
            prev
        } else {
            prev.update(prev.len() - 1, continued(prev.last(), t))
        }
    } else {
        match entry_of(t) {
            Some(e) => prev.push(e),
            None => prev,
        }
    }
}

/// The entries that a sequence of lines yields.
pub open spec fn entries_of_lines(ls: Seq<Seq<char>>) -> Seq<EntryView>
    decreases ls.len(),
{
    if ls.len() == 0 {
        seq![]
    } else {
        after_line(entries_of_lines(ls.drop_last()), ls.last())
    }
}

pub open spec fn views(v: Seq<LogEntry>) -> Seq<EntryView> {
    v.map_values(|e: LogEntry| e@)
}

/// Relies on `String::from_utf8`, which accepts exactly the valid UTF-8 byte
/// sequences and decodes them.
#[verifier::external_body]
fn decode_text(b: &[u8]) -> (r: Option<String>)
    ensures
        r is Some <==> valid_utf8(b@),
        r matches Some(s) ==> s@ == decode_utf8(b@),
{
    String::from_utf8(b.to_vec()).ok()
}

fn find_line_end(b: &Vec<u8>, i: usize) -> (r: usize)
    requires
        i <= b@.len(),
    ensures
        r == i + line_len(b@, i as int),
        i <= r <= b@.len(),
{
    let mut j = i;
    while j < b.len() && b[j] != 10
        invariant
            i <= j <= b@.len(),
            line_len(b@, i as int) == (j - i) + line_len(b@, j as int),
        decreases b@.len() - j,
    {
        j = j + 1;
    }
    j
}

/// Reads one line on top of the entries so far.
fn add_line(entries: &mut Vec<LogEntry>, line: &String)
    ensures
        views(final(entries)@) == after_line(views(old(entries)@), line@),
{
    let mut v = chars_of(line.as_str());
    let mut n = v.len();
    let ghost full = v@;
    assert(full.subrange(0, n as int) =~= full);
    while n > 0 && v[n - 1] == '\0'
        invariant
            n <= v@.len(),
            v@ == full,
            nul_tail(full) == (v@.len() - n) + nul_tail(full.subrange(0, n as int)),
        decreases n,
    {
        assert(full.subrange(0, n as int).drop_last() =~= full.subrange(0, n - 1));
        n = n - 1;
    }
    assert(nul_tail(full.subrange(0, n as int)) == 0);
    v.truncate(n);
    assert(v@ =~= trim_nul(line@));
    match read_line_chars(&v) {
        LineRead::Entry(e) => {
            entries.push(e);
            assert(views(entries@) =~= after_line(views(old(entries)@), line@));
        },
        LineRead::Discarded => {},
        LineRead::Continuation => {
            if entries.len() > 0 {
                let mut last = entries.pop().unwrap();
                let ghost before = last;
                let t = string_of(v.as_slice());
                proof {
                    reveal_strlit("\n");
                }
                last.message.append("\n");
                assert(last.message@ == before.message@ + seq!['\n']);
                last.message.append(t.as_str());
                assert(last@ == continued(before@, trim_nul(line@)));
                entries.push(last);
                assert(views(old(entries)@).last() == before@);
                assert(views(entries@) =~= after_line(views(old(entries)@), line@));
            }
        },
    }
}

/// The entries of a log file whose bytes are `data`, and the number of bytes
/// of the lines read (line ends not counted). `complete` says whether `data`
/// holds the whole file or reading stopped on an error.
pub fn process_log_file(data: &Vec<u8>, complete: bool) -> (r: (Vec<LogEntry>, usize))
    ensures
        views(r.0@) == entries_of_lines(text_lines(raw_lines(data@, 0, complete))),
        r.1 == text_size(raw_lines(data@, 0, complete)),
{
    let mut entries: Vec<LogEntry> = Vec::new();
    let mut size: usize = 0;
    let mut i: usize = 0;
    let ghost all = text_lines(raw_lines(data@, 0, complete));
    let ghost done: Seq<Seq<char>> = seq![];
    let ghost all_size = text_size(raw_lines(data@, 0, complete));
    while i < data.len()
        invariant
            i <= data@.len(),
            size <= i,
            all == done + text_lines(raw_lines(data@, i as int, complete)),
            all_size == size + text_size(raw_lines(data@, i as int, complete)),
            views(entries@) == entries_of_lines(done),
        decreases data@.len() - i,
    {
        let e = find_line_end(data, i);
        let mut stop = e;
        if e < data.len() && e > i && data[e - 1] == 13 {
            stop = e - 1;
        }
        let ghost rest = raw_lines(data@, i as int, complete);
        if e == data.len() && !complete {
            // The last line has no line feed and reading stopped on an error.
            assert(rest =~= seq![]);
            assert(all =~= done);
            i = data.len();
        } else {
            let raw = &data.as_slice()[i..stop];
            proof {
                if e < data@.len() {
                    assert(raw@ =~= strip_cr(data@.subrange(i as int, e as int)));
                } else {
                    assert(raw@ =~= data@.subrange(i as int, data@.len() as int));
                }
            }
            assert(rest[0] == raw@);
            match decode_text(raw) {
                None => {
                    // Lines are read up to the first one that is not UTF-8.
                    assert(text_lines(rest) =~= seq![]);
                    assert(all =~= done);
                    i = data.len();
                },
                Some(line) => {
                    add_line(&mut entries, &line);
                    size = size + (stop - i);
                    proof {
                        assert(text_lines(rest) == seq![line@] + text_lines(rest.drop_first()));
                        let ghost prev_done = done;
                        done = done.push(line@);
                        assert(done.drop_last() =~= prev_done);
                    }
                    if e == data.len() {
                        assert(rest.drop_first() =~= seq![]);
                        i = e;
                    } else {
                        assert(rest.drop_first() == raw_lines(data@, e + 1, complete));
                        i = e + 1;
                    }
                },
            }
        }
    }
    proof {
        assert(raw_lines(data@, i as int, complete) =~= seq![]);
        assert(all =~= done);
    }
    (entries, size)
}

/// The continuation lines `cs` as they are appended to a message: each after
/// a line feed, without its ending NUL characters.
pub open spec fn joined(cs: Seq<Seq<char>>) -> Seq<char>
    decreases cs.len(),
{
    if cs.len() == 0 {
        seq![]
    } else {
        joined(cs.drop_last()) + seq!['\n'] + trim_nul(cs.last())
    }
}

/// Lines of neither shape that follow the lines `before` leave the entries of
/// `before` as they are, but for the last, whose message gets each of them
/// appended in order, each after a line feed.
pub proof fn law_continuation(before: Seq<Seq<char>>, cs: Seq<Seq<char>>)
    requires
        entries_of_lines(before).len() > 0,
        forall|i: int| 0 <= i < cs.len() ==> split_of(trim_nul(#[trigger] cs[i])) is None,
    ensures
        entries_of_lines(before + cs) == entries_of_lines(before).update(
            entries_of_lines(before).len() - 1,
            EntryView {
                message: entries_of_lines(before).last().message + joined(cs),
                ..entries_of_lines(before).last()
            },
        ),
    decreases cs.len(),
{
    let prev = entries_of_lines(before);
    if cs.len() == 0 {
        assert(before + cs =~= before);
        assert(joined(cs) =~= seq![]);
        assert(prev.last().message + joined(cs) =~= prev.last().message);
        assert(prev.update(prev.len() - 1, prev.last()) =~= prev);
    } else {
        let init = cs.drop_last();
        law_continuation(before, init);
        assert((before + cs).drop_last() =~= before + init);
        assert((before + cs).last() == cs.last());
        assert(split_of(trim_nul(cs[cs.len() - 1])) is None);
        let mid = entries_of_lines(before + init);
        assert(mid.len() == prev.len());
        assert(mid.last().message == prev.last().message + joined(init));
        assert(prev.last().message + joined(cs) =~= prev.last().message + joined(init) + seq![
            '\n',
        ] + trim_nul(cs.last()));
        assert(entries_of_lines(before + cs) =~= prev.update(
            prev.len() - 1,
            EntryView { message: prev.last().message + joined(cs), ..prev.last() },
        ));
    }
}

} // verus!
