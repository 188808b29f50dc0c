//! Progress snapshots, the final result of a run, and the state that a
//! consumer polls: `Idle`, then `Processing`, then `Done`.

use vstd::prelude::*;
use crate::book::LogBook;
use crate::text::{chars_of, string_of};

verus! {

/// A snapshot of a run in progress.
///
/// The completion percentage is `100 * (index + inner_index / inner_total) / total`:
/// `index` is the position of the member of the archive just processed among
/// its `total` members; inside a nested archive, `inner_index` and
/// `inner_total` are the position of the nested member and the number of
/// members of the nested archive, and elsewhere they are 0 and 1.
#[derive(Clone, Debug)]
pub struct Info {
    pub service_name: String,
    pub file: String,
    /// Bytes of log lines read so far.
    pub size: usize,
    pub index: usize,
    pub inner_index: usize,
    pub inner_total: usize,
    pub total: usize,
}

/// Numerator of the completed fraction, in units of `1 / (total * inner_total)`.
pub open spec fn done_units(i: Info) -> int {
    i.index * i.inner_total + i.inner_index
}

pub open spec fn unit_count(i: Info) -> int {
    i.total * i.inner_total
}

/// The percentage of `a` is at most that of `b` (both as exact fractions;
/// a snapshot with no unit stands for zero).
pub open spec fn progress_le(a: Info, b: Info) -> bool {
    done_units(a) * unit_count(b) <= done_units(b) * unit_count(a)
}

/// The fields of a snapshot describe a percentage in `[0, 100)`.
pub open spec fn progress_in_range(i: Info) -> bool {
    i.inner_total >= 1 && i.inner_index < i.inner_total && i.index < i.total
}

/// Number of characters of `s` from `i` on before the next `/` or the end.
pub open spec fn segment_len(s: Seq<char>, i: int) -> nat
    decreases s.len() - i,
{
    if 0 <= i < s.len() && s[i] != '/' {
        1 + segment_len(s, i + 1)
    } else {
        0
    }
}

/// The first segment of the path `s`: the text before its first `/`.
pub open spec fn first_segment(s: Seq<char>) -> Seq<char> {
    s.subrange(0, segment_len(s, 0) as int)
}

/// A snapshot at the start of a run: nothing processed yet.
pub open spec fn is_start_info(i: Info) -> bool {
    &&& i.size == 0
    &&& i.index == 0
    &&& i.inner_index == 0
    &&& i.inner_total == 1
    &&& i.total == 0
}

impl Info {
    /// The snapshot at the start of a run on `file`, whose first path
    /// segment names the service.
    pub fn start(file: String) -> (r: Info)
        ensures
            is_start_info(r),
            r.file@ == file@,
            r.service_name@ == first_segment(file@),
    {
        let v = chars_of(file.as_str());
        let mut n: usize = 0;
        while n < v.len() && v[n] != '/'
            invariant
                n <= v@.len(),
                v@ == file@,
                segment_len(v@, 0) == n + segment_len(v@, n as int),
            decreases v@.len() - n,
        {
            n = n + 1;
        }
        let service_name = string_of(&v.as_slice()[0..n]);
        Info {
            service_name,
            file,
            size: 0,
            index: 0,
            inner_index: 0,
            inner_total: 1,
            total: 0,
        }
    }
}

/// The result of a finished run.
#[derive(Clone)]
pub struct Processed {
    pub logbook: LogBook,
    /// Bytes of log lines read.
    pub size: usize,
    /// Wall-clock duration of the run, in microseconds.
    pub duration_micros: i64,
}

/// What a run publishes.
pub enum Event {
    /// A run starts; the path names its first file, if known.
    Start(String),
    Progress(Info),
    Finish(Processed),
}

/// The state that a consumer polls.
pub enum ProgressState {
    Idle,
    Processing(Info),
    Done(Processed),
}

/// `t` is the state after `e` in state `s`: `Start` only acts on `Idle`,
/// where it gives a start snapshot for its file;
/// a progress snapshot or a result replaces the state whole; nothing changes
/// a `Done` state.
pub open spec fn transition(s: ProgressState, e: Event, t: ProgressState) -> bool {
    match s {
        ProgressState::Done(_) => t == s,
        _ => match e {
            Event::Start(f) => if s is Idle {
                t matches ProgressState::Processing(i) && is_start_info(i) && i.file@ == f@
                    && i.service_name@ == first_segment(f@)
            } else {
                t == s
            },
            Event::Progress(i) => t == ProgressState::Processing(i),
            Event::Finish(p) => t == ProgressState::Done(p),
        },
    }
}

/// `sts` are the states after each of the events `evs`, from `s`.
pub open spec fn run_of(s: ProgressState, evs: Seq<Event>, sts: Seq<ProgressState>) -> bool {
    &&& sts.len() == evs.len()
    &&& forall|i: int|
        0 <= i < evs.len() ==> transition(
            if i == 0 {
                s
            } else {
                sts[i - 1]
            },
            #[trigger] evs[i],
            sts[i],
        )
}

impl ProgressState {
    pub fn new() -> (r: ProgressState)
        ensures
            r is Idle,
    {
        ProgressState::Idle
    }

    /// Applies what a run publishes.
    pub fn apply(&mut self, e: Event)
        ensures
            transition(*old(self), e, *final(self)),
    {
        match self {
            ProgressState::Done(_) => {},
            ProgressState::Idle => {
                *self = match e {
                    Event::Start(f) => ProgressState::Processing(Info::start(f)),
                    Event::Progress(i) => ProgressState::Processing(i),
                    Event::Finish(p) => ProgressState::Done(p),
                };
            },
            ProgressState::Processing(_) => {
                match e {
                    Event::Start(_) => {},
                    Event::Progress(i) => {
                        *self = ProgressState::Processing(i);
                    },
                    Event::Finish(p) => {
                        *self = ProgressState::Done(p);
                    },
                }
            },
        }
    }

    /// The current snapshot, while a run is in progress.
    pub fn info(&self) -> (r: Option<&Info>)
        ensures
            match *self {
                ProgressState::Processing(i) => r == Some(&i),
                _ => r is None,
            },
    {
        match self {
            ProgressState::Processing(i) => Some(i),
            _ => None,
        }
    }

    /// The result, once the run is done.
    pub fn processed(&self) -> (r: Option<&Processed>)
        ensures
            match *self {
                ProgressState::Done(p) => r == Some(&p),
                _ => r is None,
            },
    {
        match self {
            ProgressState::Done(p) => Some(p),
            _ => None,
        }
    }

    /// The entries by service, once the run is done.
    pub fn logs(&self) -> (r: Option<&LogBook>)
        ensures
            match *self {
                ProgressState::Done(p) => r == Some(&p.logbook),
                _ => r is None,
            },
    {
        match self {
            ProgressState::Done(p) => Some(&p.logbook),
            _ => None,
        }
    }
}

/// Once a run is done, whatever is published after leaves the state as it
/// is: every later poll finds the same result.
pub proof fn law_done_is_final(p: Processed, evs: Seq<Event>, sts: Seq<ProgressState>)
    requires
        run_of(ProgressState::Done(p), evs, sts),
    ensures
        forall|i: int| 0 <= i < sts.len() ==> #[trigger] sts[i] == ProgressState::Done(p),
    decreases evs.len(),
{
    if evs.len() > 0 {
        let n = evs.len() - 1;
        assert(run_of(ProgressState::Done(p), evs.take(n), sts.take(n))) by {
            assert forall|i: int| 0 <= i < n implies transition(
                if i == 0 {
                    ProgressState::Done(p)
                } else {
                    sts.take(n)[i - 1]
                },
                #[trigger] evs.take(n)[i],
                sts.take(n)[i],
            ) by {
                assert(transition(
                    if i == 0 {
                        ProgressState::Done(p)
                    } else {
                        sts[i - 1]
                    },
                    evs[i],
                    sts[i],
                ));
            }
        }
        law_done_is_final(p, evs.take(n), sts.take(n));
        assert forall|i: int| 0 <= i < sts.len() implies #[trigger] sts[i] == ProgressState::Done(
            p,
        ) by {
            if i < n {
                assert(sts.take(n)[i] == sts[i]);
            } else {
                assert(transition(
                    if i == 0 {
                        ProgressState::Done(p)
                    } else {
                        sts[i - 1]
                    },
                    evs[i],
                    sts[i],
                ));
                if i > 0 {
                    assert(sts.take(n)[i - 1] == sts[i - 1]);
                }
            }
        }
    }
}

proof fn lemma_progress_trans(a: Info, b: Info, c: Info)
    requires
        progress_le(a, b),
        progress_le(b, c),
        progress_in_range(b),
    ensures
        progress_le(a, c),
{
    let (an, ad, bn, bd, cn, cd) = (
        done_units(a),
        unit_count(a),
        done_units(b),
        unit_count(b),
        done_units(c),
        unit_count(c),
    );
    assert(ad >= 0 && cd >= 0) by (nonlinear_arith)
        requires
            ad == a.total * a.inner_total,
            cd == c.total * c.inner_total,
    ;
    assert(bd > 0) by (nonlinear_arith)
        requires
            bd == b.total * b.inner_total,
            b.total >= 1,
            b.inner_total >= 1,
    ;
    assert(an * bd * cd <= bn * ad * cd) by (nonlinear_arith)
        requires
            an * bd <= bn * ad,
            cd >= 0,
    ;
    assert(bn * cd * ad <= cn * bd * ad) by (nonlinear_arith)
        requires
            bn * cd <= cn * bd,
            ad >= 0,
    ;
    assert(an * cd <= cn * ad) by (nonlinear_arith)
        requires
            an * bd * cd <= bn * ad * cd,
            bn * cd * ad <= cn * bd * ad,
            bd > 0,
    ;
}

/// Across a run's snapshots, each at least as far as the one before (as
/// `ArchiveWalker::step` ensures of each new one) and all but the first in
/// range (the first may be the start snapshot), the percentage never
/// decreases: every snapshot is at least as far as every earlier one.
pub proof fn law_progress_never_decreases(xs: Seq<Info>)
    requires
        forall|i: int| 0 <= i < xs.len() - 1 ==> progress_le(#[trigger] xs[i], xs[i + 1]),
        forall|i: int| 0 < i < xs.len() ==> progress_in_range(#[trigger] xs[i]),
    ensures
        forall|i: int, j: int| 0 <= i <= j < xs.len() ==> progress_le(#[trigger] xs[i], #[trigger] xs[j]),
    decreases xs.len(),
{
    if xs.len() > 0 {
        let n = xs.len() - 1;
        let init = xs.take(n);
        assert forall|i: int| 0 <= i < init.len() - 1 implies progress_le(
            #[trigger] init[i],
            init[i + 1],
        ) by {
            assert(progress_le(xs[i], xs[i + 1]));
        }
        assert forall|i: int| 0 < i < init.len() implies progress_in_range(#[trigger] init[i]) by {
            assert(progress_in_range(xs[i]));
        }
        law_progress_never_decreases(init);
        assert forall|i: int, j: int| 0 <= i <= j < xs.len() implies progress_le(
            #[trigger] xs[i],
            #[trigger] xs[j],
        ) by {
            if j < n {
                assert(init[i] == xs[i] && init[j] == xs[j]);
            } else if i == j {
                assert(done_units(xs[i]) * unit_count(xs[i]) <= done_units(xs[i]) * unit_count(xs[i]));
            } else if i == n - 1 {
                assert(progress_le(xs[n - 1], xs[n]));
            } else {
                assert(init[i] == xs[i] && init[n - 1] == xs[n - 1]);
                assert(progress_le(xs[i], xs[n - 1]));
                assert(progress_le(xs[n - 1], xs[n]));
                assert(progress_in_range(xs[n - 1]));
                lemma_progress_trans(xs[i], xs[n - 1], xs[n]);
            }
        }
    }
}

} // verus!
