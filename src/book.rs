//! Service names, the allow-list, and the book of entries grouped by service.

use vstd::prelude::*;
use crate::line::{EntryView, LogEntry};
use crate::log_file::views;
use crate::text::{chars_of, string_of};

verus! {

/// Index of the last `/` in `s` before `j`, or -1 where there is none.
pub open spec fn slash_before(s: Seq<char>, j: int) -> int
    decreases j,
{
    if j <= 0 || j > s.len() {
        -1
    } else if s[j - 1] == '/' {
        j - 1
    } else {
        slash_before(s, j - 1)
    }
}

/// The service that a member path belongs to: the name of its parent
/// directory where the path has more than one segment, and the path itself
/// where it has one.
pub open spec fn service_of(path: Seq<char>) -> Seq<char> {
    let j = slash_before(path, path.len() as int);
    if j < 0 {
        path
    } else {
        path.subrange(slash_before(path, j) + 1, j)
    }
}

proof fn lemma_slash_before(s: Seq<char>, j: int)
    requires
        0 <= j <= s.len(),
    ensures
        -1 <= slash_before(s, j) < j,
        slash_before(s, j) >= 0 ==> s[slash_before(s, j)] == '/',
    decreases j,
{
    if j > 0 && s[j - 1] != '/' {
        lemma_slash_before(s, j - 1);
    }
}

fn find_slash_before(v: &Vec<char>, j: usize) -> (r: Option<usize>)
    requires
        j <= v@.len(),
    ensures
        r matches Some(k) ==> slash_before(v@, j as int) == k,
        r is None ==> slash_before(v@, j as int) == -1,
{
    let mut k = j;
    while k > 0
        invariant
            k <= j <= v@.len(),
            slash_before(v@, j as int) == slash_before(v@, k as int),
        decreases k,
    {
        if v[k - 1] == '/' {
            return Some(k - 1);
        }
        k = k - 1;
    }
    None
}

/// The service that the member at `path` belongs to.
pub fn get_service_name(path: &str) -> (r: String)
    ensures
        r@ == service_of(path@),
{
    let v = chars_of(path);
    proof {
        lemma_slash_before(v@, v@.len() as int);
    }
    match find_slash_before(&v, v.len()) {
        None => string_of(v.as_slice()),
        Some(j) => {
            proof {
                lemma_slash_before(v@, j as int);
            }
            let i = match find_slash_before(&v, j) {
                None => 0,
                Some(i) => i + 1,
            };
            proof {
                lemma_slash_before(v@, j as int);
            }
            string_of(&v.as_slice()[i..j])
        },
    }
}

/// `s` ends with `suffix`.
pub open spec fn has_suffix(s: Seq<char>, suffix: Seq<char>) -> bool {
    s.len() >= suffix.len() && s.subrange(s.len() - suffix.len(), s.len() as int) == suffix
}

/// Whether the member name `s` ends with `suffix`.
pub fn ends_with(s: &str, suffix: &str) -> (r: bool)
    ensures
        r == has_suffix(s@, suffix@),
{
    let v = chars_of(s);
    let w = chars_of(suffix);
    if v.len() < w.len() {
        return false;
    }
    let off = v.len() - w.len();
    let mut i: usize = 0;
    while i < w.len()
        invariant
            off + w@.len() == v@.len(),
            v@.len() >= w@.len(),
            i <= w@.len(),
            v@ == s@,
            w@ == suffix@,
            forall|k: int| 0 <= k < i ==> v@[off + k] == #[trigger] w@[k],
        decreases w@.len() - i,
    {
        assert(off + i < v.len());
        if v[off + i] != w[i] {
            assert(s@.subrange(off as int, s@.len() as int)[i as int] != suffix@[i as int]);
            return false;
        }
        i = i + 1;
    }
    assert(s@.subrange(off as int, s@.len() as int) =~= suffix@);
    true
}

/// A member passes the allow-list `allowed` when the list is empty or names
/// its service.
pub open spec fn allows(allowed: Seq<String>, service: Seq<char>) -> bool {
    allowed.len() == 0 || exists|i: int| 0 <= i < allowed.len() && #[trigger] allowed[i]@ == service
}

/// Whether the allow-list lets the service `service` through.
pub fn is_allowed(allowed: &Vec<String>, service: &String) -> (r: bool)
    ensures
        r == allows(allowed@, service@),
{
    if allowed.len() == 0 {
        return true;
    }
    let mut i: usize = 0;
    while i < allowed.len()
        invariant
            i <= allowed@.len(),
            forall|k: int| 0 <= k < i ==> #[trigger] allowed@[k]@ != service@,
        decreases allowed@.len() - i,
    {
        if allowed[i] == *service {
            return true;
        }
        i = i + 1;
    }
    false
}

/// Entries in order of time.
pub open spec fn sorted_by_time(s: Seq<EntryView>) -> bool {
    forall|i: int, j: int| 0 <= i <= j < s.len() ==> s[i].timestamp <= s[j].timestamp
}

/// The entries of `s` with timestamp `t`, in their order in `s`.
pub open spec fn at_time(s: Seq<EntryView>, t: i64) -> Seq<EntryView> {
    s.filter(|e: EntryView| e.timestamp == t)
}

/// `r` is `s` sorted by time, entries with equal timestamps kept in their
/// order in `s`.
pub open spec fn stable_sorted(r: Seq<EntryView>, s: Seq<EntryView>) -> bool {
    sorted_by_time(r) && forall|t: i64| #[trigger] at_time(r, t) == at_time(s, t)
}

/// Relies on `slice::sort_by_key`, a stable sort: the entries come out in
/// ascending order of timestamp, and entries with equal timestamps keep their
/// order.
#[verifier::external_body]
fn sort_by_time(v: &mut Vec<LogEntry>)
    ensures
        stable_sorted(views(final(v)@), views(old(v)@)),
{
    v.sort_by_key(|e| e.timestamp)
}

/// The entries of one service.
#[derive(Clone, Debug)]
pub struct ServiceLog {
    pub name: String,
    pub entries: Vec<LogEntry>,
}

/// Entries grouped by service name.
#[derive(Clone, Debug)]
pub struct LogBook {
    services: Vec<ServiceLog>,
}

pub open spec fn names_unique(s: Seq<ServiceLog>) -> bool {
    forall|i: int, j: int|
        0 <= i < s.len() && 0 <= j < s.len() && #[trigger] s[i].name@ == #[trigger] s[j].name@
            ==> i == j
}

pub open spec fn holds_name(s: Seq<ServiceLog>, k: Seq<char>) -> bool {
    exists|i: int| 0 <= i < s.len() && #[trigger] s[i].name@ == k
}

pub open spec fn index_of(s: Seq<ServiceLog>, k: Seq<char>) -> int {
    choose|i: int| 0 <= i < s.len() && #[trigger] s[i].name@ == k
}

pub open spec fn book_map(s: Seq<ServiceLog>) -> Map<Seq<char>, Seq<EntryView>> {
    Map::new(|k: Seq<char>| holds_name(s, k), |k: Seq<char>| views(s[index_of(s, k)].entries@))
}

proof fn lemma_index_of(s: Seq<ServiceLog>, i: int)
    requires
        names_unique(s),
        0 <= i < s.len(),
    ensures
        index_of(s, s[i].name@) == i,
{
    assert(holds_name(s, s[i].name@));
}

impl View for LogBook {
    type V = Map<Seq<char>, Seq<EntryView>>;

    closed spec fn view(&self) -> Map<Seq<char>, Seq<EntryView>> {
        book_map(self.services@)
    }
}

impl LogBook {
    pub closed spec fn well_formed(&self) -> bool {
        names_unique(self.services@)
    }

    pub fn new() -> (r: LogBook)
        ensures
            r.well_formed(),
            r@ == Map::<Seq<char>, Seq<EntryView>>::empty(),
    {
        let r = LogBook { services: Vec::new() };
        assert(r@ =~= Map::<Seq<char>, Seq<EntryView>>::empty());
        r
    }

    fn find(&self, name: &String) -> (r: Option<usize>)
        requires
            self.well_formed(),
        ensures
            r matches Some(i) ==> i < self.services@.len() && self.services@[i as int].name@
                == name@,
            r is None ==> !holds_name(self.services@, name@),
    {
        let mut i: usize = 0;
        while i < self.services.len()
            invariant
                i <= self.services@.len(),
                forall|k: int| 0 <= k < i ==> #[trigger] self.services@[k].name@ != name@,
            decreases self.services@.len() - i,
        {
            if self.services[i].name == *name {
                return Some(i);
            }
            i = i + 1;
        }
        None
    }

    /// Appends `entries` to the entries of the service `name`, which is
    /// added where it is new.
    pub fn append(&mut self, name: String, entries: Vec<LogEntry>)
        requires
            old(self).well_formed(),
        ensures
            final(self).well_formed(),
            final(self)@ == old(self)@.insert(
                name@,
                if old(self)@.contains_key(name@) {
                    old(self)@[name@] + views(entries@)
                } else {
                    views(entries@)
                },
            ),
    {
        let mut entries = entries;
        let ghost added = views(entries@);
        match self.find(&name) {
            Some(i) => {
                let mut log = self.services.remove(i);
                let ghost before = views(log.entries@);
                log.entries.append(&mut entries);
                assert(views(log.entries@) =~= before + added);
                self.services.insert(i, log);
                proof {
                    let s0 = old(self).services@;
                    let s1 = self.services@;
                    assert(s1 =~= s0.update(i as int, log));
                    lemma_index_of(s0, i as int);
                    assert(names_unique(s1));
                    assert forall|k: Seq<char>| #[trigger] holds_name(s1, k) == holds_name(s0, k) by {
                        if holds_name(s0, k) {
                            let j = index_of(s0, k);
                            assert(s1[j].name@ == k);
                        }
                        if holds_name(s1, k) {
                            let j = index_of(s1, k);
                            assert(s0[j].name@ == k);
                        }
                    }
                    assert forall|k: Seq<char>| holds_name(s1, k) implies #[trigger] book_map(
                        s1,
                    )[k] == old(self)@.insert(name@, old(self)@[name@] + added)[k] by {
                        let j = index_of(s1, k);
                        lemma_index_of(s1, j);
                        lemma_index_of(s0, j);
                    }
                    assert(self@ =~= old(self)@.insert(name@, old(self)@[name@] + added));
                }
            },
            None => {
                let ghost n = name@;
                self.services.push(ServiceLog { name, entries });
                proof {
                    let s0 = old(self).services@;
                    let s1 = self.services@;
                    let last = s1.len() - 1;
                    assert(s1[last].name@ == n);
                    assert(names_unique(s1)) by {
                        assert forall|i: int, j: int|
                            0 <= i < s1.len() && 0 <= j < s1.len() && #[trigger] s1[i].name@
                                == #[trigger] s1[j].name@ implies i == j by {
                            if i < last && j == last {
                                assert(s0[i].name@ == n);
                            }
                            if j < last && i == last {
                                assert(s0[j].name@ == n);
                            }
                        }
                    }
                    assert forall|k: Seq<char>| #[trigger] holds_name(s1, k) == (holds_name(s0, k)
                        || k == n) by {
                        if holds_name(s0, k) {
                            let j = index_of(s0, k);
                            assert(s1[j].name@ == k);
                        }
                        if holds_name(s1, k) && k != n {
                            let j = index_of(s1, k);
                            assert(s0[j].name@ == k);
                        }
                    }
                    assert forall|k: Seq<char>| holds_name(s1, k) implies #[trigger] book_map(
                        s1,
                    )[k] == old(self)@.insert(n, added)[k] by {
                        let j = index_of(s1, k);
                        lemma_index_of(s1, j);
                        if j < last {
                            lemma_index_of(s0, j);
                        }
                    }
                    assert(self@ =~= old(self)@.insert(n, added));
                }
            },
        }
    }

    /// Sorts the entries of every service by time; entries with equal
    /// timestamps keep their order.
    pub fn sort(&mut self)
        requires
            old(self).well_formed(),
        ensures
            final(self).well_formed(),
            final(self)@.dom() == old(self)@.dom(),
            forall|k: Seq<char>| #[trigger] final(self)@.contains_key(k) ==> stable_sorted(
                final(self)@[k],
                old(self)@[k],
            ),
    {
        let n = self.services.len();
        let mut i: usize = 0;
        while i < n
            invariant
                n == self.services@.len(),
                i <= n,
                self.services@.len() == old(self).services@.len(),
                forall|k: int|
                    0 <= k < n ==> (#[trigger] self.services@[k]).name@ == old(
                        self,
                    ).services@[k].name@,
                forall|k: int|
                    0 <= k < i ==> stable_sorted(
                        views((#[trigger] self.services@[k]).entries@),
                        views(old(self).services@[k].entries@),
                    ),
                forall|k: int| i <= k < n ==> #[trigger] self.services@[k] == old(self).services@[k],
            decreases n - i,
        {
            let mut log = self.services.remove(i);
            sort_by_time(&mut log.entries);
            self.services.insert(i, log);
            i = i + 1;
        }
        proof {
            let s0 = old(self).services@;
            let s1 = self.services@;
            assert(names_unique(s1)) by {
                assert forall|a: int, b: int|
                    0 <= a < s1.len() && 0 <= b < s1.len() && #[trigger] s1[a].name@
                        == #[trigger] s1[b].name@ implies a == b by {
                    assert(s0[a].name@ == s0[b].name@);
                }
            }
            assert forall|k: Seq<char>| #[trigger] holds_name(s1, k) == holds_name(s0, k) by {
                if holds_name(s0, k) {
                    let j = index_of(s0, k);
                    assert(s1[j].name@ == k);
                }
                if holds_name(s1, k) {
                    let j = index_of(s1, k);
                    assert(s0[j].name@ == k);
                }
            }
            assert(self@.dom() =~= old(self)@.dom());
            assert forall|k: Seq<char>| #[trigger] self@.contains_key(k) implies stable_sorted(
                self@[k],
                old(self)@[k],
            ) by {
                let j = index_of(s1, k);
                lemma_index_of(s1, j);
                assert(s0[j].name@ == k);
                lemma_index_of(s0, j);
            }
        }
    }

    /// The entries of the service `name`, if the book holds it.
    pub fn get(&self, name: &String) -> (r: Option<&Vec<LogEntry>>)
        requires
            self.well_formed(),
        ensures
            r is Some <==> self@.contains_key(name@),
            r matches Some(v) ==> views(v@) == self@[name@],
    {
        match self.find(name) {
            Some(i) => {
                proof {
                    lemma_index_of(self.services@, i as int);
                }
                Some(&self.services[i].entries)
            },
            None => None,
        }
    }

    /// The names of the services, in the order in which they were added.
    pub fn names(&self) -> (r: Vec<String>)
        requires
            self.well_formed(),
        ensures
            r@.len() == self@.len(),
            forall|i: int| 0 <= i < r@.len() ==> self@.contains_key(#[trigger] r@[i]@),
            forall|k: Seq<char>| #[trigger] self@.contains_key(k) ==> exists|i: int|
                0 <= i < r@.len() && #[trigger] r@[i]@ == k,
    {
        let mut r: Vec<String> = Vec::new();
        let mut i: usize = 0;
        while i < self.services.len()
            invariant
                i <= self.services@.len(),
                r@.len() == i,
                forall|k: int| 0 <= k < i ==> #[trigger] r@[k]@ == self.services@[k].name@,
            decreases self.services@.len() - i,
        {
            r.push(self.services[i].name.clone());
            i = i + 1;
        }
        proof {
            lemma_book_len(self.services@);
            assert forall|k: int| 0 <= k < r@.len() implies self@.contains_key(
                #[trigger] r@[k]@,
            ) by {
                assert(self.services@[k].name@ == r@[k]@);
            }
            assert forall|k: Seq<char>| #[trigger] self@.contains_key(k) implies exists|i: int|
                0 <= i < r@.len() && #[trigger] r@[i]@ == k by {
                let j = index_of(self.services@, k);
                assert(r@[j]@ == k);
            }
        }
        r
    }

    /// Number of services.
    pub fn len(&self) -> (r: usize)
        requires
            self.well_formed(),
        ensures
            r == self@.len(),
    {
        proof {
            lemma_book_len(self.services@);
        }
        self.services.len()
    }
}

proof fn lemma_book_len(s: Seq<ServiceLog>)
    requires
        names_unique(s),
    ensures
        book_map(s).len() == s.len(),
    decreases s.len(),
{
    if s.len() == 0 {
        assert(book_map(s).dom() =~= Set::<Seq<char>>::empty());
    } else {
        let t = s.drop_last();
        assert(names_unique(t));
        lemma_book_len(t);
        let n = s.last().name@;
        assert(book_map(s).dom() =~= book_map(t).dom().insert(n)) by {
            assert forall|k: Seq<char>| #[trigger] holds_name(s, k) == (holds_name(t, k) || k == n) by {
                if holds_name(s, k) && k != n {
                    let j = index_of(s, k);
                    assert(t[j].name@ == k);
                }
                if holds_name(t, k) {
                    let j = index_of(t, k);
                    assert(s[j].name@ == k);
                }
            }
        }
        assert(!holds_name(t, n)) by {
            if holds_name(t, n) {
                let j = index_of(t, n);
                assert(s[j].name@ == n);
            }
        }
        assert(book_map(t).dom().finite()) by {
            lemma_book_finite(t);
        }
    }
}

proof fn lemma_book_finite(s: Seq<ServiceLog>)
    ensures
        book_map(s).dom().finite(),
{
    let names = Set::new(|k: Seq<char>| holds_name(s, k));
    let idx = Set::new(|i: int| 0 <= i < s.len());
    assert(idx =~= vstd::set_lib::set_int_range(0, s.len() as int));
    vstd::set_lib::lemma_int_range(0, s.len() as int);
    let f = |i: int| s[i].name@;
    assert(names =~= idx.map(f)) by {
        assert forall|k: Seq<char>| names.contains(k) implies idx.map(f).contains(k) by {
            let j = index_of(s, k);
            assert(idx.contains(j));
            assert(f(j) == k);
        }
    }
    idx.lemma_map_finite(f);
    assert(book_map(s).dom() =~= names);
}

} // verus!
