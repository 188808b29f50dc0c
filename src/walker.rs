//! The walk over the members of an archive, one level of nested archives
//! included, that fills a `LogBook` and yields progress snapshots.
//!
//! The walk is driven from outside: each call of `step` processes members up
//! to the next snapshot and returns it, so that the caller can publish it;
//! `finish` then sorts the book and gives the result.

use vstd::prelude::*;
use crate::archive::{
    archive_members, kind_of, log_entries, log_size, member_count, member_header, member_kind, open_archive,
    process_member, read_member, zip_members, Archive, MemberKind, MemberView,
};
use crate::book::{
    allows, get_service_name, is_allowed, service_of, stable_sorted, sorted_by_time, LogBook,
};
use crate::line::EntryView;
use crate::progress::{done_units, is_start_info, progress_in_range, progress_le, unit_count, Info, Processed};

verus! {

/// Why a walk cannot start.
#[derive(Clone, Copy, Debug, PartialEq, Eq, Structural)]
pub enum WalkError {
    /// The bytes are not a readable zip archive.
    NotAnArchive,
}

/// A nested archive being walked.
struct Nested {
    archive: Archive,
    /// Position of the nested archive among the members of the outer one.
    index: usize,
    total: usize,
    next: usize,
}

pub struct ArchiveWalker {
    archive: Archive,
    allowed: Vec<String>,
    total: usize,
    next: usize,
    nested: Option<Nested>,
    book: LogBook,
    size: usize,
    last: Ghost<Info>,
    source: Ghost<Seq<u8>>,
}

/// `(a1, a2)` comes before `(b1, b2)` in lexicographic order.
pub open spec fn lex_lt(a1: int, a2: int, b1: int, b2: int) -> bool {
    a1 < b1 || (a1 == b1 && a2 < b2)
}

/// `an / ad <= bn / bd`, cross-multiplied.
pub open spec fn frac_le(an: int, ad: int, bn: int, bd: int) -> bool {
    an * bd <= bn * ad
}

proof fn lemma_frac_trans(an: int, ad: int, bn: int, bd: int, cn: int, cd: int)
    requires
        frac_le(an, ad, bn, bd),
        frac_le(bn, bd, cn, cd),
        ad >= 0,
        bd > 0,
        cd >= 0,
    ensures
        frac_le(an, ad, cn, cd),
{
    assert(an * bd * cd <= bn * ad * cd) by (nonlinear_arith)
        requires
            an * bd <= bn * ad,
            cd >= 0,
    ;
    assert(bn * cd * ad <= cn * bd * ad) by (nonlinear_arith)
        requires
            bn * cd <= cn * bd,
            ad >= 0,
    ;
    assert(an * cd * bd <= cn * ad * bd) by (nonlinear_arith)
        requires
            an * bd * cd <= bn * ad * cd,
            bn * cd * ad <= cn * bd * ad,
    ;
    assert(an * cd <= cn * ad) by (nonlinear_arith)
        requires
            an * cd * bd <= cn * ad * bd,
            bd > 0,
    ;
}

/// What one member adds: entries under a service name, and the bytes of
/// its lines.
pub type Contribution = (Seq<char>, Seq<EntryView>, nat);

/// What a member of a nested archive adds: its entries, where it is a
/// non-empty `.gz` or `.log` file whose service the allow-list lets through.
pub open spec fn nested_part(m: MemberView, allowed: Seq<String>) -> Seq<Contribution> {
    match m {
        None => seq![],
        Some(m) => {
            let service = service_of(m.0);
            let kind = kind_of(m.0);
            if m.1 && m.2 > 0 && allows(allowed, service) && (kind is Gzip || kind is Log) {
                seq![(service, log_entries(kind, m.3, m.4), log_size(kind, m.3, m.4))]
            } else {
                seq![]
            }
        },
    }
}

/// What the first `u` members of a nested archive add, in order.
pub open spec fn nested_parts(ms: Seq<MemberView>, allowed: Seq<String>, u: int) -> Seq<
    Contribution,
>
    decreases u,
{
    if u <= 0 {
        seq![]
    } else {
        nested_parts(ms, allowed, u - 1) + nested_part(ms[u - 1], allowed)
    }
}

/// What a member of the archive adds: the entries of a non-empty `.gz` or
/// `.log` file, or what the members of a non-empty nested `.zip` archive
/// add, where it is a file whose service the allow-list lets through.
pub open spec fn outer_part(m: MemberView, allowed: Seq<String>) -> Seq<Contribution> {
    match m {
        None => seq![],
        Some(m) => {
            let service = service_of(m.0);
            let kind = kind_of(m.0);
            if !m.1 || m.2 == 0 || !allows(allowed, service) {
                seq![]
            } else if kind is Gzip || kind is Log {
                seq![(service, log_entries(kind, m.3, m.4), log_size(kind, m.3, m.4))]
            } else if kind is Nested {
                match zip_members(m.3) {
                    Some(inner) => nested_parts(inner, allowed, inner.len() as int),
                    None => seq![],
                }
            } else {
                seq![]
            }
        },
    }
}

/// What the first `k` members of the archive add, in order.
pub open spec fn outer_parts(ms: Seq<MemberView>, allowed: Seq<String>, k: int) -> Seq<
    Contribution,
>
    decreases k,
{
    if k <= 0 {
        seq![]
    } else {
        outer_parts(ms, allowed, k - 1) + outer_part(ms[k - 1], allowed)
    }
}

/// The book that gathers the contributions `cs` in order: each appends its
/// entries to those of its service.
pub open spec fn grouped(cs: Seq<Contribution>) -> Map<Seq<char>, Seq<EntryView>>
    decreases cs.len(),
{
    if cs.len() == 0 {
        Map::empty()
    } else {
        let g = grouped(cs.drop_last());
        let c = cs.last();
        g.insert(
            c.0,
            if g.contains_key(c.0) {
                g[c.0] + c.1
            } else {
                c.1
            },
        )
    }
}

/// `x` is the snapshot taken after the member it points at, in an archive
/// whose members are `ms`: member `index` of `total`, or, inside a non-empty
/// nested `.zip` member, member `inner_index` of the `inner_total` members of
/// the nested archive; `file` is that member's name.
pub open spec fn snapshot_of(ms: Seq<MemberView>, x: Info) -> bool {
    &&& x.total == ms.len()
    &&& x.index < ms.len()
    &&& match ms[x.index as int] {
        None => false,
        Some(m) => if kind_of(m.0) is Nested && m.2 > 0 {
            match zip_members(m.3) {
                None => false,
                Some(ims) => x.inner_total == ims.len() && x.inner_index < ims.len() && match ims[x.inner_index as int] {
                    None => false,
                    Some(im) => im.0 == x.file@,
                },
            }
        } else {
            x.inner_index == 0 && x.inner_total == 1 && x.file@ == m.0
        },
    }
}

/// The bytes of lines that the contributions `cs` read.
pub open spec fn total_bytes(cs: Seq<Contribution>) -> nat
    decreases cs.len(),
{
    if cs.len() == 0 {
        0
    } else {
        total_bytes(cs.drop_last()) + cs.last().2
    }
}

/// `n`, or the largest `usize` where `n` is larger: a total kept in a
/// saturating counter.
pub open spec fn capped(n: nat) -> nat {
    if n > usize::MAX {
        usize::MAX as nat
    } else {
        n
    }
}

/// The bytes of log lines that a walk over the archive in `data` with the
/// allow-list `allowed` reads (kept in a saturating counter).
pub open spec fn expected_size(data: Seq<u8>, allowed: Seq<String>) -> nat {
    match zip_members(data) {
        Some(ms) => capped(total_bytes(outer_parts(ms, allowed, ms.len() as int))),
        None => 0,
    }
}

/// The entries by service, before sorting, that a walk over the archive in
/// `data` with the allow-list `allowed` gathers.
pub open spec fn expected_book(data: Seq<u8>, allowed: Seq<String>) -> Map<
    Seq<char>,
    Seq<EntryView>,
> {
    match zip_members(data) {
        Some(ms) => grouped(outer_parts(ms, allowed, ms.len() as int)),
        None => Map::empty(),
    }
}

proof fn lemma_grouped_push(cs: Seq<Contribution>, c: Contribution)
    ensures
        total_bytes(cs.push(c)) == total_bytes(cs) + c.2,
        grouped(cs.push(c)) == grouped(cs).insert(
            c.0,
            if grouped(cs).contains_key(c.0) {
                grouped(cs)[c.0] + c.1
            } else {
                c.1
            },
        ),
{
    assert(cs.push(c).drop_last() =~= cs);
}

proof fn lemma_grouped_empty(cs: Seq<Contribution>)
    ensures
        grouped(cs + Seq::<Contribution>::empty()) == grouped(cs),
        total_bytes(cs + Seq::<Contribution>::empty()) == total_bytes(cs),
{
    assert(cs + Seq::<Contribution>::empty() =~= cs);
}

proof fn lemma_capped_add(t: nat, b: nat)
    ensures
        capped((capped(t) + b) as nat) == capped((t + b) as nat),
{
}

proof fn lemma_concat_assoc(a: Seq<Contribution>, b: Seq<Contribution>, c: Seq<Contribution>)
    ensures
        a + b + c == a + (b + c),
{
    assert(a + b + c =~= a + (b + c));
}

/// Reads a `.gz` or `.log` member and appends its entries under `service`.
fn take_member(
    book: &mut LogBook,
    size: &mut usize,
    allowed: &Vec<String>,
    kind: MemberKind,
    data: Vec<u8>,
    complete: bool,
    service: String,
)
    requires
        old(book).well_formed(),
        forall|k: Seq<char>| #[trigger] old(book)@.contains_key(k) ==> allows(allowed@, k),
        kind is Gzip || kind is Log,
        allows(allowed@, service@),
    ensures
        final(book).well_formed(),
        forall|k: Seq<char>| #[trigger] final(book)@.contains_key(k) ==> allows(allowed@, k),
        final(book)@ == old(book)@.insert(
            service@,
            if old(book)@.contains_key(service@) {
                old(book)@[service@] + log_entries(kind, data@, complete)
            } else {
                log_entries(kind, data@, complete)
            },
        ),
        *final(size) == capped((*old(size) + log_size(kind, data@, complete)) as nat),
{
    let (entries, bytes) = process_member(kind, &data, complete);
    *size = (*size).saturating_add(bytes);
    book.append(service, entries);
}

impl ArchiveWalker {
    /// The point that every later snapshot reaches: the fraction of the run
    /// done before the next member to process.
    spec fn frontier(&self) -> (int, int) {
        match self.nested {
            Some(n) => (n.index * n.total + n.next, self.total * n.total),
            None => (self.next as int, self.total as int),
        }
    }

    pub closed spec fn well_formed(&self) -> bool {
        &&& self.book.well_formed()
        &&& forall|k: Seq<char>| #[trigger] self.book@.contains_key(k) ==> allows(self.allowed@, k)
        &&& self.total == archive_members(self.archive).len()
        &&& zip_members(self.source@) == Some(archive_members(self.archive))
        &&& self.next <= self.total
        &&& match self.nested {
            Some(n) => {
                &&& n.index + 1 == self.next
                &&& n.total == archive_members(n.archive).len()
                &&& 1 <= n.total
                &&& n.next <= n.total
                &&& archive_members(self.archive)[n.index as int] matches Some(m) && m.1 && m.2 > 0
                    && allows(self.allowed@, service_of(m.0)) && kind_of(m.0) is Nested
                    && zip_members(m.3) == Some(archive_members(n.archive))
                &&& self.book@ == grouped(
                    outer_parts(archive_members(self.archive), self.allowed@, n.index as int)
                        + nested_parts(archive_members(n.archive), self.allowed@, n.next as int),
                )
                &&& self.size == capped(
                    total_bytes(
                        outer_parts(archive_members(self.archive), self.allowed@, n.index as int)
                            + nested_parts(archive_members(n.archive), self.allowed@, n.next as int),
                    ),
                )
            },
            None => {
                &&& self.book@ == grouped(
                    outer_parts(archive_members(self.archive), self.allowed@, self.next as int),
                )
                &&& self.size == capped(
                    total_bytes(
                        outer_parts(archive_members(self.archive), self.allowed@, self.next as int),
                    ),
                )
            },
        }
        &&& frac_le(done_units(self.last@), unit_count(self.last@), self.frontier().0, self.frontier().1)
        &&& done_units(self.last@) >= 0
        &&& unit_count(self.last@) >= 0
    }

    /// The allow-list of the walk.
    pub closed spec fn allowed_names(&self) -> Seq<String> {
        self.allowed@
    }

    /// The entries gathered so far.
    pub closed spec fn book_view(&self) -> Map<Seq<char>, Seq<crate::line::EntryView>> {
        self.book@
    }

    /// The last snapshot returned (at first, the start snapshot).
    pub closed spec fn last_snapshot(&self) -> Info {
        self.last@
    }

    /// All members have been processed.
    pub closed spec fn finished(&self) -> bool {
        self.next == self.total && self.nested is None
    }

    /// Bytes of log lines read so far.
    pub closed spec fn bytes_read(&self) -> usize {
        self.size
    }

    /// The bytes of the archive walked.
    pub closed spec fn source(&self) -> Seq<u8> {
        self.source@
    }

    /// Members of the archive not yet taken up.
    pub closed spec fn outer_left(&self) -> int {
        self.total - self.next
    }

    /// Members of the nested archive in progress not yet taken up, plus one;
    /// zero where there is none.
    pub closed spec fn nested_left(&self) -> int {
        match self.nested {
            Some(n) => n.total - n.next + 1,
            None => 0,
        }
    }

    /// Starts a walk over the archive in `data`. Only members whose service
    /// `allowed` names are read; an empty list lets every service through.
    pub fn new(data: Vec<u8>, allowed: Vec<String>) -> (r: Result<ArchiveWalker, WalkError>)
        ensures
            r is Ok <==> zip_members(data@) is Some,
            r matches Ok(w) ==> w.well_formed() && w.allowed_names() == allowed@ && is_start_info(
                w.last_snapshot(),
            ) && w.book_view() == Map::<Seq<char>, Seq<crate::line::EntryView>>::empty()
                && w.source() == data@,
            r matches Err(e) ==> e == WalkError::NotAnArchive,
    {
        let ghost source = data@;
        match open_archive(data) {
            Err(_) => Err(WalkError::NotAnArchive),
            Ok(archive) => {
                let total = member_count(&archive);
                let start = Info::start(String::new());
                let w = ArchiveWalker {
                    archive,
                    allowed,
                    total,
                    next: 0,
                    nested: None,
                    book: LogBook::new(),
                    size: 0,
                    last: Ghost(start),
                    source: Ghost(source),
                };
                assert(done_units(start) == 0 && unit_count(start) == 0);
                Ok(w)
            },
        }
    }

    /// Takes up the next member of the nested archive in progress, or ends
    /// the nested archive where none is left.
    #[verifier::rlimit(50)]
    fn advance_nested(&mut self) -> (r: Option<Info>)
        requires
            old(self).well_formed(),
            old(self).nested is Some,
        ensures
            final(self).well_formed(),
            final(self).allowed@ == old(self).allowed@,
            final(self).source@ == old(self).source@,
            lex_lt(
                final(self).outer_left(),
                final(self).nested_left(),
                old(self).outer_left(),
                old(self).nested_left(),
            ),
            r matches Some(x) ==> progress_le(old(self).last@, x) && progress_in_range(x)
                && final(self).last@ == x && x.service_name@ == service_of(x.file@) && x.size
                == final(self).size && snapshot_of(archive_members(final(self).archive), x),
            r is None ==> final(self).last@ == old(self).last@,
    {
        let ghost f0 = self.frontier();
        let ghost ms = archive_members(self.archive);
        let ghost allowed = self.allowed@;
        let mut n = self.nested.take().unwrap();
        let ghost ims = archive_members(n.archive);
        let ghost before = outer_parts(ms, allowed, n.index as int);
        if n.next >= n.total {
            proof {
                assert(f0.1 > 0) by (nonlinear_arith)
                    requires
                        f0.1 == self.total * n.total,
                        n.index + 1 <= self.total,
                        n.total >= 1,
                ;
                assert(frac_le(f0.0, f0.1, self.next as int, self.total as int)) by (nonlinear_arith)
                    requires
                        f0.0 == n.index * n.total + n.next,
                        f0.1 == self.total * n.total,
                        n.next == n.total,
                        n.index + 1 == self.next,
                ;
                lemma_frac_trans(
                    done_units(self.last@),
                    unit_count(self.last@),
                    f0.0,
                    f0.1,
                    self.next as int,
                    self.total as int,
                );
                assert(outer_part(ms[n.index as int], allowed) == nested_parts(ims, allowed, ims.len() as int));
                assert(outer_parts(ms, allowed, self.next as int) == before + outer_part(ms[n.index as int], allowed));
            }
            return None;
        }
        let u = n.next;
        n.next = n.next + 1;
        let ghost book0 = self.book@;
        let ghost prev = before + nested_parts(ims, allowed, u as int);
        let ghost part = nested_part(ims[u as int], allowed);
        proof {
            assert(nested_parts(ims, allowed, u + 1) == nested_parts(ims, allowed, u as int) + part);
            lemma_concat_assoc(before, nested_parts(ims, allowed, u as int), part);
            assert(book0 == grouped(prev));
        }
        let header = member_header(&mut n.archive, u);
        let snapshot = match header {
            None => {
                proof {
                    assert(part =~= seq![]);
                    lemma_grouped_empty(prev);
                }
                None
            },
            Some((name, file, size)) => {
                let service = get_service_name(name.as_str());
                let kind = member_kind(name.as_str());
                if !file || size == 0 || !is_allowed(&self.allowed, &service) || !matches!(
                    kind,
                    MemberKind::Gzip | MemberKind::Log
                ) {
                    proof {
                        assert(part =~= seq![]);
                        lemma_grouped_empty(prev);
                    }
                    None
                } else {
                    match read_member(&mut n.archive, u) {
                        None => None,
                        Some((data, complete)) => {
                            take_member(&mut self.book, &mut self.size, &self.allowed, kind, data, complete, service.clone());
                            proof {
                                assert(part =~= seq![(service@, log_entries(kind, data@, complete), log_size(kind, data@, complete))]);
                                lemma_grouped_push(prev, part[0]);
                                lemma_capped_add(total_bytes(prev), part[0].2);
                                assert(prev.push(part[0]) =~= prev + part);
                            }
                            Some((service, name))
                        },
                    }
                }
            },
        };
        assert(self.book@ == grouped(before + nested_parts(ims, allowed, u + 1)));
        let ghost before_last = self.last@;
        let index = n.index;
        let inner_total = n.total;
        self.nested = Some(n);
        proof {
            assert(frac_le(f0.0, f0.1, self.frontier().0, self.frontier().1)) by (nonlinear_arith)
                requires
                    f0.0 == index * inner_total + u,
                    f0.1 == self.total * inner_total,
                    self.frontier().0 == index * inner_total + u + 1,
                    self.frontier().1 == self.total * inner_total,
                    self.total >= 1,
                    inner_total >= 1,
            ;
            assert(self.total * inner_total > 0) by (nonlinear_arith)
                requires
                    self.total >= 1,
                    inner_total >= 1,
            ;
            lemma_frac_trans(
                done_units(before_last),
                unit_count(before_last),
                f0.0,
                f0.1,
                self.frontier().0,
                self.frontier().1,
            );
        }
        match snapshot {
            None => {},
            Some((service, name)) => {
                let info = Info {
                    service_name: service,
                    file: name,
                    size: self.size,
                    index,
                    inner_index: u,
                    inner_total,
                    total: self.total,
                };
                proof {
                    assert(done_units(info) == f0.0);
                    assert(unit_count(info) == f0.1);
                    assert(done_units(info) >= 0) by (nonlinear_arith)
                        requires
                            done_units(info) == index * inner_total + u,
                    ;
                    assert(unit_count(info) >= 0) by (nonlinear_arith)
                        requires
                            unit_count(info) == self.total * inner_total,
                    ;
                    assert(frac_le(done_units(info), unit_count(info), self.frontier().0, self.frontier().1)) by (nonlinear_arith)
                        requires
                            done_units(info) == index * inner_total + u,
                            unit_count(info) == self.total * inner_total,
                            self.frontier().0 == index * inner_total + u + 1,
                            self.frontier().1 == self.total * inner_total,
                            self.total >= 1,
                            inner_total >= 1,
                    ;
                    self.last = Ghost(info);
                }
                return Some(info);
            },
        }
        None
    }

    /// Takes up the next member of the archive.
    #[verifier::rlimit(50)]
    fn advance_outer(&mut self) -> (r: Option<Info>)
        requires
            old(self).well_formed(),
            old(self).nested is None,
            old(self).next < old(self).total,
        ensures
            final(self).well_formed(),
            final(self).allowed@ == old(self).allowed@,
            final(self).source@ == old(self).source@,
            lex_lt(
                final(self).outer_left(),
                final(self).nested_left(),
                old(self).outer_left(),
                old(self).nested_left(),
            ),
            r matches Some(x) ==> progress_le(old(self).last@, x) && progress_in_range(x)
                && final(self).last@ == x && x.service_name@ == service_of(x.file@) && x.size
                == final(self).size && snapshot_of(archive_members(final(self).archive), x),
            r is None ==> final(self).last@ == old(self).last@,
    {
        let ghost f0 = self.frontier();
        let ghost ms = archive_members(self.archive);
        let ghost allowed = self.allowed@;
        let i = self.next;
        self.next = self.next + 1;
        let ghost book0 = self.book@;
        let ghost prev = outer_parts(ms, allowed, i as int);
        let ghost part = outer_part(ms[i as int], allowed);
        proof {
            assert(outer_parts(ms, allowed, i + 1) == prev + part);
        }
        let header = member_header(&mut self.archive, i);
        let mut snapshot: Option<(String, String)> = None;
        match header {
            None => {
                proof {
                    assert(part =~= seq![]);
                    lemma_grouped_empty(prev);
                }
            },
            Some((name, file, size)) => {
                let service = get_service_name(name.as_str());
                if file && is_allowed(&self.allowed, &service) {
                    if size == 0 {
                        proof {
                            assert(part =~= seq![]);
                            lemma_grouped_empty(prev);
                        }
                        snapshot = Some((service, name));
                    } else {
                        let kind = member_kind(name.as_str());
                        match kind {
                            MemberKind::Gzip | MemberKind::Log => {
                                match read_member(&mut self.archive, i) {
                                    None => {},
                                    Some((data, complete)) => {
                                        take_member(&mut self.book, &mut self.size, &self.allowed, kind, data, complete, service.clone());
                                        proof {
                                            assert(part =~= seq![(service@, log_entries(kind, data@, complete), log_size(kind, data@, complete))]);
                                            lemma_grouped_push(prev, part[0]);
                                            lemma_capped_add(total_bytes(prev), part[0].2);
                                            assert(prev.push(part[0]) =~= prev + part);
                                        }
                                        snapshot = Some((service, name));
                                    },
                                }
                            },
                            MemberKind::Nested => {
                                match read_member(&mut self.archive, i) {
                                    None => {},
                                    Some((data, _)) => {
                                        match open_archive(data) {
                                            Err(_) => {
                                                proof {
                                                    assert(part =~= seq![]);
                                                    lemma_grouped_empty(prev);
                                                }
                                            },
                                            Ok(inner) => {
                                                let count = member_count(&inner);
                                                proof {
                                                    assert(nested_parts(archive_members(inner), allowed, 0) =~= seq![]);
                                                    lemma_grouped_empty(prev);
                                                }
                                                if count > 0 {
                                                    self.nested = Some(Nested {
                                                        archive: inner,
                                                        index: i,
                                                        total: count,
                                                        next: 0,
                                                    });
                                                } else {
                                                    proof {
                                                        assert(part =~= seq![]);
                                                    }
                                                }
                                            },
                                        }
                                    },
                                }
                            },
                            MemberKind::Other => {
                                proof {
                                    assert(part =~= seq![]);
                                    lemma_grouped_empty(prev);
                                }
                            },
                        }
                    }
                } else {
                    proof {
                        assert(part =~= seq![]);
                        lemma_grouped_empty(prev);
                    }
                }
            },
        }
        proof {
            if self.nested is Some {
                let n_total = self.nested->0.total;
                assert(frac_le(f0.0, f0.1, self.frontier().0, self.frontier().1)) by (nonlinear_arith)
                    requires
                        f0.0 == i,
                        f0.1 == self.total,
                        self.frontier().0 == i * n_total,
                        self.frontier().1 == self.total * n_total,
                ;
            } else {
                assert(frac_le(f0.0, f0.1, self.frontier().0, self.frontier().1)) by (nonlinear_arith)
                    requires
                        f0.0 == i,
                        f0.1 == self.total,
                        self.frontier().0 == i + 1,
                        self.frontier().1 == self.total,
                        self.total >= 1,
                ;
            }
            lemma_frac_trans(
                done_units(self.last@),
                unit_count(self.last@),
                f0.0,
                f0.1,
                self.frontier().0,
                self.frontier().1,
            );
        }
        match snapshot {
            None => {},
            Some((service, name)) => {
                let info = Info {
                    service_name: service,
                    file: name,
                    size: self.size,
                    index: i,
                    inner_index: 0,
                    inner_total: 1,
                    total: self.total,
                };
                proof {
                    assert(done_units(info) == i) by (nonlinear_arith)
                        requires
                            done_units(info) == info.index * info.inner_total + info.inner_index,
                            info.index == i,
                            info.inner_total == 1,
                            info.inner_index == 0,
                    ;
                    assert(unit_count(info) == self.total) by (nonlinear_arith)
                        requires
                            unit_count(info) == info.total * info.inner_total,
                            info.total == self.total,
                            info.inner_total == 1,
                    ;
                    self.last = Ghost(info);
                }
                return Some(info);
            },
        }
        None
    }

    /// Processes members up to the next progress snapshot and returns it;
    /// `None` once every member has been processed, and the book then holds
    /// what `expected_book` says.
    ///
    /// A member is skipped where it is not a file, where the allow-list
    /// keeps its service out, where it cannot be read, or where its suffix is
    /// none of `.gz`, `.log` and `.zip`. A nested archive that cannot be
    /// opened is skipped as a whole. Outside a nested archive, an empty
    /// member that passes the allow-list still gets a snapshot.
    ///
    /// Snapshots never go backwards: the percentage of each is at least that
    /// of the one before.
    pub fn step(&mut self) -> (r: Option<Info>)
        requires
            old(self).well_formed(),
        ensures
            final(self).well_formed(),
            final(self).allowed_names() == old(self).allowed_names(),
            final(self).source() == old(self).source(),
            r matches Some(x) ==> progress_le(old(self).last_snapshot(), x) && progress_in_range(x)
                && final(self).last_snapshot() == x && x.service_name@ == service_of(x.file@)
                && x.size == final(self).bytes_read() && zip_members(final(self).source()) is Some
                && snapshot_of(zip_members(final(self).source())->0, x),
            r is Some ==> lex_lt(
                final(self).outer_left(),
                final(self).nested_left(),
                old(self).outer_left(),
                old(self).nested_left(),
            ),
            r is None ==> final(self).finished() && final(self).last_snapshot() == old(
                self,
            ).last_snapshot() && final(self).book_view() == expected_book(
                final(self).source(),
                final(self).allowed_names(),
            ) && final(self).bytes_read() == expected_size(
                final(self).source(),
                final(self).allowed_names(),
            ),
    {
        let ghost start_last = self.last@;
        let ghost o_start = self.outer_left();
        let ghost n_start = self.nested_left();
        loop
            invariant
                self.well_formed(),
                self.allowed@ == old(self).allowed@,
                self.source@ == old(self).source@,
                self.last@ == start_last,
                start_last == old(self).last@,
                o_start == old(self).outer_left(),
                n_start == old(self).nested_left(),
                self.outer_left() == o_start && self.nested_left() == n_start || lex_lt(
                    self.outer_left(),
                    self.nested_left(),
                    o_start,
                    n_start,
                ),
            decreases self.outer_left(), self.nested_left(),
        {
            let r = if self.nested.is_some() {
                self.advance_nested()
            } else if self.next < self.total {
                self.advance_outer()
            } else {
                proof {
                    let ms = archive_members(self.archive);
                    assert(self.book@ == expected_book(self.source@, self.allowed@));
                }
                return None;
            };
            if r.is_some() {
                return r;
            }
        }
    }

    /// The result of the walk: the book with the entries of every service
    /// sorted by time (entries with equal timestamps kept in the order in
    /// which they were read), the bytes of log lines read, and the duration
    /// that the caller measured.
    pub fn finish(self, duration_micros: i64) -> (r: Processed)
        requires
            self.well_formed(),
        ensures
            r.logbook.well_formed(),
            r.logbook@.dom() == self.book_view().dom(),
            forall|k: Seq<char>| #[trigger] r.logbook@.contains_key(k) ==> stable_sorted(
                r.logbook@[k],
                self.book_view()[k],
            ),
            forall|k: Seq<char>| #[trigger] r.logbook@.contains_key(k) ==> sorted_by_time(
                r.logbook@[k],
            ),
            forall|k: Seq<char>| #[trigger] r.logbook@.contains_key(k) ==> allows(
                self.allowed_names(),
                k,
            ),
            r.duration_micros == duration_micros,
            r.size == self.bytes_read(),
            self.finished() ==> self.book_view() == expected_book(self.source(), self.allowed_names())
                && r.size == expected_size(self.source(), self.allowed_names()),
    {
        let mut book = self.book;
        book.sort();
        Processed { logbook: book, size: self.size, duration_micros }
    }
}

/// Walks the whole archive in `data` and gives its entries by service,
/// sorted by time, and the bytes of log lines read; no progress is reported.
pub fn process_archive(data: Vec<u8>, allowed: Vec<String>) -> (r: Result<(LogBook, usize), WalkError>)
    ensures
        r is Ok <==> zip_members(data@) is Some,
        r matches Err(e) ==> e == WalkError::NotAnArchive,
        r matches Ok(p) ==> {
            &&& p.0.well_formed()
            &&& p.0@.dom() == expected_book(data@, allowed@).dom()
            &&& forall|k: Seq<char>| #[trigger] p.0@.contains_key(k) ==> stable_sorted(
                p.0@[k],
                expected_book(data@, allowed@)[k],
            )
            &&& forall|k: Seq<char>| #[trigger] p.0@.contains_key(k) ==> allows(allowed@, k)
            &&& p.1 == expected_size(data@, allowed@)
        },
{
    let ghost source = data@;
    let ghost names = allowed@;
    let mut w = match ArchiveWalker::new(data, allowed) {
        Ok(w) => w,
        Err(e) => return Err(e),
    };
    loop
        invariant
            w.well_formed(),
            w.source() == source,
            w.allowed_names() == names,
        ensures
            w.well_formed(),
            w.finished(),
            w.book_view() == expected_book(source, names),
            w.bytes_read() == expected_size(source, names),
        decreases w.outer_left(), w.nested_left(),
    {
        match w.step() {
            Some(_) => {},
            None => break,
        }
    }
    let p = w.finish(0);
    Ok((p.logbook, p.size))
}

} // verus!
