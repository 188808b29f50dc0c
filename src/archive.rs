//! Zip archives and gzip streams: the calls into the `zip` and `flate2`
//! crates, and what the library does with the bytes they give.

use vstd::prelude::*;
use std::io::Read;
use crate::book::{ends_with, has_suffix};
use crate::line::LogEntry;
use crate::log_file::{entries_of_lines, process_log_file, raw_lines, text_lines, text_size, views};

verus! {

#[verifier::external_type_specification]
#[verifier::external_body]
#[verifier::reject_recursive_types(T)]
pub struct ExCursor<T>(std::io::Cursor<T>);

#[verifier::external_type_specification]
#[verifier::external_body]
#[verifier::reject_recursive_types(R)]
pub struct ExZipArchive<R>(zip::ZipArchive<R>);

#[verifier::external_type_specification]
#[verifier::external_body]
pub struct ExZipError(zip::result::ZipError);

/// An archive read from bytes in memory.
pub type Archive = zip::ZipArchive<std::io::Cursor<Vec<u8>>>;

/// What the archive read from the bytes `data` holds, or `None` where the
/// bytes are not a readable zip archive. For each member, in archive order:
/// `None` where the member cannot be opened; otherwise its name, whether it
/// is a file (neither a directory nor a symbolic link), its uncompressed
/// size, the bytes that reading it gives, and whether reading ended without
/// an error.
pub uninterp spec fn zip_members(data: Seq<u8>) -> Option<
    Seq<Option<(Seq<char>, bool, u64, Seq<u8>, bool)>>,
>;

/// What an open archive holds, member by member, as `zip_members` describes.
pub uninterp spec fn archive_members(a: zip::ZipArchive<std::io::Cursor<Vec<u8>>>) -> Seq<
    Option<(Seq<char>, bool, u64, Seq<u8>, bool)>,
>;

/// A member as `zip_members` describes it.
pub type MemberView = Option<(Seq<char>, bool, u64, Seq<u8>, bool)>;

/// What a gzip decoder gives for the bytes `b`: the decompressed bytes of the
/// first gzip member, as far as decoding went, and whether it ended without
/// an error.
pub uninterp spec fn gunzipped(b: Seq<u8>) -> (Seq<u8>, bool);

/// Relies on `ZipArchive::new`, which reads the central directory of the
/// archive held in `data`.
#[verifier::external_body]
pub(crate) fn open_archive(data: Vec<u8>) -> (r: Result<Archive, zip::result::ZipError>)
    ensures
        r is Ok <==> zip_members(data@) is Some,
        r matches Ok(a) ==> zip_members(data@) == Some(archive_members(a)),
{
    zip::ZipArchive::new(std::io::Cursor::new(data))
}

/// Relies on `ZipArchive::len`, the number of members of the archive.
#[verifier::external_body]
pub(crate) fn member_count(a: &Archive) -> (r: usize)
    ensures
        r == archive_members(*a).len(),
{
    a.len()
}

/// Relies on `ZipArchive::by_index`, which fails where there is no member
/// `i` or where it cannot be opened, and leaves the members of the archive
/// as they are, and on `ZipFile::name`, `ZipFile::is_file` and
/// `ZipFile::size`.
#[verifier::external_body]
pub(crate) fn member_header(a: &mut Archive, i: usize) -> (r: Option<(String, bool, u64)>)
    ensures
        archive_members(*final(a)) == archive_members(*old(a)),
        i >= archive_members(*old(a)).len() ==> r is None,
        i < archive_members(*old(a)).len() ==> match archive_members(*old(a))[i as int] {
            None => r is None,
            Some(m) => r matches Some(h) && h.0@ == m.0 && h.1 == m.1 && h.2 == m.2,
        },
{
    a.by_index(i).ok().map(|f| (f.name().to_string(), f.is_file(), f.size()))
}

/// Relies on `ZipArchive::by_index`, as above, and on `Read::read_to_end`
/// of the member: the bytes read, and whether reading ended without an
/// error.
#[verifier::external_body]
pub(crate) fn read_member(a: &mut Archive, i: usize) -> (r: Option<(Vec<u8>, bool)>)
    ensures
        archive_members(*final(a)) == archive_members(*old(a)),
        i >= archive_members(*old(a)).len() ==> r is None,
        i < archive_members(*old(a)).len() ==> match archive_members(*old(a))[i as int] {
            None => r is None,
            Some(m) => r matches Some(d) && d.0@ == m.3 && d.1 == m.4,
        },
{
    let mut f = match a.by_index(i) {
        Ok(f) => f,
        Err(_) => return None,
    };
    let mut out = Vec::new();
    let done = f.read_to_end(&mut out).is_ok();
    Some((out, done))
}

/// Relies on `flate2::read::GzDecoder` and `Read::read_to_end`: the result
/// depends on the bytes alone.
#[verifier::external_body]
fn gunzip(data: &Vec<u8>) -> (r: (Vec<u8>, bool))
    ensures
        (r.0@, r.1) == gunzipped(data@),
{
    let mut out = Vec::new();
    let done = flate2::read::GzDecoder::new(data.as_slice()).read_to_end(&mut out).is_ok();
    (out, done)
}

/// How a member is handled, by the suffix of its name.
#[derive(Clone, Copy, Debug, PartialEq, Eq, Structural)]
pub enum MemberKind {
    /// `.gz`: decompressed, then read as a log file.
    Gzip,
    /// `.log`: read as a log file.
    Log,
    /// `.zip`: a nested archive, whose members are handled in turn.
    Nested,
    /// Anything else: skipped.
    Other,
}

pub open spec fn kind_of(name: Seq<char>) -> MemberKind {
    if has_suffix(name, ".gz"@) {
        MemberKind::Gzip
    } else if has_suffix(name, ".log"@) {
        MemberKind::Log
    } else if has_suffix(name, ".zip"@) {
        MemberKind::Nested
    } else {
        MemberKind::Other
    }
}

/// How the member named `name` is handled.
pub fn member_kind(name: &str) -> (r: MemberKind)
    ensures
        r == kind_of(name@),
{
    if ends_with(name, ".gz") {
        MemberKind::Gzip
    } else if ends_with(name, ".log") {
        MemberKind::Log
    } else if ends_with(name, ".zip") {
        MemberKind::Nested
    } else {
        MemberKind::Other
    }
}

/// The entries that a `.gz` or `.log` member gives.
pub open spec fn log_entries(kind: MemberKind, data: Seq<u8>, complete: bool) -> Seq<
    crate::line::EntryView,
> {
    entries_of_lines(
        text_lines(
            raw_lines(member_text(kind, data, complete).0, 0, member_text(kind, data, complete).1),
        ),
    )
}

/// The bytes of the lines of a `.gz` or `.log` member.
pub open spec fn log_size(kind: MemberKind, data: Seq<u8>, complete: bool) -> nat {
    text_size(raw_lines(member_text(kind, data, complete).0, 0, member_text(kind, data, complete).1))
}

/// The text bytes of a log member, and whether they are complete: a gzip
/// member is decompressed first.
pub open spec fn member_text(kind: MemberKind, data: Seq<u8>, complete: bool) -> (Seq<u8>, bool) {
    if kind is Gzip {
        (gunzipped(data).0, complete && gunzipped(data).1)
    } else {
        (data, complete)
    }
}

/// The entries and the line bytes of a `.gz` or `.log` member whose bytes
/// are `data` (`complete`: whether reading it ended without an error).
pub fn process_member(kind: MemberKind, data: &Vec<u8>, complete: bool) -> (r: (
    Vec<LogEntry>,
    usize,
))
    requires
        kind is Gzip || kind is Log,
    ensures
        views(r.0@) == log_entries(kind, data@, complete),
        r.1 == log_size(kind, data@, complete),
{
    match kind {
        MemberKind::Gzip => {
            let (text, done) = gunzip(data);
            process_log_file(&text, complete && done)
        },
        _ => process_log_file(data, complete),
    }
}

} // verus!
