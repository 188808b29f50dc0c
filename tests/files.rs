use logbook::{process_log_file, process_member, LogLevel, MemberKind};
use std::io::Write;

#[test]
fn continuation_lines_join_the_entry_before() {
    let data = b"2024-01-01T00:00:00.000000Z INFO hello\n  world\nmore\n".to_vec();
    let (entries, size) = process_log_file(&data, true);
    assert_eq!(entries.len(), 1);
    assert_eq!(entries[0].message, "hello\n  world\nmore");
    assert_eq!(size, 38 + 7 + 4);
}

#[test]
fn leading_continuation_is_dropped() {
    let data = b"orphan\n2024-01-01T00:00:00.000Z|INFO|a\n".to_vec();
    let (entries, _) = process_log_file(&data, true);
    assert_eq!(entries.len(), 1);
    assert_eq!(entries[0].message, "a");
}

#[test]
fn crlf_and_nul_endings() {
    let data = b"2024-01-01T00:00:00.000Z|INFO|a\r\nnext\0\0\r\n".to_vec();
    let (entries, size) = process_log_file(&data, true);
    assert_eq!(entries.len(), 1);
    assert_eq!(entries[0].message, "a\nnext");
    assert_eq!(size, 31 + 6);
}

#[test]
fn last_line_without_newline() {
    let data = b"2024-01-01T00:00:00.000Z|INFO|a\n2024-01-01T00:00:01.000Z|WARN|b".to_vec();
    let (entries, _) = process_log_file(&data, true);
    assert_eq!(entries.len(), 2);
    assert_eq!(entries[1].level, LogLevel::Warn);
    let (cut, _) = process_log_file(&data, false);
    assert_eq!(cut.len(), 1);
}

#[test]
fn reading_stops_at_invalid_utf8() {
    let mut data = b"2024-01-01T00:00:00.000Z|INFO|a\n".to_vec();
    data.extend_from_slice(&[0xff, 0xfe, b'\n']);
    data.extend_from_slice(b"2024-01-01T00:00:01.000Z|INFO|b\n");
    let (entries, size) = process_log_file(&data, true);
    assert_eq!(entries.len(), 1);
    assert_eq!(size, 31);
}

#[test]
fn discarded_line_is_not_a_continuation() {
    let data = b"2024-01-01T00:00:00.000Z|INFO|a\n2024-02-30T00:00:00.000Z|INFO|bad\n".to_vec();
    let (entries, _) = process_log_file(&data, true);
    assert_eq!(entries.len(), 1);
    assert_eq!(entries[0].message, "a");
}

#[test]
fn empty_file() {
    let (entries, size) = process_log_file(&Vec::new(), true);
    assert!(entries.is_empty());
    assert_eq!(size, 0);
}

#[test]
fn gzip_member_is_decompressed() {
    let mut enc = flate2::write::GzEncoder::new(Vec::new(), flate2::Compression::default());
    enc.write_all(b"2024-02-02T10:00:00.000|ERROR|boom").unwrap();
    let gz = enc.finish().unwrap();
    let (entries, size) = process_member(MemberKind::Gzip, &gz, true);
    assert_eq!(entries.len(), 1);
    assert_eq!(entries[0].level, LogLevel::Error);
    assert_eq!(entries[0].message, "boom");
    assert_eq!(size, 34);
    // The same bytes read as a plain log give nothing.
    let (plain, _) = process_member(MemberKind::Log, &gz, true);
    assert!(plain.is_empty());
}

#[test]
fn member_kinds() {
    assert_eq!(logbook::member_kind("a/b.gz"), MemberKind::Gzip);
    assert_eq!(logbook::member_kind("a/b.log"), MemberKind::Log);
    assert_eq!(logbook::member_kind("a/b.zip"), MemberKind::Nested);
    assert_eq!(logbook::member_kind("a/b.txt"), MemberKind::Other);
    assert_eq!(logbook::member_kind("gz"), MemberKind::Other);
}
