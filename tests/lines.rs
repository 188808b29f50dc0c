use logbook::{LogEntry, LogLevel};

const JAN_1_2024: i64 = 1_704_067_200_000_000;

#[test]
fn level_names_in_any_case() {
    assert_eq!(LogLevel::from_str("ERROR"), LogLevel::Error);
    assert_eq!(LogLevel::from_str("error"), LogLevel::Error);
    assert_eq!(LogLevel::from_str("Warn"), LogLevel::Warn);
    assert_eq!(LogLevel::from_str("wArNiNg"), LogLevel::Warn);
    assert_eq!(LogLevel::from_str("info"), LogLevel::Info);
    assert_eq!(LogLevel::from_str("Debug"), LogLevel::Debug);
    assert_eq!(LogLevel::from_str("TRACE"), LogLevel::Trace);
}

#[test]
fn level_surrounding_whitespace_ignored() {
    assert_eq!(LogLevel::from_str("  INFO\t"), LogLevel::Info);
    assert_eq!(LogLevel::from_str("\u{a0}debug\u{3000}"), LogLevel::Debug);
}

#[test]
fn level_other_tokens_unknown() {
    assert_eq!(LogLevel::from_str(""), LogLevel::Unknown);
    assert_eq!(LogLevel::from_str("   "), LogLevel::Unknown);
    assert_eq!(LogLevel::from_str("FATAL"), LogLevel::Unknown);
    assert_eq!(LogLevel::from_str("INF"), LogLevel::Unknown);
    assert_eq!(LogLevel::from_str("INFOS"), LogLevel::Unknown);
    assert_eq!(LogLevel::from_str("IN FO"), LogLevel::Unknown);
}

#[test]
fn level_names() {
    assert_eq!(LogLevel::Error.name(), "ERROR");
    assert_eq!(LogLevel::Warn.name(), "WARN");
    assert_eq!(LogLevel::Unknown.name(), "UNKNOWN");
}

#[test]
fn space_line_parses() {
    let e = LogEntry::parse("2024-01-01T00:00:00.000000Z INFO hello").unwrap();
    assert_eq!(e.timestamp, JAN_1_2024);
    assert_eq!(e.level, LogLevel::Info);
    assert_eq!(e.component, None);
    assert_eq!(e.message, "hello");
}

#[test]
fn space_line_message_keeps_inner_spacing() {
    let e = LogEntry::parse("2024-01-01T00:00:00.000001Z   warn   a  b | c ").unwrap();
    assert_eq!(e.timestamp, JAN_1_2024 + 1);
    assert_eq!(e.level, LogLevel::Warn);
    assert_eq!(e.message, "a  b | c ");
}

#[test]
fn pipe_line_parses() {
    let e = LogEntry::parse("2024-01-01T00:00:00.123Z | ERROR | it broke").unwrap();
    assert_eq!(e.timestamp, JAN_1_2024 + 123_000);
    assert_eq!(e.level, LogLevel::Error);
    assert_eq!(e.message, "it broke");
}

#[test]
fn pipe_line_without_spaces_and_without_zone() {
    let e = LogEntry::parse("2024-02-02T10:00:00.000|ERROR|boom").unwrap();
    assert_eq!(e.level, LogLevel::Error);
    assert_eq!(e.message, "boom");
    assert_eq!(e.timestamp, 1_706_868_000_000_000);
}

#[test]
fn pipe_line_with_space_separator() {
    let e = LogEntry::parse("2024-01-01 00:00:01.5000 | debug | x").unwrap();
    assert_eq!(e.timestamp, JAN_1_2024 + 1_500_000);
    assert_eq!(e.level, LogLevel::Debug);
    assert_eq!(e.message, "x");
}

#[test]
fn pipe_line_longest_level_wins() {
    // The level may hold a pipe; the longest level that leaves a message wins.
    let e = LogEntry::parse("2024-01-01T00:00:00.000Z|A|B|msg").unwrap();
    assert_eq!(e.level, LogLevel::Unknown);
    assert_eq!(e.message, "msg");
}

#[test]
fn pipe_line_all_blank_message_is_its_last_character() {
    let e = LogEntry::parse("2024-01-01T00:00:00.000Z|INFO|   ").unwrap();
    assert_eq!(e.message, " ");
}

#[test]
fn unrecognised_lines() {
    assert!(LogEntry::parse("").is_none());
    assert!(LogEntry::parse("  world").is_none());
    assert!(LogEntry::parse("2024-01-01T00:00:00.00Z | INFO | two fraction digits").is_none());
    assert!(LogEntry::parse("2024-01-01T00:00:00.1234567Z | INFO | seven").is_none());
    assert!(LogEntry::parse("2024-01-01T00:00:00.000Z | INFO |").is_none());
    assert!(LogEntry::parse("2024-01-01T00:00:00.000000Z INFO").is_none());
    assert!(LogEntry::parse("2024-01-01T00:00:00.000Z INFO no pipes, three digits").is_none());
}

#[test]
fn shaped_line_with_bad_date_gives_no_entry() {
    assert!(LogEntry::parse("2024-13-45T00:00:00.000000Z INFO bad month").is_none());
    assert!(LogEntry::parse("2024-02-30T00:00:00.000Z | INFO | bad day").is_none());
}

#[test]
fn parse_with_given_stamp() {
    let e = LogEntry::parse_with_stamp("2024-01-01T00:00:00.000Z | trace | m", Some(42)).unwrap();
    assert_eq!(e.timestamp, 42);
    assert_eq!(e.level, LogLevel::Trace);
    assert_eq!(e.message, "m");
    assert!(LogEntry::parse_with_stamp("2024-01-01T00:00:00.000Z | trace | m", None).is_none());
    assert!(LogEntry::parse_with_stamp("no shape", Some(42)).is_none());
}

#[test]
fn level_dotless_i_uppercases_to_i() {
    assert_eq!(LogLevel::from_str("\u{131}nfo"), LogLevel::Info);
    assert_eq!(LogLevel::from_str("WARN\u{131}NG"), LogLevel::Warn);
    assert_eq!(LogLevel::from_str("\u{130}NFO"), LogLevel::Unknown);
}
