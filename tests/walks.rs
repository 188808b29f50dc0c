use logbook::{get_service_name, ArchiveWalker, Event, Info, LogLevel, Processed, ProgressState, WalkError};
use std::io::{Cursor, Write};
use zip::write::SimpleFileOptions;

fn zip_of(members: &[(&str, &[u8])]) -> Vec<u8> {
    let mut w = zip::ZipWriter::new(Cursor::new(Vec::new()));
    for (name, data) in members {
        if name.ends_with('/') {
            w.add_directory(*name, SimpleFileOptions::default()).unwrap();
        } else {
            w.start_file(*name, SimpleFileOptions::default()).unwrap();
            w.write_all(data).unwrap();
        }
    }
    w.finish().unwrap().into_inner()
}

fn gzip_of(data: &[u8]) -> Vec<u8> {
    let mut enc = flate2::write::GzEncoder::new(Vec::new(), flate2::Compression::default());
    enc.write_all(data).unwrap();
    enc.finish().unwrap()
}

fn walk(data: Vec<u8>, allowed: Vec<String>) -> (Vec<Info>, Processed) {
    let mut w = ArchiveWalker::new(data, allowed).unwrap();
    let mut snapshots = Vec::new();
    while let Some(info) = w.step() {
        snapshots.push(info);
    }
    (snapshots, w.finish(7))
}

fn percent(i: &Info) -> f64 {
    100.0 * (i.index as f64 + i.inner_index as f64 / i.inner_total as f64) / i.total as f64
}

#[test]
fn one_log_member_with_continuation() {
    let data = zip_of(&[(
        "serviceA/app.log",
        b"2024-01-01T00:00:00.000000Z INFO hello\n  world",
    )]);
    let (_, done) = walk(data, vec![]);
    let entries = done.logbook.get(&"serviceA".to_string()).unwrap();
    assert_eq!(entries.len(), 1);
    assert_eq!(entries[0].timestamp, 1_704_067_200_000_000);
    assert_eq!(entries[0].level, LogLevel::Info);
    assert_eq!(entries[0].message, "hello\n  world");
}

#[test]
fn gzip_member() {
    let data = zip_of(&[("serviceB/log.gz", &gzip_of(b"2024-02-02T10:00:00.000|ERROR|boom"))]);
    let (_, done) = walk(data, vec![]);
    assert_eq!(done.logbook.len(), 1);
    let entries = done.logbook.get(&"serviceB".to_string()).unwrap();
    assert_eq!(entries.len(), 1);
    assert_eq!(entries[0].level, LogLevel::Error);
    assert_eq!(entries[0].message, "boom");
}

#[test]
fn allow_list_keeps_other_services_out() {
    let data = zip_of(&[
        ("serviceA/x.log", b"2024-01-01T00:00:00.000Z|INFO|a"),
        ("serviceB/y.log", b"2024-01-01T00:00:00.000Z|INFO|b"),
    ]);
    let (_, done) = walk(data, vec!["serviceA".to_string()]);
    assert_eq!(done.logbook.names(), vec!["serviceA".to_string()]);
    assert!(done.logbook.get(&"serviceB".to_string()).is_none());
}

#[test]
fn empty_allow_list_lets_all_through() {
    let data = zip_of(&[
        ("serviceA/x.log", b"2024-01-01T00:00:00.000Z|INFO|a"),
        ("serviceB/y.log", b"2024-01-01T00:00:00.000Z|INFO|b"),
    ]);
    let (_, done) = walk(data, vec![]);
    assert_eq!(done.logbook.len(), 2);
}

#[test]
fn nested_archive_sorted_by_time() {
    let inner = zip_of(&[(
        "serviceC/deep.log",
        b"2024-01-01T00:00:05.000Z|INFO|later\n2024-01-01T00:00:01.000Z|INFO|earlier\n",
    )]);
    let data = zip_of(&[("serviceC/inner.zip", &inner)]);
    let (snapshots, done) = walk(data, vec![]);
    let entries = done.logbook.get(&"serviceC".to_string()).unwrap();
    assert_eq!(entries.len(), 2);
    assert_eq!(entries[0].message, "earlier");
    assert_eq!(entries[1].message, "later");
    assert!(entries[0].timestamp <= entries[1].timestamp);
    assert_eq!(snapshots.len(), 1);
    assert_eq!(snapshots[0].file, "serviceC/deep.log");
}

#[test]
fn services_split_over_files_are_merged_and_sorted_stably() {
    let data = zip_of(&[
        ("svc/b.log", b"2024-01-01T00:00:02.000Z|INFO|b2\n2024-01-01T00:00:01.000Z|INFO|tie-first"),
        ("svc/a.log", b"2024-01-01T00:00:01.000Z|INFO|tie-second\n2024-01-01T00:00:00.000Z|INFO|a0"),
    ]);
    let (_, done) = walk(data, vec![]);
    let entries = done.logbook.get(&"svc".to_string()).unwrap();
    let messages: Vec<&str> = entries.iter().map(|e| e.message.as_str()).collect();
    assert_eq!(messages, vec!["a0", "tie-first", "tie-second", "b2"]);
}

#[test]
fn progress_never_goes_back() {
    let inner = zip_of(&[
        ("n/one.log", b"2024-01-01T00:00:00.000Z|INFO|1"),
        ("n/two.log", b"2024-01-01T00:00:00.000Z|INFO|2"),
        ("n/three.log", b"2024-01-01T00:00:00.000Z|INFO|3"),
    ]);
    let data = zip_of(&[
        ("a/x.log", b"2024-01-01T00:00:00.000Z|INFO|x"),
        ("n/inner.zip", &inner),
        ("b/y.log", b"2024-01-01T00:00:00.000Z|INFO|y"),
    ]);
    let (snapshots, done) = walk(data, vec![]);
    assert_eq!(snapshots.len(), 5);
    let percents: Vec<f64> = snapshots.iter().map(percent).collect();
    for w in percents.windows(2) {
        assert!(w[0] <= w[1]);
    }
    assert_eq!(percents[0], 0.0);
    assert!((percents[2] - 100.0 * (1.0 + 1.0 / 3.0) / 3.0).abs() < 1e-9);
    assert!(percents.iter().all(|p| *p >= 0.0 && *p <= 100.0));
    assert_eq!(snapshots[4].size, done.size);
    assert_eq!(done.size, 31 * 5);
    assert_eq!(done.duration_micros, 7);
}

#[test]
fn empty_member_gets_a_snapshot_but_no_bucket() {
    let data = zip_of(&[("quiet/empty.log", b""), ("quiet/notes.txt", b"text")]);
    let (snapshots, done) = walk(data, vec![]);
    assert_eq!(snapshots.len(), 1);
    assert_eq!(snapshots[0].service_name, "quiet");
    assert_eq!(done.logbook.len(), 0);
}

#[test]
fn directories_and_other_suffixes_are_skipped() {
    let data = zip_of(&[
        ("dir/", b""),
        ("dir/readme.txt", b"2024-01-01T00:00:00.000Z|INFO|no"),
        ("dir/app.log", b"2024-01-01T00:00:00.000Z|INFO|yes"),
    ]);
    let (snapshots, done) = walk(data, vec![]);
    assert_eq!(snapshots.len(), 1);
    assert_eq!(snapshots[0].index, 2);
    assert_eq!(done.logbook.get(&"dir".to_string()).unwrap().len(), 1);
}

#[test]
fn broken_nested_archive_is_skipped() {
    let data = zip_of(&[
        ("s/broken.zip", b"not a zip at all"),
        ("s/ok.log", b"2024-01-01T00:00:00.000Z|INFO|fine"),
    ]);
    let (snapshots, done) = walk(data, vec![]);
    assert_eq!(snapshots.len(), 1);
    assert_eq!(done.logbook.get(&"s".to_string()).unwrap().len(), 1);
}

#[test]
fn top_level_not_an_archive() {
    assert!(matches!(
        ArchiveWalker::new(b"garbage".to_vec(), vec![]),
        Err(WalkError::NotAnArchive)
    ));
}

#[test]
fn member_at_root_is_its_own_service() {
    let data = zip_of(&[("root.log", b"2024-01-01T00:00:00.000Z|INFO|r")]);
    let (_, done) = walk(data, vec![]);
    assert!(done.logbook.get(&"root.log".to_string()).is_some());
}

#[test]
fn service_names() {
    assert_eq!(get_service_name("serviceA/app.log"), "serviceA");
    assert_eq!(get_service_name("a/b/c/file.gz"), "c");
    assert_eq!(get_service_name("file.log"), "file.log");
    assert_eq!(get_service_name("/file.log"), "");
    assert_eq!(get_service_name(""), "");
}

#[test]
fn done_state_stays() {
    let data = zip_of(&[("s/a.log", b"2024-01-01T00:00:00.000Z|INFO|a")]);
    let mut state = ProgressState::new();
    assert!(state.info().is_none());
    state.apply(Event::Start(String::new()));
    assert_eq!(state.info().unwrap().total, 0);
    let mut w = ArchiveWalker::new(data.clone(), vec![]).unwrap();
    while let Some(info) = w.step() {
        state.apply(Event::Progress(info));
    }
    assert_eq!(state.info().unwrap().file, "s/a.log");
    state.apply(Event::Finish(w.finish(1)));
    assert_eq!(state.processed().unwrap().duration_micros, 1);
    let (_, other) = walk(data, vec![]);
    state.apply(Event::Finish(other));
    state.apply(Event::Start(String::new()));
    state.apply(Event::Progress(Info::start(String::new())));
    assert!(state.info().is_none());
    assert_eq!(state.processed().unwrap().duration_micros, 1);
    assert_eq!(state.logs().unwrap().len(), 1);
}

#[test]
fn start_only_acts_on_idle() {
    let mut state = ProgressState::new();
    let mut info = Info::start(String::new());
    info.total = 3;
    state.apply(Event::Progress(info));
    state.apply(Event::Start(String::new()));
    assert_eq!(state.info().unwrap().total, 3);
}

#[test]
fn whole_archive_at_once() {
    let data = zip_of(&[
        ("serviceA/x.log", b"2024-01-01T00:00:01.000Z|INFO|a1\n2024-01-01T00:00:00.000Z|INFO|a0"),
        ("serviceB/y.log", b"2024-01-01T00:00:00.000Z|INFO|b"),
    ]);
    let (book, size) = logbook::process_archive(data, vec!["serviceA".to_string()]).unwrap();
    assert_eq!(book.names(), vec!["serviceA".to_string()]);
    let entries = book.get(&"serviceA".to_string()).unwrap();
    assert_eq!(entries[0].message, "a0");
    assert_eq!(entries[1].message, "a1");
    assert_eq!(size, 32 + 32);
    assert!(matches!(
        logbook::process_archive(Vec::new(), vec![]),
        Err(WalkError::NotAnArchive)
    ));
}

#[test]
fn start_snapshot_names_the_file() {
    let mut state = ProgressState::new();
    state.apply(Event::Start("serviceA/app.log".to_string()));
    let info = state.info().unwrap();
    assert_eq!(info.file, "serviceA/app.log");
    assert_eq!(info.service_name, "serviceA");
    assert_eq!(info.size, 0);
    assert_eq!(info.index, 0);
    let plain = Info::start("top".to_string());
    assert_eq!(plain.service_name, "top");
}

#[test]
fn snapshots_point_at_their_members() {
    let inner = zip_of(&[
        ("n/one.log", b"2024-01-01T00:00:00.000Z|INFO|1"),
        ("n/two.log", b"2024-01-01T00:00:00.000Z|INFO|2"),
    ]);
    let data = zip_of(&[("a/x.log", b"2024-01-01T00:00:00.000Z|INFO|x"), ("n/inner.zip", &inner)]);
    let (snapshots, _) = walk(data, vec![]);
    let seen: Vec<(usize, usize, usize, usize, &str, &str, usize)> = snapshots
        .iter()
        .map(|i| {
            (i.index, i.inner_index, i.inner_total, i.total, i.file.as_str(), i.service_name.as_str(), i.size)
        })
        .collect();
    assert_eq!(
        seen,
        vec![
            (0, 0, 1, 2, "a/x.log", "a", 31),
            (1, 0, 2, 2, "n/one.log", "n", 62),
            (1, 1, 2, 2, "n/two.log", "n", 93),
        ]
    );
}

#[test]
fn skipped_members_change_neither_book_nor_size() {
    let members: Vec<(&str, &[u8])> = vec![
        ("s/a.log", b"2024-01-01T00:00:01.000Z|INFO|a\n2024-01-01T00:00:00.000Z|INFO|b"),
    ];
    let mut more = members.clone();
    let nested_zip = zip_of(&[("s/deeper.zip", b"x"), ("s/c.txt", b"2024-01-01T00:00:00.000Z|INFO|c")]);
    more.push(("s/dir/", b""));
    more.push(("s/notes.txt", b"2024-01-01T00:00:00.000Z|INFO|t"));
    more.push(("s/bad.zip", b"not a zip"));
    more.push(("s/inner.zip", &nested_zip));
    let (book1, size1) = logbook::process_archive(zip_of(&members), vec![]).unwrap();
    let (book2, size2) = logbook::process_archive(zip_of(&more), vec![]).unwrap();
    assert_eq!(size1, size2);
    assert_eq!(book1.names(), book2.names());
    let m1: Vec<String> = book1.get(&"s".to_string()).unwrap().iter().map(|e| e.message.clone()).collect();
    let m2: Vec<String> = book2.get(&"s".to_string()).unwrap().iter().map(|e| e.message.clone()).collect();
    assert_eq!(m1, m2);
}
