//! Parsing of service log bundles.
//!
//! A bundle is a zip archive of log files, some gzip-compressed, some inside
//! nested zip archives one level deep. The library recognises log lines of
//! two shapes, folds continuation lines into the entry before them, groups
//! the entries by service (the directory that holds each file), sorts them by
//! time, and reports progress through a state that a consumer polls.

pub mod text;
pub mod level;
pub mod line;
pub mod line_laws;
pub mod log_file;
pub mod book;
pub mod progress;
pub mod archive;
pub mod walker;

pub use archive::{member_kind, process_member, MemberKind};
pub use book::{get_service_name, is_allowed, LogBook};
pub use level::LogLevel;
pub use line::{LineRead, LogEntry};
pub use log_file::process_log_file;
pub use progress::{Event, Info, Processed, ProgressState};
pub use walker::{process_archive, ArchiveWalker, WalkError};
