//! What is said about a synchronisation.

use ensync::cli::sync_log::{
    format_error_log, get_error_basename, name_side, SpinState, StatusContents, StatusInfo,
    SyncLog, SyncLogger,
};
use ensync::defs::FileData;
use ensync::errors::{Error, ErrorKind};
use ensync::log::{
    ErrorOperation, Log, Logger, ReplicaSide, EDIT, ERROR, FATAL, INFO, WARN,
};
use ensync::reconcile::compute::{
    Conflict, ConflictingEdit, Reconciliation, ReconciliationSide,
};
use ensync::table::NameMap;

fn log() -> SyncLog {
    SyncLog {
        client_root: b"/home/u".to_vec(),
        include_ops_under_opped_directory: false,
        include_ancestors: false,
        colour: false,
        created_directories: NameMap::new(),
        recdel_directories: NameMap::new(),
        spin: None,
    }
}

const DIR: &[u8] = b"/home/u/d";

fn reg(mode: u32, size: u64, time: i64, hash: u8) -> FileData {
    FileData::Regular(mode, size, time, [hash; 32])
}

#[test]
fn changes_are_told() {
    let mut l = log();
    let fd = reg(0o644, 20000, 1_000_000_000, 1);
    assert_eq!(
        "\x1B[K[EDIT ] remote d/f: create\n        + regular file (mode 0644, size 19 kB, \
         modified 2001-09-09 01:46Z)\n",
        l.write_human_readable(EDIT, &Log::Create(ReplicaSide::Server, DIR, b"f", &fd), false)
    );
    let link = FileData::Symlink(b"target".to_vec());
    assert_eq!(
        "\x1B[K[EDIT ] local  d/f: update\n        - symlink to target\n        \
         + directory (mode 0755)\n",
        l.write_human_readable(
            EDIT,
            &Log::Update(ReplicaSide::Client, DIR, b"f", &link, &FileData::Directory(0o755)),
            false
        )
    );
    assert_eq!(
        "\x1B[K[EDIT ] local  d/f: rename\n        -> f~1\n",
        l.write_human_readable(EDIT, &Log::Rename(ReplicaSide::Client, DIR, b"f", b"f~1"), false)
    );
    assert_eq!(
        "\x1B[K[EDIT ] local  d/f: delete\n        - special file\n",
        l.write_human_readable(
            EDIT,
            &Log::Remove(ReplicaSide::Client, DIR, b"f", &FileData::Special),
            false
        )
    );
    l.colour = true;
    assert_eq!(
        "\x1B[K[\x1B[36mEDIT \x1B[0m] local  \x1B[1md\x1B[0m: remove directory\n",
        l.write_human_readable(EDIT, &Log::Rmdir(ReplicaSide::Client, DIR), false)
    );
}

#[test]
fn what_happens_under_new_or_doomed_directories_goes_without_saying() {
    let mut l = log();
    let fd = FileData::Directory(0o700);
    let create = Log::Create(ReplicaSide::Client, b"/home/u", b"d", &fd);
    assert!(!l.write_human_readable(EDIT, &create, false).is_empty());
    let inner = Log::Create(ReplicaSide::Client, DIR, b"x", &fd);
    assert!(l.write_human_readable(EDIT, &inner, false).is_empty());
    let doom = Log::RecursiveDelete(ReplicaSide::Client, b"/home/u/e");
    assert_eq!(
        "\x1B[K[EDIT ] local  e: delete recursively\n",
        l.write_human_readable(EDIT, &doom, false)
    );
    let gone = Log::Remove(ReplicaSide::Client, b"/home/u/e", b"y", &fd);
    assert!(l.write_human_readable(EDIT, &gone, false).is_empty());
    let below = Log::RecursiveDelete(ReplicaSide::Client, b"/home/u/e/f");
    assert!(l.write_human_readable(EDIT, &below, false).is_empty());
    l.include_ops_under_opped_directory = true;
    assert!(!l.write_human_readable(EDIT, &inner, false).is_empty());
    assert!(!l.write_human_readable(EDIT, &gone, false).is_empty());
}

#[test]
fn little_is_said_about_the_ancestor_and_after_interruptions() {
    let mut l = log();
    let fd = FileData::Special;
    let what = Log::Create(ReplicaSide::Ancestor, DIR, b"f", &fd);
    assert!(l.write_human_readable(EDIT, &what, false).is_empty());
    assert!(l.write_itemised(&what).is_empty());
    l.include_ancestors = true;
    assert!(l.write_human_readable(EDIT, &what, false).starts_with("\x1B[K[EDIT ] ancest d/f"));
    let e = Error::new(ErrorKind::ServerConnectionClosed);
    let died = Log::Error(ReplicaSide::Server, DIR, ErrorOperation::List, &e);
    assert!(!l.write_human_readable(FATAL, &died, false).is_empty());
    assert!(l.write_human_readable(FATAL, &died, true).is_empty());
    assert!(!l.write_human_readable(ERROR, &died, true).is_empty());
}

#[test]
fn progress_is_shown() {
    let mut l = log();
    l.spin = Some(SpinState::new());
    let fd = reg(0o644, 10, 0, 1);
    let create = Log::Create(ReplicaSide::Server, DIR, b"f", &fd);
    let text = l.write_human_readable(EDIT, &create, false);
    assert!(text.ends_with(
        "\n\x1B[K\\ in: +0 *0 -0 0 bytes, out: +1 *0 -0 10 bytes\r"
    ));
    let touched = reg(0o600, 10, 0, 1);
    let update = Log::Update(ReplicaSide::Server, DIR, b"f", &fd, &touched);
    let text = l.write_human_readable(EDIT, &update, false);
    assert!(text.ends_with("\x1B[K| in: +0 *0 -0 0 bytes, out: +1 *1 -0 10 bytes\r"));
}

#[test]
fn items() {
    let l = log();
    let old = reg(0o644, 1, 2, 1);
    let new = reg(0o600, 2, 2, 2);
    assert_eq!(
        "<fcs.p..... d/f\n",
        l.write_itemised(&Log::Update(ReplicaSide::Server, DIR, b"f", &old, &new))
    );
    assert_eq!(
        ">f+++++++++ d/f\n",
        l.write_itemised(&Log::Create(ReplicaSide::Client, DIR, b"f", &new))
    );
    assert_eq!(
        "*renamefrom d/a\n*renameto   d/b\n",
        l.write_itemised(&Log::Rename(ReplicaSide::Client, DIR, b"a", b"b"))
    );
    assert_eq!(
        "*delete     d/f\n",
        l.write_itemised(&Log::Remove(ReplicaSide::Client, DIR, b"f", &new))
    );
    assert_eq!(
        ".?          d/f\n",
        l.write_itemised(&Log::Inspect(DIR, b"f", Reconciliation::InSync, Conflict::NoConflict))
    );
    assert!(l
        .write_itemised(&Log::Inspect(
            DIR,
            b"f",
            Reconciliation::Use(ReconciliationSide::Client),
            Conflict::NoConflict
        ))
        .is_empty());
}

#[test]
fn status_records() {
    let l = log();
    let fd = reg(0o644, 1, 2, 1);
    let record =
        l.write_json_status(&Log::Create(ReplicaSide::Client, DIR, b"f", &fd)).unwrap();
    assert_eq!(StatusContents::SyncCreate, record.contents);
    let location = record.location.unwrap();
    assert_eq!("d/f", location.path);
    assert_eq!(Some(StatusInfo::File { mode: 0o644, size: 1, modified_time: 2 }), location.info);
    assert_eq!(
        StatusContents::SyncStarted,
        l.write_json_status(&Log::SyncStarted).unwrap().contents
    );
    assert!(l
        .write_json_status(&Log::Inspect(
            DIR,
            b"f",
            Reconciliation::InSync,
            Conflict::NoConflict
        ))
        .is_none());
    assert!(l
        .write_json_status(&Log::Inspect(
            DIR,
            b"f",
            Reconciliation::Irreconcilable,
            Conflict::EditEdit(ConflictingEdit::Content, ConflictingEdit::Content)
        ))
        .is_some());
}

#[test]
fn errors_are_told() {
    assert_eq!("local", name_side(ReplicaSide::Client));
    assert_eq!(Some(&b"x"[..]), get_error_basename(&ErrorOperation::Chdir(b"x")));
    assert_eq!(None, get_error_basename(&ErrorOperation::Rmdir));
    let e = Error::because("outer".to_owned(), Error::new(ErrorKind::NotFound));
    let text = format_error_log(&ErrorOperation::Create(b"x"), &e);
    assert!(text.contains("outer"));
    assert!(text.contains("File not found"));
}

#[test]
fn the_logger_goes_by_levels() {
    let mut logger = SyncLogger::new(log(), WARN, EDIT, true);
    let fd = reg(0o644, 1, 2, 1);
    logger.log(EDIT, &Log::Create(ReplicaSide::Client, DIR, b"f", &fd));
    assert!(logger.terminal.is_empty());
    assert_eq!(">f+++++++++ d/f\n", logger.items);
    assert_eq!(1, logger.records.len());
    logger.log(
        INFO,
        &Log::Inspect(DIR, b"f", Reconciliation::InSync, Conflict::NoConflict),
    );
    assert_eq!(">f+++++++++ d/f\n", logger.items);
    let e = Error::new(ErrorKind::NotFound);
    logger.log(ERROR, &Log::Error(ReplicaSide::Client, DIR, ErrorOperation::List, &e));
    assert!(logger.terminal.starts_with("\x1B[K[ERROR] local  d: "));
}

#[test]
fn directories_are_told_apart_by_their_names() {
    let mut l = log();
    let fd = FileData::Directory(0o700);
    let create = Log::Create(ReplicaSide::Client, b"/home/u/", b"d", &fd);
    assert!(!l.write_human_readable(EDIT, &create, false).is_empty());
    let inner = Log::Create(ReplicaSide::Client, b"/home//u/d/", b"x", &fd);
    assert!(l.write_human_readable(EDIT, &inner, false).is_empty());
    let doom = Log::RecursiveDelete(ReplicaSide::Client, b"/home/u//e");
    assert!(!l.write_human_readable(EDIT, &doom, false).is_empty());
    let gone = Log::Rmdir(ReplicaSide::Client, b"/home/u/e");
    assert!(l.write_human_readable(EDIT, &gone, false).is_empty());
    let other = Log::Rmdir(ReplicaSide::Client, b"home/u/e");
    assert!(!l.write_human_readable(EDIT, &other, false).is_empty());
}
