//! What is done with files, and what is stored about them.

use ensync::ancestor::dao::{delete, rename, update, DeleteStatus, FileEntry, RenameStatus, UpdateStatus};
use ensync::ancestor::replica::{
    as_entry, created, directory_removed, entered, from_entry, list, recreates, removed, renamed,
    updated, DirHandle as AncestorDir, RealDir, SynthDir,
};
use ensync::defs::{File, FileData, UNKNOWN_HASH};
use ensync::errors::{Error, ErrorKind};
use ensync::interrupt::{clear_notify, is_interrupted, notify_on_signal, Signals};
use ensync::posix::dao::{block_start, enclosing_dirs, prune_bounds, to_hashid, InodeStatus};
use ensync::posix::dir::DirHandle;
use ensync::posix::replica::{
    assert_sane_filename, check_create, check_matches, check_rename, hash_source, inspect,
    is_current, is_dirty, is_expected, is_scratch, is_still_clean, plan_prepare, plan_put, plan_remove,
    plan_update, react, scratch_name, shunt_step, temp_dir, EventAction, FileEvent, FileKind,
    HashSource, Inspection, Probe, PutPlan, RemovePlan, ShuntStep, UpdatePlan, Watched,
};
use ensync::reconcile::context::UnqueuedTasks;
use ensync::replica::{PrepareType, WatchHandle};

#[test]
fn insane_filenames_blocked() {
    for bad in [&b"."[..], b"..", b"a/b", b"a\x00b", b""] {
        assert_eq!(
            Err(ErrorKind::BadFilename(bad.to_vec())),
            assert_sane_filename(bad).map_err(|e| e.kind)
        );
    }
    assert!(assert_sane_filename(b"...").is_ok());
    assert!(assert_sane_filename(b"\xff\xfe").is_ok());
}

#[test]
fn the_hash_of_a_directory_depends_on_its_files_alone() {
    let a = FileData::Regular(0o644, 1, 2, [3; 32]);
    let b = FileData::Directory(0o755);
    let c = FileData::Symlink(b"x".to_vec());
    let mut one = DirHandle::root(b"/r".to_vec(), 0);
    one.toggle_file(File(b"a", &a));
    one.toggle_file(File(b"b", &b));
    one.toggle_file(File(b"c", &c));
    let mut two = DirHandle::root(b"/r".to_vec(), 0);
    two.toggle_file(File(b"c", &c));
    two.toggle_file(File(b"d", &FileData::Special));
    two.toggle_file(File(b"a", &a));
    assert!(one.hash() != two.hash());
    two.toggle_file(File(b"d", &FileData::Special));
    two.toggle_file(File(b"b", &b));
    assert_eq!(one.hash(), two.hash());
    one.toggle_file(File(b"a", &a));
    one.toggle_file(File(b"b", &b));
    one.toggle_file(File(b"c", &c));
    assert_eq!([0; 32], one.hash());
    two.reset_hash();
    assert_eq!([0; 32], two.hash());
    two.toggle_file(File(b"f", &FileData::Special));
    assert_eq!(
        tiny_keccak::sha3_256(&[b'f', 0, 3]),
        two.hash()
    );
}

#[test]
fn directories_in_memory() {
    let root = DirHandle::root(b"/r".to_vec(), 7);
    assert_eq!(b"/r/".to_vec(), root.full_path_with_trailing_slash());
    let mut sub = root.subdir(b"s", Some(0o700), 8);
    assert_eq!(b"/r/s", sub.path());
    assert_eq!(b"s", sub.name());
    assert_eq!(8, sub.dev());
    assert!(sub.is_synth());
    assert_eq!(Some(0o700), sub.synth_mode());
    sub.set_created();
    assert!(!sub.is_synth());
    assert_eq!(b"/r/s/x".to_vec(), sub.child(b"x"));
    assert_eq!(b"/".to_vec(), DirHandle::root(b"/".to_vec(), 0).full_path_with_trailing_slash());
}

#[test]
fn enclosing_directories_and_bounds() {
    assert_eq!(
        vec![b"/foo/bar/".to_vec(), b"/foo/".to_vec(), b"/".to_vec()],
        enclosing_dirs(b"/foo/bar/")
    );
    assert_eq!(vec![b"/".to_vec()], enclosing_dirs(b"/"));
    let (lower, upper) = prune_bounds(b"/foo");
    let under = |p: &[u8]| lower.as_slice() <= p && p < upper.as_slice();
    assert!(under(b"/foo/x"));
    assert!(under(b"/foo/\xff\xff"));
    assert!(!under(b"/foo"));
    assert!(!under(b"/foo.txt"));
    assert!(!under(b"/foo0"));
    assert_eq!(prune_bounds(b"/foo/"), prune_bounds(b"/foo"));
    assert_eq!(Some(20), block_start(5, 4));
    assert_eq!(None, block_start(-1, 4));
    assert_eq!(None, block_start(i64::MAX, i64::MAX));
    assert_eq!([5; 32], to_hashid(vec![5; 32]).unwrap());
    assert_eq!(ErrorKind::InvalidHash, to_hashid(vec![5; 31]).unwrap_err().kind);
}

#[test]
fn looking_at_files() {
    match inspect(b"/r/d", &FileKind::Directory, 0o40755) {
        Inspection::Known(fd) => assert_eq!(FileData::Directory(0o755), fd),
        _ => panic!("A directory is all there is to know"),
    }
    assert!(matches!(inspect(b"/r/l", &FileKind::Symlink, 0o777), Inspection::Target));
    assert!(matches!(inspect(b"/r/f", &FileKind::Regular, 0o100644), Inspection::Hash(0o644)));
    assert!(matches!(
        inspect(b"/r/internal.ensync", &FileKind::Directory, 0o40755),
        Inspection::Known(FileData::Special)
    ));
    assert!(matches!(
        inspect(b"/r/dev", &FileKind::Other, 0),
        Inspection::Known(FileData::Special)
    ));
    assert_eq!(HashSource::Known([1; 32]), hash_source(Some([1; 32]), true));
    assert_eq!(HashSource::Content, hash_source(None, true));
    assert_eq!(HashSource::Known(UNKNOWN_HASH), hash_source(None, false));
    let stat = InodeStatus { ino: 1, mtime: 2, size: 3 };
    assert!(is_current(&stat, &stat));
    assert!(!is_current(&stat, &InodeStatus { mtime: 3, ..stat }));
    let fd = FileData::Directory(0o700);
    assert!(check_matches(&fd, &fd).is_ok());
    assert_eq!(
        ErrorKind::ExpectationNotMatched,
        check_matches(&fd, &FileData::Special).unwrap_err().kind
    );
    assert!(is_expected(&[1; 32], Some([1; 32])));
    assert!(!is_expected(&[1; 32], None));
}

#[test]
fn changing_files() {
    let reg = |mode, time, hash: u8| FileData::Regular(mode, 0, time, [hash; 32]);
    assert_eq!(
        UpdatePlan::Adjust { mode: Some(0o600), mtime: None },
        plan_update(&reg(0o644, 1, 1), &reg(0o600, 1, 1))
    );
    assert_eq!(
        UpdatePlan::Adjust { mode: None, mtime: Some(2) },
        plan_update(&reg(0o644, 1, 1), &reg(0o644, 2, 1))
    );
    assert_eq!(
        UpdatePlan::Replace { shunt: false },
        plan_update(&reg(0o644, 1, 1), &reg(0o644, 1, 2))
    );
    let dir = FileData::Directory(0o755);
    assert_eq!(UpdatePlan::Replace { shunt: true }, plan_update(&dir, &reg(0o644, 1, 1)));
    assert_eq!(UpdatePlan::Replace { shunt: true }, plan_update(&reg(0o644, 1, 1), &dir));
    assert_eq!(
        UpdatePlan::Adjust { mode: Some(0o700), mtime: None },
        plan_update(&dir, &FileData::Directory(0o700))
    );
    let link = FileData::Symlink(b"x".to_vec());
    assert_eq!(UpdatePlan::Replace { shunt: false }, plan_update(&link, &reg(0o644, 1, 1)));
    assert!(matches!(plan_put(&dir, false), Ok(PutPlan::Directory(0o755))));
    assert!(matches!(plan_put(&link, false), Ok(PutPlan::Symlink(_))));
    assert!(matches!(plan_put(&reg(0o644, 9, 1), true), Ok(PutPlan::Regular(0o644, 9))));
    assert_eq!(
        ErrorKind::MissingXfer,
        plan_put(&reg(0o644, 9, 1), false).err().unwrap().kind
    );
    assert_eq!(RemovePlan::Hide, plan_remove(&reg(0, 0, 0)));
    assert_eq!(RemovePlan::RemoveDir, plan_remove(&dir));
    assert_eq!(RemovePlan::Unlink, plan_remove(&link));
    assert!(check_create(Probe::NotFound).is_ok());
    assert_eq!(ErrorKind::CreateExists, check_create(Probe::Exists).unwrap_err().kind);
    assert_eq!(ErrorKind::RenameDestExists, check_rename(Probe::Exists).unwrap_err().kind);
    let odd = || Probe::Failed(Error::new(ErrorKind::NotADirectory));
    assert_eq!(ErrorKind::NotADirectory, check_rename(odd()).unwrap_err().kind);
    assert_eq!(ErrorKind::NotADirectory, check_create(odd()).unwrap_err().kind);
}

#[test]
fn moving_files_out_of_the_way() {
    match shunt_step(b"/r/f", 0, Probe::Exists) {
        ShuntStep::Look(p) => assert_eq!(b"/r/f!1".to_vec(), p),
        _ => panic!("There has been no look yet"),
    }
    match shunt_step(b"/r/f", 9, Probe::Exists) {
        ShuntStep::Look(p) => assert_eq!(b"/r/f!10".to_vec(), p),
        _ => panic!("There are other places"),
    }
    assert!(matches!(shunt_step(b"/r/f", 9, Probe::NotFound), ShuntStep::Rename));
    match shunt_step(b"/r/f", 65535, Probe::Exists) {
        ShuntStep::Fail(e) => assert_eq!(ErrorKind::AllSuffixesInUse, e.kind),
        _ => panic!("There is no other place"),
    }
    assert_eq!(b"scratch-12".to_vec(), scratch_name(12));
    assert!(is_scratch(b"scratch-12"));
    assert!(!is_scratch(b"db.sqlite"));
    assert!(!is_scratch(b"scratch-\xff"));
    assert_eq!(b"/p".to_vec(), temp_dir(b"/p", 1, b"/r", 1));
    assert_eq!(b"/r".to_vec(), temp_dir(b"/p", 1, b"/r", 2));
}

#[test]
fn preparing_and_watching() {
    let plan = plan_prepare(PrepareType::Scrub, true);
    assert!(plan.purge_hash_cache && plan.set_all_dirs_dirty && !plan.only_noticed);
    let plan = plan_prepare(PrepareType::Clean, true);
    assert!(!plan.purge_hash_cache && plan.set_all_dirs_dirty);
    let plan = plan_prepare(PrepareType::Watched, true);
    assert!(plan.only_noticed && !plan.set_all_dirs_dirty);
    assert!(!plan_prepare(PrepareType::Watched, false).only_noticed);
    assert!(is_still_clean(&[1; 32], Some([1; 32])));
    assert!(!is_still_clean(&[1; 32], Some([2; 32])));
    assert!(!is_still_clean(&[1; 32], None));

    let mut watched = Watched::new();
    assert!(watched.is_new(7));
    watched.watch(7, b"/r/".to_vec());
    watched.watch(8, b"/r/d/".to_vec());
    assert!(!watched.is_new(7));
    watched.touch(8);
    watched.touch(99);
    assert_eq!(vec![b"/r/d/".to_vec()], watched.take_dirty());
    assert!(watched.take_dirty().is_empty());

    match react(&FileEvent::Renamed(b"/r/a".to_vec(), b"/s/b".to_vec())) {
        EventAction::Touch(dirs) => assert_eq!(vec![b"/r".to_vec(), b"/s".to_vec()], dirs),
        _ => panic!("Both directories have changed"),
    }
    assert!(matches!(react(&FileEvent::Rescan), EventAction::ContextLost));
    match react(&FileEvent::Failed(None, "why".to_owned())) {
        EventAction::Tell(s) => {
            assert_eq!("Error monitoring '<unknown>' for changes: why", s)
        }
        _ => panic!("The user is to be told"),
    }
}

#[test]
fn watch_handles() {
    let mut handle = WatchHandle::default();
    assert!(!handle.wait(false));
    assert!(handle.check_dirty());
    assert!(!handle.check_dirty());
    assert!(handle.check_context_lost());
    assert!(!handle.check_context_lost());
    assert!(handle.wait(false));
    assert!(!handle.wait(true));
    handle.notify();
    assert!(handle.wait(false));
    handle.set_dirty();
    assert!(!handle.wait(false));
    assert!(!handle.check_context_lost());
    handle.set_context_lost();
    assert!(handle.check_context_lost() && handle.check_dirty());
}

#[test]
fn signals() {
    let mut signals = Signals::new();
    assert!(!is_interrupted(&signals));
    assert!(!clear_notify(&mut signals));
    notify_on_signal(&mut signals);
    assert!(clear_notify(&mut signals));
    notify_on_signal(&mut signals);
    assert!(signals.interrupt());
    assert!(is_interrupted(&signals));
    assert!(!clear_notify(&mut signals));
}

#[test]
fn unqueued_tasks() {
    let mut tasks = UnqueuedTasks::new();
    let a = tasks.put("a");
    let b = tasks.put("b");
    assert!(a != b);
    assert_eq!("a", tasks.get(a));
    let c = tasks.put("c");
    assert!(b != c);
    assert_eq!("b", tasks.get(b));
    assert_eq!("c", tasks.get(c));
}

#[test]
fn what_is_stored_can_be_read() {
    let files = [
        FileData::Regular(0o644, 0, 1234, [7; 32]),
        FileData::Directory(0o755),
        FileData::Symlink(b"target".to_vec()),
    ];
    let mut entries = Vec::new();
    for fd in &files {
        entries.push(as_entry(&File(b"name", fd), 3));
    }
    assert_eq!(3, entries[0].parent);
    assert_eq!(b"target".to_vec(), entries[2].content);
    let read = list(&entries, true).unwrap();
    for (i, fd) in files.iter().enumerate() {
        assert_eq!((b"name".to_vec(), fd.clone()), read[i]);
    }
    assert_eq!(ErrorKind::NotFound, list(&vec![], false).unwrap_err().kind);
}

fn entry(name: &[u8], typ: i64, content: &[u8]) -> FileEntry {
    FileEntry {
        id: 1,
        parent: 0,
        name: name.to_vec(),
        typ,
        mode: 0o644,
        mtime: 0,
        content: content.to_vec(),
    }
}

#[test]
fn flawed_entries_are_noticed() {
    let nul = || entry(b"a\0b", 1, b"");
    let hash = || entry(b"a", 0, b"short");
    let odd = |t| entry(b"a", t, b"");
    assert!(from_entry(&entry(b"a", 2, b"x\0")).is_err());
    assert_eq!(ErrorKind::NulInString, list(&vec![nul()], true).unwrap_err().kind);
    assert_eq!(ErrorKind::InvalidHash, list(&vec![hash(), nul()], true).unwrap_err().kind);
    assert_eq!(
        ErrorKind::InvalidAncestorFileType(9),
        list(&vec![odd(8), nul(), odd(9), hash()], true).unwrap_err().kind
    );
}

#[test]
fn ancestor_operations() {
    assert_eq!(RenameStatus::SourceNotFound, rename(false, true));
    assert_eq!(RenameStatus::DestExists, rename(true, true));
    assert_eq!(RenameStatus::Success, rename(true, false));
    assert_eq!(UpdateStatus::Success, update(Some(1), true));
    assert_eq!(UpdateStatus::NotMatched, update(None, true));
    assert_eq!(UpdateStatus::NotFound, update(None, false));
    assert_eq!(DeleteStatus::DirNotEmpty, delete(Some(1), true, true));
    assert_eq!(DeleteStatus::Success, delete(Some(1), false, true));
    assert_eq!(DeleteStatus::NotMatched, delete(None, false, true));
    assert_eq!(DeleteStatus::NotFound, delete(None, true, false));
    assert_eq!(ErrorKind::NotFound, renamed(RenameStatus::SourceNotFound).unwrap_err().kind);
    assert_eq!(ErrorKind::RenameDestExists, renamed(RenameStatus::DestExists).unwrap_err().kind);
    assert_eq!(ErrorKind::DirNotEmpty, removed(DeleteStatus::DirNotEmpty).unwrap_err().kind);
    assert_eq!(
        ErrorKind::ExpectationNotMatched,
        removed(DeleteStatus::NotMatched).unwrap_err().kind
    );
    assert!(directory_removed(DeleteStatus::NotFound).is_ok());
    assert!(directory_removed(DeleteStatus::DirNotEmpty).is_err());
    assert!(recreates(&FileData::Directory(0), &FileData::Special));
    assert!(!recreates(&FileData::Directory(0), &FileData::Directory(1)));
    assert_eq!(
        ErrorKind::CreateExists,
        created(None, FileData::Directory(0)).unwrap_err().kind
    );
    assert_eq!(FileData::Directory(0), updated(UpdateStatus::Success, FileData::Directory(0)).unwrap());
    assert_eq!(
        ErrorKind::NotFound,
        updated(UpdateStatus::NotFound, FileData::Special).unwrap_err().kind
    );
    assert_eq!(AncestorDir::Real(RealDir(1)), entered(&Some(entry(b"d", 1, b""))).unwrap());
    assert_eq!(ErrorKind::NotADirectory, entered(&Some(entry(b"f", 2, b""))).unwrap_err().kind);
    assert_eq!(ErrorKind::NotFound, entered(&None).unwrap_err().kind);
    let mut synth =
        AncestorDir::Synth(SynthDir { id: None, name: b"d".to_vec(), mode: 0o700 });
    assert!(synth.is_deferred());
    assert_eq!(ErrorKind::NotFound, synth.get_h().unwrap_err().kind);
    assert_eq!(ErrorKind::CreateExists, synth.set_created(None).unwrap_err().kind);
    assert_eq!(5, synth.set_created(Some(5)).unwrap());
    assert_eq!(5, synth.get_h().unwrap());
    assert!(!synth.is_deferred());
}

#[test]
fn what_cannot_be_looked_up_is_dirty() {
    assert!(is_dirty(Ok(false)));
    assert!(!is_dirty(Ok(true)));
    assert!(is_dirty(Err(Error::new(ErrorKind::NotFound))));
}
