//! Dry runs.

use ensync::defs::{File, FileData};
use ensync::dry_run_replica::DryRunReplica;
use ensync::memory_replica::MemoryReplica;
use ensync::replica::{NullTransfer, Replica};

fn oss(s: &str) -> Vec<u8> {
    s.as_bytes().to_vec()
}

#[test]
fn mundane_requests_proxied_directly() {
    let mut mr = MemoryReplica::empty();
    {
        let mut root = mr.root().unwrap();
        let fd = FileData::Directory(0o600);
        mr.create(&mut root, File(&oss("subdir"), &fd),
                  MemoryReplica::null_transfer(&fd)).unwrap();

        let mut subdir = mr.chdir(&root, &oss("subdir")).unwrap();
        let fd = FileData::Symlink(oss("plugh"));
        mr.create(&mut subdir, File(&oss("sym"), &fd),
                  MemoryReplica::null_transfer(&fd)).unwrap();
    }

    let mut rep = DryRunReplica(mr);
    let mut root = rep.root().unwrap();
    let list = rep.list(&mut root).unwrap();
    assert_eq!(1, list.len());
    assert_eq!(oss("subdir"), list[0].0);

    let mut subdir = rep.chdir(&root, &oss("subdir")).unwrap();
    let list = rep.list(&mut subdir).unwrap();
    assert_eq!(1, list.len());
    assert_eq!(oss("sym"), list[0].0);

    assert!(rep.chdir(&root, &oss("nx")).is_err());
}

#[test]
fn mkdir_emulated() {
    let mut rep = DryRunReplica(MemoryReplica::empty());
    let mut root = rep.root().unwrap();
    rep.create(&mut root, File(&oss("subdir"),
                               &FileData::Directory(0o600)), ()).unwrap();

    let mut subdir = rep.chdir(&root, &oss("subdir")).unwrap();
    let list = rep.list(&mut subdir).unwrap();
    assert!(list.is_empty());
}

#[test]
fn dir_rename_emulated() {
    let mut mr = MemoryReplica::empty();
    {
        let mut root = mr.root().unwrap();
        let fd = FileData::Directory(0o600);
        mr.create(&mut root, File(&oss("subdir"), &fd),
                  MemoryReplica::null_transfer(&fd)).unwrap();

        let mut subdir = mr.chdir(&root, &oss("subdir")).unwrap();
        let fd = FileData::Symlink(oss("plugh"));
        mr.create(&mut subdir, File(&oss("sym"), &fd),
                  MemoryReplica::null_transfer(&fd)).unwrap();
    }

    let mut rep = DryRunReplica(mr);
    let mut root = rep.root().unwrap();
    let list = rep.list(&mut root).unwrap();
    assert_eq!(1, list.len());
    assert_eq!(oss("subdir"), list[0].0);
    rep.rename(&mut root, &oss("subdir"), &oss("xyzzy")).unwrap();

    let mut subdir = rep.chdir(&root, &oss("xyzzy")).unwrap();
    let list = rep.list(&mut subdir).unwrap();
    assert_eq!(1, list.len());
    assert_eq!(oss("sym"), list[0].0);
}

#[test]
fn nothing_is_written() {
    let mut mr = MemoryReplica::empty();
    let mut root = mr.root().unwrap();
    let fd = FileData::Directory(0o700);
    mr.create(&mut root, File(b"dir", &fd), None).unwrap();

    let mut rep = DryRunReplica(mr);
    let mut dry_root = rep.root().unwrap();
    let link = FileData::Symlink(oss("target"));
    rep.create(&mut dry_root, File(b"link", &link), ()).unwrap();
    rep.update(&mut dry_root, b"dir", &fd, &link, ()).unwrap();
    rep.remove(&mut dry_root, File(b"dir", &fd)).unwrap();

    let list = rep.0.list(&mut root).unwrap();
    assert_eq!(vec![(oss("dir"), fd)], list);
}
