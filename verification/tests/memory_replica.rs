//! The replica in memory.

use ensync::defs::{File, FileData, FileMode, HashId, UNKNOWN_HASH};
use ensync::errors::Result;
use ensync::memory_replica::{DirHandle, MemoryReplica};
use ensync::replica::{Condemn, Replica};

fn oss(s: &str) -> Vec<u8> {
    s.as_bytes().to_vec()
}

fn init() -> (MemoryReplica, DirHandle) {
    let mut replica = MemoryReplica::empty();
    let root = replica.root().unwrap();
    (replica, root)
}

#[test]
fn memory_replica_empty() {
    let (mut replica, mut root) = init();
    assert!(replica.is_dir_dirty(&root));
    assert!(replica.list(&mut root).unwrap().is_empty());
    assert!(replica.rename(&mut root, &oss("foo"), &oss("bar")).is_err());
    assert!(replica.remove(
        &mut root, File(&oss("foo"), &FileData::Special)).is_err());
    assert!(replica.update(&mut root, &oss("foo"),
                           &FileData::Special, &FileData::Directory(0o666),
                           Some(UNKNOWN_HASH)).is_err());
}

#[test]
fn synthetic_dir_looks_empty() {
    let (mut replica, mut root) = init();
    let mut synth = replica.synthdir(&mut root, &oss("foo"), 0o777);
    let list = replica.list(&mut synth).unwrap();
    assert!(list.is_empty());
}

#[test]
fn create_regular_file() {
    let (mut replica, mut root) = init();
    let returned = mkreg(&mut replica, &mut root, "foo", 0o777).unwrap();
    match returned {
        FileData::Regular(mode, _, _, hash) => {
            assert!(UNKNOWN_HASH != hash);
            assert_eq!(0o777, mode);
        },
        unexpected => panic!("Unexpected file data: {:?}", unexpected),
    }

    let list = replica.list(&mut root).unwrap();
    assert_eq!(1, list.len());
    let created = &list[0];
    assert_eq!(oss("foo"), created.0);
    match created.1 {
        FileData::Regular(mode, _, _, hash) => {
            assert!(UNKNOWN_HASH != hash);
            assert_eq!(0o777, mode);
        },
        ref unexpected => panic!("Unexpected file data: {:?}", unexpected),
    }
}

fn mkreg(replica: &mut MemoryReplica, dir: &mut DirHandle,
         name: &str, mode: FileMode) -> Result<FileData> {
    let hash = replica.gen_hash();
    replica.create(dir, File(&oss(name), &FileData::Regular(
        mode, 1, 0, UNKNOWN_HASH)), Some(hash))
}

#[test]
fn memory_replica_create_symlink() {
    let (mut replica, mut root) = init();
    let returned = mksym(&mut replica, &mut root, "foo", "bar").unwrap();
    match returned {
        FileData::Symlink(target) => assert_eq!(oss("bar"), target),
        unexpected => panic!("Unexpected file data: {:?}", unexpected),
    }

    let list = replica.list(&mut root).unwrap();
    assert_eq!(1, list.len());
    let created = &list[0];
    assert_eq!(oss("foo"), created.0);
    match created.1 {
        FileData::Symlink(ref target) => assert_eq!(oss("bar"), *target),
        ref unexpected => panic!("Unexpected file data: {:?}", unexpected),
    }
}

fn mksym(replica: &mut MemoryReplica, dir: &mut DirHandle,
         name: &str, target: &str) -> Result<FileData> {
    replica.create(dir, File(&oss(name), &FileData::Symlink(
        oss(target))), None)
}

#[test]
fn create_special() {
    let (mut replica, mut root) = init();
    let returned = mkspec(&mut replica, &mut root, "foo").unwrap();
    match returned {
        FileData::Special => (),
        unexpected => panic!("Unexpected file data: {:?}", unexpected),
    }

    let list = replica.list(&mut root).unwrap();
    assert_eq!(1, list.len());
    let created = &list[0];
    assert_eq!(oss("foo"), created.0);
    match created.1 {
        FileData::Special => (),
        ref unexpected => panic!("Unexpected file data: {:?}", unexpected),
    }
}

fn mkspec(replica: &mut MemoryReplica, dir: &mut DirHandle,
          name: &str) -> Result<FileData> {
    replica.create(dir, File(&oss(name), &FileData::Special), None)
}

#[test]
fn memory_replica_create_directory() {
    let (mut replica, mut root) = init();
    let returned = mkdir(&mut replica, &mut root, "foo", 0o777).unwrap();
    match returned {
        FileData::Directory(mode) => assert_eq!(0o777, mode),
        unexpected => panic!("Unexpected file data: {:?}", unexpected),
    }

    let list = replica.list(&mut root).unwrap();
    assert_eq!(1, list.len());
    let created = &list[0];
    assert_eq!(oss("foo"), created.0);
    match created.1 {
        FileData::Directory(mode) => assert_eq!(0o777, mode),
        ref unexpected => panic!("Unexpected file data: {:?}", unexpected),
    }

    let mut subdir = replica.chdir(&root, &created.0).unwrap();
    assert!(replica.list(&mut subdir).unwrap().is_empty());
}

fn mkdir(replica: &mut MemoryReplica, dir: &mut DirHandle,
         name: &str, mode: FileMode) -> Result<FileData> {
    replica.create(dir, File(&oss(name), &FileData::Directory(mode)),
                   None)
}

#[test]
fn create_directory_already_exists() {
    let (mut replica, mut root) = init();
    mkdir(&mut replica, &mut root, "foo", 0o777).unwrap();
    assert!(mkdir(&mut replica, &mut root, "foo", 0o777).is_err());
}

fn hashof(fd: FileData) -> HashId {
    match fd {
        FileData::Regular(_, _, _, hash) => hash,
        _ => panic!("Unexpected file data"),
    }
}

#[test]
fn remove_regular_file() {
    let (mut replica, mut root) = init();
    let hash = hashof(mkreg(&mut replica, &mut root, "foo", 0o777)
                      .unwrap());
    replica.remove(&mut root, File(
        &oss("foo"), &FileData::Regular(0o777, 99, 99, hash))).unwrap();

    assert!(replica.list(&mut root).unwrap().is_empty());
}

#[test]
fn remove_file_wrong_type() {
    let (mut replica, mut root) = init();
    mkreg(&mut replica, &mut root, "foo", 0o777).unwrap();
    assert!(replica.remove(&mut root, File(
        &oss("foo"), &FileData::Special)).is_err());
}

#[test]
fn remove_regular_file_mode_mismatch() {
    let (mut replica, mut root) = init();
    let hash = hashof(mkreg(&mut replica, &mut root, "foo", 0o777)
                      .unwrap());
    assert!(replica.remove(&mut root, File(
        &oss("foo"), &FileData::Regular(0o666, 99, 99, hash))).is_err());
}

#[test]
fn remove_regular_file_hash_mismatch() {
    let (mut replica, mut root) = init();
    mkreg(&mut replica, &mut root, "foo", 0o777).unwrap();
    let hash = replica.gen_hash();
    assert!(replica.remove(&mut root, File(
        &oss("foo"), &FileData::Regular(0o777, 99, 99, hash))).is_err());
}

#[test]
fn memory_replica_remove_symlink() {
    let (mut replica, mut root) = init();
    mksym(&mut replica, &mut root, "foo", "bar").unwrap();
    replica.remove(&mut root, File(
        &oss("foo"), &FileData::Symlink(oss("bar")))).unwrap();
    assert!(replica.list(&mut root).unwrap().is_empty());
}

#[test]
fn remove_symlink_target_mismatch() {
    let (mut replica, mut root) = init();
    mksym(&mut replica, &mut root, "foo", "xyzzy").unwrap();
    assert!(replica.remove(&mut root, File(
        &oss("foo"), &FileData::Symlink(oss("plugh")))).is_err());
}

#[test]
fn remove_special() {
    let (mut replica, mut root) = init();
    mkspec(&mut replica, &mut root, "foo").unwrap();
    replica.remove(&mut root, File(&oss("foo"), &FileData::Special))
        .unwrap();
    assert!(replica.list(&mut root).unwrap().is_empty());
}

#[test]
fn remove_directory() {
    let (mut replica, mut root) = init();
    mkdir(&mut replica, &mut root, "foo", 0o777).unwrap();

    let mut subdir = replica.chdir(&root, &oss("foo")).unwrap();
    assert!(replica.list(&mut subdir).unwrap().is_empty());

    replica.remove(&mut root, File(
        &oss("foo"), &FileData::Directory(0o777))).unwrap();
    assert!(replica.list(&mut root).unwrap().is_empty());

    assert!(replica.list(&mut subdir).is_err());
    assert!(replica.chdir(&root, &oss("foo")).is_err());
}

#[test]
fn remove_directory_mode_mismatch() {
    let (mut replica, mut root) = init();
    mkdir(&mut replica, &mut root, "foo", 0o777).unwrap();

    let mut subdir = replica.chdir(&root, &oss("foo")).unwrap();
    assert!(replica.list(&mut subdir).unwrap().is_empty());

    assert!(replica.remove(&mut root, File(
        &oss("foo"), &FileData::Directory(0o666))).is_err());
    assert_eq!(1, replica.list(&mut root).unwrap().len());
    assert!(replica.list(&mut subdir).unwrap().is_empty());
    replica.chdir(&root, &oss("foo")).unwrap();
}

#[test]
fn remove_directory_not_empty() {
    let (mut replica, mut root) = init();
    mkdir(&mut replica, &mut root, "foo", 0o777).unwrap();

    let mut subdir = replica.chdir(&root, &oss("foo")).unwrap();
    mkdir(&mut replica, &mut subdir, "bar", 0o777).unwrap();
    assert_eq!(1, replica.list(&mut subdir).unwrap().len());

    assert!(replica.remove(&mut root, File(
        &oss("foo"), &FileData::Directory(0o777))).is_err());
    assert_eq!(1, replica.list(&mut root).unwrap().len());
    assert_eq!(1, replica.list(&mut subdir).unwrap().len());
    replica.chdir(&root, &oss("foo")).unwrap();
    replica.chdir(&subdir, &oss("bar")).unwrap();
}

#[test]
fn rename_regular_file() {
    let (mut replica, mut root) = init();
    let data = mkreg(&mut replica, &mut root, "foo", 0o777)
        .unwrap().clone();
    replica.rename(&mut root, &oss("foo"), &oss("bar")).unwrap();

    let list = replica.list(&mut root).unwrap();
    assert_eq!(1, list.len());
    let file = &list[0];
    assert_eq!(oss("bar"), file.0);
    assert_eq!(data, file.1);
}

#[test]
fn rename_directory() {
    let (mut replica, mut root) = init();
    mkdir(&mut replica, &mut root, "foo", 0o777).unwrap();
    let mut subdir_foo = replica.chdir(&root, &oss("foo")).unwrap();
    mkspec(&mut replica, &mut subdir_foo, "xyzzy").unwrap();

    replica.rename(&mut root, &oss("foo"), &oss("bar")).unwrap();
    assert!(replica.list(&mut subdir_foo).is_err());

    let list = replica.list(&mut root).unwrap();
    assert_eq!(1, list.len());
    let file = &list[0];
    assert_eq!(oss("bar"), file.0);
    assert_eq!(FileData::Directory(0o777), file.1);

    let mut subdir_bar = replica.chdir(&root, &oss("bar")).unwrap();
    assert_eq!(1, replica.list(&mut subdir_bar).unwrap().len());
}

#[test]
fn rename_directory_conflict() {
    let (mut replica, mut root) = init();
    mkdir(&mut replica, &mut root, "foo", 0o777).unwrap();
    mkspec(&mut replica, &mut root, "bar").unwrap();

    let mut subdir = replica.chdir(&root, &oss("foo")).unwrap();
    assert!(replica.list(&mut subdir).unwrap().is_empty());

    assert!(replica.rename(&mut root, &oss("foo"), &oss("bar")).is_err());

    assert!(replica.list(&mut subdir).is_ok());
    assert!(replica.chdir(&root, &oss("foo")).is_ok());
    assert_eq!(2, replica.list(&mut root).unwrap().len());
}

#[test]
fn synthetic_tree_create() {
    let (mut replica, mut root) = init();
    let mut subdir_foo = replica.synthdir(&mut root, &oss("foo"), 0o777);
    let mut subdir_foo_bar = replica.synthdir(
        &mut subdir_foo, &oss("bar"), 0o666);
    let mut subdir_foo_bar_xyzzy = replica.synthdir(
        &mut subdir_foo_bar, &oss("xyzzy"), 0o444);
    let mut subdir_foo_bar_plugh = replica.synthdir(
        &mut subdir_foo_bar, &oss("plugh"), 0o333);

    mkspec(&mut replica, &mut subdir_foo_bar_xyzzy, "x").unwrap();
    mkspec(&mut replica, &mut subdir_foo_bar_plugh, "x").unwrap();

    let root_list = replica.list(&mut root).unwrap();
    assert_eq!(1, root_list.len());
    assert_eq!(oss("foo"), root_list[0].0);
    assert_eq!(FileData::Directory(0o777), root_list[0].1);

    let foo_list = replica.list(&mut subdir_foo).unwrap();
    assert_eq!(1, foo_list.len());
    assert_eq!(oss("bar"), foo_list[0].0);
    assert_eq!(FileData::Directory(0o666), foo_list[0].1);

    let bar_list = replica.list(&mut subdir_foo_bar).unwrap();
    assert_eq!(2, bar_list.len());
    assert_eq!(1, bar_list.iter().filter(|v| oss("xyzzy") == v.0).count());
    assert_eq!(1, bar_list.iter().filter(|v| oss("plugh") == v.0).count());

    let xyzzy_list = replica.list(&mut subdir_foo_bar_xyzzy).unwrap();
    assert_eq!(1, xyzzy_list.len());

    let plugh_list = replica.list(&mut subdir_foo_bar_plugh).unwrap();
    assert_eq!(1, plugh_list.len());
}

#[test]
fn synthetic_create_conflict() {
    let (mut replica, mut root) = init();
    let mut subdir = replica.synthdir(&mut root, &oss("foo"), 0o777);
    mkspec(&mut replica, &mut root, "foo").unwrap();
    assert!(mkspec(&mut replica, &mut subdir, "x").is_err());
}

#[test]
fn update_symlink_target() {
    let (mut replica, mut root) = init();
    mksym(&mut replica, &mut root, "foo", "xyzzy").unwrap();
    replica.update(&mut root, &oss("foo"),
                   &FileData::Symlink(oss("xyzzy")),
                   &FileData::Symlink(oss("plugh")),
                   None).unwrap();

    let list = replica.list(&mut root).unwrap();
    assert_eq!(1, list.len());
    assert_eq!(FileData::Symlink(oss("plugh")), list[0].1);
}

#[test]
fn update_symlink_target_mismatch() {
    let (mut replica, mut root) = init();
    mksym(&mut replica, &mut root, "foo", "bar").unwrap();
    assert!(replica.update(&mut root, &oss("foo"),
                           &FileData::Symlink(oss("xyzzy")),
                           &FileData::Symlink(oss("plugh")),
                           None).is_err());

    let list = replica.list(&mut root).unwrap();
    assert_eq!(1, list.len());
    assert_eq!(FileData::Symlink(oss("bar")), list[0].1);
}

#[test]
fn update_directory_mode() {
    let (mut replica, mut root) = init();
    mkdir(&mut replica, &mut root, "foo", 0o777).unwrap();
    let mut subdir = replica.chdir(&root, &oss("foo")).unwrap();
    mkspec(&mut replica, &mut subdir, "x").unwrap();

    replica.update(&mut root, &oss("foo"),
                   &FileData::Directory(0o777),
                   &FileData::Directory(0o700),
                   None).unwrap();

    replica.list(&mut subdir).unwrap();

    let list = replica.list(&mut root).unwrap();
    assert_eq!(1, list.len());
    assert_eq!(FileData::Directory(0o700), list[0].1);
}

#[test]
fn update_directory_mode_mismatch() {
    let (mut replica, mut root) = init();
    mkdir(&mut replica, &mut root, "foo", 0o777).unwrap();
    let mut subdir = replica.chdir(&root, &oss("foo")).unwrap();
    mkspec(&mut replica, &mut subdir, "x").unwrap();

    assert!(replica.update(&mut root, &oss("foo"),
                           &FileData::Directory(0o666),
                           &FileData::Directory(0o700),
                           None).is_err());

    replica.list(&mut subdir).unwrap();

    let list = replica.list(&mut root).unwrap();
    assert_eq!(1, list.len());
    assert_eq!(FileData::Directory(0o777), list[0].1);
}

#[test]
fn update_regular() {
    let (mut replica, mut root) = init();
    let old_hash = replica.gen_hash();
    let new_hash = replica.gen_hash();

    replica.create(
        &mut root, File(
            &oss("foo"), &FileData::Regular(0o666, 0, 0, UNKNOWN_HASH)),
        Some(old_hash)).unwrap();
    let returned = replica.update(
        &mut root, &oss("foo"),
        &FileData::Regular(0o666, 0, 0, old_hash),
        &FileData::Regular(0o777, 0, 0, UNKNOWN_HASH),
        Some(new_hash)).unwrap();

    assert_eq!(FileData::Regular(0o777, 0, 0, new_hash), returned);
}

#[test]
fn update_regular_content_mismatch() {
    let (mut replica, mut root) = init();
    let old_hash = replica.gen_hash();
    let new_hash = replica.gen_hash();
    let other_hash = replica.gen_hash();

    replica.create(
        &mut root, File(
            &oss("foo"), &FileData::Regular(0o666, 0, 0, UNKNOWN_HASH)),
        Some(other_hash)).unwrap();
    assert!(replica.update(
        &mut root, &oss("foo"),
        &FileData::Regular(0o666, 0, 0, old_hash),
        &FileData::Regular(0o777, 0, 0, UNKNOWN_HASH),
        Some(new_hash)).is_err());
}

#[test]
fn update_regular_mode_mismatch() {
    let (mut replica, mut root) = init();
    let old_hash = replica.gen_hash();
    let new_hash = replica.gen_hash();

    replica.create(
        &mut root, File(
            &oss("foo"), &FileData::Regular(0o666, 0, 0, UNKNOWN_HASH)),
        Some(old_hash)).unwrap();
    assert!(replica.update(
        &mut root, &oss("foo"),
        &FileData::Regular(0o600, 0, 0, old_hash),
        &FileData::Regular(0o777, 0, 0, UNKNOWN_HASH),
        Some(new_hash)).is_err());
}

#[test]
fn update_special_into_directory() {
    let (mut replica, mut root) = init();
    mkspec(&mut replica, &mut root, "foo").unwrap();
    replica.update(&mut root, &oss("foo"),
                   &FileData::Special,
                   &FileData::Directory(0o777),
                   None).unwrap();

    let list = replica.list(&mut root).unwrap();
    assert_eq!(1, list.len());
    assert_eq!(FileData::Directory(0o777), list[0].1);

    let mut subdir = replica.chdir(&root, &oss("foo")).unwrap();
    assert!(replica.list(&mut subdir).unwrap().is_empty());
}

#[test]
fn update_directory_into_special() {
    let (mut replica, mut root) = init();
    mkdir(&mut replica, &mut root, "foo", 0o777).unwrap();
    let mut subdir = replica.chdir(&root, &oss("foo")).unwrap();
    replica.update(&mut root, &oss("foo"),
                   &FileData::Directory(0o777),
                   &FileData::Special,
                   None).unwrap();

    let list = replica.list(&mut root).unwrap();
    assert_eq!(1, list.len());
    assert_eq!(FileData::Special, list[0].1);

    assert!(replica.list(&mut subdir).is_err());
    assert!(replica.chdir(&root, &oss("foo")).is_err());
}

#[test]
fn update_nonempty_directory_into_special() {
    let (mut replica, mut root) = init();
    mkdir(&mut replica, &mut root, "foo", 0o777).unwrap();
    let mut subdir = replica.chdir(&root, &oss("foo")).unwrap();
    mkspec(&mut replica, &mut subdir, "bar").unwrap();

    assert!(replica.update(&mut root, &oss("foo"),
                           &FileData::Directory(0o777),
                           &FileData::Special,
                           None).is_err());

    let list = replica.list(&mut root).unwrap();
    assert_eq!(1, list.len());
    assert_eq!(FileData::Directory(0o777), list[0].1);

    assert_eq!(1, replica.list(&mut subdir).unwrap().len());
    assert!(replica.chdir(&root, &oss("foo")).is_ok());
}

#[test]
fn condemn_single_file() {
    let (mut replica, mut root) = init();
    mkspec(&mut replica, &mut root, "foo").unwrap();
    mkspec(&mut replica, &mut root, "bar").unwrap();

    replica.condemn(&mut root, &oss("foo")).unwrap();
    assert!(replica.is_condemned(&mut root, &oss("foo")).unwrap());

    let condemned_list = replica.list(&mut root).unwrap();
    assert_eq!(1, condemned_list.len());
    assert_eq!(oss("bar"), condemned_list[0].0);

    replica.uncondemn(&mut root, &oss("foo")).unwrap();
    assert!(!replica.is_condemned(&mut root, &oss("foo")).unwrap());

    assert_eq!(1, replica.list(&mut root).unwrap().len());
}

#[test]
fn condemn_dir_tree() {
    let (mut replica, mut root) = init();
    mkdir(&mut replica, &mut root, "foo", 0o777).unwrap();
    let mut subdir_foo = replica.chdir(&root, &oss("foo")).unwrap();
    mkdir(&mut replica, &mut subdir_foo, "bar", 0o777).unwrap();
    let mut subdir_bar = replica.chdir(&subdir_foo, &oss("bar")).unwrap();
    mkspec(&mut replica, &mut subdir_bar, "xyzzy").unwrap();
    mkdir(&mut replica, &mut root, "fooo", 0o777).unwrap();

    replica.condemn(&mut root, &oss("foo")).unwrap();
    let condemned_list = replica.list(&mut root).unwrap();
    assert_eq!(1, condemned_list.len());
    assert_eq!(oss("fooo"), condemned_list[0].0);

    assert!(replica.list(&mut subdir_foo).is_err());
    assert!(replica.list(&mut subdir_bar).is_err());
    let mut subdir_fooo = replica.chdir(&root, &oss("fooo")).unwrap();
    assert!(replica.list(&mut subdir_fooo).is_ok());
}
