//! Looking at and changing files by hand.

use ensync::cli::manual::{
    cat_one, check_overwrite, check_removal, get_action, get_target, ls_one, mkdir_one,
    navigate, plan_get, put_name, put_one, rm_one, rmdir_one, stored_as, GetAction, LocalFile,
    REMOVE_LOGICAL_ROOT, REMOVE_PHYSICAL_ROOT,
};
use ensync::defs::{File, FileData, UNKNOWN_HASH};
use ensync::memory_replica::{DirHandle, MemoryReplica, Op};
use ensync::path;
use ensync::replica::{Replica, ReplicaDirectory};

fn names(p: &str) -> Vec<Vec<u8>> {
    path::split(p.as_bytes()).names
}

fn add(rep: &mut MemoryReplica, dir: &mut DirHandle, name: &str, fd: FileData) {
    let xfer = match &fd {
        FileData::Regular(_, _, _, h) => Some(*h),
        _ => None,
    };
    rep.create(dir, File(name.as_bytes(), &fd), xfer).unwrap();
}

/// a/b/file, a/link, top
fn replica() -> MemoryReplica {
    let mut rep = MemoryReplica::empty();
    let mut root = rep.root().unwrap();
    add(&mut rep, &mut root, "a", FileData::Directory(0o1755));
    add(&mut rep, &mut root, "top", FileData::Regular(0o4754, 12345, 1_000_000_000, [1; 32]));
    let mut a = rep.chdir(&root, b"a").unwrap();
    add(&mut rep, &mut a, "b", FileData::Directory(0o700));
    add(&mut rep, &mut a, "link", FileData::Symlink(b"b/file".to_vec()));
    let mut b = rep.chdir(&a, b"b").unwrap();
    add(&mut rep, &mut b, "file", FileData::Regular(0o600, 1, 0, [2; 32]));
    rep
}

#[test]
fn paths_are_taken_apart() {
    let n = |l: &[&str]| l.iter().map(|s| s.as_bytes().to_vec()).collect::<Vec<_>>();
    assert_eq!(n(&["a", "b"]), names("a//b/"));
    assert_eq!(n(&["a", "b"]), names("/a/./b/."));
    assert_eq!(n(&[".", "a"]), names("./a"));
    assert_eq!(n(&["..", "a"]), names("../a"));
    assert_eq!(n(&[]), names("/"));
    assert_eq!(b"/a".to_vec(), path::split(b"/a//b").directory);
    assert_eq!(b"/".to_vec(), path::split(b"/a").directory);
    assert_eq!(b"".to_vec(), path::split(b"a").directory);
    assert_eq!(Some(b"b".to_vec()), path::file_name(b"/a/b/"));
    assert_eq!(None, path::file_name(b"/a/.."));
    assert_eq!(None, path::file_name(b"/"));
    assert_eq!(None, path::file_name(b"."));
}

#[test]
fn navigating() {
    let mut rep = replica();
    let root = rep.root().unwrap();
    let (dir, tail) = navigate(&mut rep, root, &names("a/b"), true).unwrap();
    assert_eq!(b"/a/b", dir.full_path());
    assert_eq!(None, tail);
    let root = rep.root().unwrap();
    let (dir, tail) = navigate(&mut rep, root, &names("a/new"), true).unwrap();
    assert_eq!(b"/a", dir.full_path());
    assert_eq!(Some(b"new".to_vec()), tail);
    let root = rep.root().unwrap();
    let e = navigate(&mut rep, root, &names("a/new/er"), true).err().unwrap();
    assert_eq!("Path '/a/new' is not a directory", e.kind.message());
    let root = rep.root().unwrap();
    let e = navigate(&mut rep, root, &names("a/new"), false).err().unwrap();
    assert_eq!("Failed to enter '/a/new'", e.kind.message());
    assert_eq!(vec!["File not found".to_owned()], e.causes);
}

#[test]
fn listing() {
    let mut rep = replica();
    let root = rep.root().unwrap();
    assert_eq!(
        format!(
            "drwxr-xr-t  {:>12}  {:17}  a\n-rwsr-xr--  {:>12}  2001-09-09 01:46Z  top\n",
            0, "", 12345
        ),
        ls_one(&mut rep, root, &names(""), b"", false).unwrap()
    );
    let root = rep.root().unwrap();
    assert_eq!(
        "-rwsr-xr--    12k  2001-09-09 01:46Z  top\n",
        ls_one(&mut rep, root, &names("top"), b"top", true).unwrap()
    );
    let root = rep.root().unwrap();
    assert_eq!(
        format!("drwx------     0B  {:17}  b\nlrwsrwsrwt     6B  {:17}  link -> b/file\n", "", ""),
        ls_one(&mut rep, root, &names("a"), b"a", true).unwrap()
    );
    let root = rep.root().unwrap();
    assert_eq!(
        "a/x: File not found",
        ls_one(&mut rep, root, &names("a/x"), b"a/x", true).err().unwrap().kind.message()
    );
}

#[test]
fn making_and_removing_directories() {
    let mut rep = replica();
    let root = rep.root().unwrap();
    mkdir_one(&mut rep, root, &names("a"), Some(b"c"), b"a/c", 0o700, None).unwrap();
    let root = rep.root().unwrap();
    let e = mkdir_one(&mut rep, root, &names("a"), Some(b"c"), b"a/c", 0o700, None).unwrap_err();
    assert_eq!("Failed to create 'a/c'", e.kind.message());
    let root = rep.root().unwrap();
    let e = mkdir_one(&mut rep, root, &names(""), None, b"..", 0o700, None).unwrap_err();
    assert_eq!("'..' does not name a file", e.kind.message());
    let root = rep.root().unwrap();
    rmdir_one(&mut rep, root, &names("a/c"), b"a/c").unwrap();
    let root = rep.root().unwrap();
    let e = rmdir_one(&mut rep, root, &names("a/b"), b"a/b").unwrap_err();
    assert_eq!("Failed to remove 'a/b'", e.kind.message());
    let mut root = rep.root().unwrap();
    assert_eq!(2, rep.list(&mut root).unwrap().len());
}

#[test]
fn fetching() {
    let mut rep = replica();
    let mut cat = |dir: &str, name: Option<&[u8]>, shown: &str| {
        let root = rep.root().unwrap();
        cat_one(&mut rep, root, &names(dir), name, shown.as_bytes(), dir.as_bytes())
    };
    assert_eq!(Some([2; 32]), cat("a/b", Some(b"file"), "a/b/file").unwrap());
    assert_eq!("'a' is not a regular file", cat("", Some(b"a"), "a").unwrap_err().kind.message());
    assert_eq!("'x' does not exist", cat("", Some(b"x"), "x").unwrap_err().kind.message());
    assert_eq!("'' does not name a file", cat("", None, "").unwrap_err().kind.message());

    let list = || vec![
        (b"x".to_vec(), FileData::Directory(0o700)),
        (b"y".to_vec(), FileData::Special),
    ];
    let all = plan_get(b"/a", list(), None, b"out").unwrap();
    assert_eq!(2, all.len());
    assert_eq!(b"/a/x".to_vec(), all[0].source);
    assert_eq!(b"out/x".to_vec(), all[0].target);
    assert_eq!(b"out".to_vec(), all[0].temp_dir);
    let one = plan_get(b"/a", list(), Some(b"y"), b"dir/out").unwrap();
    assert_eq!(1, one.len());
    assert_eq!(b"dir/out".to_vec(), one[0].target);
    assert_eq!(b"dir".to_vec(), one[0].temp_dir);
    let e = plan_get(b"/a", list(), Some(b"z"), b"out").err().unwrap();
    assert_eq!("/a/z: File not found", e.kind.message());
    assert_eq!(b"out/file".to_vec(), get_target(b"a/b/file", b"out", true));
    assert_eq!(b"out".to_vec(), get_target(b"a/b/file", b"out", false));
    assert_eq!(b"out".to_vec(), get_target(b"/", b"out", true));
}

#[test]
fn storing() {
    let fd = FileData::Regular(0o600, 5, 7, [9; 32]);
    assert!(check_overwrite(b"/t", None, false).is_ok());
    assert!(check_overwrite(b"/t", Some(&FileData::Directory(0)), false).is_ok());
    assert!(check_overwrite(b"/t", Some(&fd), true).is_ok());
    assert_eq!(
        "Not overwriting '/t': Already exists",
        check_overwrite(b"/t", Some(&fd), false).unwrap_err().kind.message()
    );
    assert_eq!(
        Some(FileData::Regular(0o644, 3, 4, UNKNOWN_HASH)),
        stored_as(LocalFile::Regular(0o644, 3, 4))
    );
    assert_eq!(None, stored_as(LocalFile::Special));
    assert_eq!(b"given".to_vec(), put_name(b"/x/own", Some(b"given".to_vec())).unwrap());
    assert_eq!(b"own".to_vec(), put_name(b"/x/own", None).unwrap());
    assert!(put_name(b"/", None).is_err());

    let mut rep = replica();
    let mut root = rep.root().unwrap();
    put_one(&mut rep, &mut root, b"new", None, &fd, Some([9; 32]), b"/new").unwrap();
    let old = FileData::Regular(0o4754, 12345, 1_000_000_000, [1; 32]);
    put_one(&mut rep, &mut root, b"top", Some(&old), &fd, Some([9; 32]), b"/top").unwrap();
    let e = put_one(&mut rep, &mut root, b"a", None, &fd, Some([9; 32]), b"/a").unwrap_err();
    assert_eq!("Failed to create/update '/a'", e.kind.message());
    let list = rep.list(&mut root).unwrap();
    assert_eq!(3, list.len());
    assert!(list.contains(&(b"new".to_vec(), FileData::Regular(0o600, 5, 7, [9; 32]))));
    assert!(list.contains(&(b"top".to_vec(), FileData::Regular(0o600, 5, 7, [9; 32]))));
}

#[test]
fn removing() {
    assert!(check_removal(b"").is_err());
    assert!(check_removal(b"/").is_err());
    assert!(check_removal(b"//").is_err());
    assert!(check_removal(b"/a").is_ok());
    let mut rep = replica();
    let mut out = Vec::new();
    let root = rep.root().unwrap();
    let e = rm_one(&mut rep, root, b"a", false, true, &mut out).unwrap_err();
    assert_eq!("Not removing directory without `--recursive` flag.", e.kind.message());
    let root = rep.root().unwrap();
    let e = rm_one(&mut rep, root, b"a/x", false, false, &mut out).unwrap_err();
    assert_eq!("/a/x: File not found", e.kind.message());
    assert!(out.is_empty());
    let root = rep.root().unwrap();
    rm_one(&mut rep, root, b"top", false, true, &mut out).unwrap();
    assert_eq!(vec!["/top".to_owned()], out);
    out.clear();
    let root = rep.root().unwrap();
    rm_one(&mut rep, root, b"a", true, true, &mut out).unwrap();
    let mut root = rep.root().unwrap();
    assert!(rep.list(&mut root).unwrap().is_empty());
    out.sort();
    assert_eq!(vec!["/a", "/a/b", "/a/b/file", "/a/link"], out);
}

#[test]
fn what_is_fetched_depends_on_its_type() {
    let act = |fd: FileData, exists, force| get_action(b"d/t", &fd, exists, force);
    let reg = || FileData::Regular(0o640, 3, 9, [1; 32]);
    assert!(matches!(act(reg(), true, false), Ok(GetAction::Write(0o640, 9, false))));
    assert!(matches!(act(reg(), false, true), Ok(GetAction::Write(0o640, 9, true))));
    let dir = act(FileData::Directory(0o755), true, false);
    assert!(matches!(dir, Ok(GetAction::Descend(0o755))));
    let link = || FileData::Symlink(b"to".to_vec());
    let made = act(link(), false, false);
    assert!(matches!(made, Ok(GetAction::Link(to, false)) if to == b"to".to_vec()));
    assert!(matches!(act(link(), true, true), Ok(GetAction::Link(_, true))));
    let e = act(link(), true, false).err().unwrap();
    assert_eq!("Not overwriting 'd/t': Already exists", e.kind.message());
    assert!(matches!(act(FileData::Special, true, true), Ok(GetAction::Ignore)));
}

#[test]
fn parents_go_by_components() {
    let parent = |p: &str| path::parent(p.as_bytes()).map(|d| String::from_utf8(d).unwrap());
    for (p, d) in [
        ("a/b", "a"), ("a/b/", "a"), ("a//b", "a"), ("a/./b", "a"), ("/a", "/"), ("//a", "/"),
        ("a", ""), ("a/.", ""), ("./a", "."), (".", ""), ("a/..", "a"),
    ] {
        assert_eq!(Some(d.to_owned()), parent(p), "{}", p);
        let std = std::path::Path::new(p).parent().unwrap();
        assert_eq!(std.to_str().unwrap(), d);
    }
    for p in ["", "/", "/.", "//"] {
        assert_eq!(None, parent(p));
        assert!(std::path::Path::new(p).parent().is_none());
    }
}

#[test]
fn a_root_is_not_removed() {
    let mut rep = replica();
    let mut out = Vec::new();
    for (p, words) in [("", REMOVE_LOGICAL_ROOT), ("/", REMOVE_PHYSICAL_ROOT)] {
        let root = rep.root().unwrap();
        let e = rm_one(&mut rep, root, p.as_bytes(), true, true, &mut out).unwrap_err();
        assert_eq!(words, e.kind.message());
    }
    assert!(out.is_empty());
    let mut root = rep.root().unwrap();
    assert_eq!(2, rep.list(&mut root).unwrap().len());
}

#[test]
fn failures_are_not_taken_for_success() {
    let mut rep = replica();
    rep.add_fault(Op::List(b"".to_vec()));
    let mut out = Vec::new();
    let root = rep.root().unwrap();
    let e = ls_one(&mut rep, root, &names(""), b"", false).unwrap_err();
    assert_eq!("Failed to list ''", e.kind.message());
    let root = rep.root().unwrap();
    let e = rm_one(&mut rep, root, b"top", false, false, &mut out).unwrap_err();
    assert_eq!("Failed to list contents of ''", e.kind.message());
    rep.clear_faults();
    let mut root = rep.root().unwrap();
    assert_eq!(2, rep.list(&mut root).unwrap().len());
}

#[test]
fn the_place_of_a_path() {
    let place = |p: &str| {
        let path::Place { parent, names, name } = path::place_of(p.as_bytes());
        let text = |n: Vec<u8>| String::from_utf8(n).unwrap();
        (text(parent), names.into_iter().map(text).collect::<Vec<_>>(), name.map(text))
    };
    let all = |l: &[&str]| l.iter().map(|s| s.to_string()).collect::<Vec<_>>();
    assert_eq!(("a/b".into(), all(&["a", "b"]), Some("c".into())), place("a/b/c"));
    assert_eq!(("/".into(), all(&[]), Some("c".into())), place("/c/"));
    assert_eq!(("a".into(), all(&["a"]), None), place("a/.."));
    assert_eq!(("".into(), all(&[]), None), place("/"));
    assert_eq!(("".into(), all(&[]), Some("c".into())), place("c"));
}

#[test]
fn normal_paths_tell_names_apart() {
    let normal = |p: &str| String::from_utf8(path::normalise(p.as_bytes())).unwrap();
    for p in ["/r//d", "/r/d/", "//r/./d", "/r/d/."] {
        assert_eq!("/r/d", normal(p));
    }
    assert_eq!("r/d", normal("r//d"));
    assert_eq!("/", normal("//"));
    assert_eq!("", normal(""));
    assert_eq!("./a", normal(".//a"));
}
