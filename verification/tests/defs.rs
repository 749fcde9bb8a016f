//! What is known of files.

use ensync::defs::{DisplayHash, FileData};

fn oss(s: &str) -> Vec<u8> {
    s.as_bytes().to_vec()
}

#[test]
fn file_newer_than() {
    let older = FileData::Regular(0o777, 0, 42, [1; 32]);
    let newer = FileData::Regular(0o666, 0, 56, [2; 32]);

    assert!(newer.newer_than(&older));
    assert!(!older.newer_than(&newer));
    assert!(!FileData::Special.newer_than(&older));
    assert!(!newer.newer_than(&FileData::Special));
}

#[test]
fn file_matches() {
    let f1 = FileData::Regular(0o777, 0, 42, [1; 32]);
    let f2 = FileData::Regular(0o666, 0, 56, [1; 32]);
    let f3 = FileData::Regular(0o777, 0, 42, [2; 32]);
    let f4 = FileData::Regular(0o777, 0, 42, [1; 32]);
    let d1 = FileData::Directory(0o777);
    let d2 = FileData::Directory(0o666);
    let s1 = FileData::Symlink(oss("foo"));
    let s2 = FileData::Symlink(oss("bar"));
    let s3 = FileData::Symlink(oss("foo"));
    let special = FileData::Special;

    assert!(f1.matches(&f1));
    assert!(f1.matches(&f4));
    assert!(!f1.matches(&f2));
    assert!(!f1.matches(&f3));
    assert!(!f1.matches(&d1));
    assert!(!f1.matches(&s1));
    assert!(!f1.matches(&special));

    assert!(d1.matches(&d1));
    assert!(!d1.matches(&d2));
    assert!(!d1.matches(&f1));

    assert!(s1.matches(&s1));
    assert!(s1.matches(&s3));
    assert!(!s1.matches(&s2));
    assert!(!s1.matches(&special));

    assert!(special.matches(&special));
    assert!(!special.matches(&f1));

    assert!(f1.matches_content(&f1));
    assert!(f1.matches_content(&f4));
    assert!(f1.matches_content(&f2));
    assert!(!f1.matches_content(&f3));
    assert!(!f1.matches_content(&d1));
    assert!(!f1.matches_content(&s1));
    assert!(!f1.matches_content(&special));

    assert!(d1.matches_content(&d1));
    assert!(d1.matches_content(&d2));
    assert!(!d1.matches_content(&f1));

    assert!(s1.matches_content(&s1));
    assert!(s1.matches_content(&s3));
    assert!(!s1.matches_content(&s2));
    assert!(!s1.matches_content(&special));

    assert!(special.matches_content(&special));
    assert!(!special.matches_content(&f1));
}

#[test]
fn hashes_are_shown_in_hex() {
    let mut hash = [0u8; 32];
    hash[0] = 0xab;
    hash[1] = 0x04;
    hash[31] = 0xff;
    let expected = format!("ab04{}ff", "00".repeat(29));
    assert_eq!(expected, DisplayHash(hash).to_hex());
}

#[test]
fn modes_are_taken_over() {
    let mut file = FileData::Regular(0o644, 1, 2, [3; 32]);
    file.transrich_unix_mode(&FileData::Regular(0o600, 9, 9, [9; 32]));
    assert_eq!(FileData::Regular(0o600, 1, 2, [3; 32]), file);

    let mut dir = FileData::Directory(0o755);
    dir.transrich_unix_mode(&FileData::Regular(0o600, 9, 9, [9; 32]));
    assert_eq!(FileData::Directory(0o600), dir);
    dir.transrich_unix_mode(&FileData::Special);
    assert_eq!(FileData::Directory(0o600), dir);
}
