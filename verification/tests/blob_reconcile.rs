//! Reconciling directories that are stored as blobs.

use std::collections::BTreeMap;

use ensync::blob_reconcile::Reconciliation as R;
use ensync::blob_reconcile::{
    calc_reconciliation, reconcile, reconcile_within, to_map, SyncTriple,
};
use ensync::defs::HashId;
use ensync::errors::{Error, ErrorKind};
use ensync::mutator::{
    DirPtr, DirPtrType, Location, MutationError, MutationResult, Mutator,
};
use ensync::rules::SyncMode;

fn ptr(name: &str, typ: DirPtrType, value: u8) -> DirPtr {
    DirPtr { name: name.as_bytes().to_vec(), typ, mode: 0o644, value: [value; 32] }
}

fn file(value: u8) -> Option<DirPtr> {
    Some(ptr("f", DirPtrType::Regular, value))
}

fn calc(
    client: Option<DirPtr>,
    ancestor: Option<DirPtr>,
    server: Option<DirPtr>,
    mode: &str,
) -> R {
    calc_reconciliation(
        &SyncTriple { client, ancestor, server },
        &SyncMode::parse(mode).unwrap(),
    )
}

#[test]
fn decisions() {
    assert_eq!(R::Nop, calc(None, file(1), None, "cud/cud"));
    assert_eq!(R::Upload, calc(file(1), None, None, "cud/cud"));
    assert_eq!(R::Nop, calc(file(1), None, None, "cud/---"));
    assert_eq!(R::Download, calc(None, None, file(1), "cud/cud"));
    assert_eq!(R::DeleteClient, calc(file(1), file(1), None, "cud/cud"));
    assert_eq!(R::DeleteServer, calc(None, file(1), file(1), "cud/cud"));
    assert_eq!(R::Upload, calc(file(2), file(1), None, "cud/cud"));
    assert_eq!(R::Download, calc(None, file(1), file(2), "cud/cud"));
    assert_eq!(R::Nop, calc(file(2), file(1), file(2), "cud/cud"));
    assert_eq!(R::Download, calc(file(1), file(1), file(2), "cud/cud"));
    assert_eq!(R::Upload, calc(file(2), file(1), file(1), "cud/cud"));
    assert_eq!(R::Conflict, calc(file(2), file(1), file(3), "cud/cud"));
    assert_eq!(R::Download, calc(file(2), file(1), file(3), "cud/---"));
    assert_eq!(R::Upload, calc(file(2), file(1), file(3), "---/cud"));
    assert_eq!(R::Nop, calc(file(2), file(1), file(3), "---/---"));
    let dir = |v| Some(ptr("f", DirPtrType::Directory, v));
    assert_eq!(R::Recurse, calc(dir(2), dir(1), dir(3), "---/---"));
}

#[test]
fn of_entries_with_one_name_the_last_counts() {
    let map = to_map(vec![
        ptr("b", DirPtrType::Regular, 1),
        ptr("a", DirPtrType::Regular, 2),
        ptr("b", DirPtrType::Regular, 3),
    ]);
    assert_eq!(2, map.len());
    assert_eq!([3; 32], map.get(b"b").unwrap().value);
}

#[test]
fn mutation_errors() {
    assert_eq!("Concurrent modification", MutationError::Modified.message());
    assert_eq!(
        "Error: File not found",
        MutationError::Failure(Error::new(ErrorKind::NotFound)).message()
    );
}

struct Place;

impl Location for Place {
    fn sync_mode(&self) -> SyncMode {
        SyncMode::parse("cud/cud").unwrap()
    }
}

/// One directory, and how often it changes under our hands.
struct Flat {
    client: BTreeMap<Vec<u8>, DirPtr>,
    ancestor: Vec<DirPtr>,
    server: Vec<DirPtr>,
    modifications: u32,
    finished: u32,
}

impl Mutator for Flat {
    type Location = Place;

    fn root(&mut self) -> MutationResult<Place> {
        Ok(Place)
    }

    fn cancel_ancestors(&mut self) {}

    fn finish(&mut self, _root: &HashId) -> MutationResult<()> {
        if self.modifications > 0 {
            self.modifications -= 1;
            return Err(MutationError::Modified);
        }
        self.finished += 1;
        Ok(())
    }

    fn ls_client(&mut self, _context: &Place) -> MutationResult<Vec<DirPtr>> {
        Ok(self.client.values().map(|p| p.copy()).collect())
    }

    fn ls_ancestor(&mut self, _context: &Place) -> MutationResult<Vec<DirPtr>> {
        Ok(self.ancestor.iter().map(|p| p.copy()).collect())
    }

    fn ls_server(&mut self, _context: &Place) -> MutationResult<Vec<DirPtr>> {
        Ok(self.server.iter().map(|p| p.copy()).collect())
    }

    fn upload(&mut self, _context: &Place, src: &DirPtr) -> MutationResult<HashId> {
        Ok(src.value)
    }

    fn download(
        &mut self,
        _context: &Place,
        src: &DirPtr,
        _if_match: Option<HashId>,
    ) -> MutationResult<()> {
        self.client.insert(src.name.clone(), src.copy());
        Ok(())
    }

    fn rm_client(&mut self, _context: &Place, target: &DirPtr) -> MutationResult<()> {
        self.client.remove(&target.name);
        Ok(())
    }

    fn put_dir_ancestor(&mut self, _context: &Place, data: &Vec<DirPtr>) -> MutationResult<()> {
        self.ancestor = data.iter().map(|p| p.copy()).collect();
        Ok(())
    }

    fn put_dir_server(&mut self, _context: &Place, data: &Vec<DirPtr>) -> MutationResult<HashId> {
        self.server = data.iter().map(|p| p.copy()).collect();
        Ok([0; 32])
    }

    fn chdir(&mut self, _context: &Place, _subdir: &DirPtr) -> MutationResult<Place> {
        Err(MutationError::Failure(Error::new(ErrorKind::NotADirectory)))
    }
}

fn shown(l: &Vec<DirPtr>) -> Vec<(String, u8)> {
    l.iter().map(|p| (String::from_utf8(p.name.clone()).unwrap(), p.value[0])).collect()
}

#[test]
fn a_directory_is_reconciled() {
    let reg = |n: &str, v| ptr(n, DirPtrType::Regular, v);
    let mut flat = Flat {
        client: vec![reg("both", 1), reg("mine", 2), reg("same", 3), reg("old", 4)]
            .into_iter()
            .map(|p| (p.name.clone(), p))
            .collect(),
        ancestor: vec![reg("old", 4)],
        server: vec![reg("both", 5), reg("same", 3), reg("theirs", 6)],
        modifications: 2,
        finished: 0,
    };
    reconcile(&mut flat).unwrap();
    assert_eq!(1, flat.finished);
    let all = vec![
        ("both".to_owned(), 1),
        ("both~1".to_owned(), 5),
        ("mine".to_owned(), 2),
        ("same".to_owned(), 3),
        ("theirs".to_owned(), 6),
    ];
    assert_eq!(all, shown(&flat.server));
    assert_eq!(all, shown(&flat.ancestor));
    assert_eq!(all, shown(&flat.client.values().map(|p| p.copy()).collect()));

    flat.modifications = 100;
    assert!(matches!(
        reconcile_within(&mut flat, 5, 5),
        Err(MutationError::Failure(e)) if e.kind == ErrorKind::TooManyTxRetries
    ));
}

#[test]
fn directories_may_only_be_so_deep() {
    let dir = |n: &str, v| ptr(n, DirPtrType::Directory, v);
    let mut flat = Flat {
        client: vec![dir("sub", 1)].into_iter().map(|p| (p.name.clone(), p)).collect(),
        ancestor: vec![],
        server: vec![dir("sub", 2)],
        modifications: 0,
        finished: 0,
    };
    assert!(matches!(
        reconcile_within(&mut flat, 5, 0),
        Err(MutationError::Failure(e)) if e.kind == ErrorKind::DirectoryTooDeep
    ));
    assert!(matches!(
        reconcile_within(&mut flat, 5, 1),
        Err(MutationError::Failure(e)) if e.kind == ErrorKind::NotADirectory
    ));
    assert_eq!(0, flat.finished);
}
