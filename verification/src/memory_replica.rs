//! A replica that is held in memory.
//!
//! The contents of regular files are represented simply by their "hash", which
//! itself is simply a 32-byte incrementing counter (starting at 1 so it does
//! not conflict with `UNKNOWN_HASH`).
//!
//! The `MemoryReplica` allows simulating both replicas with a reliable hash for
//! entries (as with the real server) and without (as with the client).
//!
//! Faults can be injected into any operation to test error handling.
//!
//! For the most part, it behaves like an idealised POSIX filesystem, except
//! that the root directory is addressed as "" rather than "/".

use vstd::prelude::*;

use crate::bytes;
use crate::bytes::Name;
use crate::defs::{File, FileData, FileMode, FileModel, FileSize, FileTime, HashId, UNKNOWN_HASH};
use crate::errors::{Error, ErrorKind, Result};
use crate::reconcile::model;
use crate::reconcile::model::{Kids, Node};
use crate::reconcile::mutate;
use crate::reconcile::place;
use crate::reconcile::trees;
use crate::reconcile::trees::Path;
use crate::replica;
use crate::replica::{
    Chore, Condemn, NullTransfer, PrepareType, Replica, ReplicaDirectory, ReplicaState, Transfer,
};
use crate::table::NameMap;

verus! {

/// A regular file as represented within a `MemoryReplica`.
#[derive(Clone, Copy, Debug, PartialEq, Eq)]
pub struct Regular {
    pub mode: FileMode,
    pub size: FileSize,
    pub modified: FileTime,
    /// The reported hash of the file.
    pub hash: HashId,
    /// The _actual_ hash of the file, produced when the file is transferred.
    pub content: HashId,
}

/// An entry in a `MemoryReplica` directory.
///
/// This is essentially the same as `FileData`, with slightly different
/// semantics for regular files.
pub enum Entry {
    /// A subdirectory, with its contents.
    Directory(FileMode, NameMap<Entry>),
    Regular(Regular),
    Symlink(Name),
    Special,
}

/// What an entry is reported as.
pub open spec fn entry_data(e: Entry) -> FileModel {
    match e {
        Entry::Directory(mode, _) => FileModel::Directory(mode),
        Entry::Regular(reg) => FileModel::Regular(reg.mode, reg.size, reg.modified, reg.hash@),
        Entry::Symlink(target) => FileModel::Symlink(target@),
        Entry::Special => FileModel::Special,
    }
}

/// An entry with everything under it.
pub open spec fn node(e: Entry) -> Node
    decreases e,
{
    Node {
        data: entry_data(e),
        kids: match e {
            Entry::Directory(_, contents) => tree(contents),
            _ => Map::empty(),
        },
    }
}

/// The contents of a directory with everything under them.
pub open spec fn tree(m: NameMap<Entry>) -> Kids
    decreases m,
{
    Map::new(
        |n: Seq<u8>| m@.dom().contains(n),
        |n: Seq<u8>|
            if m@.dom().contains(n) {
                proof {
                    m.lemma_smaller(n);
                }
                node(m@[n])
            } else {
                arbitrary()
            },
    )
}

/// Whether all files of a directory, and everything under it, are reported with
/// their actual hashes.
pub open spec fn fair(m: NameMap<Entry>) -> bool
    decreases m,
{
    forall|n: Seq<u8>| #[trigger]
        m@.dom().contains(n) ==> {
            proof {
                m.lemma_smaller(n);
            }
            fair_entry(m@[n])
        }
}

/// Whether a file, and everything under it, is reported with its actual hash.
pub open spec fn fair_entry(e: Entry) -> bool
    decreases e,
{
    match e {
        Entry::Directory(_, contents) => fair(contents),
        Entry::Regular(reg) => reg.hash@ == reg.content@,
        _ => true,
    }
}

/// The names of a path.
pub open spec fn names(v: Seq<Name>) -> Path {
    v.map_values(|n: Name| n@)
}

/// Whether the path from the `i`th name on is a path of `v`.
spec fn rest(v: Seq<Name>, i: int) -> Path {
    names(v).skip(i)
}

proof fn lemma_rest(v: Seq<Name>, i: int)
    requires
        0 <= i < v.len(),
    ensures
        rest(v, i).len() == v.len() - i,
        rest(v, i)[0] == v[i]@,
        rest(v, i).drop_first() == rest(v, i + 1),
{
    assert(rest(v, i).drop_first() =~= rest(v, i + 1));
}

/// What a table of entries says of a name.
proof fn lemma_tree(m: NameMap<Entry>)
    ensures
        tree(m).dom() == m@.dom(),
        forall|n: Seq<u8>| #[trigger] m@.dom().contains(n) ==> tree(m)[n] == node(m@[n]),
{
    assert(tree(m).dom() =~= m@.dom());
}

/// What becomes of a tree when an entry is set.
proof fn lemma_tree_insert(m: NameMap<Entry>, after: NameMap<Entry>, n: Seq<u8>, e: Entry)
    requires
        after@ == m@.insert(n, e),
    ensures
        tree(after) == tree(m).insert(n, node(e)),
        fair(m) && fair_entry(e) ==> fair(after),
{
    lemma_tree(m);
    lemma_tree(after);
    assert(tree(after) =~= tree(m).insert(n, node(e)));
    if fair(m) && fair_entry(e) {
        assert forall|q: Seq<u8>| #[trigger] after@.dom().contains(q) implies fair_entry(
            after@[q],
        ) by {
            if q != n {
                assert(m@.dom().contains(q));
            }
        }
    }
}

/// What becomes of a tree when an entry is removed.
proof fn lemma_tree_remove(m: NameMap<Entry>, after: NameMap<Entry>, n: Seq<u8>)
    requires
        after@ == m@.remove(n),
    ensures
        tree(after) == tree(m).remove(n),
        fair(m) ==> fair(after),
{
    lemma_tree(m);
    lemma_tree(after);
    assert(tree(after) =~= tree(m).remove(n));
    if fair(m) {
        assert forall|q: Seq<u8>| #[trigger] after@.dom().contains(q) implies fair_entry(
            after@[q],
        ) by {
            assert(m@.dom().contains(q));
        }
    }
}

/// A tree of entries is sound.
proof fn lemma_tree_sound(m: NameMap<Entry>)
    ensures
        trees::sound(tree(m)),
{
    m.lemma_order();
    lemma_tree(m);
    assert forall|p: Path| trees::sound_node(#[trigger] trees::node_at(tree(m), p)) by {
        lemma_node_sound(m, p);
    }
}

proof fn lemma_node_sound(m: NameMap<Entry>, p: Path)
    ensures
        trees::sound_node(trees::node_at(tree(m), p)),
    decreases p.len(),
{
    lemma_tree(m);
    if p.len() > 0 && m@.dom().contains(p[0]) {
        match m@[p[0]] {
            Entry::Directory(_, contents) => {
                contents.lemma_order();
                lemma_tree(contents);
                if p.len() > 1 {
                    lemma_node_sound(contents, p.drop_first());
                }
            },
            _ => {
                trees::lemma_nothing(p.drop_first());
            },
        }
    }
}

/// Returns the directory that the names of `path` from the `i`th on lead to.
fn find<'a>(m: &'a NameMap<Entry>, path: &Vec<Name>, i: usize) -> (r: Option<&'a NameMap<Entry>>)
    requires
        i <= path@.len(),
    ensures
        match r {
            Some(d) => {
                &&& place::is_there(tree(*m), rest(path@, i as int))
                &&& tree(*d) == place::kids_of(tree(*m), rest(path@, i as int))
                &&& fair(*m) ==> fair(*d)
            },
            None => !place::is_there(tree(*m), rest(path@, i as int)),
        },
    decreases path@.len() - i,
{
    proof {
        lemma_tree(*m);
    }
    if i == path.len() {
        Some(m)
    } else {
        proof {
            lemma_rest(path@, i as int);
        }
        match m.get(path[i].as_slice()) {
            Some(Entry::Directory(_, contents)) => find(contents, path, i + 1),
            _ => None,
        }
    }
}

/// Replaces the contents of the directory that the names of `path` from the
/// `i`th on lead to, and returns what they were.
fn exchange(
    m: &mut NameMap<Entry>,
    path: &Vec<Name>,
    i: usize,
    new: NameMap<Entry>,
    Ghost(modes): Ghost<Seq<FileMode>>,
) -> (r: NameMap<Entry>)
    requires
        i <= path@.len(),
        place::is_there(tree(*old(m)), rest(path@, i as int)),
    ensures
        tree(r) == place::kids_of(tree(*old(m)), rest(path@, i as int)),
        tree(*final(m)) == place::graft(
            tree(*old(m)),
            rest(path@, i as int),
            modes,
            tree(new),
        ),
        fair(*old(m)) ==> fair(r),
        fair(*old(m)) && fair(new) ==> fair(*final(m)),
    decreases path@.len() - i,
{
    let ghost m0 = *m;
    proof {
        lemma_tree(m0);
    }
    if i == path.len() {
        let mut r = new;
        std::mem::swap(m, &mut r);
        r
    } else {
        proof {
            lemma_rest(path@, i as int);
        }
        let ghost n = path@[i as int]@;
        let entry = m.remove(path[i].as_slice());
        let ghost m1 = *m;
        match entry {
            Some(Entry::Directory(mode, contents)) => {
                let mut contents = contents;
                let ghost c0 = contents;
                let r = exchange(&mut contents, path, i + 1, new, Ghost(modes.drop_first()));
                let ghost e = Entry::Directory(mode, contents);
                let _ = m.insert(bytes::copy(path[i].as_slice()), Entry::Directory(mode, contents));
                proof {
                    assert(m@ =~= m0@.insert(n, e));
                    lemma_tree_insert(m0, *m, n, e);
                    assert(node(m0@[n]).kids == tree(c0));
                    assert(tree(m0)[n] == node(m0@[n]));
                    if fair(m0) {
                        assert(fair_entry(m0@[n]));
                    }
                }
                r
            },
            _ => {
                assert(false);
                new
            },
        }
    }
}

/// Makes the directories that are missing on the way from the `i`th name of
/// `path` on, and puts `new` into the last.
fn build(
    path: &Vec<Name>,
    modes: &Vec<FileMode>,
    i: usize,
    new: NameMap<Entry>,
) -> (r: NameMap<Entry>)
    requires
        i <= path@.len(),
        path@.len() == modes@.len(),
        tree(new) != Map::<Seq<u8>, Node>::empty(),
    ensures
        tree(r) == place::graft(Map::empty(), rest(path@, i as int), modes@.skip(i as int), tree(new)),
        tree(r) != Map::<Seq<u8>, Node>::empty(),
        fair(new) ==> fair(r),
    decreases path@.len() - i,
{
    if i == path.len() {
        new
    } else {
        proof {
            lemma_rest(path@, i as int);
            assert(modes@.skip(i as int).drop_first() =~= modes@.skip(i as int + 1));
        }
        let below = build(path, modes, i + 1, new);
        let mut r: NameMap<Entry> = NameMap::new();
        let ghost r0 = r;
        let ghost e = Entry::Directory(modes@[i as int], below);
        let _ = r.insert(bytes::copy(path[i].as_slice()), Entry::Directory(modes[i], below));
        proof {
            lemma_tree(r0);
            lemma_tree_insert(r0, r, path@[i as int]@, e);
            assert(tree(r0) =~= Map::empty());
            assert(tree(r).dom().contains(path@[i as int]@));
        }
        r
    }
}

/// Replaces the contents of the directory that the names of `path` from the
/// `i`th on lead to, making the directories that are missing.
///
/// Fails, and leaves everything as it is, if there is another file in the place
/// of one of them.
fn establish(
    m: &mut NameMap<Entry>,
    path: &Vec<Name>,
    modes: &Vec<FileMode>,
    i: usize,
    new: NameMap<Entry>,
) -> (r: bool)
    requires
        i <= path@.len(),
        path@.len() == modes@.len(),
        tree(new) != Map::<Seq<u8>, Node>::empty(),
    ensures
        r == replica::makeable(tree(*old(m)), rest(path@, i as int)),
        r ==> tree(*final(m)) == place::graft(
            tree(*old(m)),
            rest(path@, i as int),
            modes@.skip(i as int),
            tree(new),
        ),
        r && fair(*old(m)) && fair(new) ==> fair(*final(m)),
        !r ==> tree(*final(m)) == tree(*old(m)) && (fair(*old(m)) ==> fair(*final(m))),
    decreases path@.len() - i,
{
    let ghost m0 = *m;
    proof {
        lemma_tree(m0);
    }
    if i == path.len() {
        *m = new;
        return true;
    }
    proof {
        lemma_rest(path@, i as int);
        assert(modes@.skip(i as int).drop_first() =~= modes@.skip(i as int + 1));
    }
    let ghost n = path@[i as int]@;
    let entry = m.remove(path[i].as_slice());
    match entry {
        None => {
            let below = build(path, modes, i + 1, new);
            let ghost e = Entry::Directory(modes@[i as int], below);
            let _ = m.insert(bytes::copy(path[i].as_slice()), Entry::Directory(modes[i], below));
            proof {
                assert(m@ =~= m0@.insert(n, e));
                lemma_tree_insert(m0, *m, n, e);
            }
            true
        },
        Some(Entry::Directory(mode, contents)) => {
            let mut contents = contents;
            let ghost c0 = contents;
            let r = establish(&mut contents, path, modes, i + 1, new);
            let ghost e = Entry::Directory(mode, contents);
            let _ = m.insert(bytes::copy(path[i].as_slice()), Entry::Directory(mode, contents));
            proof {
                assert(m@ =~= m0@.insert(n, e));
                lemma_tree_insert(m0, *m, n, e);
                assert(tree(m0)[n] == node(m0@[n]));
                if fair(m0) {
                    assert(fair_entry(m0@[n]));
                }
                if !r {
                    assert(tree(*m) =~= tree(m0));
                }
            }
            r
        },
        Some(other) => {
            let _ = m.insert(bytes::copy(path[i].as_slice()), other);
            proof {
                assert(m@ =~= m0@.insert(n, other));
                lemma_tree_insert(m0, *m, n, other);
                assert(tree(*m) =~= tree(m0));
                if fair(m0) {
                    assert(fair_entry(m0@[n]));
                }
            }
            false
        },
    }
}

/// Identifies an operation for purposes of mapping to a fault.
#[derive(Debug, PartialEq, Eq)]
pub enum Op {
    /// Matched when `Replica::root()` is called.
    ReadRoot,
    /// Matched when `Replica::list()` is called. The string is the full path
    /// to the directory, eg, "/foo/bar".
    List(Name),
    /// Matched when `Replica::rename()` is called or when an operation
    /// performs a rename internally. The fields are: path, old name.
    Rename(Name, Name),
    /// Matched when `Replica::remove()` is called or when an operation
    /// performs a removal internally. The fields are: path, filename.
    Remove(Name, Name),
    /// Matched when `Replica::create()` is called or when an operation
    /// performs a creation internally.
    Create(Name, Name),
    /// Matched when a directory with the given name is created implicitly due
    /// to creating a file within a synthetic directory.
    CreateSynthetic(Name),
    /// Matched when a file is updated. Fields are: path, filename.
    Update(Name, Name),
    /// Matched when `Replica::chdir()` is used to descend into the given full
    /// path.
    Chdir(Name),
    /// Matched when `Replica::transfer()` is called for the given (path,file).
    Transfer(Name, Name),
}

/// What an `Op` says, over mathematical values.
pub enum OpModel {
    ReadRoot,
    List(Seq<u8>),
    Rename(Seq<u8>, Seq<u8>),
    Remove(Seq<u8>, Seq<u8>),
    Create(Seq<u8>, Seq<u8>),
    CreateSynthetic(Seq<u8>),
    Update(Seq<u8>, Seq<u8>),
    Chdir(Seq<u8>),
    Transfer(Seq<u8>, Seq<u8>),
}

impl View for Op {
    type V = OpModel;

    open spec fn view(&self) -> OpModel {
        match *self {
            Op::ReadRoot => OpModel::ReadRoot,
            Op::List(a) => OpModel::List(a@),
            Op::Rename(a, b) => OpModel::Rename(a@, b@),
            Op::Remove(a, b) => OpModel::Remove(a@, b@),
            Op::Create(a, b) => OpModel::Create(a@, b@),
            Op::CreateSynthetic(a) => OpModel::CreateSynthetic(a@),
            Op::Update(a, b) => OpModel::Update(a@, b@),
            Op::Chdir(a) => OpModel::Chdir(a@),
            Op::Transfer(a, b) => OpModel::Transfer(a@, b@),
        }
    }
}

fn same2(a: &Name, b: &Name, c: &Name, d: &Name) -> (r: bool)
    ensures
        r == (a@ == c@ && b@ == d@),
{
    bytes::same(a.as_slice(), c.as_slice()) && bytes::same(b.as_slice(), d.as_slice())
}

impl Op {
    /// Returns whether two operations are the same.
    pub fn same(&self, other: &Op) -> (r: bool)
        ensures
            r == (self@ == other@),
    {
        match (self, other) {
            (Op::ReadRoot, Op::ReadRoot) => true,
            (Op::List(a), Op::List(b)) => bytes::same(a.as_slice(), b.as_slice()),
            (Op::Rename(a, b), Op::Rename(c, d)) => same2(a, b, c, d),
            (Op::Remove(a, b), Op::Remove(c, d)) => same2(a, b, c, d),
            (Op::Create(a, b), Op::Create(c, d)) => same2(a, b, c, d),
            (Op::CreateSynthetic(a), Op::CreateSynthetic(b)) => bytes::same(
                a.as_slice(),
                b.as_slice(),
            ),
            (Op::Update(a, b), Op::Update(c, d)) => same2(a, b, c, d),
            (Op::Chdir(a), Op::Chdir(b)) => bytes::same(a.as_slice(), b.as_slice()),
            (Op::Transfer(a, b), Op::Transfer(c, d)) => same2(a, b, c, d),
            _ => false,
        }
    }
}

/// Returns an `Err` `Result` with an arbitrary error value.
pub fn simple_error<T>() -> (r: Result<T>)
    ensures
        r matches Err(e) && e.kind == ErrorKind::NotFound,
{
    Err(Error::new(ErrorKind::NotFound))
}

/// The path `b` below the path `a`.
pub open spec fn joined(a: Seq<u8>, b: Seq<u8>) -> Seq<u8> {
    a.push(0x2f) + b
}

/// Returns the path `b` below the path `a`.
pub fn catpath(a: &[u8], b: &[u8]) -> (r: Name)
    ensures
        r@ == joined(a@, b@),
{
    let mut cat: Vec<u8> = bytes::copy(a);
    cat.push(0x2f);
    bytes::append(&mut cat, b);
    cat
}

/// The path that a sequence of names denotes.
pub open spec fn display(p: Path) -> Seq<u8>
    decreases p.len(),
{
    if p.len() == 0 {
        Seq::empty()
    } else {
        joined(display(p.drop_last()), p.last())
    }
}

/// A directory of a `MemoryReplica`.
pub struct DirHandle {
    path: Name,
    names: Vec<Name>,
    modes: Vec<FileMode>,
    solid: usize,
}

impl DirHandle {
    #[verifier::type_invariant]
    spec fn inv(self) -> bool {
        &&& self.modes@.len() == self.names@.len()
        &&& self.solid <= self.names@.len()
        &&& self.path@ == display(names(self.names@))
    }
}

impl ReplicaDirectory for DirHandle {
    closed spec fn path(&self) -> Path {
        names(self.names@)
    }

    closed spec fn modes(&self) -> Seq<FileMode> {
        self.modes@
    }

    closed spec fn solid(&self) -> nat {
        self.solid as nat
    }

    open spec fn shown(&self) -> Seq<u8> {
        display(self.path())
    }

    fn full_path(&self) -> (r: &[u8]) {
        proof {
            use_type_invariant(self);
        }
        self.path.as_slice()
    }
}

impl Transfer for Option<HashId> {
    open spec fn carries(&self, fd: FileModel) -> bool {
        match fd {
            FileModel::Regular(_, _, _, h) => *self matches Some(x) && x@ == h,
            _ => true,
        }
    }
}

impl Entry {
    /// Returns what the entry is reported as.
    pub fn file_data(&self) -> (r: FileData)
        ensures
            r@ == entry_data(*self),
    {
        match self {
            Entry::Directory(mode, _) => FileData::Directory(*mode),
            Entry::Regular(reg) => FileData::Regular(reg.mode, reg.size, reg.modified, reg.hash),
            Entry::Symlink(target) => FileData::Symlink(bytes::copy(target.as_slice())),
            Entry::Special => FileData::Special,
        }
    }

    /// Returns the entry for a new file. The content of a regular file is what
    /// is transferred in.
    fn from_file_data(fd: &FileData, xfer: Option<HashId>) -> (r: Result<Entry>)
        ensures
            r is Ok <==> (fd is Regular ==> xfer is Some),
            r matches Ok(e) ==> {
                &&& fair_entry(e)
                &&& node(e).kids == Map::<Seq<u8>, Node>::empty()
                &&& entry_data(e) == filled(fd@, xfer)
            },
            r matches Err(e) ==> e.kind == ErrorKind::MissingXfer,
    {
        match fd {
            FileData::Directory(mode) => {
                let contents: NameMap<Entry> = NameMap::new();
                proof {
                    lemma_tree(contents);
                    assert(tree(contents) =~= Map::empty());
                }
                Ok(Entry::Directory(*mode, contents))
            },
            FileData::Regular(mode, size, modified, _) => match xfer {
                Some(hash) => Ok(
                    Entry::Regular(
                        Regular {
                            mode: *mode,
                            size: *size,
                            modified: *modified,
                            hash,
                            content: hash,
                        },
                    ),
                ),
                None => Err(Error::new(ErrorKind::MissingXfer)),
            },
            FileData::Symlink(target) => Ok(Entry::Symlink(bytes::copy(target.as_slice()))),
            FileData::Special => Ok(Entry::Special),
        }
    }
}

fn copy_path(path: &Vec<Name>) -> (r: Vec<Name>)
    ensures
        names(r@) == names(path@),
        r@.len() == path@.len(),
{
    let mut r: Vec<Name> = Vec::new();
    let mut i: usize = 0;
    while i < path.len()
        invariant
            i <= path@.len(),
            r@.len() == i,
            forall|j: int| 0 <= j < i ==> (#[trigger] r@[j])@ == path@[j]@,
        decreases path@.len() - i,
    {
        r.push(bytes::copy(path[i].as_slice()));
        i += 1;
    }
    assert(names(r@) =~= names(path@));
    r
}

/// Whether `q` is the path `p` or one below it.
pub open spec fn covers(p: Path, q: Path) -> bool {
    q.len() >= p.len() && q.take(p.len() as int) == p
}

fn is_prefix(p: &Vec<Name>, q: &Vec<Name>) -> (r: bool)
    ensures
        r == covers(names(p@), names(q@)),
{
    if q.len() < p.len() {
        return false;
    }
    let mut i: usize = 0;
    while i < p.len()
        invariant
            i <= p@.len() <= q@.len(),
            forall|j: int| 0 <= j < i ==> (#[trigger] p@[j])@ == q@[j]@,
        decreases p@.len() - i,
    {
        if !bytes::same(p[i].as_slice(), q[i].as_slice()) {
            proof {
                assert(names(p@)[i as int] == p@[i as int]@);
                assert(names(q@).take(p@.len() as int)[i as int] == q@[i as int]@);
            }
            return false;
        }
        i += 1;
    }
    assert(names(q@).take(p@.len() as int) =~= names(p@));
    true
}

fn same_path(p: &Vec<Name>, q: &Vec<Name>) -> (r: bool)
    ensures
        r == (names(p@) == names(q@)),
{
    proof {
        assert(names(q@).take(q@.len() as int) =~= names(q@));
    }
    p.len() == q.len() && is_prefix(p, q)
}

/// The paths of a list.
pub open spec fn paths(l: Seq<Vec<Name>>) -> Set<Path> {
    Set::new(|p: Path| exists|i: int| 0 <= i < l.len() && #[trigger] names(l[i]@) == p)
}

proof fn lemma_paths_push(l: Seq<Vec<Name>>, x: Vec<Name>)
    ensures
        paths(l.push(x)) == paths(l).insert(names(x@)),
{
    let m = l.push(x);
    assert forall|p: Path| paths(m).contains(p) == paths(l).insert(names(x@)).contains(p) by {
        if paths(l).contains(p) {
            let i = choose|i: int| 0 <= i < l.len() && #[trigger] names(l[i]@) == p;
            assert(names(m[i]@) == p);
        }
        if p == names(x@) {
            assert(names(m[l.len() as int]@) == p);
        }
        if paths(m).contains(p) && p != names(x@) {
            let i = choose|i: int| 0 <= i < m.len() && #[trigger] names(m[i]@) == p;
            assert(names(l[i]@) == p);
        }
    }
    assert(paths(m) =~= paths(l).insert(names(x@)));
}

fn has_path(l: &Vec<Vec<Name>>, p: &Vec<Name>) -> (r: bool)
    ensures
        r == paths(l@).contains(names(p@)),
{
    let mut i: usize = 0;
    while i < l.len()
        invariant
            i <= l@.len(),
            forall|j: int| 0 <= j < i ==> #[trigger] names(l@[j]@) != names(p@),
        decreases l@.len() - i,
    {
        if same_path(&l[i], p) {
            assert(names(l@[i as int]@) == names(p@));
            return true;
        }
        i += 1;
    }
    false
}

fn add_path(l: &mut Vec<Vec<Name>>, p: Vec<Name>)
    ensures
        paths(final(l)@) == paths(old(l)@).insert(names(p@)),
{
    proof {
        lemma_paths_push(l@, p);
    }
    l.push(p);
}

/// Removes a path from a list and, if `deep`, everything below it.
fn drop_paths(l: &mut Vec<Vec<Name>>, p: &Vec<Name>, deep: bool)
    ensures
        forall|q: Path| #[trigger]
            paths(final(l)@).contains(q) <==> paths(old(l)@).contains(q) && !(if deep {
                covers(names(p@), q)
            } else {
                names(p@) == q
            }),
{
    let mut all: Vec<Vec<Name>> = Vec::new();
    std::mem::swap(&mut all, l);
    let ghost before = all@;
    assert(paths(before.skip(before.len() as int)) =~= Set::empty());
    assert(paths(l@) =~= Set::empty());
    loop
        invariant
            all@ == before.take(all@.len() as int),
            all@.len() <= before.len(),
            forall|q: Path| #[trigger]
                paths(l@).contains(q) <==> paths(before.skip(all@.len() as int)).contains(q)
                    && !(if deep {
                    covers(names(p@), q)
                } else {
                    names(p@) == q
                }),
        ensures
            all@.len() == 0,
        decreases all@.len(),
    {
        let ghost k = all@.len() as int;
        let ghost l0 = l@;
        let x: Vec<Name> = match all.pop() {
            Some(x) => x,
            None => {
                break;
            },
        };
        let ghost xn = names(x@);
        let gone = if deep {
            is_prefix(p, &x)
        } else {
            same_path(p, &x)
        };
        proof {
            assert(before.take(k)[k - 1] == before[k - 1]);
            assert(before[k - 1] == x);
            lemma_paths_skip(before, k - 1);
            lemma_paths_push(l0, x);
            assert(all@ =~= before.take(k - 1));
        }
        if !gone {
            l.push(x);
        }
    }
    proof {
        assert(before.skip(0) =~= before);
    }
}

proof fn lemma_paths_skip(l: Seq<Vec<Name>>, i: int)
    requires
        0 <= i < l.len(),
    ensures
        paths(l.skip(i)) == paths(l.skip(i + 1)).insert(names(l[i]@)),
{
    let a = l.skip(i);
    let b = l.skip(i + 1);
    assert forall|p: Path| paths(a).contains(p) == paths(b).insert(names(l[i]@)).contains(p) by {
        if paths(b).contains(p) {
            let j = choose|j: int| 0 <= j < b.len() && #[trigger] names(b[j]@) == p;
            assert(names(a[j + 1]@) == p);
        }
        if p == names(l[i]@) {
            assert(names(a[0]@) == p);
        }
        if paths(a).contains(p) && p != names(l[i]@) {
            let j = choose|j: int| 0 <= j < a.len() && #[trigger] names(a[j]@) == p;
            assert(names(b[j - 1]@) == p);
        }
    }
    assert(paths(a) =~= paths(b).insert(names(l[i]@)));
}

/// Returns how many names of `path` from the `i`th on lead to directories that
/// exist, with those before it.
fn reach(m: &NameMap<Entry>, path: &Vec<Name>, i: usize) -> (r: usize)
    requires
        i <= path@.len(),
    ensures
        i <= r <= path@.len(),
        forall|j: int|
            i <= j <= path@.len() ==> (#[trigger] place::is_there(
                tree(*m),
                rest(path@, i as int).take(j - i),
            ) <==> j <= r),
    decreases path@.len() - i,
{
    proof {
        lemma_tree(*m);
        assert(rest(path@, i as int).take(0) =~= Seq::empty());
    }
    if i == path.len() {
        return i;
    }
    let ghost p = rest(path@, i as int);
    let ghost q = rest(path@, i as int + 1);
    proof {
        lemma_rest(path@, i as int);
        assert forall|j: int| i < j <= path@.len() implies (#[trigger] p.take(j - i)).drop_first()
            == q.take(j - i - 1) && p.take(j - i)[0] == p[0] by {
            assert(p.take(j - i).drop_first() =~= q.take(j - i - 1));
        }
    }
    match m.get(path[i].as_slice()) {
        Some(Entry::Directory(_, contents)) => {
            let r = reach(contents, path, i + 1);
            proof {
                assert forall|j: int| i <= j <= path@.len() implies (#[trigger] place::is_there(
                    tree(*m),
                    p.take(j - i),
                ) <==> j <= r) by {
                    if j > i {
                        assert(p.take(j - i).drop_first() == q.take(j - (i + 1)));
                        assert(place::is_there(tree(*contents), q.take(j - (i + 1))) <==> j <= r);
                    }
                }
            }
            r
        },
        _ => i,
    }
}

/// A replica that is held in memory.
pub struct MemoryReplica {
    root: NameMap<Entry>,
    /// The directories that are marked clean.
    clean: Vec<Vec<Name>>,
    /// The names that are condemned, each with the path of its directory.
    condemned: Vec<Vec<Name>>,
    /// The operations that fail.
    faults: Vec<Op>,
    next_hash: u32,
    /// The runs that have been begun and ended.
    past: Ghost<Seq<Chore>>,
}

/// The operations of a list.
pub open spec fn ops(l: Seq<Op>) -> Set<OpModel> {
    Set::new(|op: OpModel| exists|i: int| 0 <= i < l.len() && (#[trigger] l[i])@ == op)
}

/// The hash that represents the `i`th content.
pub open spec fn numbered_hash(i: u32) -> Seq<u8> {
    Seq::new(
        32,
        |j: int|
            if j == 0 {
                (i % 0x100) as u8
            } else if j == 1 {
                (i / 0x100 % 0x100) as u8
            } else if j == 2 {
                (i / 0x10000 % 0x100) as u8
            } else if j == 3 {
                (i / 0x1000000) as u8
            } else {
                0
            },
    )
}

/// Whether the directories of a path from the `i`th name on can be made.
pub open spec fn makes_synthetics(faulty: Set<OpModel>, p: Path, i: int) -> bool {
    forall|j: int|
        i <= j < p.len() ==> !faulty.contains(OpModel::CreateSynthetic(#[trigger] p[j]))
}

/// The operations, besides the update itself, that replacing a file by one of
/// another type takes: a directory is removed first; any other file is moved out
/// of the way until the new one has been created.
pub open spec fn replaceable(
    faulty: Set<OpModel>,
    dir: Seq<u8>,
    name: Seq<u8>,
    is_dir: bool,
) -> bool {
    &&& is_dir ==> !faulty.contains(OpModel::Remove(dir, name))
    &&& !is_dir ==> !faulty.contains(OpModel::Rename(dir, name))
    &&& !faulty.contains(OpModel::Create(dir, name))
}

/// What is marked clean once the directory at `p` and those below it are not any
/// more.
pub open spec fn sullied(clean: Set<Path>, p: Path) -> Set<Path> {
    clean.filter(|q: Path| !covers(p, q))
}

/// A file with the content that is transferred.
pub open spec fn filled(fd: FileModel, xfer: Option<HashId>) -> FileModel {
    match fd {
        FileModel::Regular(mode, size, modified, _) => FileModel::Regular(
            mode,
            size,
            modified,
            xfer->0@,
        ),
        other => other,
    }
}

/// Whether the directories that are missing on the way to `p` can be made.
pub open spec fn synthesises(faulty: Set<OpModel>, tree: Kids, p: Path) -> bool {
    forall|j: int|
        0 <= j < p.len() && !place::is_there(tree, p.take(j + 1)) ==> !faulty.contains(
            OpModel::CreateSynthetic(#[trigger] p[j]),
        )
}

/// Whether a file can be updated without changing its type.
pub open spec fn alike(a: FileModel, b: FileModel) -> bool {
    match (a, b) {
        (FileModel::Directory(_), FileModel::Directory(_)) => true,
        (FileModel::Regular(_, _, _, _), FileModel::Regular(_, _, _, _)) => true,
        (FileModel::Symlink(_), FileModel::Symlink(_)) => true,
        (FileModel::Special, FileModel::Special) => true,
        _ => false,
    }
}

/// Exchanging what is in a directory twice.
proof fn lemma_exchanged(k: Kids, p: Path, modes: Seq<FileMode>, new: Kids)
    requires
        place::is_there(k, p),
    ensures
        place::is_there(place::graft(k, p, modes, Map::empty()), p),
        place::graft(place::graft(k, p, modes, Map::empty()), p, modes, new) == place::graft(
            k,
            p,
            modes,
            new,
        ),
{
    place::lemma_graft_there(k, p, modes, Map::empty());
    place::lemma_graft_twice(k, p, modes, Map::empty(), new);
}

impl MemoryReplica {
    /// The operations that fail.
    pub closed spec fn faulty(self) -> Set<OpModel> {
        ops(self.faults@)
    }

    /// How many hashes have been generated.
    pub closed spec fn hashes(self) -> u32 {
        self.next_hash
    }

    /// Returns a replica in which there is nothing.
    pub fn empty() -> (r: MemoryReplica)
        ensures
            r.ideal(),
            r.state().tree == Map::<Seq<u8>, Node>::empty(),
            r.state().clean == Set::<Path>::empty(),
            r.state().condemned == Set::<Path>::empty(),
            r.state().faultless,
            r.faulty() == Set::<OpModel>::empty(),
            r.hashes() == 1,
            r.chores() == Seq::<Chore>::empty(),
    {
        let r = MemoryReplica {
            root: NameMap::new(),
            clean: Vec::new(),
            condemned: Vec::new(),
            faults: Vec::new(),
            next_hash: 1,
            past: Ghost(Seq::empty()),
        };
        proof {
            lemma_tree(r.root);
            assert(tree(r.root) =~= Map::empty());
            assert(paths(r.clean@) =~= Set::empty());
            assert(ops(r.faults@) =~= Set::empty());
        }
        r
    }

    /// Returns a hash that has not been returned before.
    pub fn gen_hash(&mut self) -> (r: HashId)
        requires
            old(self).hashes() < u32::MAX,
        ensures
            final(self).chores() == old(self).chores(),
            r@ == numbered_hash(old(self).hashes()),
            final(self).hashes() == old(self).hashes() + 1,
            final(self).state() == old(self).state(),
            final(self).ideal() == old(self).ideal(),
            final(self).faulty() == old(self).faulty(),
    {
        let h: u32 = self.next_hash;
        self.next_hash = h + 1;
        let mut hash: HashId = UNKNOWN_HASH;
        hash[0] = (h % 0x100) as u8;
        hash[1] = (h / 0x100 % 0x100) as u8;
        hash[2] = (h / 0x10000 % 0x100) as u8;
        hash[3] = (h / 0x1000000) as u8;
        assert(hash@ =~= numbered_hash(h));
        hash
    }

    /// Makes an operation fail.
    pub fn add_fault(&mut self, op: Op)
        ensures
            final(self).chores() == old(self).chores(),
            final(self).faulty() == old(self).faulty().insert(op@),
            final(self).ideal() == old(self).ideal(),
            final(self).hashes() == old(self).hashes(),
            final(self).state() == (ReplicaState { faultless: false, ..old(self).state() }),
    {
        let ghost l = self.faults@;
        let ghost x = op@;
        self.faults.push(op);
        proof {
            let m = self.faults@;
            assert forall|o: OpModel| ops(m).contains(o) == ops(l).insert(x).contains(o) by {
                if ops(l).contains(o) {
                    let i = choose|i: int| 0 <= i < l.len() && (#[trigger] l[i])@ == o;
                    assert(m[i]@ == o);
                }
                if o == x {
                    assert(m[l.len() as int]@ == o);
                }
                if ops(m).contains(o) && o != x {
                    let i = choose|i: int| 0 <= i < m.len() && (#[trigger] m[i])@ == o;
                    assert(l[i]@ == o);
                }
            }
            assert(ops(m) =~= ops(l).insert(x));
        }
    }

    /// Makes all operations work.
    pub fn clear_faults(&mut self)
        ensures
            final(self).chores() == old(self).chores(),
            final(self).faulty() == Set::<OpModel>::empty(),
            final(self).ideal() == old(self).ideal(),
            final(self).hashes() == old(self).hashes(),
            final(self).state() == (ReplicaState { faultless: true, ..old(self).state() }),
    {
        self.faults = Vec::new();
        assert(ops(self.faults@) =~= Set::empty());
    }

    /// Returns whether any operation fails.
    pub fn has_faults(&self) -> (r: bool)
        ensures
            r == !self.state().faultless,
    {
        self.faults.len() > 0
    }

    /// Considers all directories dirty.
    pub fn mark_all_dirty(&mut self)
        ensures
            final(self).chores() == old(self).chores(),
            final(self).faulty() == old(self).faulty(),
            final(self).ideal() == old(self).ideal(),
            final(self).hashes() == old(self).hashes(),
            final(self).state() == (ReplicaState {
                clean: Set::<Path>::empty(),
                ..old(self).state()
            }),
    {
        self.clean = Vec::new();
        assert(paths(self.clean@) =~= Set::empty());
    }

    /// Fails if the given operation does.
    fn test_op(&self, op: Op) -> (r: Result<()>)
        ensures
            r is Err <==> self.faulty().contains(op@),
            r matches Err(e) ==> e.kind == ErrorKind::NotFound,
            self.state().faultless ==> r is Ok,
    {
        let mut i: usize = 0;
        while i < self.faults.len()
            invariant
                i <= self.faults@.len(),
                forall|j: int| 0 <= j < i ==> (#[trigger] self.faults@[j])@ != op@,
            decreases self.faults@.len() - i,
        {
            if self.faults[i].same(&op) {
                assert(self.faults@[i as int]@ == op@);
                return simple_error();
            }
            i += 1;
        }
        Ok(())
    }

    /// Forgets that the directory of the given name, and those below it, are
    /// clean.
    fn dirty(&mut self, dir: &DirHandle, name: &[u8])
        ensures
            final(self).root == old(self).root,
            final(self).condemned == old(self).condemned,
            final(self).faults == old(self).faults,
            final(self).next_hash == old(self).next_hash,
            final(self).past == old(self).past,
            forall|q: Path| #[trigger]
                paths(final(self).clean@).contains(q) <==> paths(old(self).clean@).contains(q)
                    && !covers(dir.path().push(name@), q),
    {
        let path = file_path(dir, name);
        drop_paths(&mut self.clean, &path, true);
    }

    /// Returns what is in a directory that exists, leaving nothing in it.
    fn take_out(&mut self, dir: &DirHandle) -> (r: NameMap<Entry>)
        requires
            place::is_there(tree(old(self).root), dir.path()),
        ensures
            tree(r) == place::kids_of(tree(old(self).root), dir.path()),
            fair(old(self).root) ==> fair(r) && fair(final(self).root),
            tree(final(self).root) == place::graft(
                tree(old(self).root),
                dir.path(),
                dir.modes(),
                Map::empty(),
            ),
            place::is_there(tree(final(self).root), dir.path()),
            final(self).clean == old(self).clean,
            final(self).condemned == old(self).condemned,
            final(self).faults == old(self).faults,
            final(self).next_hash == old(self).next_hash,
            final(self).past == old(self).past,
    {
        let nothing: NameMap<Entry> = NameMap::new();
        proof {
            lemma_tree(nothing);
            assert(tree(nothing) =~= Map::empty());
            assert(fair(nothing));
            assert(rest(dir.names@, 0) =~= dir.path());
            lemma_exchanged(tree(self.root), dir.path(), dir.modes(), Map::empty());
        }
        exchange(&mut self.root, &dir.names, 0, nothing, Ghost(dir.modes@))
    }

    /// Puts `new` into a directory that exists.
    fn put_in(&mut self, dir: &DirHandle, new: NameMap<Entry>)
        requires
            place::is_there(tree(old(self).root), dir.path()),
        ensures
            fair(old(self).root) && fair(new) ==> fair(final(self).root),
            tree(final(self).root) == place::graft(
                tree(old(self).root),
                dir.path(),
                dir.modes(),
                tree(new),
            ),
            final(self).clean == old(self).clean,
            final(self).condemned == old(self).condemned,
            final(self).faults == old(self).faults,
            final(self).next_hash == old(self).next_hash,
            final(self).past == old(self).past,
    {
        proof {
            assert(rest(dir.names@, 0) =~= dir.path());
        }
        let _ = exchange(&mut self.root, &dir.names, 0, new, Ghost(dir.modes@));
    }

    /// Fails if making the directories that are missing on the way to a
    /// synthetic one does, where the first `there` of them exist.
    fn test_synthetics(&self, dir: &DirHandle, there: usize) -> (r: Result<()>)
        ensures
            r is Ok <==> makes_synthetics(self.faulty(), dir.path(), there as int),
            r matches Err(e) ==> e.kind == ErrorKind::NotFound,
            self.state().faultless ==> r is Ok,
    {
        let mut i: usize = there;
        while i < dir.names.len()
            invariant
                there <= i,
                forall|j: int|
                    there <= j < i && j < dir.names@.len() ==> !self.faulty().contains(
                        OpModel::CreateSynthetic(#[trigger] dir.path()[j]),
                    ),
            decreases dir.names@.len() - i,
        {
            assert(dir.path()[i as int] == dir.names@[i as int]@);
            match self.test_op(Op::CreateSynthetic(bytes::copy(dir.names[i].as_slice()))) {
                Ok(_) => {},
                Err(e) => {
                    return Err(e);
                },
            }
            i += 1;
        }
        Ok(())
    }

    /// Fails if one of the operations that replacing a file by one of another
    /// type takes does. A directory is removed first; any other file is moved
    /// out of the way until the new one has been created.
    fn test_replacement(&self, dir: &DirHandle, name: &[u8], is_dir: bool) -> (r: Result<()>)
        ensures
            r is Ok <==> replaceable(self.faulty(), dir.shown(), name@, is_dir),
            r matches Err(e) ==> e.kind == ErrorKind::NotFound,
            self.state().faultless ==> r is Ok,
    {
        proof {
            use_type_invariant(dir);
        }
        let first = if is_dir {
            Op::Remove(bytes::copy(dir.path.as_slice()), bytes::copy(name))
        } else {
            Op::Rename(bytes::copy(dir.path.as_slice()), bytes::copy(name))
        };
        match self.test_op(first) {
            Ok(_) => self.test_op(
                Op::Create(bytes::copy(dir.path.as_slice()), bytes::copy(name)),
            ),
            Err(e) => Err(e),
        }
    }

    /// Removes what is condemned from the contents of a directory.
    fn flush(&mut self, dir: &DirHandle, contents: &mut NameMap<Entry>)
        ensures
            final(self).root == old(self).root,
            final(self).faults == old(self).faults,
            final(self).next_hash == old(self).next_hash,
            final(self).past == old(self).past,
            tree(*final(contents)) == replica::spared(
                tree(*old(contents)),
                paths(old(self).condemned@),
                dir.path(),
            ),
            fair(*old(contents)) ==> fair(*final(contents)),
            paths(final(self).condemned@) == replica::pardoned(
                paths(old(self).condemned@),
                dir.path(),
            ),
            paths(final(self).clean@).subset_of(paths(old(self).clean@)),
    {
        let ghost p = dir.path();
        let ghost t0 = tree(*contents);
        let mut all: Vec<Vec<Name>> = Vec::new();
        std::mem::swap(&mut all, &mut self.condemned);
        let ghost before = all@;
        proof {
            assert(paths(before.skip(before.len() as int)) =~= Set::empty());
            assert(paths(self.condemned@) =~= Set::empty());
            assert(replica::spared(t0, Set::empty(), p) =~= t0);
            assert(replica::pardoned(Set::empty(), p) =~= Set::empty());
        }
        loop
            invariant
                p == dir.path(),
                all@.len() <= before.len(),
                all@ == before.take(all@.len() as int),
                tree(*contents) == replica::spared(
                    t0,
                    paths(before.skip(all@.len() as int)),
                    p,
                ),
                fair(*old(contents)) ==> fair(*contents),
                paths(self.condemned@) == replica::pardoned(
                    paths(before.skip(all@.len() as int)),
                    p,
                ),
                paths(self.clean@).subset_of(paths(old(self).clean@)),
                self.root == old(self).root,
                self.faults == old(self).faults,
                self.next_hash == old(self).next_hash,
                self.past == old(self).past,
            ensures
                all@.len() == 0,
            decreases all@.len(),
        {
            let ghost i = all@.len() - 1;
            let ghost done = paths(before.skip(i + 1));
            let x: Vec<Name> = match all.pop() {
                Some(x) => x,
                None => {
                    break;
                },
            };
            let ghost q = names(x@);
            let ghost done2 = paths(before.skip(i));
            proof {
                assert(before.take(i + 1)[i] == before[i]);
                lemma_paths_skip(before, i);
                assert(all@ =~= before.take(i));
                assert(done2 == done.insert(q));
            }
            let len: usize = dir.names.len();
            if x.len() > len && x.len() - 1 == len && is_prefix(&dir.names, &x) {
                let ghost c1 = *contents;
                let ghost clean1 = self.clean@;
                let _ = contents.remove(x[len].as_slice());
                self.dirty(dir, x[len].as_slice());
                proof {
                    let n = x@[len as int]@;
                    lemma_tree_remove(c1, *contents, n);
                    assert(q.drop_last() =~= q.take(len as int));
                    assert(q =~= p.push(n));
                    assert forall|m: Seq<u8>| p.push(m) == q implies m == n by {
                        assert(p.push(m).last() == m);
                    }
                    assert(replica::spared(t0, done2, p) =~= replica::spared(t0, done, p).remove(
                        n,
                    ));
                    assert(replica::pardoned(done2, p) =~= replica::pardoned(done, p));
                }
            } else {
                proof {
                    assert forall|m: Seq<u8>| p.push(m) != q by {
                        if p.push(m) == q {
                            assert(q.take(len as int) =~= p);
                        }
                    }
                    assert(!(q.len() > 0 && q.drop_last() == p)) by {
                        if q.len() > 0 && q.drop_last() == p {
                            assert(q =~= p.push(q.last()));
                        }
                    }
                    assert(replica::spared(t0, done2, p) =~= replica::spared(t0, done, p));
                    assert(replica::pardoned(done2, p) =~= replica::pardoned(done, p).insert(q));
                }
                add_path(&mut self.condemned, x);
            }
        }
        proof {
            assert(before.skip(0) =~= before);
        }
    }

    /// Returns what is in a directory, if it exists.
    fn contents(&self, dir: &DirHandle) -> (r: Option<&NameMap<Entry>>)
        ensures
            match r {
                Some(d) => {
                    &&& place::is_there(tree(self.root), dir.path())
                    &&& tree(*d) == place::kids_of(tree(self.root), dir.path())
                    &&& fair(self.root) ==> fair(*d)
                },
                None => !place::is_there(tree(self.root), dir.path()),
            },
    {
        proof {
            assert(rest(dir.names@, 0) =~= dir.path());
        }
        find(&self.root, &dir.names, 0)
    }
}

/// Only dropping what is marked clean keeps what is marked clean.
proof fn lemma_restructured(before: ReplicaState, after: ReplicaState, p: Path)
    requires
        after.faultless == before.faultless,
        after.condemned == before.condemned,
        forall|q: Path| #[trigger] after.clean.contains(q) ==> before.clean.contains(q),
    ensures
        replica::restructured(before, after, p),
{
}

impl Replica for MemoryReplica {
    type Directory = DirHandle;

    type TransferIn = Option<HashId>;

    type TransferOut = Option<HashId>;

    closed spec fn ideal(&self) -> bool {
        fair(self.root)
    }

    closed spec fn state(&self) -> ReplicaState {
        ReplicaState {
            tree: tree(self.root),
            clean: paths(self.clean@),
            condemned: paths(self.condemned@),
            faultless: self.faults@.len() == 0,
        }
    }

    closed spec fn chores(&self) -> Seq<Chore> {
        self.past@
    }

    proof fn lemma_sound(&self) {
        lemma_tree_sound(self.root);
    }

    fn is_fatal(&self) -> (r: bool)
        ensures
            !r,
    {
        false
    }

    fn is_dir_dirty(&self, dir: &DirHandle) -> (r: bool)
        ensures
            r == !(self.state().clean.contains(dir.path()) && place::is_there(
                self.state().tree,
                dir.path(),
            )),
    {
        match self.contents(dir) {
            Some(_) => !has_path(&self.clean, &dir.names),
            None => true,
        }
    }

    fn set_dir_clean(&mut self, dir: &DirHandle) -> (r: Result<bool>)
        ensures
            r matches Ok(clean) && clean,
            final(self).faulty() == old(self).faulty(),
            final(self).state() == (ReplicaState {
                clean: if place::is_there(old(self).state().tree, dir.path()) {
                    old(self).state().clean.insert(dir.path())
                } else {
                    old(self).state().clean
                },
                ..old(self).state()
            }),
    {
        if self.contents(dir).is_some() {
            add_path(&mut self.clean, copy_path(&dir.names));
        }
        Ok(true)
    }

    fn root(&mut self) -> (r: Result<DirHandle>)
        ensures
            *final(self) == *old(self),
            r is Err <==> old(self).faulty().contains(OpModel::ReadRoot),
            r matches Ok(d) ==> d.path() == Seq::<Seq<u8>>::empty() && d.solid() == 0,
    {
        match self.test_op(Op::ReadRoot) {
            Ok(_) => {},
            Err(e) => {
                return Err(e);
            },
        }
        Ok(DirHandle { path: Vec::new(), names: Vec::new(), modes: Vec::new(), solid: 0 })
    }

    fn list(&mut self, dir: &mut DirHandle) -> (r: Result<Vec<(Name, FileData)>>)
        ensures
            r is Ok <==> !old(self).faulty().contains(OpModel::List(old(dir).shown())) && (
            place::is_there(old(self).state().tree, old(dir).path()) || old(dir).solid()
                < old(dir).path().len()),
            r matches Ok(l) ==> {
                let before = old(self).state();
                let p = old(dir).path();
                let left = replica::spared(
                    place::kids_of(before.tree, p),
                    before.condemned,
                    p,
                );
                &&& replica::listed(l@, replica::listing(left))
                &&& final(self).faulty() == old(self).faulty()
                &&& final(self).state().tree == (if place::is_there(before.tree, p) {
                    place::graft(before.tree, p, old(dir).modes(), left)
                } else {
                    before.tree
                })
            },
            r matches Err(e) ==> *final(self) == *old(self) && e.kind == ErrorKind::NotFound,
    {
        let ghost s0 = self.state();
        let ghost p = dir.path();
        let ghost k = place::kids_of(s0.tree, p);
        proof {
            use_type_invariant(&*dir);
            lemma_tree_sound(self.root);
            if k != Map::<Seq<u8>, Node>::empty() {
                mutate::lemma_held_is_there(s0.tree, p);
            }
            if s0.condemned.is_empty() {
                replica::lemma_spared(k, s0.condemned, p);
                place::lemma_graft_same(s0.tree, p, dir.modes());
            }
        }
        match self.test_op(Op::List(bytes::copy(dir.path.as_slice()))) {
            Ok(_) => {},
            Err(e) => {
                return Err(e);
            },
        }
        if self.contents(dir).is_none() {
            if dir.solid < dir.names.len() {
                assert(k =~= Map::empty());
                assert(replica::spared(k, s0.condemned, p) =~= Map::empty());
                return Ok(Vec::new());
            }
            proof {
                assert(p.take(p.len() as int) =~= p);
            }
            return Err(Error::new(ErrorKind::NotFound));
        }
        let ghost fair0 = fair(self.root);
        let mut contents = self.take_out(dir);
        self.flush(dir, &mut contents);
        let list = listed_entries(&contents);
        self.put_in(dir, contents);
        proof {
            lemma_exchanged(s0.tree, p, dir.modes(), replica::spared(k, s0.condemned, p));
        }
        Ok(list)
    }

    fn rename(&mut self, dir: &mut DirHandle, old_name: &[u8], new_name: &[u8]) -> (r: Result<()>)
        ensures
            ({
                let before = old(self).state();
                let p = old(dir).path();
                let k = place::kids_of(before.tree, p);
                let works = !old(self).faulty().contains(
                    OpModel::Rename(old(dir).shown(), old_name@),
                );
                let there = place::is_there(before.tree, p);
                &&& r is Ok <==> works && there && !k.dom().contains(new_name@) && k.dom().contains(
                    old_name@,
                )
                &&& r is Ok ==> final(self).state() == (ReplicaState {
                    tree: place::graft(
                        before.tree,
                        p,
                        old(dir).modes(),
                        model::renamed(k, old_name@, new_name@),
                    ),
                    clean: sullied(before.clean, p.push(old_name@)),
                    ..before
                })
                &&& r matches Err(e) ==> *final(self) == *old(self) && e.kind == (if works && there
                    && k.dom().contains(new_name@) {
                    ErrorKind::RenameDestExists
                } else {
                    ErrorKind::NotFound
                })
            }),
    {
        proof {
            use_type_invariant(&*dir);
        }
        match self.test_op(
            Op::Rename(bytes::copy(dir.path.as_slice()), bytes::copy(old_name)),
        ) {
            Ok(_) => {},
            Err(e) => {
                return Err(e);
            },
        }
        match self.contents(dir) {
            None => {
                return Err(Error::new(ErrorKind::NotFound));
            },
            Some(contents) => {
                proof {
                    lemma_tree(*contents);
                }
                if contents.contains_key(new_name) {
                    return Err(Error::new(ErrorKind::RenameDestExists));
                }
                if !contents.contains_key(old_name) {
                    return Err(Error::new(ErrorKind::NotFound));
                }
            },
        }
        let ghost t0 = self.state().tree;
        let ghost k = place::kids_of(t0, dir.path());
        let mut contents = self.take_out(dir);
        let ghost c0 = contents;
        proof {
            lemma_tree(c0);
        }
        if let Some(entry) = contents.remove(old_name) {
            let ghost c1 = contents;
            let _ = contents.insert(bytes::copy(new_name), entry);
            proof {
                lemma_tree_remove(c0, c1, old_name@);
                lemma_tree_insert(c1, contents, new_name@, entry);
                if fair(c0) {
                    assert(fair_entry(c0@[old_name@]));
                }
                assert(tree(contents) == model::renamed(k, old_name@, new_name@));
            }
        }
        self.put_in(dir, contents);
        proof {
            lemma_exchanged(t0, dir.path(), dir.modes(), model::renamed(k, old_name@, new_name@));
        }
        self.dirty(dir, old_name);
        proof {
            lemma_restructured(old(self).state(), self.state(), dir.path());
        }
        Ok(())
    }

    fn remove(&mut self, dir: &mut DirHandle, target: File) -> (r: Result<()>)
        ensures
            ({
                let before = old(self).state();
                let p = old(dir).path();
                let k = place::kids_of(before.tree, p);
                let works = !old(self).faulty().contains(
                    OpModel::Remove(old(dir).shown(), target.0@),
                );
                let found = works && place::is_there(before.tree, p) && k.dom().contains(target.0@);
                let expected = target.1@.matches_data(k[target.0@].data);
                let bare = k[target.0@].kids == Map::<Seq<u8>, Node>::empty();
                &&& r is Ok <==> found && expected && bare
                &&& r is Ok ==> final(self).state() == (ReplicaState {
                    tree: place::graft(before.tree, p, old(dir).modes(), k.remove(target.0@)),
                    clean: sullied(before.clean, p.push(target.0@)),
                    ..before
                })
                &&& r matches Err(e) ==> *final(self) == *old(self) && e.kind == (if !found {
                    ErrorKind::NotFound
                } else if !expected {
                    ErrorKind::ExpectationNotMatched
                } else {
                    ErrorKind::DirNotEmpty
                })
            }),
    {
        proof {
            use_type_invariant(&*dir);
        }
        match self.test_op(
            Op::Remove(bytes::copy(dir.path.as_slice()), bytes::copy(target.0)),
        ) {
            Ok(_) => {},
            Err(e) => {
                return Err(e);
            },
        }
        match self.contents(dir) {
            None => {
                return Err(Error::new(ErrorKind::NotFound));
            },
            Some(contents) => {
                proof {
                    lemma_tree(*contents);
                }
                match contents.get(target.0) {
                    None => {
                        return Err(Error::new(ErrorKind::NotFound));
                    },
                    Some(entry) => {
                        if !target.1.matches_data(&entry.file_data()) {
                            return Err(Error::new(ErrorKind::ExpectationNotMatched));
                        }
                        if !is_bare(entry) {
                            return Err(Error::new(ErrorKind::DirNotEmpty));
                        }
                    },
                }
            },
        }
        let ghost t0 = self.state().tree;
        let ghost k = place::kids_of(t0, dir.path());
        let mut contents = self.take_out(dir);
        let ghost c0 = contents;
        let _ = contents.remove(target.0);
        proof {
            lemma_tree_remove(c0, contents, target.0@);
            lemma_exchanged(t0, dir.path(), dir.modes(), k.remove(target.0@));
        }
        self.put_in(dir, contents);
        self.dirty(dir, target.0);
        proof {
            lemma_restructured(old(self).state(), self.state(), dir.path());
        }
        Ok(())
    }

    fn create(&mut self, dir: &mut DirHandle, source: File, xfer: Option<HashId>) -> (r: Result<
        FileData,
    >)
        ensures
            ({
                let before = old(self).state();
                let p = old(dir).path();
                let k = place::kids_of(before.tree, p);
                let reachable = !old(self).faulty().contains(
                    OpModel::Create(old(dir).shown(), source.0@),
                ) && place::is_there(before.tree, p.take(old(dir).solid() as int)) && synthesises(
                    old(self).faulty(),
                    before.tree,
                    p,
                );
                let taken = place::is_there(before.tree, p) && k.dom().contains(source.0@);
                let given = source.1@ is Regular ==> xfer is Some;
                &&& r is Ok <==> reachable && !taken && given && replica::makeable(before.tree, p)
                &&& r matches Ok(fd) ==> fd@ == filled(source.1@, xfer) && final(self).state() == (
                ReplicaState {
                    tree: place::graft(
                        before.tree,
                        p,
                        old(dir).modes(),
                        k.insert(source.0@, Node { data: fd@, kids: Map::empty() }),
                    ),
                    ..before
                })
                &&& r matches Err(e) ==> final(self).state() == before && e.kind == (
                if !reachable {
                    ErrorKind::NotFound
                } else if taken {
                    ErrorKind::CreateExists
                } else if !given {
                    ErrorKind::MissingXfer
                } else {
                    ErrorKind::SynthConflict
                })
            }),
    {
        proof {
            use_type_invariant(&*dir);
        }
        match self.test_op(
            Op::Create(bytes::copy(dir.path.as_slice()), bytes::copy(source.0)),
        ) {
            Ok(_) => {},
            Err(e) => {
                return Err(e);
            },
        }
        let ghost t0 = self.state().tree;
        let ghost p = dir.path();
        let ghost k = place::kids_of(t0, p);
        let there: usize = reach(&self.root, &dir.names, 0);
        proof {
            use_type_invariant(&*dir);
            assert(rest(dir.names@, 0) =~= p);
            assert(p.take(p.len() as int) =~= p);
            assert(place::is_there(t0, p.take(dir.solid - 0)) <==> dir.solid <= there);
            assert(place::is_there(t0, p.take(p.len() - 0)) <==> p.len() <= there);
            assert forall|j: int| 0 <= j < p.len() implies (place::is_there(
                t0,
                #[trigger] p.take(j + 1),
            ) <==> j < there) by {
                assert(place::is_there(t0, p.take(j + 1 - 0)) <==> j + 1 <= there);
            }
            assert(synthesises(self.faulty(), t0, p) == makes_synthetics(
                self.faulty(),
                p,
                there as int,
            )) by {
                if synthesises(self.faulty(), t0, p) {
                    assert forall|j: int| there <= j < p.len() implies !self.faulty().contains(
                        OpModel::CreateSynthetic(#[trigger] p[j]),
                    ) by {
                        assert(!place::is_there(t0, p.take(j + 1)));
                    }
                }
            }
            if there == p.len() {
                mutate::lemma_there_makeable(t0, p);
            }
            lemma_tree_sound(self.root);
            if k != Map::<Seq<u8>, Node>::empty() {
                mutate::lemma_held_is_there(t0, p);
            }
        }
        if there < dir.solid {
            return Err(Error::new(ErrorKind::NotFound));
        }
        match self.test_synthetics(dir, there) {
            Ok(_) => {},
            Err(e) => {
                return Err(e);
            },
        }
        if there == dir.names.len() {
            if let Some(contents) = self.contents(dir) {
                proof {
                    lemma_tree(*contents);
                }
                if contents.contains_key(source.0) {
                    return Err(Error::new(ErrorKind::CreateExists));
                }
            }
        }
        let entry = match Entry::from_file_data(source.1, xfer) {
            Ok(entry) => entry,
            Err(e) => {
                return Err(e);
            },
        };
        let ghost e0 = entry;
        let fd = entry.file_data();
        proof {
            assert(node(e0) == Node { data: fd@, kids: Map::<Seq<u8>, Node>::empty() });
        }
        if there == dir.names.len() {
            let mut contents = self.take_out(dir);
            let ghost c0 = contents;
            let _ = contents.insert(bytes::copy(source.0), entry);
            proof {
                lemma_tree_insert(c0, contents, source.0@, e0);
                lemma_exchanged(t0, p, dir.modes(), k.insert(source.0@, node(e0)));
            }
            self.put_in(dir, contents);
        } else {
            let mut contents: NameMap<Entry> = NameMap::new();
            let ghost c0 = contents;
            let _ = contents.insert(bytes::copy(source.0), entry);
            proof {
                lemma_tree(c0);
                lemma_tree_insert(c0, contents, source.0@, e0);
                assert(tree(c0) =~= Map::empty());
                assert(tree(contents).dom().contains(source.0@));
                assert(fair(c0));
                assert(dir.modes@.skip(0) =~= dir.modes@);
            }
            if !establish(&mut self.root, &dir.names, &dir.modes, 0, contents) {
                return Err(Error::new(ErrorKind::SynthConflict));
            }
        }
        proof {
            lemma_restructured(old(self).state(), self.state(), dir.path());
        }
        Ok(fd)
    }

    fn update(
        &mut self,
        dir: &mut DirHandle,
        name: &[u8],
        old_fd: &FileData,
        new_fd: &FileData,
        xfer: Option<HashId>,
    ) -> (r: Result<FileData>)
        ensures
            ({
                let before = old(self).state();
                let p = old(dir).path();
                let k = place::kids_of(before.tree, p);
                let x = k[name@];
                let found = !old(self).faulty().contains(
                    OpModel::Update(old(dir).shown(), name@),
                ) && place::is_there(before.tree, p) && k.dom().contains(name@);
                let expected = old_fd@.matches_data(x.data);
                let same = alike(x.data, new_fd@);
                let ready = same || replaceable(
                    old(self).faulty(),
                    old(dir).shown(),
                    name@,
                    x.data.is_dir(),
                );
                let bare = same || x.kids == Map::<Seq<u8>, Node>::empty();
                let given = new_fd@ is Regular ==> xfer is Some;
                &&& r is Ok <==> found && expected && ready && bare && given
                &&& r matches Ok(fd) ==> fd@ == filled(new_fd@, xfer) && final(self).state() == (
                ReplicaState {
                    tree: place::graft(
                        before.tree,
                        p,
                        old(dir).modes(),
                        model::with(k, name@, model::replaced(Some(x), Some(fd@))),
                    ),
                    clean: if x.data.is_dir() && !new_fd@.is_dir() {
                        sullied(before.clean, p.push(name@))
                    } else {
                        before.clean
                    },
                    ..before
                })
                &&& r matches Err(e) ==> *final(self) == *old(self) && e.kind == (if !found {
                    ErrorKind::NotFound
                } else if !expected {
                    ErrorKind::ExpectationNotMatched
                } else if !ready {
                    ErrorKind::NotFound
                } else if !bare {
                    ErrorKind::DirNotEmpty
                } else {
                    ErrorKind::MissingXfer
                })
            }),
    {
        proof {
            use_type_invariant(&*dir);
        }
        match self.test_op(Op::Update(bytes::copy(dir.path.as_slice()), bytes::copy(name))) {
            Ok(_) => {},
            Err(e) => {
                return Err(e);
            },
        }
        let ghost t0 = self.state().tree;
        let ghost k = place::kids_of(t0, dir.path());
        let was_dir = match self.contents(dir) {
            None => {
                return Err(Error::new(ErrorKind::NotFound));
            },
            Some(contents) => {
                proof {
                    lemma_tree(*contents);
                }
                match contents.get(name) {
                    None => {
                        return Err(Error::new(ErrorKind::NotFound));
                    },
                    Some(entry) => {
                        let fd = entry.file_data();
                        if !old_fd.matches_data(&fd) {
                            return Err(Error::new(ErrorKind::ExpectationNotMatched));
                        }
                        if !same_type(&fd, new_fd) {
                            match self.test_replacement(dir, name, fd.is_dir()) {
                                Ok(_) => {},
                                Err(e) => {
                                    return Err(e);
                                },
                            }
                            if !is_bare(entry) {
                                return Err(Error::new(ErrorKind::DirNotEmpty));
                            }
                        }
                        fd.is_dir()
                    },
                }
            },
        };
        let entry = match Entry::from_file_data(new_fd, xfer) {
            Ok(entry) => entry,
            Err(e) => {
                return Err(e);
            },
        };
        let ghost e0 = entry;
        let fd = entry.file_data();
        let mut contents = self.take_out(dir);
        let ghost c0 = contents;
        proof {
            lemma_tree(c0);
        }
        let old_entry = contents.remove(name);
        let ghost c1 = contents;
        let entry = match (old_entry, entry) {
            (Some(Entry::Directory(_, below)), Entry::Directory(mode, _)) => Entry::Directory(
                mode,
                below,
            ),
            (_, entry) => entry,
        };
        let ghost e1 = entry;
        let _ = contents.insert(bytes::copy(name), entry);
        proof {
            assert(contents@ =~= c0@.insert(name@, e1));
            lemma_tree_insert(c0, contents, name@, e1);
            if fair(c0) {
                assert(fair_entry(c0@[name@]));
            }
            let new = model::replaced(model::at(k, name@), Some(fd@));
            assert(node(e1).data == fd@);
            assert(Some(node(e1)) == new);
            lemma_exchanged(t0, dir.path(), dir.modes(), model::with(k, name@, new));
        }
        self.put_in(dir, contents);
        if was_dir && !fd.is_dir() {
            self.dirty(dir, name);
        }
        proof {
            lemma_restructured(old(self).state(), self.state(), dir.path());
        }
        Ok(fd)
    }

    fn chdir(&mut self, dir: &DirHandle, subdir: &[u8]) -> (r: Result<DirHandle>)
        ensures
            *final(self) == *old(self),
            r is Ok <==> !old(self).faulty().contains(
                OpModel::Chdir(replica::shown_in(dir.shown(), subdir@)),
            ) && place::is_there(old(self).state().tree, dir.path().push(subdir@)),
            r matches Ok(d) ==> d.path() == dir.path().push(subdir@) && d.solid() == d.path().len(),
            r matches Err(e) ==> e.kind == ErrorKind::NotFound,
    {
        proof {
            use_type_invariant(dir);
        }
        let path = catpath(dir.path.as_slice(), subdir);
        match self.test_op(Op::Chdir(bytes::copy(path.as_slice()))) {
            Ok(_) => {},
            Err(e) => {
                return Err(e);
            },
        }
        let mut full = copy_path(&dir.names);
        full.push(bytes::copy(subdir));
        let mut modes = copy_modes(&dir.modes);
        modes.push(0);
        let solid: usize = full.len();
        proof {
            assert(names(full@) =~= dir.path().push(subdir@));
            assert(names(full@).drop_last() =~= dir.path());
        }
        let sub = DirHandle { path, names: full, modes, solid };
        if self.contents(&sub).is_some() {
            Ok(sub)
        } else {
            Err(Error::new(ErrorKind::NotFound))
        }
    }

    fn synthdir(&mut self, dir: &DirHandle, subdir: &[u8], mode: FileMode) -> (r: DirHandle)
        ensures
            *final(self) == *old(self),
            r.path() == dir.path().push(subdir@),
            r.modes() == dir.modes().push(mode),
            r.solid() == dir.solid(),
            r.shown() == replica::shown_in(dir.shown(), subdir@),
    {
        proof {
            use_type_invariant(dir);
        }
        let mut full = copy_path(&dir.names);
        full.push(bytes::copy(subdir));
        let mut modes = copy_modes(&dir.modes);
        modes.push(mode);
        proof {
            assert(names(full@) =~= dir.path().push(subdir@));
            assert(names(full@).drop_last() =~= dir.path());
        }
        DirHandle {
            path: catpath(dir.path.as_slice(), subdir),
            names: full,
            modes,
            solid: dir.solid,
        }
    }

    fn rmdir(&mut self, dir: &mut DirHandle) -> (r: Result<()>)
        ensures
            ({
                let before = old(self).state();
                let p = old(dir).path();
                let there = place::is_there(before.tree, p);
                let works = !old(self).faulty().contains(OpModel::List(display(p.drop_last())))
                    && !old(self).faulty().contains(
                    OpModel::Remove(display(p.drop_last()), p.last()),
                );
                let bare = place::kids_of(before.tree, p) == Map::<Seq<u8>, Node>::empty();
                &&& r is Ok <==> p.len() > 0 && (there ==> works && bare)
                &&& r is Ok && there ==> final(self).state() == (ReplicaState {
                    tree: place::graft(
                        before.tree,
                        p.drop_last(),
                        old(dir).modes().drop_last(),
                        place::kids_of(before.tree, p.drop_last()).remove(p.last()),
                    ),
                    clean: sullied(before.clean, p),
                    ..before
                })
                &&& r is Ok && !there ==> *final(self) == *old(self)
                &&& r matches Err(e) ==> *final(self) == *old(self) && e.kind == (if p.len() == 0 {
                    ErrorKind::RmdirRoot
                } else if !works {
                    ErrorKind::NotFound
                } else {
                    ErrorKind::DirNotEmpty
                })
            }),
    {
        let ghost t0 = self.state().tree;
        let ghost p = dir.path();
        proof {
            use_type_invariant(&*dir);
        }
        let len: usize = dir.names.len();
        if len == 0 {
            return Err(Error::new(ErrorKind::RmdirRoot));
        }
        let empty = match self.contents(dir) {
            None => {
                return Ok(());
            },
            Some(contents) => {
                proof {
                    lemma_tree(*contents);
                }
                contents.len() == 0
            },
        };
        let parent = parent_of(dir);
        let name = bytes::copy(dir.names[len - 1].as_slice());
        proof {
            use_type_invariant(&parent);
            assert(parent.path() =~= p.drop_last());
            assert(p =~= parent.path().push(name@));
            if empty {
                assert(place::kids_of(t0, p) =~= Map::empty());
            }
            place::lemma_graft_child(t0, parent.path(), parent.modes(), name@, 0, Map::empty());
            lemma_there_parent(t0, parent.path(), name@);
        }
        match self.test_op(Op::List(bytes::copy(parent.path.as_slice()))) {
            Ok(_) => {},
            Err(e) => {
                return Err(e);
            },
        }
        match self.test_op(
            Op::Remove(bytes::copy(parent.path.as_slice()), bytes::copy(name.as_slice())),
        ) {
            Ok(_) => {},
            Err(e) => {
                return Err(e);
            },
        }
        if !empty {
            return Err(Error::new(ErrorKind::DirNotEmpty));
        }
        let ghost k = place::kids_of(t0, parent.path());
        let mut contents = self.take_out(&parent);
        let ghost c0 = contents;
        let _ = contents.remove(name.as_slice());
        proof {
            lemma_tree_remove(c0, contents, name@);
            lemma_exchanged(t0, parent.path(), parent.modes(), k.remove(name@));
        }
        self.put_in(&parent, contents);
        self.dirty(&parent, name.as_slice());
        proof {
            assert(parent.modes() =~= dir.modes().drop_last());
            assert(parent.path() =~= p.drop_last());
        }
        Ok(())
    }

    fn transfer(&mut self, dir: &DirHandle, file: File) -> (r: Result<Option<HashId>>)
        ensures
            *final(self) == *old(self),
            r is Ok <==> !old(self).faulty().contains(OpModel::Transfer(dir.shown(), file.0@))
                && place::is_there(old(self).state().tree, dir.path()) && place::kids_of(
                old(self).state().tree,
                dir.path(),
            ).dom().contains(file.0@),
            r matches Err(e) ==> e.kind == ErrorKind::NotFound,
    {
        proof {
            use_type_invariant(dir);
        }
        match self.test_op(
            Op::Transfer(bytes::copy(dir.path.as_slice()), bytes::copy(file.0)),
        ) {
            Ok(_) => {},
            Err(e) => {
                return Err(e);
            },
        }
        match self.contents(dir) {
            None => Err(Error::new(ErrorKind::NotFound)),
            Some(contents) => {
                proof {
                    lemma_tree(*contents);
                }
                match contents.get(file.0) {
                    None => Err(Error::new(ErrorKind::NotFound)),
                    Some(Entry::Regular(reg)) => {
                        proof {
                            if fair(*contents) {
                                assert(fair_entry(contents@[file.0@]));
                            }
                        }
                        Ok(Some(reg.content))
                    },
                    Some(_) => Ok(None),
                }
            },
        }
    }

    fn prepare(&mut self, typ: PrepareType) -> (r: Result<()>)
        ensures
            r is Ok,
            final(self).faulty() == old(self).faulty(),
            final(self).hashes() == old(self).hashes(),
            final(self).state() == (if typ is Clean || typ is Scrub {
                ReplicaState { clean: Set::<Path>::empty(), ..old(self).state() }
            } else {
                old(self).state()
            }),
    {
        match typ {
            PrepareType::Clean => self.mark_all_dirty(),
            PrepareType::Scrub => self.mark_all_dirty(),
            _ => {},
        }
        self.past = Ghost(self.past@.push(Chore::Prepare(typ, None)));
        Ok(())
    }

    fn clean_up(&mut self) -> (r: Result<()>)
        ensures
            r is Ok,
            final(self).faulty() == old(self).faulty(),
            final(self).hashes() == old(self).hashes(),
            final(self).state() == old(self).state(),
    {
        self.past = Ghost(self.past@.push(Chore::CleanUp(None)));
        Ok(())
    }
}

/// The parent of a directory that exists does.
proof fn lemma_there_parent(k: Kids, p: Path, n: Seq<u8>)
    requires
        place::is_there(k, p.push(n)),
    ensures
        place::is_there(k, p),
    decreases p.len(),
{
    if p.len() > 0 {
        assert(p.push(n)[0] == p[0]);
        assert(p.push(n).drop_first() =~= p.drop_first().push(n));
        lemma_there_parent(k[p[0]].kids, p.drop_first(), n);
    }
}

fn copy_modes(modes: &Vec<FileMode>) -> (r: Vec<FileMode>)
    ensures
        r@ == modes@,
{
    let mut r: Vec<FileMode> = Vec::new();
    let mut i: usize = 0;
    while i < modes.len()
        invariant
            i <= modes@.len(),
            r@ == modes@.take(i as int),
        decreases modes@.len() - i,
    {
        r.push(modes[i]);
        i += 1;
        assert(modes@.take(i as int) =~= modes@.take(i - 1).push(modes@[i - 1]));
    }
    assert(modes@.take(i as int) =~= modes@);
    r
}

/// Returns the directory that a directory other than the root is in.
fn parent_of(dir: &DirHandle) -> (r: DirHandle)
    requires
        dir.names@.len() > 0,
    ensures
        r.path() == dir.path().drop_last(),
        r.modes() == dir.modes().drop_last(),
{
    proof {
        use_type_invariant(dir);
    }
    let mut full = copy_path(&dir.names);
    let _ = full.pop();
    let mut modes = copy_modes(&dir.modes);
    let _ = modes.pop();
    let solid: usize = full.len();
    let path = shown(&full);
    proof {
        assert(names(full@) =~= dir.path().drop_last());
        assert(modes@ =~= dir.modes@.drop_last());
    }
    DirHandle { path, names: full, modes, solid }
}

/// Returns the path that a sequence of names denotes.
fn shown(full: &Vec<Name>) -> (r: Name)
    ensures
        r@ == display(names(full@)),
{
    let mut r: Name = Vec::new();
    let mut i: usize = 0;
    while i < full.len()
        invariant
            i <= full@.len(),
            r@ == display(names(full@).take(i as int)),
        decreases full@.len() - i,
    {
        r.push(0x2f);
        bytes::append(&mut r, full[i].as_slice());
        proof {
            let q = names(full@).take(i + 1);
            assert(q.drop_last() =~= names(full@).take(i as int));
            assert(q.last() == full@[i as int]@);
        }
        i += 1;
    }
    assert(names(full@).take(i as int) =~= names(full@));
    r
}

/// Returns whether there is nothing under an entry.
fn is_bare(entry: &Entry) -> (r: bool)
    ensures
        r == (node(*entry).kids == Map::<Seq<u8>, Node>::empty()),
{
    match entry {
        Entry::Directory(_, contents) => {
            let r = contents.len() == 0;
            proof {
                lemma_tree(*contents);
                if r {
                    assert(tree(*contents) =~= Map::empty());
                }
            }
            r
        },
        _ => true,
    }
}

/// Returns whether a file can be updated without changing its type.
fn same_type(a: &FileData, b: &FileData) -> (r: bool)
    ensures
        r == alike(a@, b@),
{
    match (a, b) {
        (FileData::Directory(_), FileData::Directory(_)) => true,
        (FileData::Regular(_, _, _, _), FileData::Regular(_, _, _, _)) => true,
        (FileData::Symlink(_), FileData::Symlink(_)) => true,
        (FileData::Special, FileData::Special) => true,
        _ => false,
    }
}

/// Returns the entries of a directory.
fn listed_entries(m: &NameMap<Entry>) -> (r: Vec<(Name, FileData)>)
    ensures
        replica::listed(r@, replica::listing(tree(*m))),
{
    let len: usize = m.len();
    let mut r: Vec<(Name, FileData)> = Vec::new();
    let mut i: usize = 0;
    proof {
        lemma_tree(*m);
    }
    while i < len
        invariant
            i <= len,
            len == m.order().len(),
            r@.len() == i,
            forall|j: int|
                0 <= j < i ==> (#[trigger] r@[j]).0@ == m.order()[j] && m@.dom().contains(
                    r@[j].0@,
                ) && r@[j].1@ == entry_data(m@[r@[j].0@]),
        decreases len - i,
    {
        r.push((bytes::copy(m.name_at(i).as_slice()), m.value_at(i).file_data()));
        i += 1;
    }
    proof {
        let l = replica::listing(tree(*m));
        assert forall|n: Seq<u8>| #[trigger] l.dom().contains(n) implies exists|j: int|
            0 <= j < r@.len() && #[trigger] r@[j].0@ == n by {
            assert(m.order().contains(n));
            let j = choose|j: int| 0 <= j < m.order().len() && m.order()[j] == n;
            assert(r@[j].0@ == n);
        }
        assert forall|x: int, y: int| 0 <= x < y < r@.len() implies #[trigger] r@[x].0@
            != #[trigger] r@[y].0@ by {
            bytes::lemma_before_asym(m.order()[x], m.order()[x]);
            assert(bytes::before(m.order()[x], m.order()[y]));
        }
        assert forall|j: int| 0 <= j < r@.len() implies l.dom().contains(#[trigger] r@[j].0@)
            && l[r@[j].0@] == r@[j].1@ by {
            assert(m@.dom().contains(r@[j].0@));
        }
    }
    r
}

impl NullTransfer for MemoryReplica {
    fn null_transfer(file: &FileData) -> (r: Option<HashId>) {
        match file {
            FileData::Regular(_, _, _, hash) => Some(*hash),
            _ => None,
        }
    }
}

impl Condemn for MemoryReplica {
    fn condemn(&mut self, dir: &mut DirHandle, file: &[u8]) -> (r: Result<()>)
        ensures
            r is Ok <==> place::is_there(old(self).state().tree, old(dir).path()),
            r matches Err(e) ==> *final(self) == *old(self) && e.kind == ErrorKind::NotFound,
    {
        if self.contents(dir).is_none() {
            return Err(Error::new(ErrorKind::NotFound));
        }
        let path = file_path(dir, file);
        add_path(&mut self.condemned, path);
        Ok(())
    }

    fn uncondemn(&mut self, dir: &mut DirHandle, file: &[u8]) -> (r: Result<()>)
        ensures
            r is Ok <==> place::is_there(old(self).state().tree, old(dir).path()),
            r matches Err(e) ==> *final(self) == *old(self) && e.kind == ErrorKind::NotFound,
    {
        if self.contents(dir).is_none() {
            return Err(Error::new(ErrorKind::NotFound));
        }
        let path = file_path(dir, file);
        let ghost before = paths(self.condemned@);
        drop_paths(&mut self.condemned, &path, false);
        assert(paths(self.condemned@) =~= before.remove(names(path@)));
        Ok(())
    }
}

/// Returns the path of a file in a directory.
fn file_path(dir: &DirHandle, name: &[u8]) -> (r: Vec<Name>)
    ensures
        names(r@) == dir.path().push(name@),
{
    let mut path = copy_path(&dir.names);
    path.push(bytes::copy(name));
    assert(names(path@) =~= dir.path().push(name@));
    path
}

/// A file whose hash, if it is a regular one, is reported as unknown.
pub open spec fn blurred(x: Node) -> Node {
    Node {
        data: match x.data {
            FileModel::Regular(mode, size, modified, _) => FileModel::Regular(
                mode,
                size,
                modified,
                UNKNOWN_HASH@,
            ),
            other => other,
        },
        kids: x.kids,
    }
}

impl MemoryReplica {
    /// Returns whether a name is condemned.
    pub fn is_condemned(&self, dir: &DirHandle, file: &[u8]) -> (r: Result<bool>)
        ensures
            match r {
                Ok(b) => place::is_there(self.state().tree, dir.path()) && b
                    == self.state().condemned.contains(dir.path().push(file@)),
                Err(_) => !place::is_there(self.state().tree, dir.path()),
            },
    {
        if self.contents(dir).is_none() {
            return Err(Error::new(ErrorKind::NotFound));
        }
        let path = file_path(dir, file);
        Ok(has_path(&self.condemned, &path))
    }

    /// Reports the hashes of all files in a directory as unknown.
    pub fn set_hashes_unknown(&mut self, dir: &DirHandle)
        requires
            place::is_there(old(self).state().tree, dir.path()),
        ensures
            final(self).chores() == old(self).chores(),
            final(self).state() == (ReplicaState {
                tree: place::graft(
                    old(self).state().tree,
                    dir.path(),
                    dir.modes(),
                    place::kids_of(old(self).state().tree, dir.path()).map_values(
                        |x: Node| blurred(x),
                    ),
                ),
                ..old(self).state()
            }),
            final(self).faulty() == old(self).faulty(),
            final(self).hashes() == old(self).hashes(),
    {
        let ghost t0 = self.state().tree;
        let ghost k = place::kids_of(t0, dir.path());
        let mut contents = self.take_out(dir);
        let ghost c0 = contents;
        let len: usize = contents.len();
        let mut left: Vec<Name> = Vec::new();
        let mut i: usize = 0;
        while i < len
            invariant
                i <= len,
                len == contents.order().len(),
                left@.len() == i,
                forall|j: int| 0 <= j < i ==> (#[trigger] left@[j])@ == contents.order()[j],
            decreases len - i,
        {
            left.push(bytes::copy(contents.name_at(i).as_slice()));
            i += 1;
        }
        proof {
            lemma_tree(c0);
            assert forall|n: Seq<u8>| #[trigger] c0@.dom().contains(n) implies exists|j: int|
                0 <= j < len && (#[trigger] left@[j])@ == n by {
                assert(c0.order().contains(n));
                let j = choose|j: int| 0 <= j < c0.order().len() && c0.order()[j] == n;
                assert(left@[j]@ == n);
            }
        }
        i = 0;
        while i < len
            invariant
                i <= len,
                left@.len() == len,
                contents@.dom() == c0@.dom(),
                k == tree(c0),
                forall|n: Seq<u8>| #[trigger]
                    c0@.dom().contains(n) ==> node(contents@[n]) == node(c0@[n]) || node(
                        contents@[n],
                    ) == blurred(node(c0@[n])),
                forall|j: int|
                    0 <= j < i && c0@.dom().contains(left@[j]@) ==> node(
                        contents@[(#[trigger] left@[j])@],
                    ) == blurred(node(c0@[left@[j]@])),
            decreases len - i,
        {
            let ghost c1 = contents;
            if let Some(entry) = contents.remove(left[i].as_slice()) {
                let new = match entry {
                    Entry::Regular(reg) => Entry::Regular(
                        Regular {
                            mode: reg.mode,
                            size: reg.size,
                            modified: reg.modified,
                            hash: UNKNOWN_HASH,
                            content: reg.content,
                        },
                    ),
                    other => other,
                };
                let ghost n = left@[i as int]@;
                let ghost new0 = new;
                let _ = contents.insert(bytes::copy(left[i].as_slice()), new);
                proof {
                    assert(contents@.dom() =~= c0@.dom());
                    assert(node(new0) == blurred(node(c1@[n])));
                    assert(blurred(blurred(node(c0@[n]))) == blurred(node(c0@[n])));
                    assert forall|j: int|
                        0 <= j < i + 1 && c0@.dom().contains(left@[j]@) implies node(
                        contents@[(#[trigger] left@[j])@],
                    ) == blurred(node(c0@[left@[j]@])) by {
                        if left@[j]@ != n {
                            assert(contents@[left@[j]@] == c1@[left@[j]@]);
                        }
                    }
                }
            }
            i += 1;
        }
        proof {
            lemma_tree(contents);
            assert(tree(contents) =~= k.map_values(|x: Node| blurred(x)));
            lemma_exchanged(t0, dir.path(), dir.modes(), tree(contents));
        }
        self.put_in(dir, contents);
    }
}

/// The hashes that represent contents are told apart by their first four bytes,
/// which make up the number; the others are null.
pub proof fn law_numbered_hash(i: u32, j: u32)
    ensures
        ({
            let h = numbered_hash(i);
            &&& h.len() == 32
            &&& i == h[0] + 256 * h[1] + 65536 * h[2] + 16777216 * h[3]
            &&& forall|k: int| 4 <= k < 32 ==> h[k] == 0
        }),
        numbered_hash(i) == numbered_hash(j) ==> i == j,
{
    let (g, h) = (numbered_hash(i), numbered_hash(j));
    assert(i == g[0] + 256 * g[1] + 65536 * g[2] + 16777216 * g[3]);
    assert(j == h[0] + 256 * h[1] + 65536 * h[2] + 16777216 * h[3]);
}

/// A file that content is transferred to has that content, and is otherwise as it
/// was. Nothing but a regular file has content.
pub proof fn law_filled(fd: FileModel, hash: HashId)
    ensures
        Some(hash).carries(filled(fd, Some(hash))),
        Some(hash).carries(fd) ==> filled(fd, Some(hash)) == fd,
        !(fd is Regular) ==> filled(fd, Some(hash)) == fd,
        fd is Regular ==> {
            let x = filled(fd, Some(hash));
            x is Regular && x.mode() == fd.mode() && x->Regular_1 == fd->Regular_1 && x->Regular_2
                == fd->Regular_2 && x->Regular_3 == hash@
        },
{
}

/// What is sullied is a directory and all below it; all else that was clean stays
/// so.
pub proof fn law_sullied(clean: Set<Path>, p: Path, q: Path)
    ensures
        !sullied(clean, p).contains(p),
        !sullied(clean, p).contains(p + q),
        sullied(clean, p).contains(q) ==> clean.contains(q),
        clean.contains(q) && !(q.len() >= p.len() && q.take(p.len() as int) == p) ==> sullied(
            clean,
            p,
        ).contains(q),
{
    assert(p.take(p.len() as int) =~= p);
    assert((p + q).take(p.len() as int) =~= p);
}

} // verus!
