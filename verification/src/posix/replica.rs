//! What is done with files, and when.

use std::collections::HashMap;

use vstd::prelude::*;

use crate::bytes;
use crate::bytes::Name;
use crate::defs;
use crate::defs::{
    FileData, FileMode, FileModel, FileTime, HashId, PRIVATE_DIR_NAME, UNKNOWN_HASH,
};
use crate::errors::{Error, ErrorKind, Result};
use crate::path;
use crate::replica::PrepareType;
use crate::text;

use super::dao::InodeStatus;

verus! {

/// Whether a name has no special significance on UNIX: it is not empty, not "."
/// or "..", and contains no `/` or NUL character.
pub open spec fn sane_name(name: Seq<u8>) -> bool {
    &&& name.len() > 0
    &&& name != seq![path::DOT]
    &&& name != seq![path::DOT, path::DOT]
    &&& forall|i: int| 0 <= i < name.len() ==> name[i] != path::SEPARATOR && name[i] != 0
}

/// Fails if `name` has special significance on UNIX.
///
/// This isn't strictly necessary. We do it as a safety precaution, so that
/// corrupted server replicas (accidental or otherwise) cannot "escape" the sync
/// root by having ".." as a literal directory, for example.
pub fn assert_sane_filename(name: &[u8]) -> (r: Result<()>)
    ensures
        sane_name(name@) ==> r is Ok,
        !sane_name(name@) ==> (r matches Err(e) && e.kind is BadFilename
            && e.kind->BadFilename_0@ == name@),
{
    if is_sane(name) {
        Ok(())
    } else {
        Err(Error::new(ErrorKind::BadFilename(bytes::copy(name))))
    }
}

fn is_sane(name: &[u8]) -> (r: bool)
    ensures
        r == sane_name(name@),
{
    if name.len() == 0 {
        return false;
    }
    if name.len() == 1 && name[0] == path::DOT {
        assert(name@ =~= seq![path::DOT]);
        return false;
    }
    if name.len() == 2 && name[0] == path::DOT && name[1] == path::DOT {
        assert(name@ =~= seq![path::DOT, path::DOT]);
        return false;
    }
    proof {
        if name@ == seq![path::DOT] {
            assert(name@[0] == path::DOT);
        }
        if name@ == seq![path::DOT, path::DOT] {
            assert(name@[0] == path::DOT && name@[1] == path::DOT);
        }
    }
    let mut i: usize = 0;
    while i < name.len()
        invariant
            i <= name@.len(),
            forall|j: int| 0 <= j < i ==> name@[j] != path::SEPARATOR && name@[j] != 0,
        decreases name@.len() - i,
    {
        if name[i] == path::SEPARATOR || name[i] == 0 {
            return false;
        }
        i += 1;
    }
    true
}

/// A file of a sane name is directly in the directory that it is looked for
/// in.
pub proof fn law_no_escape(dir: Seq<u8>, name: Seq<u8>)
    requires
        sane_name(name),
        dir.len() > 0,
    ensures
        path::joined(dir, name).len() > dir.len(),
        path::joined(dir, name).take(dir.len() as int) == dir,
        path::relative(dir, path::joined(dir, name)) == Some(name),
{
    path::law_join_strip(dir, name);
    assert(path::joined(dir, name).take(dir.len() as int) =~= dir);
}

/// What a file is to the operating system.
pub enum FileKind {
    Directory,
    Symlink,
    Regular,
    Other,
}

/// What is still to be found out about a file.
pub enum Inspection {
    /// Nothing.
    Known(FileData),
    /// Where a symbolic link leads.
    Target,
    /// The hash of a regular file with the given mode.
    Hash(FileMode),
}

/// What is still to be found out about a file, over mathematical values.
pub enum InspectionModel {
    Known(FileModel),
    Target,
    Hash(FileMode),
}

impl View for Inspection {
    type V = InspectionModel;

    open spec fn view(&self) -> InspectionModel {
        match *self {
            Inspection::Known(fd) => InspectionModel::Known(fd@),
            Inspection::Target => InspectionModel::Target,
            Inspection::Hash(mode) => InspectionModel::Hash(mode),
        }
    }
}

/// What is still to be found out about the file at `file`.
pub open spec fn inspection(file: Seq<u8>, kind: FileKind, mode: u32) -> InspectionModel {
    let private = path::file_name_of(file) == Some(vstd::utf8::encode_utf8(PRIVATE_DIR_NAME@));
    match kind {
        FileKind::Directory if !private => InspectionModel::Known(
            FileModel::Directory((mode % 0o10000) as u32),
        ),
        FileKind::Symlink if !private => InspectionModel::Target,
        FileKind::Regular if !private => InspectionModel::Hash((mode % 0o10000) as u32),
        _ => InspectionModel::Known(FileModel::Special),
    }
}

/// Returns what is still to be found out about the file at `file`.
///
/// The private directory is treated as if it were a special file so that it can
/// not be affected by the syncing process. (Recursing into it could cause many
/// problems, since it is by nature very live during the sync process.)
pub fn inspect(file: &[u8], kind: &FileKind, mode: u32) -> (r: Inspection)
    ensures
        if path::file_name_of(file@) == Some(vstd::utf8::encode_utf8(PRIVATE_DIR_NAME@)) {
            r matches Inspection::Known(fd) && fd@ == FileModel::Special
        } else {
            match *kind {
                FileKind::Directory => r matches Inspection::Known(fd) && fd@
                    == FileModel::Directory((mode % 0o10000) as u32),
                FileKind::Symlink => r is Target,
                FileKind::Regular => r == Inspection::Hash((mode % 0o10000) as u32),
                FileKind::Other => r matches Inspection::Known(fd) && fd@ == FileModel::Special,
            }
        },
        r@ == inspection(file@, *kind, mode),
{
    let private = match path::file_name(file) {
        Some(n) => bytes::same(n.as_slice(), PRIVATE_DIR_NAME.as_bytes()),
        None => false,
    };
    if private {
        return Inspection::Known(FileData::Special);
    }
    match kind {
        FileKind::Directory => Inspection::Known(FileData::Directory(mode % 0o10000)),
        FileKind::Symlink => Inspection::Target,
        FileKind::Regular => Inspection::Hash(mode % 0o10000),
        FileKind::Other => Inspection::Known(FileData::Special),
    }
}

/// Where the hash of a file comes from.
#[derive(Debug, PartialEq, Eq)]
pub enum HashSource {
    Known(HashId),
    /// The content has to be read.
    Content,
}

/// Returns where the hash of a file comes from, given what the cache holds. It
/// is only computed if it is really needed.
pub fn hash_source(cached: Option<HashId>, calc_hash_if_unknown: bool) -> (r: HashSource)
    ensures
        r == match cached {
            Some(h) => HashSource::Known(h),
            None => if calc_hash_if_unknown {
                HashSource::Content
            } else {
                HashSource::Known(UNKNOWN_HASH)
            },
        },
{
    match cached {
        Some(h) => HashSource::Known(h),
        None => {
            if calc_hash_if_unknown {
                HashSource::Content
            } else {
                HashSource::Known(UNKNOWN_HASH)
            }
        },
    }
}

/// Returns whether an entry of the cache is still valid.
pub fn is_current(cached: &InodeStatus, now: &InodeStatus) -> (r: bool)
    ensures
        r == (*cached == *now),
{
    cached.ino == now.ino && cached.size == now.size && cached.mtime == now.mtime
}

/// Fails if a file is not what it is expected to be.
pub fn check_matches(now: &FileData, expected: &FileData) -> (r: Result<()>)
    ensures
        now@.matches(expected@) ==> r is Ok,
        !now@.matches(expected@) ==> (r matches Err(e) && e.kind
            == ErrorKind::ExpectationNotMatched),
{
    if now.matches(expected) {
        Ok(())
    } else {
        Err(Error::new(ErrorKind::ExpectationNotMatched))
    }
}

/// How a file is updated.
#[derive(Debug, PartialEq, Eq)]
pub enum UpdatePlan {
    /// The file stays in place, with another mode or modification time.
    Adjust { mode: Option<FileMode>, mtime: Option<FileTime> },
    /// The new file is created elsewhere and renamed into place.
    Replace {
        /// Whether the old file has to be moved away first, and removed
        /// afterwards.
        shunt: bool,
    },
}

/// How a file is updated. A change of nothing but mode and time is made in
/// place.
pub open spec fn update_plan(before: FileModel, after: FileModel) -> UpdatePlan {
    match (before, after) {
        (FileModel::Directory(m1), FileModel::Directory(m2)) => UpdatePlan::Adjust {
            mode: if m1 != m2 {
                Some(m2)
            } else {
                None
            },
            mtime: None,
        },
        (FileModel::Regular(m1, _, t1, h1), FileModel::Regular(m2, _, t2, h2)) => if h1 == h2 {
            UpdatePlan::Adjust {
                mode: if m1 != m2 {
                    Some(m2)
                } else {
                    None
                },
                mtime: if t1 != t2 {
                    Some(t2)
                } else {
                    None
                },
            }
        } else {
            UpdatePlan::Replace { shunt: false }
        },
        _ => UpdatePlan::Replace { shunt: before.is_dir() || after.is_dir() },
    }
}

/// Returns how a file is updated.
pub fn plan_update(before: &FileData, after: &FileData) -> (r: UpdatePlan)
    ensures
        r == update_plan(before@, after@),
{
    match (before, after) {
        (FileData::Directory(m1), FileData::Directory(m2)) => UpdatePlan::Adjust {
            mode: if *m1 != *m2 {
                Some(*m2)
            } else {
                None
            },
            mtime: None,
        },
        (FileData::Regular(m1, _, t1, h1), FileData::Regular(m2, _, t2, h2)) => {
            if defs::same_hash(h1, h2) {
                UpdatePlan::Adjust {
                    mode: if *m1 != *m2 {
                        Some(*m2)
                    } else {
                        None
                    },
                    mtime: if *t1 != *t2 {
                        Some(*t2)
                    } else {
                        None
                    },
                }
            } else {
                UpdatePlan::Replace { shunt: false }
            }
        },
        _ => UpdatePlan::Replace { shunt: before.is_dir() || after.is_dir() },
    }
}

/// A file whose content is to be changed is never touched in place, and a
/// directory is never renamed to make room for another.
pub proof fn law_update_plan(before: FileModel, after: FileModel)
    ensures
        update_plan(before, after) is Adjust ==> before.matches_content(after) || before.is_dir()
            && after.is_dir(),
        before.is_dir() && after.is_dir() ==> update_plan(before, after) is Adjust,
        update_plan(before, after) matches UpdatePlan::Replace { shunt } ==> (shunt <==> (
        before.is_dir() || after.is_dir())),
{
}

/// What a file becomes when it is given another mode or modification time, where
/// there is one.
pub open spec fn adjusted(
    before: FileModel,
    mode: Option<FileMode>,
    mtime: Option<FileTime>,
) -> FileModel {
    match before {
        FileModel::Regular(m, size, t, hash) => FileModel::Regular(
            mode.unwrap_or(m),
            size,
            mtime.unwrap_or(t),
            hash,
        ),
        FileModel::Directory(m) => FileModel::Directory(mode.unwrap_or(m)),
        other => other,
    }
}

/// A file that is adjusted in place becomes the file that it is to become; only
/// what differs is set, and only a regular file is given a modification time. All
/// that can be done in place is, since two regular files of the same content, or
/// two directories, differ in nothing else.
pub proof fn law_adjusted(before: FileModel, after: FileModel)
    ensures
        update_plan(before, after) matches UpdatePlan::Adjust { mode, mtime } ==> {
            &&& adjusted(before, mode, mtime).matches(after)
            &&& mode matches Some(m) ==> before.mode() != Some(m)
            &&& mtime matches Some(t) ==> before matches FileModel::Regular(_, _, was, _)
                && was != t
            &&& before.matches(after) ==> mode is None && mtime is None
        },
        update_plan(before, after) is Adjust <==> before.matches_content(after) && before.mode()
            is Some,
{
}

/// How a file is put into place.
pub enum PutPlan {
    /// A directory is created in place.
    Directory(FileMode),
    /// A symbolic link with the given target is created elsewhere and renamed
    /// into place.
    Symlink(Name),
    /// The content is transferred to elsewhere, which is then given a mode and
    /// a modification time and renamed into place.
    Regular(FileMode, FileTime),
}

impl PutPlan {
    /// The file that comes of carrying the plan out, with content of the given
    /// size and hash.
    pub open spec fn outcome(self, size: u64, hash: Seq<u8>) -> FileModel {
        match self {
            PutPlan::Directory(mode) => FileModel::Directory(mode),
            PutPlan::Symlink(target) => FileModel::Symlink(target@),
            PutPlan::Regular(mode, time) => FileModel::Regular(mode, size, time, hash),
        }
    }

    /// Whether carrying the plan out, with the content of `fd`, makes that very
    /// file.
    pub open spec fn makes(self, fd: FileModel) -> bool {
        match fd {
            FileModel::Regular(_, size, _, hash) => self.outcome(size, hash) == fd,
            _ => self.outcome(0, Seq::empty()) == fd,
        }
    }
}

/// Returns how a file is put into place. The content of a regular file must be
/// at hand.
pub fn plan_put(fd: &FileData, has_xfer: bool) -> (r: Result<PutPlan>)
    requires
        !(fd@ is Special),
    ensures
        match fd@ {
            FileModel::Directory(mode) => r matches Ok(PutPlan::Directory(m)) && m == mode,
            FileModel::Symlink(target) => r matches Ok(PutPlan::Symlink(t)) && t@ == target,
            FileModel::Regular(mode, _, time, _) => if has_xfer {
                r matches Ok(PutPlan::Regular(m, t)) && m == mode && t == time
            } else {
                r matches Err(e) && e.kind == ErrorKind::MissingXfer
            },
            FileModel::Special => true,
        },
        r matches Ok(plan) ==> plan.makes(fd@),
        r is Err ==> fd@ is Regular && !has_xfer,
{
    match fd {
        FileData::Directory(mode) => Ok(PutPlan::Directory(*mode)),
        FileData::Symlink(target) => Ok(PutPlan::Symlink(bytes::copy(target.as_slice()))),
        FileData::Regular(mode, _, time, _) => {
            if has_xfer {
                Ok(PutPlan::Regular(*mode, *time))
            } else {
                Err(Error::new(ErrorKind::MissingXfer))
            }
        },
        FileData::Special => Err(Error::new(ErrorKind::MissingXfer)),
    }
}

/// How a file is removed.
#[derive(Clone, Copy, Debug, PartialEq, Eq, Structural)]
pub enum RemovePlan {
    /// It is moved to the private directory, so that its content is still at
    /// hand if it turns up elsewhere.
    Hide,
    RemoveDir,
    Unlink,
}

/// How a file is removed.
pub open spec fn remove_plan(fd: FileModel) -> RemovePlan {
    if fd is Regular {
        RemovePlan::Hide
    } else if fd is Directory {
        RemovePlan::RemoveDir
    } else {
        RemovePlan::Unlink
    }
}

/// Returns how a file is removed.
pub fn plan_remove(fd: &FileData) -> (r: RemovePlan)
    ensures
        r == match fd@ {
            FileModel::Regular(_, _, _, _) => RemovePlan::Hide,
            FileModel::Directory(_) => RemovePlan::RemoveDir,
            _ => RemovePlan::Unlink,
        },
        r == remove_plan(fd@),
{
    match fd {
        FileData::Regular(_, _, _, _) => RemovePlan::Hide,
        FileData::Directory(_) => RemovePlan::RemoveDir,
        _ => RemovePlan::Unlink,
    }
}

/// What came of looking for a file.
pub enum Probe {
    Exists,
    NotFound,
    Failed(Error),
}

/// Goes on only if there is no file where one is to be created.
pub fn check_create(probe: Probe) -> (r: Result<()>)
    ensures
        match probe {
            Probe::Exists => r matches Err(e) && e.kind == ErrorKind::CreateExists,
            Probe::NotFound => r is Ok,
            Probe::Failed(e) => r == Err::<(), Error>(e),
        },
{
    match probe {
        Probe::Exists => Err(Error::new(ErrorKind::CreateExists)),
        Probe::NotFound => Ok(()),
        Probe::Failed(e) => Err(e),
    }
}

/// Goes on only if there is no file where one is to be renamed to.
pub fn check_rename(probe: Probe) -> (r: Result<()>)
    ensures
        match probe {
            Probe::Exists => r matches Err(e) && e.kind == ErrorKind::RenameDestExists,
            Probe::NotFound => r is Ok,
            Probe::Failed(e) => r == Err::<(), Error>(e),
        },
{
    match probe {
        Probe::Exists => Err(Error::new(ErrorKind::RenameDestExists)),
        Probe::NotFound => Ok(()),
        Probe::Failed(e) => Err(e),
    }
}

/// Where the file at `p` is moved out of the way, at the `n`th try.
pub open spec fn shunted(p: Seq<u8>, n: nat) -> Seq<u8> {
    p.push(0x21) + text::digit_bytes(n)
}

/// What to do about a file that is to be moved out of the way.
pub enum ShuntStep {
    /// See whether there is a file here.
    Look(Name),
    /// Rename it to the place that was looked at last.
    Rename,
    Fail(Error),
}

/// What to do about a file that is to be moved out of the way, over mathematical
/// values.
pub enum ShuntModel {
    Look(Seq<u8>),
    Rename,
    Fail,
}

impl View for ShuntStep {
    type V = ShuntModel;

    open spec fn view(&self) -> ShuntModel {
        match *self {
            ShuntStep::Look(q) => ShuntModel::Look(q@),
            ShuntStep::Rename => ShuntModel::Rename,
            ShuntStep::Fail(_) => ShuntModel::Fail,
        }
    }
}

/// What to do about the file at `p`, which is to be moved out of the way, after
/// having looked at `tries` places.
pub open spec fn shunting(p: Seq<u8>, tries: nat, last: Probe) -> ShuntModel {
    if tries > 0 && last is NotFound {
        ShuntModel::Rename
    } else if tries > 0 && (last is Failed || tries >= 65535) {
        ShuntModel::Fail
    } else {
        ShuntModel::Look(shunted(p, tries + 1))
    }
}

/// Returns what to do about the file at `p`, which is to be moved out of the
/// way, after having looked at `tries` places, given what came of the last
/// look. It is less persistent than the reconciler's renamer in case that
/// consistently finds something for some other reason.
pub fn shunt_step(p: &[u8], tries: u64, last: Probe) -> (r: ShuntStep)
    ensures
        if tries == 0 {
            r matches ShuntStep::Look(q) && q@ == shunted(p@, 1)
        } else {
            match last {
                Probe::NotFound => r is Rename,
                Probe::Failed(e) => r == ShuntStep::Fail(e),
                Probe::Exists => if tries < 65535 {
                    r matches ShuntStep::Look(q) && q@ == shunted(p@, (tries + 1) as nat)
                } else {
                    r matches ShuntStep::Fail(e) && e.kind == ErrorKind::AllSuffixesInUse
                },
            }
        },
        r@ == shunting(p@, tries as nat, last),
{
    if tries > 0 {
        match last {
            Probe::NotFound => {
                return ShuntStep::Rename;
            },
            Probe::Failed(e) => {
                return ShuntStep::Fail(e);
            },
            Probe::Exists => {},
        }
        if tries >= 65535 {
            return ShuntStep::Fail(Error::new(ErrorKind::AllSuffixesInUse));
        }
    }
    let mut q: Name = bytes::copy(p);
    q.push(0x21);
    text::push_digit_bytes(&mut q, tries + 1);
    ShuntStep::Look(q)
}

/// Every try to move a file out of the way looks at another place.
pub proof fn law_shunted(p: Seq<u8>, m: nat, n: nat)
    requires
        shunted(p, m) == shunted(p, n),
    ensures
        m == n,
{
    let l = p.len() + 1;
    assert(shunted(p, m).skip(l as int) =~= text::digit_bytes(m));
    assert(shunted(p, n).skip(l as int) =~= text::digit_bytes(n));
    text::lemma_digit_bytes_injective(m, n);
}

/// What the names of scratch files begin with.
pub const SCRATCH: &'static str = "scratch";

/// Returns the name of the `n`th scratch file.
pub fn scratch_name(n: u64) -> (r: Name)
    ensures
        r@ == vstd::utf8::encode_utf8("scratch-"@) + text::digit_bytes(n as nat),
{
    let mut r: Name = bytes::copy("scratch-".as_bytes());
    text::push_digit_bytes(&mut r, n);
    r
}

/// Returns whether a file in the private directory is a scratch file, which can
/// be removed.
pub fn is_scratch(name: &[u8]) -> (r: bool)
    ensures
        r == (vstd::utf8::valid_utf8(name@) && bytes::begins_with(
            name@,
            vstd::utf8::encode_utf8(SCRATCH@),
        )),
{
    match text::decode_utf8(bytes::copy(name)) {
        Some(_) => bytes::starts_with(name, SCRATCH.as_bytes()),
        None => false,
    }
}

/// Returns the directory in which a temporary file is created that is to end up
/// in the directory `dir`. If possible, it is created in the private directory.
/// But if that is on a different device, there is no choice but to create it in
/// the target directory.
pub fn temp_dir(private_dir: &[u8], private_dir_dev: u64, dir: &[u8], dev: u64) -> (r: Name)
    ensures
        r@ == if private_dir_dev == dev {
            private_dir@
        } else {
            dir@
        },
{
    if private_dir_dev == dev {
        bytes::copy(private_dir)
    } else {
        bytes::copy(dir)
    }
}

/// Returns whether what was read locally can be used in place of content with
/// the given hash. If not, the cache is wrong about where that is.
pub fn is_expected(hash: &HashId, actual: Option<HashId>) -> (r: bool)
    ensures
        r == (hash@ == match actual {
            Some(h) => h@,
            None => UNKNOWN_HASH@,
        }),
{
    match actual {
        Some(h) => defs::same_hash(hash, &h),
        None => defs::same_hash(hash, &UNKNOWN_HASH),
    }
}

/// What to do before looking for changes.
#[derive(Clone, Copy, Debug, PartialEq, Eq, Structural)]
pub struct PreparePlan {
    /// Whether the cache of hashes is discarded.
    pub purge_hash_cache: bool,
    /// Whether all directories are considered dirty.
    pub set_all_dirs_dirty: bool,
    /// Whether only those directories are looked at that have been noticed to
    /// be dirty.
    pub only_noticed: bool,
}

/// What to do before looking for changes.
pub open spec fn prepare_plan(typ: PrepareType, watching: bool) -> PreparePlan {
    PreparePlan {
        purge_hash_cache: typ is Scrub,
        set_all_dirs_dirty: typ is Scrub || typ is Clean,
        only_noticed: typ is Watched && watching,
    }
}

/// Returns what to do before looking for changes.
pub fn plan_prepare(typ: PrepareType, watching: bool) -> (r: PreparePlan)
    ensures
        r.purge_hash_cache == (typ is Scrub),
        r.set_all_dirs_dirty == (typ is Scrub || typ is Clean),
        r.only_noticed == (typ is Watched && watching),
        r == prepare_plan(typ, watching),
{
    match typ {
        PrepareType::Watched => PreparePlan {
            purge_hash_cache: false,
            set_all_dirs_dirty: false,
            only_noticed: watching,
        },
        PrepareType::Fast => PreparePlan {
            purge_hash_cache: false,
            set_all_dirs_dirty: false,
            only_noticed: false,
        },
        PrepareType::Clean => PreparePlan {
            purge_hash_cache: false,
            set_all_dirs_dirty: true,
            only_noticed: false,
        },
        PrepareType::Scrub => PreparePlan {
            purge_hash_cache: true,
            set_all_dirs_dirty: true,
            only_noticed: false,
        },
    }
}

/// Returns whether a directory that was clean is so still: it can be read, and
/// has the same hash.
pub fn is_still_clean(expected: &HashId, actual: Option<HashId>) -> (r: bool)
    ensures
        r == (actual matches Some(h) && h@ == expected@),
{
    match actual {
        Some(h) => defs::same_hash(&h, expected),
        None => false,
    }
}

/// The directories that are being watched.
pub struct Watched {
    /// Map from inode number to path being watched.
    watched: HashMap<u64, Name>,
    /// Inodes which have become dirty while being watched.
    dirty: Vec<u64>,
}

impl Watched {
    /// The paths that are being watched, by inode.
    pub closed spec fn paths(self) -> Map<u64, Name> {
        self.watched@
    }

    /// The inodes that have become dirty.
    pub closed spec fn dirty(self) -> Set<u64> {
        self.dirty@.to_set()
    }

    /// Returns a state in which nothing is being watched.
    pub fn new() -> (r: Self)
        ensures
            r.paths() == Map::<u64, Name>::empty(),
            r.dirty() == Set::<u64>::empty(),
    {
        let r = Watched { watched: HashMap::new(), dirty: Vec::new() };
        assert(r.dirty() =~= Set::<u64>::empty());
        r
    }

    /// Returns whether a directory has still to be watched.
    pub fn is_new(&self, inode: u64) -> (r: bool)
        ensures
            r == !self.paths().dom().contains(inode),
    {
        broadcast use vstd::std_specs::hash::group_hash_axioms;

        !self.watched.contains_key(&inode)
    }

    /// Takes note that a directory is being watched.
    pub fn watch(&mut self, inode: u64, dir: Name)
        ensures
            final(self).paths() == old(self).paths().insert(inode, dir),
            final(self).dirty() == old(self).dirty(),
    {
        broadcast use vstd::std_specs::hash::group_hash_axioms;

        self.watched.insert(inode, dir);
    }

    /// Takes note that a directory has changed.
    pub fn touch(&mut self, inode: u64)
        ensures
            final(self).paths() == old(self).paths(),
            final(self).dirty() == old(self).dirty().insert(inode),
    {
        let ghost before = self.dirty@;
        self.dirty.push(inode);
        proof {
            assert forall|x: u64| before.push(inode).contains(x) == (before.contains(x) || x
                == inode) by {
                if before.contains(x) {
                    let i = choose|i: int| 0 <= i < before.len() && before[i] == x;
                    assert(before.push(inode)[i] == x);
                }
                assert(before.push(inode)[before.len() as int] == inode);
            }
            assert forall|x: u64|
                #![auto]
                self.dirty@.to_set().contains(x) == before.to_set().insert(inode).contains(x) by {
                assert(self.dirty@.contains(x) == (before.contains(x) || x == inode));
            }
            assert(self.dirty@.to_set() =~= before.to_set().insert(inode));
        }
    }

    /// Returns the directories that have changed, and forgets about that.
    pub fn take_dirty(&mut self) -> (r: Vec<Name>)
        ensures
            final(self).paths() == old(self).paths(),
            final(self).dirty() == Set::<u64>::empty(),
            forall|p: Seq<u8>| #[trigger]
                path::names_of(r@).contains(p) <==> was_noticed(
                    old(self).paths(),
                    old(self).dirty(),
                    p,
                ),
    {
        broadcast use vstd::std_specs::hash::group_hash_axioms;

        let ghost paths = self.watched@;
        let ghost inodes = self.dirty@;
        let mut r: Vec<Name> = Vec::new();
        let mut i: usize = 0;
        while i < self.dirty.len()
            invariant
                i <= self.dirty@.len(),
                self.dirty@ == inodes,
                self.watched@ == paths,
                forall|p: Seq<u8>| #[trigger]
                    path::names_of(r@).contains(p) <==> exists|j: int|
                        0 <= j < i && paths.dom().contains(#[trigger] inodes[j])
                            && paths[inodes[j]]@ == p,
            decreases self.dirty@.len() - i,
        {
            broadcast use vstd::std_specs::hash::group_hash_axioms;

            let ghost before = r@;
            match self.watched.get(&self.dirty[i]) {
                Some(p) => {
                    r.push(bytes::copy(p.as_slice()));
                    proof {
                        let names = path::names_of(before);
                        assert(path::names_of(r@) =~= names.push(p@));
                        assert forall|x: Seq<u8>| names.push(p@).contains(x) == (names.contains(x)
                            || x == p@) by {
                            if names.contains(x) {
                                let j = choose|j: int| 0 <= j < names.len() && names[j] == x;
                                assert(names.push(p@)[j] == x);
                            }
                            assert(names.push(p@)[names.len() as int] == p@);
                        }
                        assert(paths.dom().contains(inodes[i as int]));
                    }
                },
                None => {},
            }
            proof {
                let n = inodes[i as int];
                assert forall|p: Seq<u8>| #[trigger]
                    path::names_of(r@).contains(p) <==> exists|j: int|
                        0 <= j < i + 1 && paths.dom().contains(#[trigger] inodes[j])
                            && paths[inodes[j]]@ == p by {
                    if path::names_of(before).contains(p) {
                        let j = choose|j: int|
                            0 <= j < i && paths.dom().contains(#[trigger] inodes[j])
                                && paths[inodes[j]]@ == p;
                        assert(0 <= j < i + 1 && paths.dom().contains(inodes[j]));
                    }
                    if paths.dom().contains(n) && paths[n]@ == p {
                        assert(paths.dom().contains(inodes[i as int]));
                    }
                }
            }
            i += 1;
        }
        self.dirty = Vec::new();
        proof {
            assert(self.dirty() =~= Set::<u64>::empty());
            assert forall|p: Seq<u8>| #[trigger]
                path::names_of(r@).contains(p) <==> was_noticed(paths, inodes.to_set(), p) by {
                if path::names_of(r@).contains(p) {
                    let j = choose|j: int|
                        0 <= j < i && paths.dom().contains(#[trigger] inodes[j])
                            && paths[inodes[j]]@ == p;
                    assert(inodes.to_set().contains(inodes[j]));
                }
                if was_noticed(paths, inodes.to_set(), p) {
                    let n = choose|n: u64| #[trigger]
                        inodes.to_set().contains(n) && paths.dom().contains(n) && paths[n]@ == p;
                    let j = choose|j: int| 0 <= j < inodes.len() && inodes[j] == n;
                    assert(paths.dom().contains(inodes[j]));
                }
            }
        }
        r
    }
}

/// Whether the directory `p` is watched and has become dirty.
pub open spec fn was_noticed(paths: Map<u64, Name>, dirty: Set<u64>, p: Seq<u8>) -> bool {
    exists|n: u64| #[trigger] dirty.contains(n) && paths.dom().contains(n) && paths[n]@ == p
}

/// Something that has happened to files.
pub enum FileEvent {
    Changed(Name),
    Renamed(Name, Name),
    /// Something may have been missed.
    Rescan,
    Failed(Option<Name>, String),
}

/// What is done about something that has happened to files.
pub enum EventAction {
    /// The directories that have changed are touched, and the handle is marked
    /// dirty.
    Touch(Vec<Name>),
    ContextLost,
    /// The user is told this.
    Tell(String),
}

/// Returns the path without its last component.
fn without_last(p: &[u8]) -> (r: Name)
    ensures
        r@ == path::directory_of(p@),
{
    path::split(p).directory
}

/// Returns what is done about something that has happened to files.
pub fn react(event: &FileEvent) -> (r: EventAction)
    ensures
        match *event {
            FileEvent::Changed(p) => r matches EventAction::Touch(v) && path::names_of(v@)
                == seq![path::directory_of(p@)],
            FileEvent::Renamed(p, q) => r matches EventAction::Touch(v) && path::names_of(v@)
                == seq![path::directory_of(p@), path::directory_of(q@)],
            FileEvent::Rescan => r is ContextLost,
            FileEvent::Failed(p, why) => r matches EventAction::Tell(s) && s@
                == "Error monitoring '"@ + (match p {
                Some(p) => text::utf8_lossy(p@),
                None => "<unknown>"@,
            }) + "' for changes: "@ + why@,
        },
{
    match event {
        FileEvent::Changed(p) => {
            let mut v: Vec<Name> = Vec::new();
            v.push(without_last(p.as_slice()));
            assert(path::names_of(v@) =~= seq![path::directory_of(p@)]);
            EventAction::Touch(v)
        },
        FileEvent::Renamed(p, q) => {
            let mut v: Vec<Name> = Vec::new();
            v.push(without_last(p.as_slice()));
            v.push(without_last(q.as_slice()));
            assert(path::names_of(v@) =~= seq![path::directory_of(p@), path::directory_of(q@)]);
            EventAction::Touch(v)
        },
        FileEvent::Rescan => EventAction::ContextLost,
        FileEvent::Failed(p, why) => {
            let mut s: String = String::new();
            s.append("Error monitoring '");
            match p {
                Some(p) => {
                    s.append(text::from_utf8_lossy(p.as_slice()).as_str());
                },
                None => {
                    s.append("<unknown>");
                },
            }
            s.append("' for changes: ");
            s.append(why.as_str());
            assert(s@ =~= "Error monitoring '"@ + (match *p {
                Some(p) => text::utf8_lossy(p@),
                None => "<unknown>"@,
            }) + "' for changes: "@ + why@);
            EventAction::Tell(s)
        },
    }
}

/// Returns whether a directory is to be considered dirty, given whether it is
/// known to be clean. One of which that cannot be found out is.
pub fn is_dirty(clean: Result<bool>) -> (r: bool)
    ensures
        r == !(clean matches Ok(c) && c),
{
    match clean {
        Ok(c) => !c,
        Err(_) => true,
    }
}

/// A name has no special significance exactly if it holds no NUL character and
/// leads, as a path, to the file of that name.
pub proof fn law_sane_name(name: Seq<u8>)
    ensures
        sane_name(name) <==> path::file_name_of(name) == Some(name) && !name.contains(0),
{
    path::law_own_name(name);
    if sane_name(name) {
        assert(!name.contains(0));
    }
    if path::file_name_of(name) == Some(name) && !name.contains(0) {
        assert forall|i: int| 0 <= i < name.len() implies name[i] != 0 by {
            assert(name.contains(name[i]));
        }
    }
}

/// A directory is noticed once it has been touched while it is watched, under the
/// path that it is watched by, and no other is.
pub proof fn law_noticed(paths: Map<u64, Name>, dirty: Set<u64>, inode: u64, dir: Name)
    ensures
        was_noticed(paths.insert(inode, dir), dirty.insert(inode), dir@),
        forall|p: Seq<u8>|
            p != dir@ ==> (#[trigger] was_noticed(
                paths.insert(inode, dir),
                dirty.insert(inode),
                p,
            ) ==> was_noticed(paths, dirty, p)),
        !dirty.contains(inode) ==> forall|p: Seq<u8>| #[trigger]
            was_noticed(paths.insert(inode, dir), dirty, p) == was_noticed(paths, dirty, p),
{
    let (more, all) = (paths.insert(inode, dir), dirty.insert(inode));
    assert(all.contains(inode) && more.dom().contains(inode) && more[inode]@ == dir@);
    assert forall|p: Seq<u8>| p != dir@ && #[trigger] was_noticed(more, all, p) implies was_noticed(
        paths,
        dirty,
        p,
    ) by {
        let n = choose|n: u64| #[trigger] all.contains(n) && more.dom().contains(n) && more[n]@ == p;
        assert(dirty.contains(n) && paths.dom().contains(n) && paths[n]@ == p);
    }
    if !dirty.contains(inode) {
        assert forall|p: Seq<u8>| #[trigger] was_noticed(more, dirty, p) == was_noticed(
            paths,
            dirty,
            p,
        ) by {
            if was_noticed(more, dirty, p) {
                let n = choose|n: u64| #[trigger]
                    dirty.contains(n) && more.dom().contains(n) && more[n]@ == p;
                assert(dirty.contains(n) && paths.dom().contains(n) && paths[n]@ == p);
            }
            if was_noticed(paths, dirty, p) {
                let n = choose|n: u64| #[trigger]
                    dirty.contains(n) && paths.dom().contains(n) && paths[n]@ == p;
                assert(dirty.contains(n) && more.dom().contains(n) && more[n]@ == p);
            }
        }
    }
}

/// The content of a regular file is kept for as long as it may turn up elsewhere;
/// nothing else is. Only a directory is removed as one.
pub proof fn law_remove_plan(fd: FileModel, other: FileModel)
    ensures
        remove_plan(fd) is Hide <==> fd is Regular,
        remove_plan(fd) is RemoveDir <==> fd.is_dir(),
        fd.matches_content(other) ==> remove_plan(fd) == remove_plan(other),
{
    defs::law_matching_types(fd, other);
}

/// The more thoroughly changes are looked for, the less is taken for granted.
/// Directories are left out only if they are watched.
pub proof fn law_prepare_plan(typ: PrepareType, watching: bool)
    ensures
        ({
            let x = prepare_plan(typ, watching);
            &&& x.purge_hash_cache ==> x.set_all_dirs_dirty
            &&& x.set_all_dirs_dirty ==> !x.only_noticed
            &&& x.only_noticed ==> watching
        }),
        prepare_plan(PrepareType::Scrub, watching).purge_hash_cache,
        prepare_plan(PrepareType::Clean, watching).set_all_dirs_dirty && !prepare_plan(
            PrepareType::Clean,
            watching,
        ).purge_hash_cache,
        !prepare_plan(PrepareType::Fast, watching).set_all_dirs_dirty && !prepare_plan(
            PrepareType::Fast,
            watching,
        ).only_noticed,
        prepare_plan(PrepareType::Watched, true).only_noticed,
        prepare_plan(PrepareType::Watched, false) == prepare_plan(PrepareType::Fast, false),
{
}

/// The private directory is never anything but a special file, whatever it is. Any
/// other file is what it is, with the permission bits of its mode, and no more has
/// to be found out of it than it takes to tell it from others of its type.
pub proof fn law_inspection(file: Seq<u8>, kind: FileKind, mode: u32)
    ensures
        ({
            let x = inspection(file, kind, mode);
            let private = path::file_name_of(file) == Some(
                vstd::utf8::encode_utf8("internal.ensync"@),
            );
            &&& private ==> x == InspectionModel::Known(FileModel::Special)
            &&& !private ==> match x {
                InspectionModel::Known(FileModel::Directory(m)) => kind is Directory && m == mode
                    % 4096,
                InspectionModel::Known(fd) => kind is Other && fd is Special,
                InspectionModel::Target => kind is Symlink,
                InspectionModel::Hash(m) => kind is Regular && m == mode % 4096,
            }
        }),
{
}

/// A file is moved to a place that was looked at and where there was nothing, and
/// to no other. As long as there is something, another place is looked at that none
/// of the ones before is, up to the 65535th. Nothing is done after a failure.
pub proof fn law_shunting(p: Seq<u8>, tries: nat, last: Probe)
    ensures
        shunting(p, tries, last) is Rename <==> tries > 0 && last is NotFound,
        tries > 0 && last is Failed ==> shunting(p, tries, last) is Fail,
        tries < 65535 && last is Exists ==> shunting(p, tries, last) is Look,
        tries >= 65535 && last is Exists ==> shunting(p, tries, last) is Fail,
        shunting(p, 0, last) is Look,
        shunting(p, tries, last) matches ShuntModel::Look(q) ==> {
            &&& q.len() > p.len() + 1 && q.take(p.len() as int) == p && q[p.len() as int] == 0x21
            &&& forall|before: nat, was: Probe|
                before < tries && #[trigger] shunting(p, before, was) is Look ==> shunting(
                    p,
                    before,
                    was,
                ) != ShuntModel::Look(q)
        },
{
    if let ShuntModel::Look(q) = shunting(p, tries, last) {
        text::law_digits(tries + 1, 10);
        assert(q.take(p.len() as int) =~= p);
        assert forall|before: nat, was: Probe|
            before < tries && #[trigger] shunting(p, before, was) is Look implies shunting(
            p,
            before,
            was,
        ) != ShuntModel::Look(q) by {
            if shunted(p, before + 1) == shunted(p, tries + 1) {
                law_shunted(p, before + 1, tries + 1);
            }
        }
    }
}

} // verus!
