//! What is stored of files.

use vstd::prelude::*;

use crate::bytes;
use crate::bytes::Name;
use crate::defs::{File, FileData, FileMode, FileModel};
use crate::errors::{Error, ErrorKind, Result};
use crate::posix::dao as hashes;
use crate::posix::dir;

use super::dao::{DeleteStatus, EntryModel, FileEntry, RenameStatus, UpdateStatus};

verus! {

/// The types of files in the store.
pub const T_REGULAR: i64 = 0;

pub const T_DIRECTORY: i64 = 1;

pub const T_SYMLINK: i64 = 2;

/// A real directory, identified simply by its database id.
#[derive(Clone, Copy, Debug, PartialEq, Eq, Structural)]
pub struct RealDir(pub i64);

/// Represents a possibly-uncreated synthetic directory.
#[derive(Debug, PartialEq, Eq)]
pub struct SynthDir {
    /// If present, the directory has been created and has the given id.
    /// Otherwise, the directory does not exist.
    pub id: Option<i64>,
    /// The name of the directory to create as-needed.
    pub name: Name,
    /// The mode of the directory to create should we need to.
    pub mode: FileMode,
}

/// A directory of the store.
#[derive(Debug, PartialEq, Eq)]
pub enum DirHandle {
    Real(RealDir),
    Synth(SynthDir),
}

impl DirHandle {
    /// The id of this directory, if it exists.
    pub open spec fn id(self) -> Option<i64> {
        match self {
            DirHandle::Real(d) => Some(d.0),
            DirHandle::Synth(d) => d.id,
        }
    }

    /// Gets the numeric handle for this directory.
    ///
    /// Fails if this is a synthetic directory that has not yet been created.
    pub fn get_h(&self) -> (r: Result<i64>)
        ensures
            match self.id() {
                Some(h) => r == Ok::<i64, Error>(h),
                None => r matches Err(e) && e.kind == ErrorKind::NotFound,
            },
    {
        match self {
            DirHandle::Real(d) => Ok(d.0),
            DirHandle::Synth(d) => match d.id {
                Some(h) => Ok(h),
                None => Err(Error::new(ErrorKind::NotFound)),
            },
        }
    }

    /// Returns whether this directory is synthetic and has not yet been
    /// materialised.
    pub fn is_deferred(&self) -> (r: bool)
        ensures
            r == (self.id() is None),
    {
        match self {
            DirHandle::Real(_) => false,
            DirHandle::Synth(d) => d.id.is_none(),
        }
    }

    /// Takes note of what came of creating this synthetic directory. If
    /// something else was there, this is very unexpected, so nothing is done to
    /// handle it gracefully.
    pub fn set_created(&mut self, created: Option<i64>) -> (r: Result<i64>)
        requires
            old(self).id() is None,
        ensures
            match created {
                Some(h) => r == Ok::<i64, Error>(h) && final(self).id() == Some(h),
                None => (r matches Err(e) && e.kind == ErrorKind::CreateExists) && *final(self)
                    == *old(self),
            },
    {
        match created {
            Some(h) => {
                if let DirHandle::Synth(d) = self {
                    d.id = Some(h);
                }
                Ok(h)
            },
            None => Err(Error::new(ErrorKind::CreateExists)),
        }
    }
}

/// How a file is stored in the directory `parent`. Its size is not.
pub open spec fn entry_of(parent: i64, name: Seq<u8>, fd: FileModel) -> EntryModel {
    match fd {
        FileModel::Regular(mode, _, mtime, hash) => EntryModel {
            id: -1i64 as i64,
            parent,
            name,
            typ: T_REGULAR,
            mode: mode as i64,
            mtime,
            content: hash,
        },
        FileModel::Directory(mode) => EntryModel {
            id: -1i64 as i64,
            parent,
            name,
            typ: T_DIRECTORY,
            mode: mode as i64,
            mtime: 0,
            content: Seq::empty(),
        },
        FileModel::Symlink(target) => EntryModel {
            id: -1i64 as i64,
            parent,
            name,
            typ: T_SYMLINK,
            mode: 0,
            mtime: 0,
            content: target,
        },
        FileModel::Special => arbitrary(),
    }
}

/// Returns how a file is stored. Special files cannot be stored.
pub fn as_entry(file: &File, parent: i64) -> (r: FileEntry)
    requires
        !(file.1@ is Special),
    ensures
        r@ == entry_of(parent, file.0@, file.1@),
{
    let name = bytes::copy(file.0);
    let r = match file.1 {
        FileData::Regular(mode, _, mtime, hash) => FileEntry {
            id: -1,
            parent,
            name,
            typ: T_REGULAR,
            mode: *mode as i64,
            mtime: *mtime,
            content: bytes::copy(hash.as_slice()),
        },
        FileData::Directory(mode) => FileEntry {
            id: -1,
            parent,
            name,
            typ: T_DIRECTORY,
            mode: *mode as i64,
            mtime: 0,
            content: Vec::new(),
        },
        FileData::Symlink(target) => FileEntry {
            id: -1,
            parent,
            name,
            typ: T_SYMLINK,
            mode: 0,
            mtime: 0,
            content: bytes::copy(target.as_slice()),
        },
        FileData::Special => FileEntry {
            id: -1,
            parent,
            name,
            typ: -1,
            mode: 0,
            mtime: 0,
            content: Vec::new(),
        },
    };
    assert(r@ =~= entry_of(parent, file.0@, file.1@));
    r
}

/// What is wrong with an entry of the store.
pub enum Flaw {
    InvalidType(i64),
    BadHash,
    NulByte,
}

/// The file that an entry stands for, or what is wrong with it.
pub open spec fn entry_file(e: EntryModel) -> core::result::Result<FileModel, Flaw> {
    if !dir::no_nul(e.name) {
        Err(Flaw::NulByte)
    } else if e.typ == T_REGULAR {
        if e.content.len() != 32 {
            Err(Flaw::BadHash)
        } else {
            Ok(FileModel::Regular(e.mode as u32, 0, e.mtime, e.content))
        }
    } else if e.typ == T_DIRECTORY {
        Ok(FileModel::Directory(e.mode as u32))
    } else if e.typ == T_SYMLINK {
        if dir::no_nul(e.content) {
            Ok(FileModel::Symlink(e.content))
        } else {
            Err(Flaw::NulByte)
        }
    } else {
        Err(Flaw::InvalidType(e.typ))
    }
}

fn has_nul(s: &Vec<u8>) -> (r: bool)
    ensures
        r == !dir::no_nul(s@),
{
    let mut i: usize = 0;
    while i < s.len()
        invariant
            i <= s@.len(),
            forall|j: int| 0 <= j < i ==> s@[j] != 0,
        decreases s@.len() - i,
    {
        if s[i] == 0 {
            return true;
        }
        i += 1;
    }
    false
}

/// Returns the file that an entry stands for, or what is wrong with it.
pub fn from_entry(e: &FileEntry) -> (r: core::result::Result<FileData, Flaw>)
    ensures
        match r {
            Ok(fd) => entry_file(e@) == Ok::<FileModel, Flaw>(fd@),
            Err(flaw) => entry_file(e@) == Err::<FileModel, Flaw>(flaw),
        },
{
    if has_nul(&e.name) {
        return Err(Flaw::NulByte);
    }
    if e.typ == T_REGULAR {
        match hashes::to_hashid(bytes::copy(e.content.as_slice())) {
            Ok(hash) => Ok(
                FileData::Regular(#[verifier::truncate] (e.mode as u32), 0, e.mtime, hash),
            ),
            Err(_) => Err(Flaw::BadHash),
        }
    } else if e.typ == T_DIRECTORY {
        Ok(FileData::Directory(#[verifier::truncate] (e.mode as u32)))
    } else if e.typ == T_SYMLINK {
        if has_nul(&e.content) {
            Err(Flaw::NulByte)
        } else {
            Ok(FileData::Symlink(bytes::copy(e.content.as_slice())))
        }
    } else {
        Err(Flaw::InvalidType(e.typ))
    }
}

/// What is read from the store is what was written to it, but for the size.
pub proof fn law_entry_round_trip(parent: i64, name: Seq<u8>, fd: FileModel)
    requires
        dir::no_nul(name),
        match fd {
            FileModel::Regular(_, _, _, hash) => hash.len() == 32,
            FileModel::Symlink(target) => dir::no_nul(target),
            FileModel::Directory(_) => true,
            FileModel::Special => false,
        },
    ensures
        entry_of(parent, name, fd).name == name,
        match entry_file(entry_of(parent, name, fd)) {
            Ok(read) => read.matches(fd) && (fd is Regular || read == fd),
            Err(_) => false,
        },
{
    match fd {
        FileModel::Regular(mode, _, _, _) => {
            assert((mode as i64) as u32 == mode) by (bit_vector);
        },
        FileModel::Directory(mode) => {
            assert((mode as i64) as u32 == mode) by (bit_vector);
        },
        _ => {},
    }
}

/// The type that the last entry has whose type is invalid.
pub open spec fn last_invalid(entries: Seq<FileEntry>) -> Option<i64>
    decreases entries.len(),
{
    if entries.len() == 0 {
        None
    } else {
        match entry_file(entries.last()@) {
            Err(Flaw::InvalidType(t)) => Some(t),
            _ => last_invalid(entries.drop_last()),
        }
    }
}

/// Whether an entry has no valid hash.
pub open spec fn has_bad_hash(entries: Seq<FileEntry>) -> bool {
    exists|i: int|
        0 <= i < entries.len() && (#[trigger] entry_file(entries[i]@) matches Err(f) && f is BadHash)
}

/// Whether an entry has a null byte where none must be.
pub open spec fn has_nul_byte(entries: Seq<FileEntry>) -> bool {
    exists|i: int|
        0 <= i < entries.len() && (#[trigger] entry_file(entries[i]@) matches Err(f) && f is NulByte)
}

/// Returns the listing of a directory, given its entries and whether there is
/// such a directory.
pub fn list(entries: &Vec<FileEntry>, present: bool) -> (r: Result<Vec<(Name, FileData)>>)
    ensures
        match r {
            Ok(l) => last_invalid(entries@) is None && !has_bad_hash(entries@) && !has_nul_byte(
                entries@,
            ) && present && l@.len() == entries@.len() && forall|i: int|
                0 <= i < l@.len() ==> (#[trigger] l@[i]).0@ == entries@[i].name@ && entry_file(
                    entries@[i]@,
                ) == Ok::<FileModel, Flaw>(l@[i].1@),
            Err(e) => match last_invalid(entries@) {
                Some(t) => e.kind == ErrorKind::InvalidAncestorFileType(t),
                None => if has_bad_hash(entries@) {
                    e.kind == ErrorKind::InvalidHash
                } else if has_nul_byte(entries@) {
                    e.kind == ErrorKind::NulInString
                } else {
                    !present && e.kind == ErrorKind::NotFound
                },
            },
        },
{
    let mut ret: Vec<(Name, FileData)> = Vec::new();
    let mut nul_error = false;
    let mut invalid_type: Option<i64> = None;
    let mut hash_error = false;
    let mut i: usize = 0;
    assert(entries@.take(0) =~= Seq::empty());
    while i < entries.len()
        invariant
            i <= entries@.len(),
            invalid_type == last_invalid(entries@.take(i as int)),
            hash_error == has_bad_hash(entries@.take(i as int)),
            nul_error == has_nul_byte(entries@.take(i as int)),
            invalid_type is None && !hash_error && !nul_error ==> ret@.len() == i && forall|j: int|
                0 <= j < i ==> (#[trigger] ret@[j]).0@ == entries@[j].name@ && entry_file(
                    entries@[j]@,
                ) == Ok::<FileModel, Flaw>(ret@[j].1@),
        decreases entries@.len() - i,
    {
        let ghost before = entries@.take(i as int);
        let ghost after = entries@.take(i + 1);
        proof {
            assert(after.drop_last() =~= before);
            assert(after.last() == entries@[i as int]);
            assert forall|j: int| 0 <= j < i implies #[trigger] before[j] == after[j] by {}
            assert(has_bad_hash(before) ==> has_bad_hash(after)) by {
                if has_bad_hash(before) {
                    let j = choose|j: int|
                        0 <= j < before.len() && (#[trigger] entry_file(before[j]@) matches Err(f)
                            && f is BadHash);
                    assert(entry_file(after[j]@) matches Err(f) && f is BadHash);
                }
            }
            assert(has_nul_byte(before) ==> has_nul_byte(after)) by {
                if has_nul_byte(before) {
                    let j = choose|j: int|
                        0 <= j < before.len() && (#[trigger] entry_file(before[j]@) matches Err(f)
                            && f is NulByte);
                    assert(entry_file(after[j]@) matches Err(f) && f is NulByte);
                }
            }
            assert(entry_file(after[i as int]@) == entry_file(entries@[i as int]@));
            assert(has_bad_hash(after) ==> has_bad_hash(before) || (entry_file(
                after[i as int]@,
            ) matches Err(f) && f is BadHash)) by {
                if has_bad_hash(after) {
                    let j = choose|j: int|
                        0 <= j < after.len() && (#[trigger] entry_file(after[j]@) matches Err(f)
                            && f is BadHash);
                    if j < i {
                        assert(entry_file(before[j]@) matches Err(f) && f is BadHash);
                    }
                }
            }
            assert(has_nul_byte(after) ==> has_nul_byte(before) || (entry_file(
                after[i as int]@,
            ) matches Err(f) && f is NulByte)) by {
                if has_nul_byte(after) {
                    let j = choose|j: int|
                        0 <= j < after.len() && (#[trigger] entry_file(after[j]@) matches Err(f)
                            && f is NulByte);
                    if j < i {
                        assert(entry_file(before[j]@) matches Err(f) && f is NulByte);
                    }
                }
            }
        }
        match from_entry(&entries[i]) {
            Ok(fd) => {
                ret.push((bytes::copy(entries[i].name.as_slice()), fd));
            },
            Err(Flaw::InvalidType(t)) => {
                invalid_type = Some(t);
            },
            Err(Flaw::BadHash) => {
                hash_error = true;
            },
            Err(Flaw::NulByte) => {
                nul_error = true;
            },
        }
        i += 1;
    }
    assert(entries@.take(i as int) =~= entries@);
    if let Some(t) = invalid_type {
        Err(Error::new(ErrorKind::InvalidAncestorFileType(t)))
    } else if hash_error {
        Err(Error::new(ErrorKind::InvalidHash))
    } else if nul_error {
        Err(Error::new(ErrorKind::NulInString))
    } else if !present {
        Err(Error::new(ErrorKind::NotFound))
    } else {
        Ok(ret)
    }
}

/// Returns what came of a rename.
pub fn renamed(status: RenameStatus) -> (r: Result<()>)
    ensures
        match status {
            RenameStatus::Success => r is Ok,
            RenameStatus::SourceNotFound => r matches Err(e) && e.kind == ErrorKind::NotFound,
            RenameStatus::DestExists => r matches Err(e) && e.kind == ErrorKind::RenameDestExists,
        },
{
    match status {
        RenameStatus::Success => Ok(()),
        RenameStatus::SourceNotFound => Err(Error::new(ErrorKind::NotFound)),
        RenameStatus::DestExists => Err(Error::new(ErrorKind::RenameDestExists)),
    }
}

/// Returns what came of removing a file.
pub fn removed(status: DeleteStatus) -> (r: Result<()>)
    ensures
        match status {
            DeleteStatus::Success => r is Ok,
            DeleteStatus::NotFound => r matches Err(e) && e.kind == ErrorKind::NotFound,
            DeleteStatus::NotMatched => r matches Err(e) && e.kind
                == ErrorKind::ExpectationNotMatched,
            DeleteStatus::DirNotEmpty => r matches Err(e) && e.kind == ErrorKind::DirNotEmpty,
        },
{
    match status {
        DeleteStatus::Success => Ok(()),
        DeleteStatus::NotFound => Err(Error::new(ErrorKind::NotFound)),
        DeleteStatus::NotMatched => Err(Error::new(ErrorKind::ExpectationNotMatched)),
        DeleteStatus::DirNotEmpty => Err(Error::new(ErrorKind::DirNotEmpty)),
    }
}

/// Returns what came of removing a directory by its handle. That it did not
/// exist is no error.
pub fn directory_removed(status: DeleteStatus) -> (r: Result<()>)
    requires
        status != DeleteStatus::NotMatched,
    ensures
        match status {
            DeleteStatus::DirNotEmpty => r matches Err(e) && e.kind == ErrorKind::DirNotEmpty,
            _ => r is Ok,
        },
{
    match status {
        DeleteStatus::DirNotEmpty => Err(Error::new(ErrorKind::DirNotEmpty)),
        _ => Ok(()),
    }
}

/// Returns what came of creating a file, given the id it got, if any.
pub fn created(id: Option<i64>, fd: FileData) -> (r: Result<FileData>)
    ensures
        match id {
            Some(_) => r == Ok::<FileData, Error>(fd),
            None => r matches Err(e) && e.kind == ErrorKind::CreateExists,
        },
{
    match id {
        Some(_) => Ok(fd),
        None => Err(Error::new(ErrorKind::CreateExists)),
    }
}

/// Returns whether a file is removed and another created in its place, instead
/// of being updated.
///
/// This gets us an implicit emptiness check and clearing of the condemnation
/// list for free, and breaks any stale handles to the now-non-directory since
/// the new entry will have a different id.
pub fn recreates(before: &FileData, after: &FileData) -> (r: bool)
    ensures
        r == (before@.is_dir() && !after@.is_dir()),
{
    before.is_dir() && !after.is_dir()
}

/// Returns what came of updating a file.
pub fn updated(status: UpdateStatus, fd: FileData) -> (r: Result<FileData>)
    ensures
        match status {
            UpdateStatus::Success => r == Ok::<FileData, Error>(fd),
            UpdateStatus::NotFound => r matches Err(e) && e.kind == ErrorKind::NotFound,
            UpdateStatus::NotMatched => r matches Err(e) && e.kind
                == ErrorKind::ExpectationNotMatched,
        },
{
    match status {
        UpdateStatus::Success => Ok(fd),
        UpdateStatus::NotFound => Err(Error::new(ErrorKind::NotFound)),
        UpdateStatus::NotMatched => Err(Error::new(ErrorKind::ExpectationNotMatched)),
    }
}

/// Returns the handle for a subdirectory, given the entry of its name.
pub fn entered(entry: &Option<FileEntry>) -> (r: Result<DirHandle>)
    ensures
        match *entry {
            Some(f) => if f.typ == T_DIRECTORY {
                r == Ok::<DirHandle, Error>(DirHandle::Real(RealDir(f.id)))
            } else {
                r matches Err(e) && e.kind == ErrorKind::NotADirectory
            },
            None => r matches Err(e) && e.kind == ErrorKind::NotFound,
        },
{
    match entry {
        Some(f) => {
            if f.typ == T_DIRECTORY {
                Ok(DirHandle::Real(RealDir(f.id)))
            } else {
                Err(Error::new(ErrorKind::NotADirectory))
            }
        },
        None => Err(Error::new(ErrorKind::NotFound)),
    }
}

/// What is written back of a file that was read from the store is what was there,
/// with the mode cut to the bits that modes have.
pub proof fn law_entry_rewritten(e: EntryModel)
    ensures
        entry_file(e) matches Ok(fd) ==> {
            let again = entry_of(e.parent, e.name, fd);
            &&& again.parent == e.parent && again.name == e.name && again.typ == e.typ
            &&& fd !is Directory ==> again.content == e.content
            &&& fd is Regular ==> again.mtime == e.mtime
            &&& fd !is Symlink ==> again.mode == e.mode as u32
        },
{
}

/// Files are stored as what they are: a regular file with the hash of its content,
/// a symbolic link with its target. An entry is readable exactly if it has one of
/// the three types, a name without null bytes, and a hash or a target that is
/// valid.
pub proof fn law_entry_types(parent: i64, name: Seq<u8>, fd: FileModel, e: EntryModel)
    requires
        fd !is Special,
    ensures
        ({
            let stored = entry_of(parent, name, fd);
            &&& fd is Regular <==> stored.typ == 0
            &&& fd is Directory <==> stored.typ == 1
            &&& fd is Symlink <==> stored.typ == 2
            &&& fd matches FileModel::Regular(_, _, _, hash) ==> stored.content == hash
            &&& fd matches FileModel::Symlink(target) ==> stored.content == target
            &&& fd.mode() matches Some(m) ==> stored.mode == m
        }),
        entry_file(e) is Ok <==> {
            &&& dir::no_nul(e.name)
            &&& e.typ == 0 && e.content.len() == 32 || e.typ == 1 || e.typ == 2 && dir::no_nul(
                e.content,
            )
        },
        entry_file(e) matches Err(flaw) ==> match flaw {
            Flaw::InvalidType(t) => t == e.typ && e.typ != 0 && e.typ != 1 && e.typ != 2,
            Flaw::BadHash => e.typ == 0 && e.content.len() != 32,
            Flaw::NulByte => !dir::no_nul(e.name) || e.typ == 2 && !dir::no_nul(e.content),
        },
{
    if let FileModel::Regular(mode, _, _, _) = fd {
        assert(mode as i64 == mode);
    }
}

/// The last entry of an invalid type is the one that is reported.
pub proof fn law_last_invalid(entries: Seq<FileEntry>)
    ensures
        match last_invalid(entries) {
            Some(t) => exists|i: int|
                0 <= i < entries.len() && #[trigger] entry_file(entries[i]@) == Err::<
                    FileModel,
                    Flaw,
                >(Flaw::InvalidType(t)) && forall|j: int|
                    i < j < entries.len() ==> !((#[trigger] entry_file(entries[j]@)) matches Err(f)
                        && f is InvalidType),
            None => forall|j: int|
                0 <= j < entries.len() ==> !((#[trigger] entry_file(entries[j]@)) matches Err(f)
                    && f is InvalidType),
        },
    decreases entries.len(),
{
    if entries.len() > 0 {
        let l = entries.len() - 1;
        let rest = entries.drop_last();
        assert(entries.last() == entries[l]);
        if let Err(Flaw::InvalidType(t)) = entry_file(entries.last()@) {
            assert(entry_file(entries[l]@) == Err::<FileModel, Flaw>(Flaw::InvalidType(t)));
        } else {
            law_last_invalid(rest);
            assert forall|j: int| 0 <= j < l implies rest[j] == entries[j] by {}
            match last_invalid(entries) {
                Some(t) => {
                    let i = choose|i: int|
                        0 <= i < rest.len() && #[trigger] entry_file(rest[i]@) == Err::<
                            FileModel,
                            Flaw,
                        >(Flaw::InvalidType(t)) && forall|j: int|
                            i < j < rest.len() ==> !((#[trigger] entry_file(
                                rest[j]@,
                            )) matches Err(f) && f is InvalidType);
                    assert(entry_file(entries[i]@) == Err::<FileModel, Flaw>(
                        Flaw::InvalidType(t),
                    ));
                    assert forall|j: int| i < j < entries.len() implies !((#[trigger] entry_file(
                        entries[j]@,
                    )) matches Err(f) && f is InvalidType) by {
                        if j < l {
                            assert(entry_file(rest[j]@) == entry_file(entries[j]@));
                        }
                    }
                },
                None => {
                    assert forall|j: int| 0 <= j < entries.len() implies !((#[trigger] entry_file(
                        entries[j]@,
                    )) matches Err(f) && f is InvalidType) by {
                        if j < l {
                            assert(entry_file(rest[j]@) == entry_file(entries[j]@));
                        }
                    }
                },
            }
        }
    }
}

} // verus!
