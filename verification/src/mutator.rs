//! Directories that are stored as blobs, and what they are changed with.

use vstd::prelude::*;

use crate::bytes;
use crate::bytes::Name;
use crate::defs;
use crate::defs::{FileMode, HashId};
use crate::errors;
use crate::errors::Error;
use crate::rules::SyncMode;

verus! {

/// What an entry of a directory points to.
#[derive(Clone, Copy, Debug, PartialEq, Eq, Structural)]
pub enum DirPtrType {
    Directory,
    Regular,
    Symlink,
}

/// An entry of a directory.
#[derive(Debug, PartialEq, Eq)]
pub struct DirPtr {
    pub name: Name,
    pub typ: DirPtrType,
    pub mode: FileMode,
    /// The blob that the entry points to.
    pub value: HashId,
}

/// An entry of a directory, over mathematical values.
#[verifier::ext_equal]
pub struct PtrModel {
    pub name: Seq<u8>,
    pub typ: DirPtrType,
    pub mode: FileMode,
    pub value: Seq<u8>,
}

impl View for DirPtr {
    type V = PtrModel;

    open spec fn view(&self) -> PtrModel {
        PtrModel { name: self.name@, typ: self.typ, mode: self.mode, value: self.value@ }
    }
}

impl PtrModel {
    /// Whether two entries are the same but for their names.
    pub open spec fn matches(self, that: PtrModel) -> bool {
        self.typ == that.typ && self.mode == that.mode && self.value == that.value
    }
}

/// An entry that may be missing, over mathematical values.
pub open spec fn ptr(p: Option<DirPtr>) -> Option<PtrModel> {
    match p {
        Some(p) => Some(p@),
        None => None,
    }
}

/// Whether two entries match, or both are missing.
pub open spec fn ptrs_match(a: Option<PtrModel>, b: Option<PtrModel>) -> bool {
    match (a, b) {
        (Some(a), Some(b)) => a.matches(b),
        (None, None) => true,
        _ => false,
    }
}

impl DirPtr {
    /// Returns whether two entries are the same but for their names.
    pub fn matches(&self, that: &DirPtr) -> (r: bool)
        ensures
            r == self@.matches(that@),
    {
        self.typ == that.typ && self.mode == that.mode && defs::same_hash(&self.value, &that.value)
    }

    /// Returns whether two entries match, or both are missing.
    pub fn matches_opt(a: &Option<DirPtr>, b: &Option<DirPtr>) -> (r: bool)
        ensures
            r == ptrs_match(ptr(*a), ptr(*b)),
    {
        match (a, b) {
            (Some(a), Some(b)) => a.matches(b),
            (None, None) => true,
            _ => false,
        }
    }

    /// Returns the same entry.
    pub fn copy(&self) -> (r: DirPtr)
        ensures
            r@ == self@,
    {
        DirPtr {
            name: bytes::copy(self.name.as_slice()),
            typ: self.typ,
            mode: self.mode,
            value: self.value,
        }
    }
}

/// Error type from the various `Mutator` methods.
#[derive(Debug, PartialEq, Eq)]
pub enum MutationError {
    /// The mutation failed because the target object or one of its parents
    /// either ceased to exist or has been modified in a way that does not
    /// permit the operation to proceed.
    Modified,
    /// The mutation failed due to an unrecoverable error (eg, IO error, server
    /// is gone).
    Failure(Error),
}

impl MutationError {
    /// Returns what the error says.
    pub fn message(&self) -> (r: String)
        ensures
            r@ == match *self {
                MutationError::Modified => "Concurrent modification"@,
                MutationError::Failure(e) => "Error: "@ + errors::kind_text(e.kind),
            },
    {
        match self {
            MutationError::Modified => "Concurrent modification".to_owned(),
            MutationError::Failure(e) => {
                let mut s: String = String::new();
                s.append("Error: ");
                s.append(e.kind.message().as_str());
                assert(s@ =~= "Error: "@ + errors::kind_text(e.kind));
                s
            },
        }
    }
}

/// What comes of a mutation.
pub type MutationResult<T> = core::result::Result<T, MutationError>;

/// Represents the "context" of a single directory.
pub trait Location {
    /// The sync mode in effect for this directory.
    open spec fn mode(&self) -> SyncMode {
        arbitrary()
    }

    /// Returns the sync mode in effect for this directory.
    fn sync_mode(&self) -> (r: SyncMode)
        ensures
            r == self.mode(),
    ;
}

/// A blob that may be missing, over mathematical values.
pub open spec fn blob(h: Option<HashId>) -> Option<Seq<u8>> {
    match h {
        Some(h) => Some(h@),
        None => None,
    }
}

/// What a call that returns nothing has failed with, if it has.
pub open spec fn refusal(r: MutationResult<()>) -> Option<MutationError> {
    match r {
        Ok(_) => None,
        Err(e) => Some(e),
    }
}

/// The entries of a directory, over mathematical values.
pub open spec fn ptrs(l: Seq<DirPtr>) -> Seq<PtrModel> {
    l.map_values(|p: DirPtr| p@)
}

/// A call that has been made to a `Mutator`, with what came of it.
pub enum Call<L> {
    Root(MutationResult<L>),
    CancelAncestors,
    Finish(Seq<u8>, Option<MutationError>),
    LsClient(L, MutationResult<Vec<DirPtr>>),
    LsAncestor(L, MutationResult<Vec<DirPtr>>),
    LsServer(L, MutationResult<Vec<DirPtr>>),
    Upload(L, PtrModel, MutationResult<HashId>),
    Download(L, PtrModel, Option<Seq<u8>>, Option<MutationError>),
    RmClient(L, PtrModel, Option<MutationError>),
    PutDirAncestor(L, Seq<PtrModel>, Option<MutationError>),
    PutDirServer(L, Seq<PtrModel>, MutationResult<HashId>),
    Chdir(L, PtrModel, MutationResult<L>),
}

/// The interface between the reconciler and the client/server transfer system
/// and ancestor store.
pub trait Mutator {
    /// The context of the current location, essentially representing a
    /// directory and sync flags.
    type Location: Location;

    /// The calls that have been made so far.
    open spec fn calls(&self) -> Seq<Call<Self::Location>> {
        arbitrary()
    }

    /// Constructs the root context for this sync, including determining the id
    /// of the root directory on the server.
    fn root(&mut self) -> (r: MutationResult<Self::Location>)
        ensures
            final(self).calls() == old(self).calls().push(Call::Root(r)),
    ;

    /// Cancels all pending ancestor changes.
    fn cancel_ancestors(&mut self)
        ensures
            final(self).calls() == old(self).calls().push(Call::CancelAncestors),
    ;

    /// Finishes all mutations. The root on the server is updated to match
    /// `root`, and any changes to the ancestors are flushed atomically.
    fn finish(&mut self, root: &HashId) -> (r: MutationResult<()>)
        ensures
            final(self).calls() == old(self).calls().push(Call::Finish(root@, refusal(r))),
    ;

    /// Reads the current directory in from the client filesystem. Hashes in the
    /// listing may be incorrect due to using stale data or the actual hashes
    /// being unknown.
    fn ls_client(&mut self, context: &Self::Location) -> (r: MutationResult<Vec<DirPtr>>)
        ensures
            final(self).calls() == old(self).calls().push(Call::LsClient(*context, r)),
    ;

    /// Reads the ancestor state of the current directory. This is always either
    /// an empty vector or a value written by `put_dir_ancestor()`.
    fn ls_ancestor(&mut self, context: &Self::Location) -> (r: MutationResult<Vec<DirPtr>>)
        ensures
            final(self).calls() == old(self).calls().push(Call::LsAncestor(*context, r)),
    ;

    /// Reads the server state of the current directory. This is always either
    /// an empty vector or a value written by `put_dir_server()`.
    fn ls_server(&mut self, context: &Self::Location) -> (r: MutationResult<Vec<DirPtr>>)
        ensures
            final(self).calls() == old(self).calls().push(Call::LsServer(*context, r)),
    ;

    /// Transfers the file in the current directory identified by `src` to the
    /// server. Only the name and type of `src` are meaningful.
    ///
    /// Returns the hash of the resulting blob.
    fn upload(&mut self, context: &Self::Location, src: &DirPtr) -> (r: MutationResult<HashId>)
        ensures
            final(self).calls() == old(self).calls().push(Call::Upload(*context, src@, r)),
    ;

    /// Transfers the file identified by `src` to the current directory.
    ///
    /// The hash identifies the exact file to transfer, and the file will have
    /// the same name and mode as dictated by `src`. The named file is created
    /// or replaced atomically.
    ///
    /// If `if_match` is absent, the call will fail with `Modified` if such a
    /// file already exists. Otherwise, the call will fail with `Modified` if
    /// the file content no longer has the specified hash. In this case, the new
    /// content will have replaced that file anyway, but the old content will
    /// exist under a new name.
    fn download(&mut self, context: &Self::Location, src: &DirPtr, if_match: Option<HashId>) -> (r:
        MutationResult<()>)
        ensures
            final(self).calls() == old(self).calls().push(
                Call::Download(*context, src@, blob(if_match), refusal(r)),
            ),
    ;

    /// Deletes the file in the current directory identified by `target`.
    ///
    /// If `target` is a directory, it must be empty, and the hash is ignored.
    ///
    /// Otherwise, the given object is removed. A best effort is made to check
    /// that it still has the hash given by `target`; if it does not, it fails
    /// with `Modified`.
    fn rm_client(&mut self, context: &Self::Location, target: &DirPtr) -> (r: MutationResult<()>)
        ensures
            final(self).calls() == old(self).calls().push(Call::RmClient(*context, target@, refusal(r))),
    ;

    /// Rewrites the ancestor state for the current directory to match `data`.
    ///
    /// This change is not committed until the call to `finish()`.
    fn put_dir_ancestor(&mut self, context: &Self::Location, data: &Vec<DirPtr>) -> (r:
        MutationResult<()>)
        ensures
            final(self).calls() == old(self).calls().push(
                Call::PutDirAncestor(*context, ptrs(data@), refusal(r)),
            ),
    ;

    /// Rewrites the server state for the current directory to match `data`.
    ///
    /// Returns the hash of the resulting blob, which must either be propagated
    /// into the parent directory or passed into `finish()` if this is the root
    /// directory.
    fn put_dir_server(&mut self, context: &Self::Location, data: &Vec<DirPtr>) -> (r:
        MutationResult<HashId>)
        ensures
            final(self).calls() == old(self).calls().push(
                Call::PutDirServer(*context, ptrs(data@), r),
            ),
    ;

    /// Steps down into the subdirectory identified by `subdir`, returning a new
    /// context representing that directory.
    fn chdir(&mut self, context: &Self::Location, subdir: &DirPtr) -> (r: MutationResult<
        Self::Location,
    >)
        ensures
            final(self).calls() == old(self).calls().push(Call::Chdir(*context, subdir@, r)),
    ;
}

/// Entries are compared by their type, their mode and what they point to, each on
/// its own, and not by their names. A missing entry matches a missing one alone.
pub proof fn law_ptrs_match(a: PtrModel, name: Seq<u8>, typ: DirPtrType, mode: FileMode, value: Seq<u8>)
    ensures
        ptrs_match(Some(PtrModel { name, ..a }), Some(a)),
        ptrs_match(Some(PtrModel { typ, ..a }), Some(a)) <==> typ == a.typ,
        ptrs_match(Some(PtrModel { mode, ..a }), Some(a)) <==> mode == a.mode,
        ptrs_match(Some(PtrModel { value, ..a }), Some(a)) <==> value == a.value,
        ptrs_match(None, None) && !ptrs_match(Some(a), None) && !ptrs_match(None, Some(a)),
{
}

/// Matching entries match the same entries.
pub proof fn law_ptrs_equal(a: Option<PtrModel>, b: Option<PtrModel>, c: Option<PtrModel>)
    ensures
        ptrs_match(a, a),
        ptrs_match(a, b) == ptrs_match(b, a),
        ptrs_match(a, b) && ptrs_match(b, c) ==> ptrs_match(a, c),
{
}

} // verus!
