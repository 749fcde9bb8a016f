//! The interface to the things that are synchronised.

use vstd::prelude::*;

use crate::bytes::Name;
use crate::defs::{File, FileData, FileMode, FileModel};
use crate::errors;
use crate::errors::{Error, ErrorKind, Result};
use crate::reconcile::model;
use crate::reconcile::model::{Kids, Node};
use crate::reconcile::place;
use crate::reconcile::trees;
use crate::reconcile::trees::Path;

verus! {

/// Controls the behaviour of `Replica::prepare`.
#[derive(Debug, Clone, Copy, PartialEq, Eq, PartialOrd, Ord, Structural)]
pub enum PrepareType {
    /// Only check for the aftermath of events reported to the `WatchHandle`
    /// associated with `Watch::watch()`.
    Watched,
    /// The ordinary prepare mode. The replica may assume things marked clean
    /// are still clean provided their conditions are met.
    Fast,
    /// The replica must consider all directories dirty after `prepare()`
    /// completes.
    Clean,
    /// Like `Clean`, but additionally discard all caches that cannot be
    /// validated perfectly.
    Scrub,
}

/// Something that carries the content of a file from one replica to another.
pub trait Transfer: Sized {
    /// Whether this carries the content of the file that `fd` describes. Only
    /// regular files have content to be carried.
    open spec fn carries(&self, fd: FileModel) -> bool {
        false
    }
}

/// Trait for the `Replica::Directory` type.
pub trait ReplicaDirectory: Sized {
    /// The names that lead from the root to this directory.
    open spec fn path(&self) -> Path {
        arbitrary()
    }

    /// The mode that each directory on the way is given if it has to be
    /// created on demand.
    open spec fn modes(&self) -> Seq<FileMode> {
        arbitrary()
    }

    /// How many of the directories on the way are not synthetic.
    open spec fn solid(&self) -> nat {
        arbitrary()
    }

    /// The full path of this directory as it is displayed to the user.
    open spec fn shown(&self) -> Seq<u8> {
        arbitrary()
    }

    /// Returns the full path of this directory, suitable for display to the
    /// user.
    fn full_path(&self) -> (r: &[u8])
        ensures
            r@ == self.shown(),
    ;
}

/// Whether a handle can be used on a tree: there is a mode for each level, and
/// the directories that are not synthetic exist.
pub open spec fn usable<D: ReplicaDirectory>(d: &D, tree: Kids) -> bool {
    &&& d.modes().len() == d.path().len()
    &&& d.solid() <= d.path().len()
    &&& place::is_there(tree, d.path().take(d.solid() as int))
    &&& makeable(tree, d.path())
}

/// Whether the directory at `p` exists, or can be made because the first one
/// missing on the way has no other file in its place.
pub open spec fn makeable(k: Kids, p: Path) -> bool
    decreases p.len(),
{
    p.len() > 0 && k.dom().contains(p[0]) ==> k[p[0]].data.is_dir() && makeable(
        k[p[0]].kids,
        p.drop_first(),
    )
}

/// Whether `q` is a directory strictly below `p`.
pub open spec fn below(p: Path, q: Path) -> bool {
    q.len() > p.len() && q.take(p.len() as int) == p
}

/// Whether nothing strictly below `p` is among `s`.
pub open spec fn none_below(s: Set<Path>, p: Path) -> bool {
    forall|q: Path| #[trigger] s.contains(q) ==> !below(p, q)
}

/// Whether a handle still denotes the same directory.
pub open spec fn same_handle<D: ReplicaDirectory>(a: &D, b: &D) -> bool {
    a.path() == b.path() && a.modes() == b.modes() && a.solid() == b.solid() && a.shown()
        == b.shown()
}

/// The path of a file in a directory as it is displayed to the user.
pub open spec fn shown_in(dir: Seq<u8>, name: Seq<u8>) -> Seq<u8> {
    dir.push(0x2f) + name
}

/// The data of each file in a directory.
pub open spec fn listing(k: Kids) -> Map<Seq<u8>, FileModel> {
    Map::new(|n: Seq<u8>| k.dom().contains(n), |n: Seq<u8>| k[n].data)
}

/// What is left in the directory at `p`, which holds `k`, once the names that
/// are condemned there are gone.
pub open spec fn spared(k: Kids, condemned: Set<Path>, p: Path) -> Kids {
    k.remove_keys(Set::new(|n: Seq<u8>| condemned.contains(p.push(n))))
}

/// What is still condemned once those names in the directory at `p` are not any
/// more.
pub open spec fn pardoned(condemned: Set<Path>, p: Path) -> Set<Path> {
    Set::new(|q: Path| condemned.contains(q) && !(q.len() > 0 && q.drop_last() == p))
}

/// Where nothing is condemned, nothing goes.
pub proof fn lemma_spared(k: Kids, condemned: Set<Path>, p: Path)
    requires
        condemned.is_empty(),
    ensures
        spared(k, condemned, p) == k,
{
    assert(spared(k, condemned, p) =~= k);
}

/// What a list of named files says.
pub open spec fn listed(l: Seq<(Name, FileData)>, m: Map<Seq<u8>, FileModel>) -> bool {
    &&& forall|i: int|
        0 <= i < l.len() ==> m.dom().contains(#[trigger] l[i].0@) && m[l[i].0@] == l[i].1@
    &&& forall|n: Seq<u8>| #[trigger]
        m.dom().contains(n) ==> exists|i: int| 0 <= i < l.len() && #[trigger] l[i].0@ == n
    &&& forall|i: int, j: int|
        0 <= i < j < l.len() ==> #[trigger] l[i].0@ != #[trigger] l[j].0@
}

/// What a replica holds.
#[verifier::ext_equal]
pub struct ReplicaState {
    /// All files.
    pub tree: Kids,
    /// The directories that are marked clean.
    pub clean: Set<Path>,
    /// The names that are condemned, each with the path of its directory.
    pub condemned: Set<Path>,
    /// Whether nothing keeps operations that are possible from succeeding.
    pub faultless: bool,
}

/// What an operation on the files of the directory at `p` leaves alone
/// whatever becomes of the files.
pub open spec fn restructured(before: ReplicaState, after: ReplicaState, p: Path) -> bool {
    &&& after.faultless == before.faultless
    &&& after.condemned == before.condemned
    &&& after.clean.subset_of(before.clean)
}

/// What a replica is told to do at the beginning or at the end of a run, with
/// what that failed with, if it did.
pub enum Chore {
    Prepare(PrepareType, Option<Error>),
    CleanUp(Option<Error>),
}

/// Whether what nothing changes is as it was.
pub open spec fn unthawed(before: Option<Kids>, after: Option<Kids>) -> bool {
    before is Some ==> after == before
}

/// Whether a replica has neither begun nor ended a run, and what nothing changes
/// is as it was. One that is ideal stays so, and no more and no less prone to
/// faults.
pub open spec fn kept<R: Replica>(before: &R, after: &R) -> bool {
    &&& after.chores() == before.chores()
    &&& unthawed(before.frozen(), after.frozen())
    &&& before.ideal() ==> after.ideal() && after.state().faultless == before.state().faultless
}

/// Represents one of the two replicas; ie, the client filesystem or the
/// encrypted mirror on the server.
///
/// Mutating functions guarantee that if they return success, the full result
/// will be visible on a subsequent call to `Replica::list()` for the same
/// directory, even if the client or server process terminates gracelessly.
///
/// What the functions promise in terms of a tree, they promise for replicas
/// that are `ideal`: those that nothing else modifies while they are in use,
/// and whose listings give the true hash of every file.
pub trait Replica: Sized {
    /// Type representing an operating directory.
    type Directory: ReplicaDirectory;

    /// Type which this replica uses to transfer data in from the other
    /// replica.
    type TransferIn: Transfer;

    /// Type which this replica uses to transfer data out to the other replica.
    type TransferOut: Transfer;

    /// Whether nothing but the functions of this trait changes the replica,
    /// and the hashes that it lists are right. This is not to be counted on
    /// unless it is promised.
    open spec fn ideal(&self) -> bool {
        false
    }

    /// What the replica holds.
    open spec fn state(&self) -> ReplicaState {
        arbitrary()
    }

    /// What the replica has been told to do at the beginning and at the end of
    /// each run.
    open spec fn chores(&self) -> Seq<Chore> {
        arbitrary()
    }

    /// Files that nothing the replica is told to do changes. This is not to be
    /// counted on unless it is promised.
    open spec fn frozen(&self) -> Option<Kids> {
        None
    }

    /// An ideal replica holds a sound tree.
    proof fn lemma_sound(&self)
        ensures
            self.ideal() ==> trees::sound(self.state().tree),
    ;

    /// Returns whether any fatal errors have occurred.
    fn is_fatal(&self) -> (r: bool)
        ensures
            self.ideal() && self.state().faultless ==> !r,
    ;

    /// Returns whether the given directory has been marked dirty for this
    /// session.
    ///
    /// Returns true if the directory cannot be accessed (including if the
    /// directory is synthetic).
    fn is_dir_dirty(&self, dir: &Self::Directory) -> (r: bool)
        ensures
            self.ideal() ==> r == !(self.state().clean.contains(dir.path()) && place::is_there(
                self.state().tree,
                dir.path(),
            )),
    ;

    /// Marks the given directory as clean, if no modifications to its contents
    /// have occurred since the last call to list() except through the
    /// directory handle itself.
    ///
    /// Returns true if the directory is now clean; false if it is not clean
    /// because there were concurrent modifications; error if checking whether
    /// the directory is clean, or marking it clean, failed.
    ///
    /// This call is not required to test explicitly for concurrent
    /// modifications; it is permitted to return `true` even if the directory
    /// is actually still dirty as long as the next run will return true from
    /// `is_dir_dirty()`.
    ///
    /// If the directory is synthetic and does not exist in any concrete form,
    /// this call succeeds and returns true.
    fn set_dir_clean(&mut self, dir: &Self::Directory) -> (r: Result<bool>)
        ensures
            final(self).chores() == old(self).chores(),
            unthawed(old(self).frozen(), final(self).frozen()),
            old(self).ideal() ==> {
                &&& final(self).ideal()
                &&& final(self).state().faultless == old(self).state().faultless
                &&& final(self).state().tree == old(self).state().tree
                &&& final(self).state().condemned == old(self).state().condemned
                &&& final(self).state().clean.subset_of(old(self).state().clean.insert(dir.path()))
                &&& r == Ok::<bool, crate::errors::Error>(true) && place::is_there(
                    old(self).state().tree,
                    dir.path(),
                ) ==> final(self).state().clean.contains(dir.path())
                &&& old(self).state().faultless && usable(dir, old(self).state().tree) ==> (r matches Ok(clean)
                    && clean)
            },
    ;

    /// Returns the root directory for this replica.
    fn root(&mut self) -> (r: Result<Self::Directory>)
        ensures
            final(self).chores() == old(self).chores(),
            unthawed(old(self).frozen(), final(self).frozen()),
            old(self).ideal() ==> {
                &&& final(self).ideal() && final(self).state() == old(self).state()
                &&& r matches Ok(d) ==> d.path().len() == 0 && d.modes().len() == 0 && d.solid()
                    == 0
                &&& old(self).state().faultless ==> r is Ok
            },
    ;

    /// Reads the contents of the given directory.
    ///
    /// On success, the full contents of the directory (excluding "." and ".."
    /// if returned by the underlying system) after transform/filtering are
    /// returned, in no particular order.
    fn list(&mut self, dir: &mut Self::Directory) -> (r: Result<Vec<(Name, FileData)>>)
        ensures
            final(self).chores() == old(self).chores(),
            unthawed(old(self).frozen(), final(self).frozen()),
            old(self).ideal() ==> {
                &&& same_handle(final(dir), old(dir))
                &&& final(self).ideal()
                &&& final(self).state().faultless == old(self).state().faultless
                &&& final(self).state().clean.subset_of(old(self).state().clean)
                &&& final(self).state().condemned.subset_of(old(self).state().condemned)
                &&& old(self).state().condemned.is_empty() ==> final(self).state().tree == old(self).state().tree
                &&& r matches Ok(l) ==> {
                    let p = old(dir).path();
                    let left = spared(
                        place::kids_of(old(self).state().tree, p),
                        old(self).state().condemned,
                        p,
                    );
                    &&& listed(l@, listing(left))
                    &&& place::is_there(old(self).state().tree, p) ==> final(self).state().tree
                        == place::graft(old(self).state().tree, p, old(dir).modes(), left)
                    &&& place::is_there(old(self).state().tree, p) ==> final(self).state().condemned
                        == pardoned(old(self).state().condemned, p)
                }
                &&& old(self).state().faultless && usable(old(dir), old(self).state().tree) ==> r is Ok
            },
    ;

    /// Renames a file within a directory.
    ///
    /// The file of any type named by `old` is renamed to `new`. A best effort
    /// is made to prevent renaming onto an existing file.
    fn rename(&mut self, dir: &mut Self::Directory, old_name: &[u8], new_name: &[u8]) -> (r: Result<
        (),
    >)
        ensures
            final(self).chores() == old(self).chores(),
            unthawed(old(self).frozen(), final(self).frozen()),
            old(self).ideal() ==> {
                let k = place::kids_of(old(self).state().tree, old(dir).path());
                &&& same_handle(final(dir), old(dir))
                &&& final(self).ideal()
                &&& restructured(old(self).state(), final(self).state(), old(dir).path())
                &&& r is Ok ==> k.dom().contains(old_name@) && !k.dom().contains(new_name@)
                    && final(self).state().tree == place::graft(
                    old(self).state().tree,
                    old(dir).path(),
                    old(dir).modes(),
                    model::renamed(k, old_name@, new_name@),
                )
                &&& old(self).state().faultless && place::is_there(old(self).state().tree, old(dir).path())
                    && k.dom().contains(old_name@) && !k.dom().contains(new_name@) ==> r is Ok
            },
    ;

    /// Deletes the file within a directory.
    ///
    /// The file identified by `target` is removed from the directory. A best
    /// effort is made to prevent deleting the file if it does not match
    /// `target`.
    ///
    /// If `target` is a directory, this call must fail if the directory is not
    /// actually empty.
    fn remove(&mut self, dir: &mut Self::Directory, target: File) -> (r: Result<()>)
        ensures
            final(self).chores() == old(self).chores(),
            unthawed(old(self).frozen(), final(self).frozen()),
            old(self).ideal() ==> {
                let k = place::kids_of(old(self).state().tree, old(dir).path());
                &&& same_handle(final(dir), old(dir))
                &&& final(self).ideal()
                &&& restructured(old(self).state(), final(self).state(), old(dir).path())
                &&& r is Ok ==> k.dom().contains(target.0@) && k[target.0@].kids == Map::<
                    Seq<u8>,
                    Node,
                >::empty() && final(self).state().tree == place::graft(
                    old(self).state().tree,
                    old(dir).path(),
                    old(dir).modes(),
                    k.remove(target.0@),
                )
                &&& old(self).state().faultless && place::is_there(old(self).state().tree, old(dir).path())
                    && k.dom().contains(target.0@) && target.1@.matches(k[target.0@].data)
                    && k[target.0@].kids == Map::<Seq<u8>, Node>::empty() ==> r is Ok
            },
    ;

    /// Creates a file within a directory.
    ///
    /// A file in the given directory is created conforming to `source`. If
    /// `source` is a regular file and no object with that hash is available on
    /// this replica, `xfer` is used to copy it from the other replica.
    ///
    /// The replica must guarantee that at no point will an intermediate state
    /// be visible; `source` must atomically go from not existing to existing
    /// with the correct contents.
    ///
    /// A best effort is made to avoid creating a file on top of an existing
    /// one.
    ///
    /// Returns the actual file version resulting from this creation. This may
    /// be different from `source` if the hash on `source` is incorrect.
    fn create(
        &mut self,
        dir: &mut Self::Directory,
        source: File,
        xfer: Self::TransferIn,
    ) -> (r: Result<FileData>)
        ensures
            final(self).chores() == old(self).chores(),
            unthawed(old(self).frozen(), final(self).frozen()),
            old(self).ideal() ==> {
                let k = place::kids_of(old(self).state().tree, old(dir).path());
                &&& same_handle(final(dir), old(dir))
                &&& final(self).ideal()
                &&& restructured(old(self).state(), final(self).state(), old(dir).path())
                &&& r matches Ok(fd) ==> !k.dom().contains(source.0@) && (xfer.carries(source.1@)
                    ==> fd@ == source.1@) && final(self).state().tree == place::graft(
                    old(self).state().tree,
                    old(dir).path(),
                    old(dir).modes(),
                    k.insert(source.0@, Node { data: fd@, kids: Map::empty() }),
                )
                &&& old(self).state().faultless && usable(old(dir), old(self).state().tree) && !k.dom().contains(
                    source.0@,
                ) && xfer.carries(source.1@) ==> r is Ok
            },
    ;

    /// Updates a file within a directory.
    ///
    /// A file in the given directory identified by `name` is changed from
    /// `old` to `new`. If `new` is a regular file and no object with that hash
    /// is available within the replica, `xfer` is used to transfer the data
    /// from the other replica.
    ///
    /// The replica must guarantee that at no point will an intermediate state
    /// be visible, except that the old file may be temporarily renamed if a
    /// rename/create/delete sequence is needed to perform the operation.
    ///
    /// A best effort is made to avoid replacing a file which does not match
    /// `old`. If `old` is a directory and `new` is not, the directory must be
    /// empty. This is a special case; if the underlying system cannot
    /// atomically check that the directory is empty, remove it, and replace it
    /// with the new item, it should remove the directory _first_, so that the
    /// failure mode is to either take no action at all, or to fail halfway,
    /// resulting in the loss of the directory (which isn't generally a big
    /// deal), rather than possibly renaming a whole directory tree.
    ///
    /// Returns the actual file version resulting from this update. This may be
    /// different from `new` if the hash on `new` was incorrect.
    fn update(
        &mut self,
        dir: &mut Self::Directory,
        name: &[u8],
        old_fd: &FileData,
        new_fd: &FileData,
        xfer: Self::TransferIn,
    ) -> (r: Result<FileData>)
        ensures
            final(self).chores() == old(self).chores(),
            unthawed(old(self).frozen(), final(self).frozen()),
            old(self).ideal() ==> {
                let k = place::kids_of(old(self).state().tree, old(dir).path());
                &&& same_handle(final(dir), old(dir))
                &&& final(self).ideal()
                &&& restructured(old(self).state(), final(self).state(), old(dir).path())
                &&& r matches Ok(fd) ==> k.dom().contains(name@) && (xfer.carries(new_fd@) ==> fd@
                    == new_fd@) && (k[name@].data.is_dir() && !fd@.is_dir() ==> k[name@].kids
                    == Map::<Seq<u8>, Node>::empty()) && final(self).state().tree == place::graft(
                    old(self).state().tree,
                    old(dir).path(),
                    old(dir).modes(),
                    model::with(k, name@, model::replaced(model::at(k, name@), Some(fd@))),
                )
                &&& old(self).state().faultless && place::is_there(old(self).state().tree, old(dir).path())
                    && k.dom().contains(name@) && old_fd@.matches(k[name@].data) && (
                k[name@].data.is_dir() && !new_fd@.is_dir() ==> k[name@].kids == Map::<
                    Seq<u8>,
                    Node,
                >::empty()) && xfer.carries(new_fd@) ==> r is Ok
            },
    ;

    /// Creates a new context within the subdirectory identified by `subdir`.
    fn chdir(&mut self, dir: &Self::Directory, subdir: &[u8]) -> (r: Result<Self::Directory>)
        ensures
            final(self).chores() == old(self).chores(),
            unthawed(old(self).frozen(), final(self).frozen()),
            old(self).ideal() ==> {
                &&& final(self).ideal() && final(self).state() == old(self).state()
                &&& r matches Ok(d) ==> d.path() == dir.path().push(subdir@) && d.shown() == shown_in(
                    dir.shown(),
                    subdir@,
                ) && d.modes().len() == d.path().len() && d.solid() == d.path().len() && place::is_there(
                    old(self).state().tree,
                    d.path(),
                )
                &&& old(self).state().faultless && place::is_there(
                    old(self).state().tree,
                    dir.path().push(subdir@),
                ) ==> r is Ok
                &&& old(self).state().faultless ==> (r matches Err(e) ==> e.kind
                    == ErrorKind::NotFound || e.kind == ErrorKind::NotADirectory)
            },
    ;

    /// Creates a "synthetic" subdirectory and returns a context that can be
    /// used to manipulate it.
    ///
    /// A synthetic directory is not immediately created; rather, the directory
    /// object simply stores the name and mode of that directory (and any
    /// parent synthetic directories) and creates the hierarchy if any files
    /// are to be created within the synthetic directory.
    ///
    /// `Replica::list()` always returns the empty vector for synthetic
    /// directories that have not yet materialised.
    fn synthdir(&mut self, dir: &Self::Directory, subdir: &[u8], mode: FileMode) -> (r:
        Self::Directory)
        ensures
            final(self).chores() == old(self).chores(),
            unthawed(old(self).frozen(), final(self).frozen()),
            old(self).ideal() ==> {
                &&& final(self).ideal() && final(self).state() == old(self).state()
                &&& r.path() == dir.path().push(subdir@)
                &&& r.shown() == shown_in(dir.shown(), subdir@)
                &&& r.modes() == dir.modes().push(mode)
                &&& r.solid() == dir.solid()
            },
    ;

    /// Deletes the directory identified by the given handle, if it is empty.
    ///
    /// If the directory already does not exist (regardless of whether the
    /// handle is synthetic), this call succeeds.
    ///
    /// If the path indicated by the directory exists but is not actually a
    /// directory, a best effort should be made to not remove that object;
    /// whether the call succeeds in this case is unspecified.
    fn rmdir(&mut self, dir: &mut Self::Directory) -> (r: Result<()>)
        ensures
            final(self).chores() == old(self).chores(),
            unthawed(old(self).frozen(), final(self).frozen()),
            old(self).ideal() ==> {
                let p = old(dir).path();
                let k = place::kids_of(old(self).state().tree, p.drop_last());
                &&& final(self).ideal()
                &&& final(self).state().faultless == old(self).state().faultless
                &&& final(self).state().condemned == old(self).state().condemned
                &&& final(self).state().clean.subset_of(old(self).state().clean)
                &&& r is Err || !place::is_there(old(self).state().tree, p) ==> final(self).state().tree == old(
                    self,
                ).state().tree
                &&& r is Ok && place::is_there(old(self).state().tree, p) ==> p.len() > 0
                    && place::kids_of(old(self).state().tree, p) == Map::<Seq<u8>, Node>::empty()
                    && final(self).state().tree == place::graft(
                    old(self).state().tree,
                    p.drop_last(),
                    old(dir).modes().drop_last(),
                    k.remove(p.last()),
                )
                &&& old(self).state().faultless && p.len() > 0 && place::kids_of(old(self).state().tree, p)
                    == Map::<Seq<u8>, Node>::empty() ==> r is Ok
            },
    ;

    /// Returns an object which can be used to transfer `file` out of this
    /// replica.
    fn transfer(&mut self, dir: &Self::Directory, file: File) -> (r: Result<Self::TransferOut>)
        ensures
            final(self).chores() == old(self).chores(),
            unthawed(old(self).frozen(), final(self).frozen()),
            old(self).ideal() ==> {
                let k = place::kids_of(old(self).state().tree, dir.path());
                &&& final(self).ideal() && final(self).state() == old(self).state()
                &&& k.dom().contains(file.0@) ==> (r matches Ok(x) ==> forall|fd: FileModel|
                    fd.matches_content(k[file.0@].data) ==> #[trigger] x.carries(fd))
                &&& old(self).state().faultless && place::is_there(old(self).state().tree, dir.path())
                    && k.dom().contains(file.0@) ==> r is Ok
            },
    ;

    /// Performs any initial setup of this replica.
    ///
    /// This is generally a scan for dirty directories, sanity checks, etc.
    fn prepare(&mut self, typ: PrepareType) -> (r: Result<()>)
        ensures
            unthawed(old(self).frozen(), final(self).frozen()),
            final(self).chores() == old(self).chores().push(Chore::Prepare(typ, errors::failure(r))),
            old(self).ideal() ==> {
                &&& final(self).ideal()
                &&& final(self).state().tree == old(self).state().tree
                &&& final(self).state().clean.subset_of(old(self).state().clean)
                &&& final(self).state().condemned == old(self).state().condemned
                &&& final(self).state().faultless == old(self).state().faultless
                &&& r is Ok && (typ is Clean || typ is Scrub) ==> final(self).state().clean
                    == Set::<Path>::empty()
                &&& old(self).state().faultless ==> r is Ok
            },
    ;

    /// Performs any final cleanup on this replica.
    ///
    /// This should not affect the actual content of the replica; instead, it
    /// gives it a chance to remove temporary data, clean up orphaned files,
    /// etc.
    fn clean_up(&mut self) -> (r: Result<()>)
        ensures
            unthawed(old(self).frozen(), final(self).frozen()),
            final(self).chores() == old(self).chores().push(Chore::CleanUp(errors::failure(r))),
            old(self).ideal() ==> {
                &&& final(self).ideal()
                &&& final(self).state() == old(self).state()
                &&& old(self).state().faultless ==> r is Ok
            },
    ;
}

/// A Replica which supports a "null transfer" input.
pub trait NullTransfer: Replica {
    /// Produces a `TransferIn` that can be used to use `Replica::create()` or
    /// `Replica::update()` with the given `FileData`.
    ///
    /// The hash on the `FileData` is assumed correct.
    fn null_transfer(file: &FileData) -> (r: Self::TransferIn)
        ensures
            r.carries(file@),
    ;
}

/// Trait for replicas which also support the "condemn" operation.
pub trait Condemn: Replica {
    /// Marks a filename within a directory as condemned.
    ///
    /// The name given by `file` within `dir` is marked as condemned. When
    /// `Replica::list()` is invoked on a directory with condemned filenames,
    /// any matching files are deleted, recursively as needed, and all
    /// condemned names are cleared.
    ///
    /// Note that it is specifically the *names*, not the *files* that are
    /// condemned. It is permissible to condemn a name which is not bound to
    /// any file; renaming a file under a condemned name to a different name
    /// does not bring the condemnation with it (ie, the original name remains
    /// condemned).
    ///
    /// When this call returns, the condemnation must be committed and
    /// persisted, such that it will take effect even if the process exits
    /// gracelessly.
    ///
    /// Condemning a name which is already condemned has no effect.
    fn condemn(&mut self, dir: &mut Self::Directory, file: &[u8]) -> (r: Result<()>)
        ensures
            final(self).chores() == old(self).chores(),
            unthawed(old(self).frozen(), final(self).frozen()),
            old(self).ideal() ==> {
                &&& same_handle(final(dir), old(dir))
                &&& final(self).ideal()
                &&& final(self).state().faultless == old(self).state().faultless
                &&& final(self).state().tree == old(self).state().tree
                &&& final(self).state().clean == old(self).state().clean
                &&& r is Ok ==> final(self).state().condemned == old(self).state().condemned.insert(
                    old(dir).path().push(file@),
                )
                &&& old(self).state().faultless && place::is_there(old(self).state().tree, old(dir).path())
                    ==> r is Ok
            },
    ;

    /// Reverses a call to `condemn()`.
    ///
    /// Uncondemning a name which is not condemned has no effect.
    fn uncondemn(&mut self, dir: &mut Self::Directory, file: &[u8]) -> (r: Result<()>)
        ensures
            final(self).chores() == old(self).chores(),
            unthawed(old(self).frozen(), final(self).frozen()),
            old(self).ideal() ==> {
                &&& same_handle(final(dir), old(dir))
                &&& final(self).ideal()
                &&& final(self).state().faultless == old(self).state().faultless
                &&& final(self).state().tree == old(self).state().tree
                &&& final(self).state().clean == old(self).state().clean
                &&& r is Ok ==> final(self).state().condemned == old(self).state().condemned.remove(
                    old(dir).path().push(file@),
                )
                &&& old(self).state().faultless && place::is_there(old(self).state().tree, old(dir).path())
                    ==> r is Ok
            },
    ;
}

/// Handle passed to `Watch::watch` to allow notifying higher-level code about
/// changes within the replica.
///
/// Initially, the handle is marked both `dirty` and `context_lost`.
pub struct WatchHandle {
    dirty: bool,
    context_lost: bool,
    notices: u64,
}

impl Default for WatchHandle {
    fn default() -> (r: Self)
        ensures
            r.dirty() && r.context_lost(),
    {
        WatchHandle { dirty: true, context_lost: true, notices: 0 }
    }
}

impl WatchHandle {
    /// Whether changes have been detected.
    pub closed spec fn dirty(self) -> bool {
        self.dirty
    }

    /// Whether a full `Replica::prepare` call must be made.
    pub closed spec fn context_lost(self) -> bool {
        self.context_lost
    }

    /// What changes whenever waiters are notified.
    pub closed spec fn notices(self) -> u64 {
        self.notices
    }

    /// Checks whether this `WatchHandle` has the `dirty` flag set, indicating
    /// that changes have been detected. The `dirty` flag is then cleared.
    pub fn check_dirty(&mut self) -> (r: bool)
        ensures
            r == old(self).dirty(),
            !final(self).dirty(),
            final(self).context_lost() == old(self).context_lost(),
            final(self).notices() == old(self).notices(),
    {
        let dirty = self.dirty;
        self.dirty = false;
        dirty
    }

    /// Checks whether this `WatchHandle` has the `context_lost` flag set,
    /// indicating that a full `Replica::prepare` call must be made. The
    /// `context_lost` flag is then cleared.
    pub fn check_context_lost(&mut self) -> (r: bool)
        ensures
            r == old(self).context_lost(),
            !final(self).context_lost(),
            final(self).dirty() == old(self).dirty(),
            final(self).notices() == old(self).notices(),
    {
        let context_lost = self.context_lost;
        self.context_lost = false;
        context_lost
    }

    /// Notifies all waiters without setting a flag.
    pub fn notify(&mut self)
        ensures
            final(self).dirty() == old(self).dirty(),
            final(self).context_lost() == old(self).context_lost(),
            final(self).notices() != old(self).notices(),
    {
        self.notices = if self.notices == u64::MAX {
            0
        } else {
            self.notices + 1
        };
    }

    /// Sets the `dirty` flag on the `WatchHandle` and notifies all waiters.
    pub fn set_dirty(&mut self)
        ensures
            final(self).dirty(),
            final(self).context_lost() == old(self).context_lost(),
            final(self).notices() != old(self).notices(),
    {
        self.dirty = true;
        self.notify();
    }

    /// Sets the `dirty` and `context_lost` flags on the `WatchHandle` and
    /// notifies all waiters.
    pub fn set_context_lost(&mut self)
        ensures
            final(self).dirty(),
            final(self).context_lost(),
            final(self).notices() != old(self).notices(),
    {
        self.dirty = true;
        self.context_lost = true;
        self.notify();
    }

    /// Returns whether someone who waits until the `dirty` flag is set or the
    /// process has been interrupted has to be delayed further.
    pub fn wait(&self, interrupted: bool) -> (r: bool)
        ensures
            r == (!self.dirty() && !interrupted),
    {
        !self.dirty && !interrupted
    }
}

/// Trait for replicas which can send notifications when clean directories have
/// been changed.
pub trait Watch: Replica {
    /// What the notifications go to.
    type Notifier;

    /// Starts watching for changes to any directories in this replica marked as
    /// clean. When such directories are changed, they are marked as dirty and
    /// `watch` is notified.
    fn watch(&mut self, watch: Self::Notifier) -> (r: Result<()>);
}

/// Of the names in a directory, exactly those that are condemned there go.
pub proof fn law_spared(k: Kids, condemned: Set<Path>, p: Path, n: Seq<u8>)
    ensures
        spared(k, condemned, p).dom().contains(n) <==> k.dom().contains(n) && !condemned.contains(
            p.push(n),
        ),
        spared(k, condemned, p).dom().contains(n) ==> spared(k, condemned, p)[n] == k[n],
{
}

/// Once the names that were condemned in a directory are gone, no name there is
/// condemned any more, and the same names are elsewhere.
pub proof fn law_pardoned(condemned: Set<Path>, p: Path, q: Path, n: Seq<u8>)
    ensures
        !pardoned(condemned, p).contains(p.push(n)),
        q != p ==> (pardoned(condemned, p).contains(q.push(n)) <==> condemned.contains(q.push(n))),
        pardoned(condemned, p).contains(Seq::empty()) == condemned.contains(Seq::empty()),
{
    assert(p.push(n).drop_last() =~= p);
    assert(q.push(n).drop_last() =~= q);
}

/// A file is displayed behind its directory, with one separator between the two.
pub proof fn law_shown_in(dir: Seq<u8>, name: Seq<u8>, other: Seq<u8>)
    ensures
        shown_in(dir, name).take(dir.len() as int) == dir,
        shown_in(dir, name)[dir.len() as int] == 0x2f,
        shown_in(dir, name).skip(dir.len() as int + 1) == name,
        shown_in(dir, name) == shown_in(dir, other) ==> name == other,
{
    assert(shown_in(dir, name).take(dir.len() as int) =~= dir);
    assert(shown_in(dir, name).skip(dir.len() as int + 1) =~= name);
    assert(shown_in(dir, other).skip(dir.len() as int + 1) =~= other);
}

} // verus!
