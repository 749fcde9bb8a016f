//! A replica that is only looked at.

use vstd::prelude::*;

use crate::bytes;
use crate::bytes::Name;
use crate::defs::{File, FileData, FileMode, FileModel};
use crate::errors::Result;
use crate::memory_replica;
use crate::memory_replica::catpath;
use crate::reconcile::model::Kids;
use crate::reconcile::mutate;
use crate::reconcile::place;
use crate::reconcile::trees::Path;
use crate::replica;
use crate::replica::{
    Chore, Condemn, NullTransfer, PrepareType, Replica, ReplicaDirectory, ReplicaState, Transfer,
};
use crate::table::NameMap;

verus! {

/// A directory of a `DryRunReplica`.
pub struct DryRunDirectory<T> {
    pub path: Name,
    /// The directory handle of the underlying replica, if any.
    pub delegate: Option<T>,
    /// The set of directory names created in this directory. This is used so
    /// that `chdir` can emulate the effect of `create()` having created a new
    /// directory.
    pub new_subdirs: NameMap<()>,
    /// Renames performed in this directory. Since the reconciler will never
    /// rename a file more than once, we don't need to handle more complex
    /// things here.
    pub renames: NameMap<Name>,
}

impl<T> DryRunDirectory<T> {
    /// The name that a file of the underlying directory has which `n` is the
    /// name of now.
    pub open spec fn original(self, n: Seq<u8>) -> Seq<u8> {
        if self.renames@.dom().contains(n) {
            self.renames@[n]@
        } else {
            n
        }
    }

    /// Whether nothing has been done in the directory.
    pub open spec fn pristine(self) -> bool {
        self.new_subdirs@.dom().is_empty() && self.renames@.dom().is_empty()
    }
}

impl<T: ReplicaDirectory> ReplicaDirectory for DryRunDirectory<T> {
    open spec fn path(&self) -> Path {
        match self.delegate {
            Some(d) => d.path(),
            None => Seq::empty(),
        }
    }

    open spec fn modes(&self) -> Seq<FileMode> {
        match self.delegate {
            Some(d) => d.modes(),
            None => Seq::empty(),
        }
    }

    open spec fn solid(&self) -> nat {
        match self.delegate {
            Some(d) => d.solid(),
            None => 0,
        }
    }

    open spec fn shown(&self) -> Seq<u8> {
        self.path@
    }

    fn full_path(&self) -> (r: &[u8]) {
        self.path.as_slice()
    }
}

impl Transfer for () {
    open spec fn carries(&self, fd: FileModel) -> bool {
        true
    }
}

/// Wraps a `Replica` to prevent any writes from happening to the underlying
/// replica.
///
/// This is somewhat coupled to the way the reconciler works. For example, its
/// rename emulation is rather limited, and committed writes would not be
/// reflected if a directory were listed more than once. Its write methods also
/// always succeed regardless of the state of the underlying directory.
pub struct DryRunReplica<T>(pub T);

/// Whether a replica that can be reasoned about has the same files as before.
pub open spec fn same_files<T: Replica>(before: &T, after: &T) -> bool {
    mutate::sane(before) ==> mutate::sane(after) && after.state().tree == before.state().tree
}

impl<T: Replica> Replica for DryRunReplica<T> {
    type Directory = DryRunDirectory<T::Directory>;

    type TransferIn = ();

    type TransferOut = ();

    /// What has been written is not there.
    open spec fn ideal(&self) -> bool {
        false
    }

    open spec fn state(&self) -> ReplicaState {
        self.0.state()
    }

    open spec fn chores(&self) -> Seq<Chore> {
        self.0.chores()
    }

    /// The files of a replica that can be reasoned about stay as they are.
    open spec fn frozen(&self) -> Option<Kids> {
        if mutate::sane(&self.0) {
            Some(self.0.state().tree)
        } else {
            None
        }
    }

    proof fn lemma_sound(&self) {
    }

    fn is_fatal(&self) -> (r: bool)
        ensures
            self.0.ideal() && self.0.state().faultless ==> !r,
    {
        self.0.is_fatal()
    }

    fn is_dir_dirty(&self, dir: &Self::Directory) -> (r: bool)
        ensures
            dir.delegate is None ==> r,
            dir.delegate matches Some(d) ==> (self.0.ideal() ==> r == !(
            self.0.state().clean.contains(d.path()) && place::is_there(
                self.0.state().tree,
                d.path(),
            ))),
    {
        match &dir.delegate {
            Some(d) => self.0.is_dir_dirty(d),
            None => true,
        }
    }

    fn set_dir_clean(&mut self, dir: &Self::Directory) -> (r: Result<bool>)
        ensures
            *final(self) == *old(self),
            r == Ok::<bool, crate::errors::Error>(false),
    {
        Ok(false)
    }

    fn root(&mut self) -> (r: Result<Self::Directory>)
        ensures
            same_files(&old(self).0, &final(self).0),
            r matches Ok(d) ==> d.delegate is Some && d.pristine() && (old(self).0.ideal()
                ==> d.path().len() == 0),
            old(self).0.ideal() && old(self).0.state().faultless ==> r is Ok,
    {
        match self.0.root() {
            Ok(delegate) => Ok(
                DryRunDirectory {
                    path: bytes::copy(delegate.full_path()),
                    delegate: Some(delegate),
                    new_subdirs: NameMap::new(),
                    renames: NameMap::new(),
                },
            ),
            Err(e) => Err(e),
        }
    }

    fn list(&mut self, dir: &mut Self::Directory) -> (r: Result<Vec<(Name, FileData)>>)
        ensures
            same_files(&old(self).0, &final(self).0),
            old(dir).delegate is None ==> *final(self) == *old(self) && (r matches Ok(l) && l@.len()
                == 0),
            old(dir).delegate matches Some(d) ==> (mutate::sane(&old(self).0) ==> {
                &&& r matches Ok(l) ==> replica::listed(
                    l@,
                    replica::listing(place::kids_of(old(self).0.state().tree, d.path())),
                )
                &&& old(self).0.state().faultless && replica::usable(
                    &d,
                    old(self).0.state().tree,
                ) ==> r is Ok
            }),
    {
        proof {
            if mutate::sane(&self.0) {
                if let Some(d) = &dir.delegate {
                    replica::lemma_spared(
                        place::kids_of(self.0.state().tree, d.path()),
                        self.0.state().condemned,
                        d.path(),
                    );
                }
            }
        }
        match &mut dir.delegate {
            Some(d) => {
                let r = self.0.list(d);
                assert(mutate::sane(&old(self).0) ==> self.0.state().condemned =~= old(
                    self,
                ).0.state().condemned);
                r
            },
            None => Ok(Vec::new()),
        }
    }

    fn rename(&mut self, dir: &mut Self::Directory, old_name: &[u8], new_name: &[u8]) -> (r: Result<
        (),
    >)
        ensures
            *final(self) == *old(self),
            r is Ok,
            final(dir).path == old(dir).path,
            final(dir).delegate == old(dir).delegate,
            final(dir).new_subdirs == old(dir).new_subdirs,
            final(dir).original(new_name@) == old_name@,
            forall|n: Seq<u8>|
                n != new_name@ ==> #[trigger] final(dir).original(n) == old(dir).original(n),
    {
        let _ = dir.renames.insert(bytes::copy(new_name), bytes::copy(old_name));
        Ok(())
    }

    fn remove(&mut self, dir: &mut Self::Directory, target: File) -> (r: Result<()>)
        ensures
            *final(self) == *old(self),
            *final(dir) == *old(dir),
            r is Ok,
    {
        Ok(())
    }

    fn create(&mut self, dir: &mut Self::Directory, source: File, xfer: ()) -> (r: Result<FileData>)
        ensures
            *final(self) == *old(self),
            r matches Ok(fd) && fd@ == source.1@,
            final(dir).path == old(dir).path,
            final(dir).delegate == old(dir).delegate,
            final(dir).renames == old(dir).renames,
            final(dir).new_subdirs@.dom() == (if source.1@.is_dir() {
                old(dir).new_subdirs@.dom().insert(source.0@)
            } else {
                old(dir).new_subdirs@.dom()
            }),
    {
        if source.1.is_dir() {
            let _ = dir.new_subdirs.insert(bytes::copy(source.0), ());
        }
        Ok(source.1.clone())
    }

    fn update(
        &mut self,
        dir: &mut Self::Directory,
        name: &[u8],
        old_fd: &FileData,
        new_fd: &FileData,
        xfer: (),
    ) -> (r: Result<FileData>)
        ensures
            *final(self) == *old(self),
            *final(dir) == *old(dir),
            r matches Ok(fd) && fd@ == new_fd@,
    {
        Ok(new_fd.clone())
    }

    fn chdir(&mut self, dir: &Self::Directory, subdir: &[u8]) -> (r: Result<Self::Directory>)
        ensures
            same_files(&old(self).0, &final(self).0),
            r matches Ok(d) ==> d.pristine() && d.path@ == memory_replica::joined(
                dir.path@,
                subdir@,
            ),
            dir.delegate is None || dir.new_subdirs@.dom().contains(dir.original(subdir@))
                ==> *final(self) == *old(self) && (r matches Ok(d) && d.delegate is None),
            dir.delegate matches Some(p) ==> (!dir.new_subdirs@.dom().contains(
                dir.original(subdir@),
            ) && old(self).0.ideal() ==> {
                let there = place::is_there(
                    old(self).0.state().tree,
                    p.path().push(dir.original(subdir@)),
                );
                &&& r matches Ok(d) ==> there && (d.delegate matches Some(c) && c.path()
                    == p.path().push(dir.original(subdir@)))
                &&& old(self).0.state().faultless && there ==> r is Ok
            }),
    {
        let path = catpath(dir.path.as_slice(), subdir);
        let name: &[u8] = match dir.renames.get(subdir) {
            Some(n) => n.as_slice(),
            None => subdir,
        };
        let delegate = match (&dir.delegate, dir.new_subdirs.contains_key(name)) {
            (Some(d), false) => match self.0.chdir(d, name) {
                Ok(d) => Some(d),
                Err(e) => {
                    return Err(e);
                },
            },
            _ => None,
        };
        Ok(
            DryRunDirectory {
                path,
                delegate,
                new_subdirs: NameMap::new(),
                renames: NameMap::new(),
            },
        )
    }

    fn synthdir(&mut self, dir: &Self::Directory, subdir: &[u8], mode: FileMode) -> (r:
        Self::Directory)
        ensures
            *final(self) == *old(self),
            r.delegate is None,
            r.pristine(),
            r.path@ == memory_replica::joined(dir.path@, subdir@),
    {
        DryRunDirectory {
            path: catpath(dir.path.as_slice(), subdir),
            delegate: None,
            new_subdirs: NameMap::new(),
            renames: NameMap::new(),
        }
    }

    fn rmdir(&mut self, dir: &mut Self::Directory) -> (r: Result<()>)
        ensures
            *final(self) == *old(self),
            *final(dir) == *old(dir),
            r is Ok,
    {
        Ok(())
    }

    fn transfer(&mut self, dir: &Self::Directory, file: File) -> (r: Result<()>)
        ensures
            *final(self) == *old(self),
            r is Ok,
    {
        Ok(())
    }

    fn prepare(&mut self, typ: PrepareType) -> (r: Result<()>)
        ensures
            old(self).0.ideal() ==> final(self).0.ideal() && final(self).0.state().tree
                == old(self).0.state().tree,
            old(self).0.ideal() && old(self).0.state().faultless ==> r is Ok,
    {
        self.0.prepare(typ)
    }

    fn clean_up(&mut self) -> (r: Result<()>)
        ensures
            old(self).0.ideal() ==> final(self).0.ideal() && final(self).0.state().tree
                == old(self).0.state().tree,
            old(self).0.ideal() && old(self).0.state().faultless ==> r is Ok,
    {
        self.0.clean_up()
    }
}

/// Whatever is done to a `DryRunReplica` in the course of any number of runs, the
/// underlying replica holds the same files as before: every operation keeps what
/// is frozen, as do those that are made up of them.
pub proof fn law_dry_run<T: Replica>(before: &DryRunReplica<T>, after: &DryRunReplica<T>)
    requires
        mutate::sane(&before.0),
        replica::unthawed(before.frozen(), after.frozen()),
    ensures
        mutate::sane(&after.0),
        after.0.state().tree == before.0.state().tree,
{
}

impl<T: NullTransfer> NullTransfer for DryRunReplica<T> {
    fn null_transfer(file: &FileData) -> (r: ()) {
    }
}

impl<T: Condemn> Condemn for DryRunReplica<T> {
    fn condemn(&mut self, dir: &mut Self::Directory, file: &[u8]) -> (r: Result<()>)
        ensures
            *final(self) == *old(self),
            *final(dir) == *old(dir),
            r is Ok,
    {
        Ok(())
    }

    fn uncondemn(&mut self, dir: &mut Self::Directory, file: &[u8]) -> (r: Result<()>)
        ensures
            *final(self) == *old(self),
            *final(dir) == *old(dir),
            r is Ok,
    {
        Ok(())
    }
}

} // verus!
