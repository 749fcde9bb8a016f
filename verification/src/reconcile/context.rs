//! What the reconciler works with.

use std::collections::HashMap;

use vstd::prelude::*;

use crate::bytes::Name;
use crate::defs::{FileData, FileModel};
use crate::errors::{Error, ErrorKind, Result};
use crate::interrupt::Interrupt;
use crate::log::Logger;
use crate::replica;
use crate::replica::Replica;
use crate::table::{NameMap, NameQueue};

use super::compute;
use super::model;
use super::model::Kids;

verus! {

/// The files of a table, over mathematical values.
pub open spec fn models(files: NameMap<FileData>) -> Map<Seq<u8>, FileModel> {
    Map::new(|n: Seq<u8>| files@.dom().contains(n), |n: Seq<u8>| files@[n]@)
}

/// The file named `n`.
pub open spec fn file_at(m: Map<Seq<u8>, FileModel>, n: Seq<u8>) -> Option<FileModel> {
    if m.dom().contains(n) {
        Some(m[n])
    } else {
        None
    }
}

/// `m` with `v` as the file named `n`.
pub open spec fn with_file(
    m: Map<Seq<u8>, FileModel>,
    n: Seq<u8>,
    v: Option<FileModel>,
) -> Map<Seq<u8>, FileModel> {
    match v {
        Some(fd) => m.insert(n, fd),
        None => m.remove(n),
    }
}

/// Whether a table holds the files of a directory.
pub open spec fn agreed(files: NameMap<FileData>, k: Kids) -> bool {
    models(files) == replica::listing(k)
}

/// Everything that the reconciler needs.
pub struct Context<CLI, ANC, SRV, LOG, INT> {
    pub cli: CLI,
    pub anc: ANC,
    pub srv: SRV,
    pub log: LOG,
    pub interrupt: INT,
}

impl<
    CLI: Replica,
    ANC: Replica,
    SRV: Replica,
    LOG: Logger,
    INT: Interrupt,
> Context<CLI, ANC, SRV, LOG, INT> {
    /// Whether nothing will keep the reconciler from what is possible.
    pub open spec fn untroubled(self) -> bool {
        &&& self.interrupt.quiet()
        &&& self.cli.ideal() && self.cli.state().faultless
        &&& self.anc.ideal() && self.anc.state().faultless
        &&& self.srv.ideal() && self.srv.state().faultless
    }

    /// Whether the replicas have neither begun nor ended a run from here to
    /// `after`, and what nothing changes in them is as it was.
    pub open spec fn keeps(self, after: Self) -> bool {
        &&& replica::kept(&self.cli, &after.cli)
        &&& replica::kept(&self.anc, &after.anc)
        &&& replica::kept(&self.srv, &after.srv)
    }

    /// Returns whether work is to be broken off.
    pub fn should_stop(&self) -> (r: bool)
        ensures
            r ==> self.stops(),
            !r ==> self.goes_on(),
            self.untroubled() ==> !r,
    {
        self.interrupt.is_interrupted() || self.cli.is_fatal() || self.anc.is_fatal()
            || self.srv.is_fatal()
    }

    /// Fails if work is to be broken off.
    pub fn check_stop(&self) -> (r: Result<()>)
        ensures
            r is Err ==> self.stops(),
            r is Ok ==> self.goes_on(),
            self.untroubled() ==> r is Ok,
            r matches Err(e) ==> e.kind == ErrorKind::ReconciliationStopped,
    {
        if self.should_stop() {
            Err(Error::new(ErrorKind::ReconciliationStopped))
        } else {
            Ok(())
        }
    }

    /// Whether one of those that are asked may answer that work is to be broken
    /// off: the user may have interrupted the program, or a replica may have had
    /// a fatal error. What they answer can change between two questions.
    pub open spec fn stops(self) -> bool {
        ||| call_ensures(INT::is_interrupted, (&self.interrupt,), true)
        ||| call_ensures(CLI::is_fatal, (&self.cli,), true)
        ||| call_ensures(ANC::is_fatal, (&self.anc,), true)
        ||| call_ensures(SRV::is_fatal, (&self.srv,), true)
    }

    /// Whether all of those that are asked may answer that work is to go on.
    pub open spec fn goes_on(self) -> bool {
        &&& call_ensures(INT::is_interrupted, (&self.interrupt,), false)
        &&& call_ensures(CLI::is_fatal, (&self.cli,), false)
        &&& call_ensures(ANC::is_fatal, (&self.anc,), false)
        &&& call_ensures(SRV::is_fatal, (&self.srv,), false)
    }
}

/// Directory-specific context information for a single replica.
pub struct SingleDirContext<T> {
    /// The `Replica::Directory` object.
    pub dir: T,
    /// The files in this directory when it was listed.
    pub files: NameMap<FileData>,
}

/// Directory-specific context information.
pub struct DirContext<CD, AD, SD, R> {
    pub cli: SingleDirContext<CD>,
    pub anc: SingleDirContext<AD>,
    pub srv: SingleDirContext<SD>,
    /// Queue of filenames to process. Files are processed in asciibetical
    /// order so that informational messages can give a rough idea of progress.
    pub todo: NameQueue,
    pub rules: R,
}

impl<CD, AD, SD, R> DirContext<CD, AD, SD, R> {
    /// The names in use in any of the three replicas.
    pub open spec fn names(self) -> Set<Seq<u8>> {
        self.cli.files@.dom().union(self.anc.files@.dom()).union(self.srv.files@.dom())
    }

    /// Returns whether any of the three replicas has a file of this name.
    pub fn name_in_use(&self, name: &[u8]) -> (r: bool)
        ensures
            r == self.names().contains(name@),
    {
        self.cli.files.contains_key(name) || self.anc.files.contains_key(name)
            || self.srv.files.contains_key(name)
    }

    /// Returns the alternate name for `name` that is free in all three
    /// replicas.
    pub fn alternate_name(&self, name: &[u8]) -> (r: Option<Name>)
        ensures
            match r {
                Some(new) => model::alternate_for(name@, self.names()) == Some(new@),
                None => model::alternate_for(name@, self.names()) is None,
            },
            r matches Some(new) ==> !self.names().contains(new@),
    {
        let in_use = |n: &[u8]| -> (b: bool)
            ensures
                b == self.names().contains(n@),
            { self.name_in_use(n) };
        let r = compute::find_alternate_name(name, in_use);
        let ghost found = r;
        proof {
            let n = compute::readable(name@);
            let used = self.names();
            match found {
                Some(new) => {
                    let k = choose|k: u64| compute::first_unused(in_use, n, k, new@);
                    assert forall|j: u64| 1 <= j < k implies used.contains(
                        #[trigger] compute::alternate(n, j as nat),
                    ) by {
                        assert(compute::answers(in_use, compute::alternate(n, j as nat), true));
                    }
                    assert(model::is_first_free(n, used, k));
                    let k2 = choose|k: u64| model::is_first_free(n, used, k);
                    assert(model::is_first_free(n, used, k2));
                    if k < k2 {
                        assert(used.contains(compute::alternate(n, k as nat)));
                    } else if k2 < k {
                        assert(used.contains(compute::alternate(n, k2 as nat)));
                    }
                },
                None => {
                    if compute::plain_name(n) && exists|k: u64| model::is_first_free(n, used, k) {
                        let k = choose|k: u64| model::is_first_free(n, used, k);
                        assert(compute::answers(in_use, compute::alternate(n, k as nat), true));
                    }
                },
            }
        }
        r
    }
}

/// Maps integer ids to tasks that are not queued yet.
pub struct UnqueuedTasks<T> {
    tasks: HashMap<usize, T>,
    next_id: usize,
}

impl<T> UnqueuedTasks<T> {
    /// Returns an empty map.
    pub fn new() -> (r: Self)
        ensures
            r@ == Map::<usize, T>::empty(),
    {
        UnqueuedTasks { tasks: HashMap::new(), next_id: 0 }
    }

    /// Adds a task and returns an id for it that is not in use.
    pub fn put(&mut self, task: T) -> (r: usize)
        requires
            exists|id: usize| !old(self)@.dom().contains(id),
        ensures
            !old(self)@.dom().contains(r),
            final(self)@ == old(self)@.insert(r, task),
    {
        broadcast use vstd::std_specs::hash::group_hash_axioms;

        let ghost free = choose|id: usize| !self@.dom().contains(id);
        let ghost before = self@;
        let mut id: usize = self.next_id;
        while self.tasks.contains_key(&id)
            invariant
                self@ == before,
                self.tasks@ == before,
                !before.dom().contains(free),
            decreases
                    if id <= free {
                        free - id
                    } else {
                        usize::MAX - id + 1 + free
                    },
        {
            broadcast use vstd::std_specs::hash::group_hash_axioms;

            id = if id == usize::MAX {
                0
            } else {
                id + 1
            };
        }
        self.next_id = if id == usize::MAX {
            0
        } else {
            id + 1
        };
        self.tasks.insert(id, task);
        id
    }

    /// Takes out the task of the given id.
    pub fn get(&mut self, id: usize) -> (r: T)
        requires
            old(self)@.dom().contains(id),
        ensures
            r == old(self)@[id],
            final(self)@ == old(self)@.remove(id),
    {
        broadcast use vstd::std_specs::hash::group_hash_axioms;

        self.tasks.remove(&id).unwrap()
    }
}

impl<T> View for UnqueuedTasks<T> {
    type V = Map<usize, T>;

    closed spec fn view(&self) -> Map<usize, T> {
        self.tasks@
    }
}

/// A task can be taken out by the id it was given, and nothing else changes by
/// putting one in and taking it out again.
pub proof fn law_put_get<T>(tasks: Map<usize, T>, id: usize, task: T)
    requires
        !tasks.dom().contains(id),
    ensures
        tasks.insert(id, task)[id] == task,
        tasks.insert(id, task).remove(id) == tasks,
{
    assert(tasks.insert(id, task).remove(id) =~= tasks);
}

} // verus!
