//! Walking the trees, reconciling one directory after another.

use vstd::prelude::*;

use crate::bytes;
use crate::defs;
use crate::defs::{File, FileData, FileMode, FileModel};
use crate::errors::{Error, Result};
use crate::interrupt::Interrupt;
use crate::log;
use crate::log::{
    ErrorOperation, Inspection, Log, LogLevel, LogModel, Logger, OperationModel, ReplicaSide,
};
use crate::replica;
use crate::replica::{Condemn, NullTransfer, Replica, ReplicaDirectory};
use crate::rules;
use crate::rules::{Policy, Ruling, SyncRules};
use crate::table::NameMap;

use super::compute;
use super::compute::{Conflict, Reconciliation, ReconciliationSide};
use super::context;
use super::context::{Context, DirContext};
use super::laws;
use super::model;
use super::model::{Follow, Kids, Node, Trio, Walked};
use super::mutate;
use super::mutate::ApplyResult;
use super::place;
use super::trees;
use super::trees::Path;

verus! {

/// The state for processing a single directory.
#[derive(Clone, Copy, Debug, PartialEq, Eq, Structural)]
pub struct DirState {
    /// Whether all operations within this directory have succeeded.
    pub success: bool,
    /// Whether the directory is believed empty on all replicas. This is true
    /// if all files either reconcile to nothing or are recursive deletes that
    /// end up removing their directory.
    pub empty: bool,
}

impl DirState {
    /// Returns the state of a directory that nothing has been done to.
    pub fn new() -> (r: DirState)
        ensures
            r.success && r.empty,
    {
        DirState { success: true, empty: true }
    }

    /// Notes that something has failed.
    pub fn fail(&mut self)
        ensures
            !final(self).success,
            final(self).empty == old(self).empty,
    {
        self.success = false;
    }

    /// Takes in the state of a subdirectory that is complete.
    pub fn finish_task_in_dir(&mut self, substate: &DirState)
        ensures
            final(self).success == (old(self).success && substate.success),
            final(self).empty == (old(self).empty && substate.empty),
    {
        self.success = self.success && substate.success;
        self.empty = self.empty && substate.empty;
    }
}

/// A subdirectory that is still to be processed.
pub struct Subdir<CD, AD, SD, R> {
    pub cli: CD,
    pub anc: AD,
    pub srv: SD,
    pub rules: R,
    /// Whether the directory is to be removed if it ends up empty.
    pub delete: bool,
    /// The name of the directory, and why it is to be processed.
    pub cause: Ghost<(Seq<u8>, Follow)>,
}

/// The names and data of listed files.
pub open spec fn named(list: Seq<(Vec<u8>, FileData)>) -> Set<(Seq<u8>, FileModel)> {
    Set::new(
        |f: (Seq<u8>, FileModel)|
            exists|j: int| 0 <= j < list.len() && #[trigger] list[j].0@ == f.0 && list[j].1@ == f.1,
    )
}

proof fn lemma_named(list: Seq<(Vec<u8>, FileData)>, f: (Seq<u8>, FileModel))
    requires
        list.len() > 0,
    ensures
        named(list).contains(f) == (named(list.drop_last()).contains(f) || f == (
            list.last().0@,
            list.last().1@,
        )),
{
    let rest = list.drop_last();
    if named(list).contains(f) {
        let j = choose|j: int|
            0 <= j < list.len() && #[trigger] list[j].0@ == f.0 && list[j].1@ == f.1;
        if j < rest.len() {
            assert(rest[j].0@ == f.0);
        }
    }
    if named(rest).contains(f) {
        let j = choose|j: int|
            0 <= j < rest.len() && #[trigger] rest[j].0@ == f.0 && rest[j].1@ == f.1;
        assert(list[j].0@ == f.0);
    }
    if f == (list.last().0@, list.last().1@) {
        assert(list[list.len() - 1].0@ == f.0);
    }
}

/// Reads a directory out of a replica and builds the initial name->data map.
///
/// If an error occurs, it is logged and returned.
pub fn read_dir_contents<A: Replica, R: SyncRules, LOG: Logger>(
    rep: &mut A,
    dir: &mut A::Directory,
    dir_path: &[u8],
    rules: &mut R,
    tell_rules: bool,
    logger: &mut LOG,
    side: ReplicaSide,
) -> (r: Result<NameMap<FileData>>)
    ensures
        replica::kept(old(rep), final(rep)),
        old(rules).policy() matches Some(p) ==> (final(rules).policy() matches Some(q) && rules::kin(
            q,
            p,
        )),
        !tell_rules ==> *final(rules) == *old(rules),
        match r {
            Ok(_) => final(logger).logged() == old(logger).logged(),
            Err(e) => mutate::reported(
                old(logger).logged(),
                final(logger).logged(),
                side,
                dir_path@,
                OperationModel::List,
                e,
            ),
        },
        mutate::sane(old(rep)) ==> {
            &&& mutate::sane(final(rep))
            &&& replica::same_handle(final(dir), old(dir))
            &&& final(rep).state().tree == old(rep).state().tree
            &&& final(rep).state().faultless == old(rep).state().faultless
            &&& final(rep).state().clean.subset_of(old(rep).state().clean)
            &&& r matches Ok(files) ==> context::agreed(files, mutate::held(old(rep), old(dir)))
            &&& r is Ok && tell_rules ==> (old(rules).policy() matches Some(p)
                ==> final(rules).policy() == Some(
                p.told(model::files(mutate::held(old(rep), old(dir)))),
            ))
            &&& old(rep).state().faultless && replica::usable(old(dir), old(rep).state().tree) ==> r
                is Ok
        },
{
    let ghost good = mutate::sane(rep);
    let ghost k = mutate::held(rep, dir);
    proof {
        if good {
            replica::lemma_spared(k, rep.state().condemned, dir.path());
        }
    }
    let list: Vec<(Vec<u8>, FileData)> = match rep.list(dir) {
        Ok(list) => list,
        Err(error) => {
            logger.log(
                error.level(),
                &Log::Error(side, dir_path, ErrorOperation::List, &error),
            );
            assert(rep.state().condemned =~= old(rep).state().condemned || !good);
            return Err(error);
        },
    };
    assert(good ==> rep.state().condemned =~= old(rep).state().condemned);
    let mut files: NameMap<FileData> = NameMap::new();
    let mut i: usize = 0;
    let ghost known = rules.policy() is Some;
    let ghost p = rules.policy()->0;
    proof {
        rules::lemma_told(p, Set::empty(), Set::empty());
        assert(named(list@.take(0)) =~= Set::empty());
    }
    while i < list.len()
        invariant
            i <= list.len(),
            known == (old(rules).policy() is Some),
            p == old(rules).policy()->0,
            known && tell_rules ==> rules.policy() == Some(p.told(named(list@.take(i as int)))),
            !tell_rules ==> *rules == *old(rules),
            good ==> replica::listed(list@, replica::listing(k)),
            good ==> forall|n: Seq<u8>|
                files@.dom().contains(n) <==> exists|j: int|
                    0 <= j < i && #[trigger] list@[j].0@ == n,
            good ==> forall|n: Seq<u8>| #[trigger]
                files@.dom().contains(n) ==> files@[n]@ == replica::listing(k)[n],
        decreases list.len() - i,
    {
        let name: &Vec<u8> = &list[i].0;
        let value: &FileData = &list[i].1;
        if tell_rules {
            rules.contains(File(name.as_slice(), value));
            proof {
                let done = named(list@.take(i as int));
                let next = set![(name@, value@)];
                rules::lemma_told(p, done, next);
                assert(named(list@.take(i + 1)) =~= done.union(next)) by {
                    assert(list@.take(i + 1).drop_last() =~= list@.take(i as int));
                    assert forall|f: (Seq<u8>, FileModel)| #[trigger]
                        named(list@.take(i + 1)).contains(f) == done.union(next).contains(f) by {
                        lemma_named(list@.take(i + 1), f);
                    }
                }
            }
        }
        let ghost before = files@;
        let _ = files.insert(bytes::copy(name.as_slice()), value.clone());
        proof {
            if good {
                assert(list@[i as int].0@ == name@);
                assert forall|n: Seq<u8>|
                    files@.dom().contains(n) <==> exists|j: int|
                        0 <= j < i + 1 && #[trigger] list@[j].0@ == n by {
                    if n == name@ {
                        assert(list@[i as int].0@ == n);
                    } else if before.dom().contains(n) {
                        let j = choose|j: int| 0 <= j < i && #[trigger] list@[j].0@ == n;
                        assert(0 <= j < i + 1 && list@[j].0@ == n);
                    }
                }
            }
        }
        i += 1;
    }
    proof {
        if good {
            let m = replica::listing(k);
            assert forall|n: Seq<u8>| files@.dom().contains(n) == m.dom().contains(n) by {
                if m.dom().contains(n) {
                    let j = choose|j: int| 0 <= j < list@.len() && #[trigger] list@[j].0@ == n;
                    assert(0 <= j < i && list@[j].0@ == n);
                }
            }
            assert(context::models(files) =~= m);
            assert(list@.take(i as int) =~= list@);
            assert(named(list@) =~= model::files(k)) by {
                assert forall|f: (Seq<u8>, FileModel)| #[trigger]
                    named(list@).contains(f) == model::files(k).contains(f) by {
                    if model::files(k).contains(f) {
                        assert(m.dom().contains(f.0));
                        let j = choose|j: int|
                            0 <= j < list@.len() && #[trigger] list@[j].0@ == f.0;
                        assert(list@[j].1@ == f.1);
                    }
                }
            }
        }
    }
    Ok(files)
}

/// Calls `chdir()` on `rep` and `parent` using `name`.
///
/// If an error occurs, it is logged and `None` is returned.
pub fn try_chdir<A: Replica, LOG: Logger>(
    rep: &mut A,
    parent: &A::Directory,
    parent_name: &[u8],
    name: &[u8],
    logger: &mut LOG,
    side: ReplicaSide,
) -> (r: Option<A::Directory>)
    ensures
        replica::kept(old(rep), final(rep)),
        r is Some ==> final(logger).logged() == old(logger).logged(),
        r is None ==> exists|e: Error| #[trigger]
            mutate::reported(
                old(logger).logged(),
                final(logger).logged(),
                side,
                parent_name@,
                OperationModel::Chdir(name@),
                e,
            ),
        old(rep).ideal() ==> {
            &&& final(rep).ideal() && final(rep).state() == old(rep).state()
            &&& r matches Some(d) ==> d.path() == parent.path().push(name@) && mutate::standing(
                &d,
                old(rep).state().tree,
            ) && d.solid() == d.path().len() && d.shown() == replica::shown_in(
                parent.shown(),
                name@,
            )
            &&& old(rep).state().faultless && place::is_there(
                old(rep).state().tree,
                parent.path().push(name@),
            ) ==> r is Some
        },
{
    match rep.chdir(parent, name) {
        Ok(dir) => {
            proof {
                if old(rep).ideal() {
                    mutate::lemma_standing(&dir, old(rep).state().tree);
                }
            }
            Some(dir)
        },
        Err(error) => {
            logger.log(
                error.level(),
                &Log::Error(side, parent_name, ErrorOperation::Chdir(name), &error),
            );
            assert(mutate::reported(
                old(logger).logged(),
                logger.logged(),
                side,
                parent_name@,
                OperationModel::Chdir(name@),
                error,
            ));
            None
        },
    }
}

/// Marks a directory clean, logging failures.
///
/// Returns whether the directory is clean.
pub fn mark_clean<A: Replica, LOG: Logger>(
    rep: &mut A,
    dir: &A::Directory,
    logger: &mut LOG,
    side: ReplicaSide,
    dir_path: &[u8],
) -> (r: bool)
    ensures
        replica::kept(old(rep), final(rep)),
        r ==> final(logger).logged() == old(logger).logged(),
        final(logger).logged() == old(logger).logged() || exists|e: Error| #[trigger]
            mutate::reported(
                old(logger).logged(),
                final(logger).logged(),
                side,
                dir_path@,
                OperationModel::MarkClean,
                e,
            ),
        old(rep).ideal() ==> {
            &&& final(rep).ideal()
            &&& final(rep).state().faultless == old(rep).state().faultless
            &&& final(rep).state().tree == old(rep).state().tree
            &&& final(rep).state().condemned == old(rep).state().condemned
            &&& final(rep).state().clean.subset_of(old(rep).state().clean.insert(dir.path()))
            &&& r && place::is_there(old(rep).state().tree, dir.path())
                ==> final(rep).state().clean.contains(dir.path())
            &&& old(rep).state().faultless && replica::usable(dir, old(rep).state().tree) ==> r
        },
{
    match rep.set_dir_clean(dir) {
        Ok(clean) => clean,
        Err(error) => {
            logger.log(
                error.level(),
                &Log::Error(side, dir_path, ErrorOperation::MarkClean, &error),
            );
            assert(mutate::reported(
                old(logger).logged(),
                logger.logged(),
                side,
                dir_path@,
                OperationModel::MarkClean,
                error,
            ));
            false
        },
    }
}

/// Removes an empty directory, logging that and failures.
///
/// Returns whether successful.
pub fn try_rmdir<A: Replica, LOG: Logger>(
    rep: &mut A,
    dir: &mut A::Directory,
    logger: &mut LOG,
    dir_path: &[u8],
    side: ReplicaSide,
) -> (r: bool)
    ensures
        replica::kept(old(rep), final(rep)),
        r ==> final(logger).logged() == old(logger).logged().push(
            (log::EDIT, LogModel::Rmdir(side, dir_path@)),
        ),
        !r ==> exists|e: Error| #[trigger]
            mutate::reported(
                old(logger).logged().push((log::EDIT, LogModel::Rmdir(side, dir_path@))),
                final(logger).logged(),
                side,
                dir_path@,
                OperationModel::Rmdir,
                e,
            ),
        old(rep).ideal() ==> {
            let p = old(dir).path();
            let tree = old(rep).state().tree;
            let k = place::kids_of(tree, p.drop_last());
            &&& final(rep).ideal()
            &&& final(rep).state().faultless == old(rep).state().faultless
            &&& final(rep).state().condemned == old(rep).state().condemned
            &&& final(rep).state().clean.subset_of(old(rep).state().clean)
            &&& !r || !place::is_there(tree, p) ==> final(rep).state().tree == tree
            &&& r && place::is_there(tree, p) ==> p.len() > 0 && final(rep).state().tree
                == place::graft(tree, p.drop_last(), old(dir).modes().drop_last(), k.remove(p.last()))
            &&& old(rep).state().faultless && p.len() > 0 && place::kids_of(tree, p) == Map::<
                Seq<u8>,
                Node,
            >::empty() ==> r
        },
{
    logger.log(log::EDIT, &Log::Rmdir(side, dir_path));
    match rep.rmdir(dir) {
        Ok(_) => true,
        Err(error) => {
            logger.log(
                error.level(),
                &Log::Error(side, dir_path, ErrorOperation::Rmdir, &error),
            );
            assert(mutate::reported(
                old(logger).logged().push((log::EDIT, LogModel::Rmdir(side, dir_path@))),
                logger.logged(),
                side,
                dir_path@,
                OperationModel::Rmdir,
                error,
            ));
            false
        },
    }
}

/// Whether the handles of a subdirectory that is to be processed are those of
/// the subdirectory that is to be followed up.
pub open spec fn shaped<CD: ReplicaDirectory, AD: ReplicaDirectory, SD: ReplicaDirectory, R>(
    x: Subdir<CD, AD, SD, R>,
    dir: &DirContext<CD, AD, SD, R>,
) -> bool {
    let n = x.cause@.0;
    let f = x.cause@.1;
    &&& x.delete == (f is Delete)
    &&& match f {
        Follow::Enter => entered(&x.cli, &dir.cli.dir, n) && entered(&x.anc, &dir.anc.dir, n)
            && entered(&x.srv, &dir.srv.dir, n),
        Follow::Delete(ReconciliationSide::Client, m) => entered(&x.cli, &dir.cli.dir, n) && (
        entered(&x.anc, &dir.anc.dir, n) || conjured(&x.anc, &dir.anc.dir, n, m)) && conjured(
            &x.srv,
            &dir.srv.dir,
            n,
            m,
        ),
        Follow::Delete(ReconciliationSide::Server, m) => conjured(&x.cli, &dir.cli.dir, n, m) && (
        entered(&x.anc, &dir.anc.dir, n) || conjured(&x.anc, &dir.anc.dir, n, m)) && entered(
            &x.srv,
            &dir.srv.dir,
            n,
        ),
    }
}

/// Whether a handle is that of an existing subdirectory.
pub open spec fn entered<D: ReplicaDirectory>(d: &D, parent: &D, n: Seq<u8>) -> bool {
    &&& d.path() == parent.path().push(n)
    &&& d.modes().len() == d.path().len()
    &&& d.solid() == d.path().len()
}

/// Whether a handle is that of a synthetic subdirectory.
pub open spec fn conjured<D: ReplicaDirectory>(
    d: &D,
    parent: &D,
    n: Seq<u8>,
    m: FileMode,
) -> bool {
    &&& d.path() == parent.path().push(n)
    &&& d.modes() == parent.modes().push(m)
    &&& d.solid() == parent.solid()
}

/// Whether the subdirectories that are to be processed are those that are to
/// be followed up, but for those that are skipped.
pub open spec fn pend<CD: ReplicaDirectory, AD: ReplicaDirectory, SD: ReplicaDirectory, R>(
    pending: Seq<Subdir<CD, AD, SD, R>>,
    dir: &DirContext<CD, AD, SD, R>,
    follows: Map<Seq<u8>, Follow>,
    policies: Map<Seq<u8>, Policy>,
    skipped: Set<Seq<u8>>,
) -> bool where R: SyncRules {
    &&& forall|i: int|
        0 <= i < pending.len() ==> {
            let x = #[trigger] pending[i];
            &&& follows.dom().contains(x.cause@.0) && follows[x.cause@.0] == x.cause@.1
            &&& !skipped.contains(x.cause@.0)
            &&& shaped(x, dir)
            &&& x.rules.policy() == Some(policies[x.cause@.0])
        }
    &&& forall|n: Seq<u8>| #[trigger]
        follows.dom().contains(n) ==> skipped.contains(n) || exists|i: int|
            0 <= i < pending.len() && (#[trigger] pending[i]).cause@.0 == n
    &&& forall|n: Seq<u8>| #[trigger]
        skipped.contains(n) ==> follows.dom().contains(n) && follows[n] is Enter
    &&& forall|i: int, j: int|
        0 <= i < j < pending.len() ==> (#[trigger] pending[i]).cause@.0 != (
        #[trigger] pending[j]).cause@.0
}

/// Whether one more subdirectory is to be processed.
pub open spec fn pended<CD: ReplicaDirectory, AD: ReplicaDirectory, SD: ReplicaDirectory, R>(
    before: Seq<Subdir<CD, AD, SD, R>>,
    after: Seq<Subdir<CD, AD, SD, R>>,
    dir: &DirContext<CD, AD, SD, R>,
    n: Seq<u8>,
    f: Follow,
    rules: R,
) -> bool where R: SyncRules {
    &&& after.len() == before.len() + 1
    &&& after.drop_last() == before
    &&& after.last().cause@ == (n, f)
    &&& shaped(after.last(), dir)
    &&& after.last().rules == rules
}

/// Whether nothing about the three replicas has changed.
pub open spec fn undisturbed<CLI: Replica, ANC: Replica, SRV: Replica, LOG, INT>(
    before: &Context<CLI, ANC, SRV, LOG, INT>,
    after: &Context<CLI, ANC, SRV, LOG, INT>,
) -> bool {
    &&& after.interrupt == before.interrupt
    &&& before.cli.ideal() ==> after.cli.ideal() && after.cli.state() == before.cli.state()
    &&& before.anc.ideal() ==> after.anc.ideal() && after.anc.state() == before.anc.state()
    &&& before.srv.ideal() ==> after.srv.ideal() && after.srv.state() == before.srv.state()
}

impl<
    CLI: Replica,
    ANC: Replica + NullTransfer + Condemn,
    SRV: Replica<TransferIn = CLI::TransferOut, TransferOut = CLI::TransferIn>,
    LOG: Logger,
    INT: Interrupt,
> Context<CLI, ANC, SRV, LOG, INT> {
    /// Arranges for the given directory to be processed, if it is dirty on the
    /// client or on the server.
    ///
    /// If switching into the subdirectory fails, `state.success` is cleared.
    pub fn recurse_into_dir<R: SyncRules>(
        &mut self,
        dir: &DirContext<CLI::Directory, ANC::Directory, SRV::Directory, R>,
        parent_name: &[u8],
        name: &[u8],
        rules: R,
        state: &mut DirState,
        pending: &mut Vec<Subdir<CLI::Directory, ANC::Directory, SRV::Directory, R>>,
    )
        ensures
            old(self).keeps(*final(self)),
            undisturbed(old(self), final(self)),
            final(state).empty == old(state).empty,
            final(state).success ==> old(state).success,
            log::acted(old(self).log.logged(), final(self).log.logged()),
            final(state).success ==> final(self).log.logged() == old(self).log.logged(),
            final(pending)@ == old(pending)@ || (final(pending)@.len() == old(pending)@.len() + 1
                && final(pending)@.drop_last() == old(pending)@ && final(pending)@.last().rules == rules
                && !final(pending)@.last().delete && (
            old(self).cli.ideal() ==> mutate::standing(
                &final(pending)@.last().cli,
                old(self).cli.state().tree,
            ))),
            mutate::sane(&old(self).cli) && mutate::sane(&old(self).anc) && mutate::sane(
                &old(self).srv,
            ) && old(state).success ==> {
                let p_c = dir.cli.dir.path().push(name@);
                let p_s = dir.srv.dir.path().push(name@);
                &&& final(state).success && !(old(self).cli.state().clean.contains(p_c)
                    && old(self).srv.state().clean.contains(p_s)) ==> pended(
                    old(pending)@,
                    final(pending)@,
                    dir,
                    name@,
                    Follow::Enter,
                    rules,
                )
                &&& final(state).success && old(self).cli.state().clean.contains(p_c)
                    && old(self).srv.state().clean.contains(p_s) ==> final(pending)@ == old(pending)@
                &&& old(self).untroubled() && place::is_there(old(self).cli.state().tree, p_c)
                    && place::is_there(
                    old(self).anc.state().tree,
                    dir.anc.dir.path().push(name@),
                ) && place::is_there(old(self).srv.state().tree, p_s) ==> final(state).success
            },
    {
        proof {
            reveal(log::acted);
        }
        let cli_dir = try_chdir(
            &mut self.cli,
            &dir.cli.dir,
            parent_name,
            name,
            &mut self.log,
            ReplicaSide::Client,
        );
        let anc_dir = try_chdir(
            &mut self.anc,
            &dir.anc.dir,
            parent_name,
            name,
            &mut self.log,
            ReplicaSide::Ancestor,
        );
        let srv_dir = try_chdir(
            &mut self.srv,
            &dir.srv.dir,
            parent_name,
            name,
            &mut self.log,
            ReplicaSide::Server,
        );
        match (cli_dir, anc_dir, srv_dir) {
            (Some(cli_dir), Some(anc_dir), Some(srv_dir)) => {
                if self.cli.is_dir_dirty(&cli_dir) || self.srv.is_dir_dirty(&srv_dir) {
                    let ghost before = pending@;
                    pending.push(
                        Subdir {
                            cli: cli_dir,
                            anc: anc_dir,
                            srv: srv_dir,
                            rules,
                            delete: false,
                            cause: Ghost((name@, Follow::Enter)),
                        },
                    );
                    assert(pending@.drop_last() =~= before);
                }
            },
            _ => {
                state.fail();
            },
        }
    }

    /// Arranges for the given directory to be processed for a probable
    /// recursive delete.
    ///
    /// This is basically like `recurse_into_dir`, except that the replica
    /// opposite `side` is given a synthetic directory using `mode`, as well as
    /// the ancestor if necessary.
    pub fn recursive_delete<R: SyncRules>(
        &mut self,
        dir: &DirContext<CLI::Directory, ANC::Directory, SRV::Directory, R>,
        parent_name: &[u8],
        name: &[u8],
        rules: R,
        state: &mut DirState,
        pending: &mut Vec<Subdir<CLI::Directory, ANC::Directory, SRV::Directory, R>>,
        side: ReconciliationSide,
        mode: FileMode,
    )
        ensures
            old(self).keeps(*final(self)),
            undisturbed(old(self), final(self)),
            final(state).empty == old(state).empty,
            final(state).success ==> old(state).success,
            log::acted(old(self).log.logged(), final(self).log.logged()),
            final(state).success ==> log::flawless(
                old(self).log.logged(),
                final(self).log.logged(),
            ) && final(pending)@ != old(pending)@ && final(pending)@.last().delete,
            final(state).success && old(self).cli.ideal() ==> final(self).log.logged()
                == old(self).log.logged().push(
                (
                    log::EDIT,
                    LogModel::RecursiveDelete(
                        side.replica(),
                        replica::shown_in(dir.cli.dir.shown(), name@),
                    ),
                ),
            ),
            final(pending)@ == old(pending)@ || (final(pending)@.len() == old(pending)@.len() + 1
                && final(pending)@.drop_last() == old(pending)@ && final(pending)@.last().rules
                == rules && (old(self).cli.ideal() ==> match side {
                ReconciliationSide::Client => mutate::standing(
                    &final(pending)@.last().cli,
                    old(self).cli.state().tree,
                ),
                ReconciliationSide::Server => conjured(
                    &final(pending)@.last().cli,
                    &dir.cli.dir,
                    name@,
                    mode,
                ),
            })),
            mutate::sane(&old(self).cli) && mutate::sane(&old(self).anc) && mutate::sane(
                &old(self).srv,
            ) && old(state).success ==> {
                &&& final(state).success ==> pended(
                    old(pending)@,
                    final(pending)@,
                    dir,
                    name@,
                    Follow::Delete(side, mode),
                    rules,
                )
                &&& old(self).untroubled() && (side == ReconciliationSide::Client
                    ==> place::is_there(
                    old(self).cli.state().tree,
                    dir.cli.dir.path().push(name@),
                )) && (side == ReconciliationSide::Server ==> place::is_there(
                    old(self).srv.state().tree,
                    dir.srv.dir.path().push(name@),
                )) ==> final(state).success
            },
    {
        proof {
            reveal(log::acted);
            reveal(log::flawless);
        }
        let cli_dir = match side {
            ReconciliationSide::Client => try_chdir(
                &mut self.cli,
                &dir.cli.dir,
                parent_name,
                name,
                &mut self.log,
                ReplicaSide::Client,
            ),
            ReconciliationSide::Server => Some(self.cli.synthdir(&dir.cli.dir, name, mode)),
        };
        let anc_dir = match self.anc.chdir(&dir.anc.dir, name) {
            Ok(anc_dir) => anc_dir,
            Err(_) => self.anc.synthdir(&dir.anc.dir, name, mode),
        };
        let srv_dir = match side {
            ReconciliationSide::Client => Some(self.srv.synthdir(&dir.srv.dir, name, mode)),
            ReconciliationSide::Server => try_chdir(
                &mut self.srv,
                &dir.srv.dir,
                parent_name,
                name,
                &mut self.log,
                ReplicaSide::Server,
            ),
        };
        match (cli_dir, srv_dir) {
            (Some(cli_dir), Some(srv_dir)) => {
                self.log.log(
                    log::EDIT,
                    &Log::RecursiveDelete(ReplicaSide::from(side), cli_dir.full_path()),
                );
                let ghost before = pending@;
                pending.push(
                    Subdir {
                        cli: cli_dir,
                        anc: anc_dir,
                        srv: srv_dir,
                        rules,
                        delete: true,
                        cause: Ghost((name@, Follow::Delete(side, mode))),
                    },
                );
                assert(pending@.drop_last() =~= before);
            },
            _ => {
                state.fail();
            },
        }
    }
}

/// The state of a walk after the file named `n` has been processed.
pub open spec fn after_file(w: Walked, n: Seq<u8>, policy: Policy) -> Walked {
    match model::choice(w.t, n, policy) {
        Reconciliation::Split(side, st) => model::split(
            w,
            n,
            model::alternate_for(n, model::names(w.t))->0,
            side,
            st,
        ),
        _ => model::processed(w, n, policy),
    }
}

/// Whether a file can be processed: if it is to be split, there is a name for
/// it.
pub open spec fn can_process(t: Trio, n: Seq<u8>, policy: Policy) -> bool {
    model::choice(t, n, policy) is Split ==> model::alternate_for(n, model::names(t)) is Some
}

/// Whether a walk stands where `w` says.
pub open spec fn tracks<CLI: Replica, ANC: Replica, SRV: Replica, LOG, INT, R: SyncRules>(
    ctx: &Context<CLI, ANC, SRV, LOG, INT>,
    dir: &DirContext<CLI::Directory, ANC::Directory, SRV::Directory, R>,
    state: DirState,
    pending: Seq<Subdir<CLI::Directory, ANC::Directory, SRV::Directory, R>>,
    w: Walked,
    policy: Policy,
    skipped: Set<Seq<u8>>,
) -> bool {
    &&& dir.rules.policy() == Some(policy)
    &&& mutate::all_in_step(ctx, dir)
    &&& mutate::trio(ctx, dir) == w.t
    &&& state.empty == w.empty
    &&& pend(pending, dir, w.follows, w.policies, skipped)
}

/// Whether the subdirectory named `n` is marked clean on both sides.
pub open spec fn is_clean<CLI: Replica, ANC: Replica, SRV: Replica, LOG, INT, R>(
    ctx: &Context<CLI, ANC, SRV, LOG, INT>,
    dir: &DirContext<CLI::Directory, ANC::Directory, SRV::Directory, R>,
    n: Seq<u8>,
) -> bool {
    &&& ctx.cli.state().clean.contains(dir.cli.dir.path().push(n))
    &&& ctx.srv.state().clean.contains(dir.srv.dir.path().push(n))
}

/// The subdirectories that are skipped after the file named `n` has been
/// processed, which made `w2` of the directory: if the file is a directory that
/// is to be descended into, and is marked clean on both sides, it is one of
/// them.
pub open spec fn skipped_after<CLI: Replica, ANC: Replica, SRV: Replica, LOG, INT, R>(
    after: &Context<CLI, ANC, SRV, LOG, INT>,
    dir: &DirContext<CLI::Directory, ANC::Directory, SRV::Directory, R>,
    n: Seq<u8>,
    w2: Walked,
    skipped: Set<Seq<u8>>,
) -> Set<Seq<u8>> {
    if w2.follows.dom().contains(n) && w2.follows[n] is Enter && is_clean(after, dir, n) {
        skipped.insert(n)
    } else {
        skipped
    }
}

/// Whether nothing is propagated to the client, by what the rules say.
pub open spec fn spares_client(policy: Option<Policy>) -> bool {
    policy matches Some(p) && laws::outbound_only(p)
}

/// Whether the subdirectories that are to be processed can be used on the
/// client, and those that are to be removed do not exist there.
pub open spec fn client_ready<CD: ReplicaDirectory, AD, SD, R: SyncRules>(
    pending: Seq<Subdir<CD, AD, SD, R>>,
    tree: Kids,
) -> bool {
    forall|i: int|
        0 <= i < pending.len() ==> {
            &&& replica::usable(&(#[trigger] pending[i]).cli, tree)
            &&& pending[i].delete ==> !place::is_there(tree, pending[i].cli.path())
            &&& spares_client(pending[i].rules.policy())
        }
}

/// A synthetic subdirectory can be used where there is no other file in its
/// place.
pub proof fn lemma_conjured_usable<D: ReplicaDirectory>(
    d: &D,
    parent: &D,
    tree: Kids,
    n: Seq<u8>,
    m: FileMode,
)
    requires
        replica::usable(parent, tree),
        conjured(d, parent, n, m),
        model::at(place::kids_of(tree, parent.path()), n) is Some ==> model::at(
            place::kids_of(tree, parent.path()),
            n,
        )->0.data.is_dir(),
    ensures
        replica::usable(d, tree),
{
    let p = parent.path();
    assert(p.push(n).take(parent.solid() as int) =~= p.take(parent.solid() as int));
    lemma_makeable_child(tree, p, n);
}

proof fn lemma_makeable_child(k: Kids, p: Path, n: Seq<u8>)
    requires
        replica::makeable(k, p),
        model::at(place::kids_of(k, p), n) is Some ==> model::at(
            place::kids_of(k, p),
            n,
        )->0.data.is_dir(),
    ensures
        replica::makeable(k, p.push(n)),
    decreases p.len(),
{
    let q = p.push(n);
    if p.len() == 0 {
        assert(q[0] == n);
        assert(q.drop_first() =~= Seq::<Seq<u8>>::empty());
        if k.dom().contains(n) {
            assert(replica::makeable(k[n].kids, q.drop_first()));
        }
    } else {
        assert(q[0] == p[0]);
        assert(q.drop_first() =~= p.drop_first().push(n));
        if k.dom().contains(p[0]) {
            lemma_makeable_child(k[p[0]].kids, p.drop_first(), n);
        }
    }
}

/// The log after the decision about a file has been noted.
pub open spec fn inspected(
    before: Seq<(LogLevel, LogModel)>,
    dir_path: Seq<u8>,
    n: Seq<u8>,
    decision: (Reconciliation, Conflict),
) -> Seq<(LogLevel, LogModel)> {
    before.push(
        (
            if decision.1 == Conflict::NoConflict {
                log::INFO
            } else {
                log::WARN
            },
            LogModel::Inspect(dir_path, n, decision.0, decision.1),
        ),
    )
}

/// The decision about the file named `n`.
pub open spec fn decision(t: Trio, n: Seq<u8>, policy: Policy) -> (Reconciliation, Conflict) {
    compute::chosen(
        model::seen_at(t, n, policy),
        model::data(model::at(t.a, n)),
        model::data(model::at(t.s, n)),
        model::ruling(t, n, policy).mode,
    )
}

/// The log after the file named `n` has been processed in the directory that is
/// shown as `shown`.
pub open spec fn file_log(
    before: Seq<(LogLevel, LogModel)>,
    dir_path: Seq<u8>,
    shown: Seq<u8>,
    t: Trio,
    n: Seq<u8>,
    policy: Policy,
) -> Seq<(LogLevel, LogModel)> {
    let r = model::choice(t, n, policy);
    let l = mutate::applied_log(
        inspected(before, dir_path, n, decision(t, n, policy)),
        dir_path,
        n,
        r,
        model::seen_at(t, n, policy),
        model::data(model::at(t.s, n)),
        model::at(t.a, n) is Some,
        model::alternate_for(n, model::names(t))->0,
    );
    match model::settle_as(
        model::at(t.c, n),
        model::at(t.a, n),
        model::at(t.s, n),
        model::seen_at(t, n, policy),
        r,
    ).follow {
        Some(Follow::Delete(side, _)) => l.push(
            (log::EDIT, LogModel::RecursiveDelete(side.replica(), replica::shown_in(shown, n))),
        ),
        _ => l,
    }
}

/// What processing the file named `n` does to a walk that stands where `w`
/// says.
pub open spec fn file_step<
    CLI: Replica,
    ANC: Replica,
    SRV: Replica,
    LOG: Logger,
    INT: Interrupt,
    R: SyncRules,
>(
    ctx: &Context<CLI, ANC, SRV, LOG, INT>,
    after: &Context<CLI, ANC, SRV, LOG, INT>,
    dir: &DirContext<CLI::Directory, ANC::Directory, SRV::Directory, R>,
    dir_after: &DirContext<CLI::Directory, ANC::Directory, SRV::Directory, R>,
    state: DirState,
    state_after: DirState,
    pending: Seq<Subdir<CLI::Directory, ANC::Directory, SRV::Directory, R>>,
    pending_after: Seq<Subdir<CLI::Directory, ANC::Directory, SRV::Directory, R>>,
    dir_path: Seq<u8>,
    n: Seq<u8>,
    w: Walked,
    policy: Policy,
    skipped: Set<Seq<u8>>,
) -> bool {
    state.success && tracks(ctx, dir, state, pending, w, policy, skipped)
        && !w.follows.dom().contains(n) ==> {
        let w2 = after_file(w, n, policy);
        &&& log::grown(
            inspected(ctx.log.logged(), dir_path, n, decision(w.t, n, policy)),
            after.log.logged(),
        )
        &&& state_after.success ==> {
            &&& after.log.logged() == file_log(
                ctx.log.logged(),
                dir_path,
                dir.cli.dir.shown(),
                w.t,
                n,
                policy,
            )
            &&& can_process(w.t, n, policy)
            &&& tracks(
                after,
                dir_after,
                state_after,
                pending_after,
                w2,
                policy,
                skipped_after(after, dir, n, w2, skipped),
            )
            &&& mutate::advanced(ctx, after, dir, dir_after, w2.t)
            &&& dir_after.todo@ == (if model::choice(w.t, n, policy) is Split {
                dir.todo@.insert(n).insert(model::alternate_for(n, model::names(w.t))->0)
            } else {
                dir.todo@
            })
        }
        &&& ctx.untroubled() && mutate::within(w.t.a, usize::MAX as nat) && place::is_there(
            ctx.anc.state().tree,
            dir.anc.dir.path(),
        ) && can_process(w.t, n, policy) && model::recognised_at(w.t, n, policy) ==> state_after.success
    }
}

/// Adding what is to be followed up.
proof fn lemma_pended<CD: ReplicaDirectory, AD: ReplicaDirectory, SD: ReplicaDirectory, R>(
    before: Seq<Subdir<CD, AD, SD, R>>,
    after: Seq<Subdir<CD, AD, SD, R>>,
    dir: &DirContext<CD, AD, SD, R>,
    follows: Map<Seq<u8>, Follow>,
    policies: Map<Seq<u8>, Policy>,
    skipped: Set<Seq<u8>>,
    n: Seq<u8>,
    f: Follow,
    rules: R,
    p: Policy,
) where R: SyncRules
    requires
        pend(before, dir, follows, policies, skipped),
        pended(before, after, dir, n, f, rules),
        rules.policy() == Some(p),
        !follows.dom().contains(n),
    ensures
        pend(after, dir, follows.insert(n, f), policies.insert(n, p), skipped),
{
    let l = before.len() as int;
    assert forall|i: int| 0 <= i < l implies #[trigger] after[i] == before[i] by {
        assert(after.drop_last()[i] == after[i]);
    }
    assert(after[l] == after.last());
    let g = follows.insert(n, f);
    assert(!skipped.contains(n));
    assert forall|m: Seq<u8>| #[trigger] g.dom().contains(m) implies skipped.contains(m)
        || exists|i: int| 0 <= i < after.len() && (#[trigger] after[i]).cause@.0 == m by {
        if m == n {
            assert(after[l].cause@.0 == m);
        } else if !skipped.contains(m) {
            assert(follows.dom().contains(m));
            let i = choose|i: int| 0 <= i < before.len() && (#[trigger] before[i]).cause@.0 == m;
            assert(after[i].cause@.0 == m);
        }
    }
    assert forall|i: int, j: int| 0 <= i < j < after.len() implies (
    #[trigger] after[i]).cause@.0 != (#[trigger] after[j]).cause@.0 by {
        assert(before[i].cause@.0 == after[i].cause@.0);
        if j < l {
            assert(before[j].cause@.0 == after[j].cause@.0);
        } else {
            assert(follows.dom().contains(before[i].cause@.0));
        }
    }
}

/// Skipping what is to be followed up.
proof fn lemma_skipped<CD: ReplicaDirectory, AD: ReplicaDirectory, SD: ReplicaDirectory, R>(
    pending: Seq<Subdir<CD, AD, SD, R>>,
    dir: &DirContext<CD, AD, SD, R>,
    follows: Map<Seq<u8>, Follow>,
    policies: Map<Seq<u8>, Policy>,
    skipped: Set<Seq<u8>>,
    n: Seq<u8>,
    p: Policy,
) where R: SyncRules
    requires
        pend(pending, dir, follows, policies, skipped),
        !follows.dom().contains(n),
    ensures
        pend(
            pending,
            dir,
            follows.insert(n, Follow::Enter),
            policies.insert(n, p),
            skipped.insert(n),
        ),
{
    let g = follows.insert(n, Follow::Enter);
    assert forall|m: Seq<u8>| #[trigger] g.dom().contains(m) implies skipped.insert(n).contains(m)
        || exists|i: int| 0 <= i < pending.len() && (#[trigger] pending[i]).cause@.0 == m by {
        if m != n {
            assert(follows.dom().contains(m));
        }
    }
    assert forall|m: Seq<u8>| #[trigger] skipped.insert(n).contains(m) implies g.dom().contains(m)
        && g[m] is Enter by {
        if m != n {
            assert(skipped.contains(m));
        }
    }
}

/// Subdirectories stay those that are to be followed up where the handles of
/// their parent stay the same.
pub proof fn lemma_pend_same<CD: ReplicaDirectory, AD: ReplicaDirectory, SD: ReplicaDirectory, R>(
    pending: Seq<Subdir<CD, AD, SD, R>>,
    dir: &DirContext<CD, AD, SD, R>,
    after: &DirContext<CD, AD, SD, R>,
    follows: Map<Seq<u8>, Follow>,
    policies: Map<Seq<u8>, Policy>,
    skipped: Set<Seq<u8>>,
) where R: SyncRules
    requires
        pend(pending, dir, follows, policies, skipped),
        replica::same_handle(&after.cli.dir, &dir.cli.dir),
        replica::same_handle(&after.anc.dir, &dir.anc.dir),
        replica::same_handle(&after.srv.dir, &dir.srv.dir),
    ensures
        pend(pending, after, follows, policies, skipped),
{
    assert forall|i: int| 0 <= i < pending.len() implies {
        let x = #[trigger] pending[i];
        &&& follows.dom().contains(x.cause@.0) && follows[x.cause@.0] == x.cause@.1
        &&& !skipped.contains(x.cause@.0)
        &&& shaped(x, after)
        &&& x.rules.policy() == Some(policies[x.cause@.0])
    } by {
        assert(shaped(pending[i], dir));
    }
}

/// What is descended into is a directory wherever it exists.
pub proof fn lemma_follow_dirs(c: Option<Node>, a: Option<Node>, s: Option<Node>, rule: Ruling)
    ensures
        ({
            let r = compute::chosen(
                model::seen(model::data(c), model::data(a), model::data(s), rule.trust),
                model::data(a),
                model::data(s),
                rule.mode,
            ).0;
            let x = model::settle(c, a, s, rule.trust, r);
            match x.follow {
                None => true,
                Some(Follow::Enter) => defs::opt_is_dir(model::data(x.c)) && defs::opt_is_dir(
                    model::data(x.a),
                ) && defs::opt_is_dir(model::data(x.s)),
                Some(Follow::Delete(ReconciliationSide::Client, m)) => defs::opt_is_dir(
                    model::data(x.c),
                ) && defs::opt_is_dir(model::data(x.a)) && x.s is None,
                Some(Follow::Delete(ReconciliationSide::Server, m)) => model::data(x.s) == Some(
                    FileModel::Directory(m),
                ) && defs::opt_is_dir(model::data(x.a)) && x.c is None,
            }
        }),
{
}

/// A directory among those that a replica holds exists.
proof fn lemma_child_there<A: Replica>(rep: &A, dir: &A::Directory, n: Seq<u8>)
    requires
        rep.ideal(),
        dir.modes().len() == dir.path().len(),
    ensures
        place::is_there(rep.state().tree, dir.path().push(n)) == defs::opt_is_dir(
            model::data(model::at(mutate::held(rep, dir), n)),
        ),
{
    let tree = rep.state().tree;
    rep.lemma_sound();
    place::lemma_graft_child(tree, dir.path(), dir.modes(), n, 0, Map::empty());
    if model::at(mutate::held(rep, dir), n) is Some {
        mutate::lemma_held_is_there(tree, dir.path());
    }
}

impl<
    CLI: Replica,
    ANC: Replica + NullTransfer + Condemn,
    SRV: Replica<TransferIn = CLI::TransferOut, TransferOut = CLI::TransferIn>,
    LOG: Logger,
    INT: Interrupt,
> Context<CLI, ANC, SRV, LOG, INT> {
    /// Processes a single file.
    ///
    /// Returns the inspection of the file, what came of applying the resolution,
    /// and the log after that.
    #[verifier::rlimit(100)]
    fn settle_file<R: SyncRules>(
        &mut self,
        dir: &mut DirContext<CLI::Directory, ANC::Directory, SRV::Directory, R>,
        dir_path: &[u8],
        name: &[u8],
        state: &mut DirState,
        pending: &mut Vec<Subdir<CLI::Directory, ANC::Directory, SRV::Directory, R>>,
    ) -> (r: Ghost<(Inspection, ApplyResult, Seq<(LogLevel, LogModel)>)>)
        requires
            old(dir).names().contains(name@),
            !old(dir).todo@.contains(name@),
            old(state).success && old(state).empty,
        ensures
            old(self).keeps(*final(self)),
            final(dir).rules == old(dir).rules,
            final(self).interrupt == old(self).interrupt,
            ({
                let (x, res, l) = r@;
                &&& filed(*final(state), res, final(dir).names().contains(name@))
                &&& final(state).success && res is RecursiveDelete ==> final(pending)@.len()
                    == old(pending)@.len() + 1 && final(pending)@.last().delete
                &&& x.dir == dir_path@ && x.name == name@
                &&& x.recon !is Split ==> final(dir).todo@ == old(dir).todo@
                &&& log::inspected(old(self).log.logged(), l, x)
                &&& log::acted(l, final(self).log.logged())
                &&& final(state).success ==> log::flawless(
                    old(self).log.logged().push(log::inspection_entry(x)),
                    l,
                ) && log::flawless(l, final(self).log.logged())
            }),
            final(dir).todo@ == old(dir).todo@ || (old(dir).cli.files@.dom().contains(name@)
                && old(dir).srv.files@.dom().contains(name@) && exists|new: Seq<u8>|
                #[trigger] split_queue(*old(dir), *final(dir), name@, new)),
            forall|m: Seq<u8>|
                m != name@ && #[trigger] old(dir).names().contains(m) ==> {
                    &&& final(dir).cli.files@.dom().contains(m)
                        == old(dir).cli.files@.dom().contains(m)
                    &&& final(dir).anc.files@.dom().contains(m)
                        == old(dir).anc.files@.dom().contains(m)
                    &&& final(dir).srv.files@.dom().contains(m)
                        == old(dir).srv.files@.dom().contains(m)
                },
            spares_client(old(dir).rules.policy()) && mutate::in_step(
                &old(self).cli,
                &old(dir).cli.dir,
                old(dir).cli.files,
            ) && client_ready(old(pending)@, old(self).cli.state().tree) ==> {
                &&& final(dir).cli == old(dir).cli
                &&& final(self).cli.ideal()
                &&& final(self).cli.state() == old(self).cli.state()
                &&& client_ready(final(pending)@, old(self).cli.state().tree)
            },
            forall|w: Walked, policy: Policy, skipped: Set<Seq<u8>>| #[trigger]
                file_step(
                    old(self),
                    final(self),
                    old(dir),
                    final(dir),
                    *old(state),
                    *final(state),
                    old(pending)@,
                    final(pending)@,
                    dir_path@,
                    name@,
                    w,
                    policy,
                    skipped,
                ),
    {
        let ghost self0 = *self;
        let ghost dir0 = *dir;
        let ghost state0 = *state;
        let ghost pending0 = pending@;
        let ghost n = name@;
        let cli_file = match dir.cli.files.get(name) {
            Some(fd) => Some(fd.clone()),
            None => None,
        };
        let anc = match dir.anc.files.get(name) {
            Some(fd) => Some(fd.clone()),
            None => None,
        };
        let srv = match dir.srv.files.get(name) {
            Some(fd) => Some(fd.clone()),
            None => None,
        };
        let mut cli = cli_file;
        let (mode, trust, rules) = {
            let fd: &FileData = match (&cli, &anc, &srv) {
                (Some(fd), _, _) => fd,
                (None, Some(fd), _) => fd,
                (None, None, Some(fd)) => fd,
                (None, None, None) => {
                    assert(false);
                    return Ghost(arbitrary());
                },
            };
            let file = File(name, fd);
            (
                dir.rules.sync_mode(file),
                dir.rules.trust_client_unix_mode(file),
                dir.rules.subdir(file),
            )
        };
        let ghost sub = rules.policy();
        let ghost sub_rules = rules;
        if !trust {
            if let Some(fd) = &mut cli {
                match (&srv, &anc) {
                    (Some(other), _) => fd.transrich_unix_mode(other),
                    (None, Some(other)) => fd.transrich_unix_mode(other),
                    (None, None) => {},
                }
            }
        }
        let (recon, conflict) = compute::choose_reconciliation(
            defs::opt_ref(&cli),
            defs::opt_ref(&anc),
            defs::opt_ref(&srv),
            mode,
        );
        self.log.log(
            match conflict {
                Conflict::NoConflict => log::INFO,
                _ => log::WARN,
            },
            &Log::Inspect(dir_path, name, recon, conflict),
        );
        let ghost entry = Inspection { dir: dir_path@, name: n, recon, conflict };
        assert(self.log.logged() == self0.log.logged().push(log::inspection_entry(entry)));
        proof {
            compute::law_directories_not_overwritten(
                defs::opt_model(cli),
                defs::opt_model(anc),
                defs::opt_model(srv),
                mode,
            );
            compute::law_split_needs_both(
                defs::opt_model(cli),
                defs::opt_model(anc),
                defs::opt_model(srv),
                mode,
            );
        }
        let ghost spares = spares_client(dir.rules.policy()) && mutate::in_step(
            &self.cli,
            &dir.cli.dir,
            dir.cli.files,
        ) && client_ready(pending@, self.cli.state().tree);
        proof {
            if spares {
                assert(dir.rules.policy()->0.gives(Ruling { mode, trust }));
                rules::lemma_kin(sub->0, dir.rules.policy()->0);
                compute::law_client_untouched(
                    defs::opt_model(cli),
                    defs::opt_model(anc),
                    defs::opt_model(srv),
                    mode,
                );
                mutate::lemma_agreed_dom(
                    dir.cli.files,
                    mutate::held(&self.cli, &dir.cli.dir),
                );
                lemma_child_there(&self.cli, &dir.cli.dir, n);
            }
        }
        let res = self.apply_reconciliation(
            dir,
            dir_path,
            name,
            recon,
            defs::opt_ref(&cli),
            defs::opt_ref(&srv),
        );
        let ghost self1 = *self;
        let ghost dir1 = *dir;
        proof {
            if recon is Split && res != ApplyResult::Fail {
                let new = model::alternate_for(n, dir0.names())->0;
                assert(split_queue(dir0, *dir, n, new));
            }
        }
        match res {
            ApplyResult::Clean(false) => {
                state.empty = state.empty && !dir.name_in_use(name);
            },
            ApplyResult::Fail => {
                state.fail();
            },
            ApplyResult::Clean(true) => {
                state.empty = false;
                self.recurse_into_dir(dir, dir_path, name, rules, state, pending);
            },
            ApplyResult::RecursiveDelete(side, mode) => {
                self.recursive_delete(dir, dir_path, name, rules, state, pending, side, mode);
            },
        }
        proof {
            log::lemma_grown(
                self0.log.logged().push(log::inspection_entry(entry)),
                self1.log.logged(),
            );
            log::lemma_grown(self1.log.logged(), self.log.logged());
            mutate::lemma_applied_log(
                self0.log.logged().push(log::inspection_entry(entry)),
                dir_path@,
                n,
                recon,
                defs::opt_model(cli),
                defs::opt_model(srv),
                dir0.anc.files@.dom().contains(n),
                model::alternate_for(n, dir0.names())->0,
            );
            if spares {
                let tree = self0.cli.state().tree;
                assert forall|i: int| 0 <= i < pending@.len() implies {
                    &&& replica::usable(&(#[trigger] pending@[i]).cli, tree)
                    &&& pending@[i].delete ==> !place::is_there(tree, pending@[i].cli.path())
                    &&& spares_client(pending@[i].rules.policy())
                } by {
                    if i < pending0.len() {
                        assert(pending@[i] == pending0[i]) by {
                            if pending@ != pending0 {
                                assert(pending@.drop_last()[i] == pending@[i]);
                            }
                        }
                    } else {
                        assert(pending@[i] == pending@.last());
                        if let ApplyResult::RecursiveDelete(side, dm) = res {
                            lemma_conjured_usable(
                                &pending@[i].cli,
                                &dir0.cli.dir,
                                tree,
                                n,
                                dm,
                            );
                        }
                    }
                }
            }
            assert forall|w: Walked, m: Policy, skipped: Set<Seq<u8>>| #[trigger]
                file_step(
                    &self0,
                    self,
                    &dir0,
                    dir,
                    state0,
                    *state,
                    pending0,
                    pending@,
                    dir_path@,
                    n,
                    w,
                    m,
                    skipped,
                ) by {
                if state0.success && tracks(&self0, &dir0, state0, pending0, w, m, skipped)
                    && !w.follows.dom().contains(n) {
                    mutate::lemma_agreed_dom(dir0.cli.files, w.t.c);
                    mutate::lemma_agreed_dom(dir0.anc.files, w.t.a);
                    mutate::lemma_agreed_dom(dir0.srv.files, w.t.s);
                    assert(model::names(w.t) =~= dir0.names());
                    assert(model::ruling(w.t, n, m) == (Ruling { mode, trust }));
                    assert(model::seen_at(w.t, n, m) == defs::opt_model(cli));
                    assert(model::choice(w.t, n, m) == recon);
                    assert(sub == Some(m.below(n, model::shown(w.t, n))));
                    lemma_follow_dirs(
                        model::at(w.t.c, n),
                        model::at(w.t.a, n),
                        model::at(w.t.s, n),
                        Ruling { mode, trust },
                    );
                    if res != ApplyResult::Fail {
                        let w2 = after_file(w, n, m);
                        assert(mutate::applied(w.t, n, defs::opt_model(cli), recon) == w2.t);
                        assert(mutate::advanced(&self0, &self1, &dir0, &dir1, w2.t));
                        mutate::lemma_agreed_dom(dir1.cli.files, w2.t.c);
                        mutate::lemma_agreed_dom(dir1.anc.files, w2.t.a);
                        mutate::lemma_agreed_dom(dir1.srv.files, w2.t.s);
                        lemma_pend_same(pending0, &dir0, &dir1, w.follows, w.policies, skipped);
                        lemma_child_there(&self1.cli, &dir1.cli.dir, n);
                        lemma_child_there(&self1.anc, &dir1.anc.dir, n);
                        lemma_child_there(&self1.srv, &dir1.srv.dir, n);
                        match res {
                            ApplyResult::Clean(true) => {
                                if state.success && is_clean(self, &dir0, n) {
                                    lemma_skipped(
                                        pending0,
                                        &dir1,
                                        w.follows,
                                        w.policies,
                                        skipped,
                                        n,
                                        sub->0,
                                    );
                                } else if state.success {
                                    lemma_pended(
                                        pending0,
                                        pending@,
                                        &dir1,
                                        w.follows,
                                        w.policies,
                                        skipped,
                                        n,
                                        Follow::Enter,
                                        sub_rules,
                                        sub->0,
                                    );
                                }
                            },
                            ApplyResult::RecursiveDelete(side, dm) => {
                                if state.success {
                                    lemma_pended(
                                        pending0,
                                        pending@,
                                        &dir1,
                                        w.follows,
                                        w.policies,
                                        skipped,
                                        n,
                                        Follow::Delete(side, dm),
                                        sub_rules,
                                        sub->0,
                                    );
                                }
                            },
                            _ => {},
                        }
                    }
                }
            }
        }
        Ghost((entry, res, self1.log.logged()))
    }

    /// Processes a single file.
    ///
    /// That is, this reads the current file, decides what to do with it, then
    /// applies that resolution. If the file is a directory and we are to
    /// recurse into it, arranges for that.
    ///
    /// The `success` flag on `state` is cleared if any operation fails.
    /// `empty` on `state` is cleared if the result state is clean but the file
    /// still exists.
    pub fn process_file<R: SyncRules>(
        &mut self,
        dir: &mut DirContext<CLI::Directory, ANC::Directory, SRV::Directory, R>,
        dir_path: &[u8],
        name: &[u8],
        state: &mut DirState,
        pending: &mut Vec<Subdir<CLI::Directory, ANC::Directory, SRV::Directory, R>>,
    )
        requires
            old(dir).names().contains(name@),
            !old(dir).todo@.contains(name@),
        ensures
            old(self).keeps(*final(self)),
            final(dir).rules == old(dir).rules,
            final(self).interrupt == old(self).interrupt,
            exists|own: DirState, res: ApplyResult| #[trigger]
                filed(own, res, final(dir).names().contains(name@)) && taken_in(
                    *old(state),
                    own,
                    *final(state),
                ) && {
                    &&& own.success && res is RecursiveDelete ==> final(pending)@.len()
                        == old(pending)@.len() + 1 && final(pending)@.last().delete
                    &&& own.success ==> log::flawless(
                        old(self).log.logged(),
                        final(self).log.logged(),
                    )
                    &&& forall|w: Walked, policy: Policy, skipped: Set<Seq<u8>>| #[trigger]
                        file_step(
                            old(self),
                            final(self),
                            old(dir),
                            final(dir),
                            untouched(),
                            own,
                            old(pending)@,
                            final(pending)@,
                            dir_path@,
                            name@,
                            w,
                            policy,
                            skipped,
                        )
                },
            exists|x: Inspection| #[trigger]
                log::inspected(old(self).log.logged(), final(self).log.logged(), x) && x.dir
                    == dir_path@ && x.name == name@ && (x.recon !is Split ==> final(dir).todo@
                    == old(dir).todo@),
            final(dir).todo@ == old(dir).todo@ || (old(dir).cli.files@.dom().contains(name@)
                && old(dir).srv.files@.dom().contains(name@) && exists|new: Seq<u8>|
                #[trigger] split_queue(*old(dir), *final(dir), name@, new)),
            forall|m: Seq<u8>|
                m != name@ && #[trigger] old(dir).names().contains(m) ==> {
                    &&& final(dir).cli.files@.dom().contains(m)
                        == old(dir).cli.files@.dom().contains(m)
                    &&& final(dir).anc.files@.dom().contains(m)
                        == old(dir).anc.files@.dom().contains(m)
                    &&& final(dir).srv.files@.dom().contains(m)
                        == old(dir).srv.files@.dom().contains(m)
                },
            spares_client(old(dir).rules.policy()) && mutate::in_step(
                &old(self).cli,
                &old(dir).cli.dir,
                old(dir).cli.files,
            ) && client_ready(old(pending)@, old(self).cli.state().tree) ==> {
                &&& final(dir).cli == old(dir).cli
                &&& final(self).cli.ideal()
                &&& final(self).cli.state() == old(self).cli.state()
                &&& client_ready(final(pending)@, old(self).cli.state().tree)
            },
            forall|w: Walked, policy: Policy, skipped: Set<Seq<u8>>| #[trigger]
                file_step(
                    old(self),
                    final(self),
                    old(dir),
                    final(dir),
                    *old(state),
                    *final(state),
                    old(pending)@,
                    final(pending)@,
                    dir_path@,
                    name@,
                    w,
                    policy,
                    skipped,
                ),
    {
        let ghost l0 = self.log.logged();
        let ghost self0 = *self;
        let ghost dir0 = *dir;
        let ghost state0 = *state;
        let ghost pending0 = pending@;
        let mut own = DirState::new();
        let done = self.settle_file(dir, dir_path, name, &mut own, pending);
        state.finish_task_in_dir(&own);
        proof {
            let (x, res, l2) = done@;
            let l1 = l0.push(log::inspection_entry(x));
            let l3 = self.log.logged();
            log::lemma_added(l0, log::inspection_entry(x));
            log::lemma_grown(l0, l1);
            log::lemma_grown(l1, l2);
            log::lemma_grown(l2, l3);
            log::lemma_added_twice(l1, l2, l3);
            log::lemma_added_twice(l0, l1, l3);
            assert(log::inspected(l0, l3, x));
            assert(filed(own, res, dir.names().contains(name@)));
            assert forall|w: Walked, policy: Policy, skipped: Set<Seq<u8>>| #[trigger]
                file_step(
                    &self0,
                    self,
                    &dir0,
                    dir,
                    state0,
                    *state,
                    pending0,
                    pending@,
                    dir_path@,
                    name@,
                    w,
                    policy,
                    skipped,
                ) by {
                let v = Walked { empty: true, ..w };
                assert(file_step(
                    &self0,
                    self,
                    &dir0,
                    dir,
                    untouched(),
                    own,
                    pending0,
                    pending@,
                    dir_path@,
                    name@,
                    v,
                    policy,
                    skipped,
                ));
                let w2 = after_file(w, name@, policy);
                let v2 = after_file(v, name@, policy);
                assert(v2.t == w2.t && v2.follows == w2.follows && v2.policies == w2.policies);
                assert(w2.empty == (w.empty && v2.empty));
            }
        }
    }
}

/// The state of a directory that nothing has been done to.
pub open spec fn untouched() -> DirState {
    DirState { success: true, empty: true }
}

/// Whether the flags for one file are those that applying its reconciliation with
/// the given result leads to, where `left` says whether the file still exists: a
/// failure clears `success`, as may not being able to enter a directory; a file
/// that still exists where the result is clean clears `empty`.
pub open spec fn filed(own: DirState, res: ApplyResult, left: bool) -> bool {
    match res {
        ApplyResult::Fail => !own.success && own.empty,
        ApplyResult::Clean(false) => own.success && own.empty == !left,
        ApplyResult::Clean(true) => !own.empty,
        ApplyResult::RecursiveDelete(_, _) => own.empty,
    }
}

/// Whether the flags of `own` have been taken into a state.
pub open spec fn taken_in(before: DirState, own: DirState, after: DirState) -> bool {
    &&& after.success == (before.success && own.success)
    &&& after.empty == (before.empty && own.empty)
}

/// Whether a file has been split: its old and its new name are to be
/// processed, and neither is in use on both sides.
pub open spec fn split_queue<CD, AD, SD, R>(
    before: DirContext<CD, AD, SD, R>,
    after: DirContext<CD, AD, SD, R>,
    n: Seq<u8>,
    new: Seq<u8>,
) -> bool {
    &&& !before.names().contains(new)
    &&& after.todo@ == before.todo@.insert(n).insert(new)
    &&& !(after.cli.files@.dom().contains(n) && after.srv.files@.dom().contains(n))
    &&& !(after.cli.files@.dom().contains(new) && after.srv.files@.dom().contains(new))
    &&& after.names().contains(n)
    &&& after.names().contains(new)
}

} // verus!
