//! Processing directories, each with everything below it.

use vstd::prelude::*;

use crate::bytes;
use crate::defs;
use crate::defs::{FileData, FileMode};
use crate::errors::Result;
use crate::interrupt::Interrupt;
use crate::log;
use crate::log::{Inspection, LogModel, Logger, ReplicaSide};
use crate::replica;
use crate::replica::{Condemn, NullTransfer, Replica, ReplicaDirectory, ReplicaState};
use crate::rules;
use crate::rules::{Policy, Ruling, SyncRules};
use crate::table::{NameMap, NameQueue};

use super::compute;
use super::compute::ReconciliationSide;
use super::context;
use super::context::{Context, DirContext, SingleDirContext};
use super::convergence;
use super::model;
use super::model::{Follow, Kids, Node, Outcome, Trio, Walked};
use super::mutate;
use super::place;
use super::tree_walk;
use super::tree_walk::{read_dir_contents, DirState, Subdir};
use super::trees;
use super::trees::Path;

verus! {

/// A directory that has been processed together with everything below it.
pub struct Done<CD, AD, SD> {
    pub cli: CD,
    pub anc: AD,
    pub srv: SD,
    pub state: DirState,
}

/// Whether `q` is the directory `p` or one below it.
pub open spec fn at_or_below(p: Path, q: Path) -> bool {
    q == p || replica::below(p, q)
}

/// What processing the directory at `p` leaves alone whatever becomes of its
/// files.
pub open spec fn confined(before: ReplicaState, after: ReplicaState, p: Path) -> bool {
    &&& after.faultless == before.faultless
    &&& after.condemned == before.condemned
    &&& forall|q: Path| #[trigger]
        after.clean.contains(q) ==> before.clean.contains(q) || at_or_below(p, q)
}

/// Whether a directory can be removed, as far as that is known.
pub open spec fn removed_dir<A: Replica>(before: &A, after: &A, d: &A::Directory) -> bool {
    let tree = before.state().tree;
    let p = d.path();
    if place::is_there(tree, p) {
        p.len() > 0 && after.state().tree == place::graft(
            tree,
            p.drop_last(),
            d.modes().drop_last(),
            place::kids_of(tree, p.drop_last()).remove(p.last()),
        )
    } else {
        after.state().tree == tree
    }
}

impl<
    CLI: Replica,
    ANC: Replica + NullTransfer + Condemn,
    SRV: Replica<TransferIn = CLI::TransferOut, TransferOut = CLI::TransferIn>,
    LOG: Logger,
    INT: Interrupt,
> Context<CLI, ANC, SRV, LOG, INT> {
    /// Marks a directory clean on the client and on the server.
    ///
    /// Returns whether successful.
    pub fn mark_both_clean(&mut self, cli: &CLI::Directory, srv: &SRV::Directory) -> (r: bool)
        ensures
            old(self).keeps(*final(self)),
            final(self).interrupt == old(self).interrupt,
            log::grown(old(self).log.logged(), final(self).log.logged()),
            r ==> final(self).log.logged() == old(self).log.logged(),
            final(self).anc == old(self).anc,
            old(self).cli.ideal() ==> {
                &&& final(self).cli.ideal()
                &&& final(self).cli.state().tree == old(self).cli.state().tree
                &&& confined(old(self).cli.state(), final(self).cli.state(), cli.path())
                &&& r && place::is_there(old(self).cli.state().tree, cli.path())
                    ==> final(self).cli.state().clean.contains(cli.path())
            },
            old(self).srv.ideal() ==> {
                &&& final(self).srv.ideal()
                &&& final(self).srv.state().tree == old(self).srv.state().tree
                &&& confined(old(self).srv.state(), final(self).srv.state(), srv.path())
                &&& r && place::is_there(old(self).srv.state().tree, srv.path())
                    ==> final(self).srv.state().clean.contains(srv.path())
            },
            old(self).untroubled() && replica::usable(cli, old(self).cli.state().tree)
                && replica::usable(srv, old(self).srv.state().tree) ==> r,
    {
        let dir_path: Vec<u8> = bytes::copy(cli.full_path());
        tree_walk::mark_clean(
            &mut self.cli,
            cli,
            &mut self.log,
            ReplicaSide::Client,
            dir_path.as_slice(),
        ) && tree_walk::mark_clean(
            &mut self.srv,
            srv,
            &mut self.log,
            ReplicaSide::Server,
            dir_path.as_slice(),
        )
    }

    /// Removes a directory that has ended up empty everywhere; marks one that
    /// has not clean.
    ///
    /// Returns whether successful.
    pub fn delete_or_mark_clean(
        &mut self,
        done: &mut Done<CLI::Directory, ANC::Directory, SRV::Directory>,
    ) -> (r: bool)
        ensures
            old(self).keeps(*final(self)),
            final(self).interrupt == old(self).interrupt,
            log::grown(old(self).log.logged(), final(self).log.logged()),
            r ==> final(self).log.logged() == (if old(done).state.empty {
                let p = old(done).cli.shown();
                old(self).log.logged() + seq![
                    (log::EDIT, LogModel::Rmdir(ReplicaSide::Ancestor, p)),
                    (log::EDIT, LogModel::Rmdir(ReplicaSide::Client, p)),
                    (log::EDIT, LogModel::Rmdir(ReplicaSide::Server, p)),
                ]
            } else {
                old(self).log.logged()
            }),
            final(done).state == old(done).state,
            !old(done).state.empty ==> final(self).anc == old(self).anc,
            old(self).cli.ideal() ==> {
                &&& final(self).cli.ideal()
                &&& !old(done).state.empty || !place::is_there(
                    old(self).cli.state().tree,
                    old(done).cli.path(),
                ) ==> final(self).cli.state().tree == old(self).cli.state().tree
                &&& r && old(done).state.empty ==> removed_dir(
                    &old(self).cli,
                    &final(self).cli,
                    &old(done).cli,
                )
                &&& confined(old(self).cli.state(), final(self).cli.state(), old(done).cli.path())
            },
            old(self).anc.ideal() ==> {
                &&& final(self).anc.ideal()
                &&& r && old(done).state.empty ==> removed_dir(
                    &old(self).anc,
                    &final(self).anc,
                    &old(done).anc,
                )
                &&& final(self).anc.state().condemned == old(self).anc.state().condemned
                &&& final(self).anc.state().faultless == old(self).anc.state().faultless
            },
            old(self).srv.ideal() ==> {
                &&& final(self).srv.ideal()
                &&& !old(done).state.empty ==> final(self).srv.state().tree
                    == old(self).srv.state().tree
                &&& r && old(done).state.empty ==> removed_dir(
                    &old(self).srv,
                    &final(self).srv,
                    &old(done).srv,
                )
                &&& confined(old(self).srv.state(), final(self).srv.state(), old(done).srv.path())
            },
            old(self).untroubled() && !old(done).state.empty && replica::usable(
                &old(done).cli,
                old(self).cli.state().tree,
            ) && replica::usable(&old(done).srv, old(self).srv.state().tree) ==> r,
            old(self).untroubled() && old(done).state.empty && vacated(
                &old(self).cli,
                &old(done).cli,
            ) && vacated(&old(self).anc, &old(done).anc) && vacated(&old(self).srv, &old(done).srv)
                ==> r,
    {
        if done.state.empty {
            let dir_path: Vec<u8> = bytes::copy(done.cli.full_path());
            tree_walk::try_rmdir(
                &mut self.anc,
                &mut done.anc,
                &mut self.log,
                dir_path.as_slice(),
                ReplicaSide::Ancestor,
            ) && tree_walk::try_rmdir(
                &mut self.cli,
                &mut done.cli,
                &mut self.log,
                dir_path.as_slice(),
                ReplicaSide::Client,
            ) && tree_walk::try_rmdir(
                &mut self.srv,
                &mut done.srv,
                &mut self.log,
                dir_path.as_slice(),
                ReplicaSide::Server,
            )
        } else {
            self.mark_both_clean(&done.cli, &done.srv)
        }
    }
}

/// Whether there is nothing left in a directory below the root.
pub open spec fn vacated<A: Replica>(rep: &A, d: &A::Directory) -> bool {
    d.path().len() > 0 && place::kids_of(rep.state().tree, d.path()) == Map::<
        Seq<u8>,
        Node,
    >::empty()
}

/// What the three replicas hold in a directory.
pub open spec fn trio_at<CLI: Replica, ANC: Replica, SRV: Replica, LOG, INT>(
    ctx: &Context<CLI, ANC, SRV, LOG, INT>,
    c: &CLI::Directory,
    a: &ANC::Directory,
    s: &SRV::Directory,
) -> Trio {
    Trio {
        c: mutate::held(&ctx.cli, c),
        a: mutate::held(&ctx.anc, a),
        s: mutate::held(&ctx.srv, s),
    }
}

/// Whether a directory can be processed with a known outcome: the replicas are
/// ideal, nothing in them is condemned, and the handles can be used.
pub open spec fn ready<CLI: Replica, ANC: Replica, SRV: Replica, LOG, INT>(
    ctx: &Context<CLI, ANC, SRV, LOG, INT>,
    c: &CLI::Directory,
    a: &ANC::Directory,
    s: &SRV::Directory,
) -> bool {
    &&& mutate::sane(&ctx.cli) && mutate::sane(&ctx.anc) && mutate::sane(&ctx.srv)
    &&& replica::usable(c, ctx.cli.state().tree)
    &&& replica::usable(a, ctx.anc.state().tree)
    &&& replica::usable(s, ctx.srv.state().tree)
    &&& place::is_there(ctx.anc.state().tree, a.path())
}

/// Whether the directories `skip`, as seen from a directory, may be skipped:
/// they are marked clean on both sides.
pub open spec fn may_skip<CLI: Replica, ANC: Replica, SRV: Replica, LOG, INT>(
    ctx: &Context<CLI, ANC, SRV, LOG, INT>,
    c: &CLI::Directory,
    s: &SRV::Directory,
    skip: Set<Path>,
) -> bool {
    forall|q: Path| #[trigger]
        skip.contains(q) ==> ctx.cli.state().clean.contains(c.path() + q)
            && ctx.srv.state().clean.contains(s.path() + q)
}

/// Whether a replica has come to hold `k` in a directory, and the rest is as it
/// was.
pub open spec fn placed<A: Replica>(before: &A, after: &A, d: &A::Directory, k: Kids) -> bool {
    &&& after.ideal()
    &&& after.state().tree == place::graft(before.state().tree, d.path(), d.modes(), k)
    &&& after.state().faultless == before.state().faultless
    &&& after.state().condemned == before.state().condemned
}

/// Whether a directory has been processed with the outcome `o`.
pub open spec fn dir_done<CLI: Replica, ANC: Replica, SRV: Replica, LOG, INT>(
    ctx: &Context<CLI, ANC, SRV, LOG, INT>,
    after: &Context<CLI, ANC, SRV, LOG, INT>,
    c: &CLI::Directory,
    a: &ANC::Directory,
    s: &SRV::Directory,
    d: Done<CLI::Directory, ANC::Directory, SRV::Directory>,
    o: Outcome,
) -> bool {
    &&& replica::same_handle(&d.cli, c)
    &&& replica::same_handle(&d.anc, a)
    &&& replica::same_handle(&d.srv, s)
    &&& d.state.empty == o.empty
    &&& placed(&ctx.cli, &after.cli, c, o.t.c)
    &&& placed(&ctx.anc, &after.anc, a, o.t.a)
    &&& placed(&ctx.srv, &after.srv, s, o.t.s)
    &&& confined(ctx.cli.state(), after.cli.state(), c.path())
    &&& confined(ctx.srv.state(), after.srv.state(), s.path())
}

/// Whether a directory has been processed with the outcome `o`, where the
/// directories `skip`, as seen from it, were skipped.
pub open spec fn processed<CLI: Replica, ANC: Replica, SRV: Replica, LOG, INT>(
    ctx: &Context<CLI, ANC, SRV, LOG, INT>,
    after: &Context<CLI, ANC, SRV, LOG, INT>,
    c: &CLI::Directory,
    a: &ANC::Directory,
    s: &SRV::Directory,
    d: Done<CLI::Directory, ANC::Directory, SRV::Directory>,
    policy: Policy,
    depth: nat,
    o: Outcome,
    skip: Set<Path>,
) -> bool {
    &&& may_skip(ctx, c, s, skip)
    &&& !skip.contains(Seq::empty())
    &&& model::synced_but(trio_at(ctx, c, a, s), policy, depth, skip) == Some(o)
    &&& dir_done(ctx, after, c, a, s, d, o)
}

/// Whether a subdirectory that is to be processed is where, and what, its
/// cause says.
pub open spec fn in_place<A: Replica>(
    rep: &A,
    d: &A::Directory,
    n: Seq<u8>,
    f: Follow,
    v: Option<Node>,
) -> bool {
    let p = d.path().drop_last();
    &&& d.path().len() > 0
    &&& d.path().last() == n
    &&& v == model::at(place::kids_of(rep.state().tree, p), n)
    &&& v is Some ==> v->0.data.is_dir()
    &&& f is Enter ==> v is Some
    &&& v is None ==> (f matches Follow::Delete(_, m) ==> d.modes().last() == m)
}

/// Whether a subdirectory has been followed up in one replica.
pub open spec fn followed<A: Replica>(
    before: &A,
    after: &A,
    d: &A::Directory,
    n: Seq<u8>,
    f: Follow,
    done: Kids,
    gone: bool,
) -> bool {
    &&& after.ideal()
    &&& after.state().tree == place::concluded(
        before.state().tree,
        d.path().drop_last(),
        d.modes().drop_last(),
        n,
        f,
        done,
        gone,
    )
    &&& after.state().faultless == before.state().faultless
    &&& after.state().condemned == before.state().condemned
}

/// What is in the subdirectory `n` of a directory.
proof fn lemma_in_place<A: Replica>(rep: &A, d: &A::Directory, n: Seq<u8>, f: Follow)
    requires
        rep.ideal(),
        replica::usable(d, rep.state().tree),
        d.path().len() > 0,
        in_place(
            rep,
            d,
            n,
            f,
            model::at(place::kids_of(rep.state().tree, d.path().drop_last()), n),
        ),
    ensures
        ({
            let p = d.path().drop_last();
            let k = place::kids_of(rep.state().tree, p);
            &&& d.path() == p.push(n)
            &&& d.modes() == d.modes().drop_last().push(d.modes().last())
            &&& d.modes().drop_last().len() == p.len()
            &&& mutate::held(rep, d) == model::kids(model::at(k, n))
            &&& model::at(k, n) is Some ==> place::is_there(rep.state().tree, p)
            &&& place::is_there(rep.state().tree, d.path()) == (model::at(k, n) is Some)
        }),
{
    let p = d.path().drop_last();
    let m = d.modes().drop_last();
    let tree = rep.state().tree;
    rep.lemma_sound();
    assert(d.path() =~= p.push(n));
    assert(d.modes() =~= m.push(d.modes().last()));
    place::lemma_graft_child(tree, p, m, n, d.modes().last(), Map::empty());
    if model::at(place::kids_of(tree, p), n) is Some {
        mutate::lemma_held_is_there(tree, p);
    }
}

/// A replica in which the outcome has been placed in a subdirectory that stays
/// has been followed up.
proof fn lemma_followed_stays<A: Replica>(
    before: &A,
    after: &A,
    d: &A::Directory,
    n: Seq<u8>,
    f: Follow,
    done: Kids,
)
    requires
        before.ideal(),
        replica::usable(d, before.state().tree),
        in_place(
            before,
            d,
            n,
            f,
            model::at(place::kids_of(before.state().tree, d.path().drop_last()), n),
        ),
        placed(before, after, d, done),
    ensures
        followed(before, after, d, n, f, done, false),
{
    lemma_in_place(before, d, n, f);
    place::lemma_conclude(
        before.state().tree,
        d.path().drop_last(),
        d.modes().drop_last(),
        n,
        d.modes().last(),
        f,
        done,
    );
}

/// A replica from which a subdirectory that ended up empty has been removed has
/// been followed up.
proof fn lemma_followed_gone<A: Replica>(
    before: &A,
    emptied: &A,
    after: &A,
    d: &A::Directory,
    d_after: &A::Directory,
    n: Seq<u8>,
    f: Follow,
)
    requires
        before.ideal(),
        replica::usable(d, before.state().tree),
        in_place(
            before,
            d,
            n,
            f,
            model::at(place::kids_of(before.state().tree, d.path().drop_last()), n),
        ),
        placed(before, emptied, d, Map::empty()),
        replica::same_handle(d_after, d),
        f is Delete,
        after.ideal(),
        removed_dir(emptied, after, d_after),
        after.state().faultless == emptied.state().faultless,
        after.state().condemned == emptied.state().condemned,
    ensures
        followed(before, after, d, n, f, Map::empty(), true),
{
    lemma_in_place(before, d, n, f);
    place::lemma_conclude_gone(
        before.state().tree,
        d.path().drop_last(),
        d.modes().drop_last(),
        n,
        d.modes().last(),
        f,
    );
}

/// What is left in a subdirectory that ended up empty.
proof fn lemma_vacated<A: Replica>(
    before: &A,
    emptied: &A,
    d: &A::Directory,
    d_after: &A::Directory,
)
    requires
        placed(before, emptied, d, Map::empty()),
        replica::same_handle(d_after, d),
        d.path().len() > 0,
    ensures
        vacated(emptied, d_after),
{
    place::lemma_graft_get(before.state().tree, d.path(), d.modes(), Map::empty());
}

impl<
    CLI: Replica,
    ANC: Replica + NullTransfer + Condemn,
    SRV: Replica<TransferIn = CLI::TransferOut, TransferOut = CLI::TransferIn>,
    LOG: Logger,
    INT: Interrupt,
> Context<CLI, ANC, SRV, LOG, INT> {
    /// Processes a subdirectory, then removes it or marks it clean.
    ///
    /// If processing it fails, `state.success` is cleared. The flags of the
    /// subdirectory's state are ANDed into `state`.
    pub fn recurse_and_then<R: SyncRules>(
        &mut self,
        x: Subdir<CLI::Directory, ANC::Directory, SRV::Directory, R>,
        depth: usize,
        state: &mut DirState,
    )
        ensures
            old(self).keeps(*final(self)),
            final(self).interrupt == old(self).interrupt,
            log::grown(old(self).log.logged(), final(self).log.logged()),
            final(state).success ==> log::flawless(
                old(self).log.logged(),
                final(self).log.logged(),
            ),
            final(state).success ==> old(state).success,
            tree_walk::spares_client(x.rules.policy()) && mutate::sane(&old(self).cli)
                && replica::usable(&x.cli, old(self).cli.state().tree) && (x.delete
                ==> !place::is_there(old(self).cli.state().tree, x.cli.path())) ==> mutate::sane(
                &final(self).cli,
            ) && final(self).cli.state().tree == old(self).cli.state().tree,
            old(state).success && ready(old(self), &x.cli, &x.anc, &x.srv) && fits(old(self), x)
                ==> (x.rules.policy() matches Some(policy) ==> {
                let t = trio_at(old(self), &x.cli, &x.anc, &x.srv);
                &&& final(state).success ==> exists|o: Outcome, skip: Set<Path>| #[trigger]
                    visited(old(self), final(self), x, policy, depth as nat, o, skip)
                        && final(state).empty == (old(state).empty && o.empty)
                &&& model::smooth_below(t, policy, depth as nat) && old(self).untroubled()
                    && mutate::within(t.a, usize::MAX as nat)
                    && model::synced(t, policy, depth as nat) is Some ==> final(state).success
            }),
        decreases depth, 1nat,
    {
        proof {
            reveal(log::flawless);
        }
        let delete = x.delete;
        let ghost self0 = *self;
        let ghost x0 = x;
        let ghost n = x.cause@.0;
        let ghost f = x.cause@.1;
        let ghost good = state.success && ready(self, &x.cli, &x.anc, &x.srv) && fits(self, x)
            && x.rules.policy() is Some;
        let ghost t = trio_at(self, &x.cli, &x.anc, &x.srv);
        let ghost policy = x.rules.policy()->0;
        match self.process_dir(x.cli, x.anc, x.srv, x.rules, depth) {
            Some(mut done) => {
                let ghost self1 = *self;
                let ghost done1 = done;
                let ghost (o, skip) = choose|o: Outcome, skip: Set<Path>| #[trigger]
                    processed(
                        &self0,
                        self,
                        &x0.cli,
                        &x0.anc,
                        &x0.srv,
                        done,
                        policy,
                        depth as nat,
                        o,
                        skip,
                    );
                proof {
                    if good && done.state.success {
                        lemma_outcome(&self0, self, x0, done, o, policy, depth as nat, skip);
                    }
                }
                if done.state.success {
                    let ok = if delete {
                        self.delete_or_mark_clean(&mut done)
                    } else {
                        self.mark_both_clean(&done.cli, &done.srv)
                    };
                    proof {
                        if good && ok {
                            if delete && o.empty {
                                lemma_followed_gone(
                                    &self0.cli,
                                    &self1.cli,
                                    &self.cli,
                                    &x0.cli,
                                    &done1.cli,
                                    n,
                                    f,
                                );
                                lemma_followed_gone(
                                    &self0.anc,
                                    &self1.anc,
                                    &self.anc,
                                    &x0.anc,
                                    &done1.anc,
                                    n,
                                    f,
                                );
                                lemma_followed_gone(
                                    &self0.srv,
                                    &self1.srv,
                                    &self.srv,
                                    &x0.srv,
                                    &done1.srv,
                                    n,
                                    f,
                                );
                            } else {
                                lemma_followed_stays(
                                    &self0.cli,
                                    &self.cli,
                                    &x0.cli,
                                    n,
                                    f,
                                    o.t.c,
                                );
                                lemma_followed_stays(
                                    &self0.anc,
                                    &self.anc,
                                    &x0.anc,
                                    n,
                                    f,
                                    o.t.a,
                                );
                                lemma_followed_stays(
                                    &self0.srv,
                                    &self.srv,
                                    &x0.srv,
                                    n,
                                    f,
                                    o.t.s,
                                );
                            }
                        }
                    }
                    proof {
                        if good && ok {
                            assert(visited(&self0, self, x0, policy, depth as nat, o, skip));
                        }
                    }
                    if !ok {
                        done.state.fail();
                    }
                }
                state.finish_task_in_dir(&done.state);
            },
            None => {
                state.fail();
            },
        }
    }

    /// Processes a directory.
    ///
    /// Reads the contents of all three replicas, constructs the directory
    /// context, calls `process_file()` on each name, then processes the
    /// subdirectories.
    ///
    /// This may return `None` if it was unable to set the context up at all.
    /// Any errors have already been logged.
    pub fn process_dir<R: SyncRules>(
        &mut self,
        cli_dir: CLI::Directory,
        anc_dir: ANC::Directory,
        srv_dir: SRV::Directory,
        rules: R,
        depth: usize,
    ) -> (r: Option<Done<CLI::Directory, ANC::Directory, SRV::Directory>>)
        ensures
            old(self).keeps(*final(self)),
            final(self).interrupt == old(self).interrupt,
            log::grown(old(self).log.logged(), final(self).log.logged()),
            r is Some && r->0.state.success ==> log::flawless(
                old(self).log.logged(),
                final(self).log.logged(),
            ),
            r is Some ==> exists|names: Set<Seq<u8>>| #[trigger]
                log::swept(
                    old(self).log.logged(),
                    final(self).log.logged(),
                    cli_dir.shown(),
                    names,
                ) && (ready(old(self), &cli_dir, &anc_dir, &srv_dir) ==> names == model::names(
                    trio_at(old(self), &cli_dir, &anc_dir, &srv_dir),
                )),
            tree_walk::spares_client(rules.policy()) && mutate::sane(&old(self).cli)
                && replica::usable(&cli_dir, old(self).cli.state().tree) ==> mutate::sane(
                &final(self).cli,
            ) && final(self).cli.state().tree == old(self).cli.state().tree && (r matches Some(d)
                ==> replica::same_handle(&d.cli, &cli_dir)),
            ready(old(self), &cli_dir, &anc_dir, &srv_dir) ==> (rules.policy() matches Some(policy)
                ==> {
                let t = trio_at(old(self), &cli_dir, &anc_dir, &srv_dir);
                &&& r is Some && r->0.state.success ==> exists|o: Outcome, skip: Set<Path>| #[trigger]
                    processed(
                        old(self),
                        final(self),
                        &cli_dir,
                        &anc_dir,
                        &srv_dir,
                        r->0,
                        policy,
                        depth as nat,
                        o,
                        skip,
                    )
                &&& model::smooth_below(t, policy, depth as nat) && old(self).untroubled()
                    && mutate::within(t.a, usize::MAX as nat)
                    && model::synced(t, policy, depth as nat) is Some ==> r is Some
                    && r->0.state.success
            }),
        decreases depth, 0nat,
    {
        if depth == 0 || self.check_stop().is_err() {
            return None;
        }
        let ghost self0 = *self;
        let ghost given = rules.policy();
        let ghost good = ready(self, &cli_dir, &anc_dir, &srv_dir) && given is Some;
        let ghost policy = given->0;
        let ghost t = trio_at(self, &cli_dir, &anc_dir, &srv_dir);
        let ghost q = model::informed(t, policy);
        let ghost (c0, a0, s0) = (cli_dir, anc_dir, srv_dir);
        let mut cli_dir = cli_dir;
        let mut anc_dir = anc_dir;
        let mut srv_dir = srv_dir;
        let mut rules = rules;
        let dir_path: Vec<u8> = bytes::copy(cli_dir.full_path());
        let cli_files = match read_dir_contents(
            &mut self.cli,
            &mut cli_dir,
            dir_path.as_slice(),
            &mut rules,
            true,
            &mut self.log,
            ReplicaSide::Client,
        ) {
            Ok(files) => files,
            Err(_) => {
                return None;
            },
        };
        let anc_files = match read_dir_contents(
            &mut self.anc,
            &mut anc_dir,
            dir_path.as_slice(),
            &mut rules,
            false,
            &mut self.log,
            ReplicaSide::Ancestor,
        ) {
            Ok(files) => files,
            Err(_) => {
                return None;
            },
        };
        let srv_files = match read_dir_contents(
            &mut self.srv,
            &mut srv_dir,
            dir_path.as_slice(),
            &mut rules,
            true,
            &mut self.log,
            ReplicaSide::Server,
        ) {
            Ok(files) => files,
            Err(_) => {
                return None;
            },
        };
        let mut todo: NameQueue = NameQueue::new();
        queue_names(&cli_files, &mut todo);
        queue_names(&anc_files, &mut todo);
        queue_names(&srv_files, &mut todo);
        let mut dir = DirContext {
            cli: SingleDirContext { dir: cli_dir, files: cli_files },
            anc: SingleDirContext { dir: anc_dir, files: anc_files },
            srv: SingleDirContext { dir: srv_dir, files: srv_files },
            todo,
            rules,
        };
        let mut state = DirState::new();
        let ghost self1 = *self;
        let ghost dir1 = dir;
        proof {
            assert(dir.todo@ =~= dir.names());
            if given is Some {
                rules::lemma_kin(dir.rules.policy()->0, policy);
            }
            if good {
                mutate::lemma_agreed_dom(dir.cli.files, t.c);
                mutate::lemma_agreed_dom(dir.anc.files, t.a);
                mutate::lemma_agreed_dom(dir.srv.files, t.s);
                assert(mutate::trio(self, &dir) == t);
                assert(dir.todo@ =~= model::names(t));
                rules::lemma_told(policy, model::files(t.c), model::files(t.s));
                assert(can_walk(self, &dir, q));
                lemma_held_sound(&self0.cli, &c0);
                lemma_held_sound(&self0.anc, &a0);
                lemma_held_sound(&self0.srv, &s0);
            }
        }
        let (pending, Ghost(skipped)) = self.walk_dir(&mut dir, dir_path.as_slice(), &mut state);
        let ghost self2 = *self;
        let ghost dir2 = dir;
        let ghost walked = model::walked(t, policy);
        let ghost w = walked->0;
        let ghost marks = Marks { c: self1.cli.state().clean, s: self1.srv.state().clean };
        let ghost subs0 = left_alone(w, skipped);
        let ghost kept0 = themselves(skipped);
        proof {
            if good && state.success {
                lemma_following_begins(
                    &self1,
                    self,
                    &dir1,
                    &dir,
                    state,
                    pending@,
                    t,
                    w,
                    q,
                    skipped,
                    (depth - 1) as nat,
                );
            }
        }
        self.follow_up(
            pending,
            depth - 1,
            &mut state,
            Ghost(dir),
            Ghost(marks),
            Ghost(w),
            Ghost(q),
            Ghost(subs0),
            Ghost(kept0),
        );
        proof {
            log::lemma_added_twice(
                self0.log.logged(),
                self2.log.logged(),
                self.log.logged(),
            );
            log::lemma_inspections_grow(self2.log.logged(), self.log.logged());
            let seen = choose|seen: Seq<Inspection>| #[trigger]
                log::sweep(seen, dir_path@, dir1.todo@) && log::inspections(self2.log.logged())
                    == log::inspections(self0.log.logged()) + seen;
            assert(log::sweep(seen, c0.shown(), dir1.todo@));
            assert(log::swept(self0.log.logged(), self.log.logged(), c0.shown(), dir1.todo@));
            if ready(&self0, &c0, &a0, &s0) {
                mutate::lemma_agreed_dom(dir1.cli.files, t.c);
                mutate::lemma_agreed_dom(dir1.anc.files, t.a);
                mutate::lemma_agreed_dom(dir1.srv.files, t.s);
                assert(dir1.todo@ =~= model::names(t));
            }
            if good && state.success {
                let (subs, kept) = choose|
                    subs: Map<Seq<u8>, Outcome>,
                    kept: Map<Seq<u8>, Set<Path>>,
                | #[trigger]
                    followed_by(
                        &self2,
                        self,
                        &dir,
                        marks,
                        w,
                        state.empty,
                        (depth - 1) as nat,
                        subs,
                        kept,
                    );
                let o = model::gathered(w, subs);
                let skip = joined(kept);
                lemma_joined(w, (depth - 1) as nat, subs, kept);
                lemma_joined_clean(marks, &dir, kept);
                lemma_stays_occupied(t, w, subs, q);
                lemma_placed(
                    &self0.cli,
                    &self1.cli,
                    &self2.cli,
                    &self.cli,
                    &c0,
                    &dir1.cli.dir,
                    &dir.cli.dir,
                    w.t.c,
                    o.t.c,
                    dir.todo@,
                );
                lemma_placed(
                    &self0.anc,
                    &self1.anc,
                    &self2.anc,
                    &self.anc,
                    &a0,
                    &dir1.anc.dir,
                    &dir.anc.dir,
                    w.t.a,
                    o.t.a,
                    dir.todo@,
                );
                lemma_placed(
                    &self0.srv,
                    &self1.srv,
                    &self2.srv,
                    &self.srv,
                    &s0,
                    &dir1.srv.dir,
                    &dir.srv.dir,
                    w.t.s,
                    o.t.s,
                    dir.todo@,
                );
                let done = Done {
                    cli: dir.cli.dir,
                    anc: dir.anc.dir,
                    srv: dir.srv.dir,
                    state,
                };
                assert(may_skip(&self0, &c0, &s0, skip));
                assert(model::synced_but(t, policy, depth as nat, skip) == Some(o));
                assert(processed(
                    &self0,
                    self,
                    &c0,
                    &a0,
                    &s0,
                    done,
                    policy,
                    depth as nat,
                    o,
                    skip,
                ));
            }
        }
        Some(Done { cli: dir.cli.dir, anc: dir.anc.dir, srv: dir.srv.dir, state })
    }
}

/// Adds the names of a table to a queue.
fn queue_names(files: &NameMap<FileData>, todo: &mut NameQueue)
    ensures
        final(todo)@ == old(todo)@.union(files@.dom()),
{
    let len: usize = files.len();
    let mut i: usize = 0;
    while i < len
        invariant
            i <= len,
            len == files.order().len(),
            forall|n: Seq<u8>|
                todo@.contains(n) <==> old(todo)@.contains(n) || exists|j: int|
                    0 <= j < i && #[trigger] files.order()[j] == n,
        decreases len - i,
    {
        let ghost before = todo@;
        let name: &Vec<u8> = files.name_at(i);
        todo.push(bytes::copy(name.as_slice()));
        proof {
            assert forall|n: Seq<u8>|
                todo@.contains(n) <==> old(todo)@.contains(n) || exists|j: int|
                    0 <= j < i + 1 && #[trigger] files.order()[j] == n by {
                if n == name@ {
                    assert(files.order()[i as int] == n);
                } else if before.contains(n) && !old(todo)@.contains(n) {
                    let j = choose|j: int| 0 <= j < i && #[trigger] files.order()[j] == n;
                    assert(0 <= j < i + 1 && files.order()[j] == n);
                }
            }
        }
        i += 1;
    }
    proof {
        files.lemma_order();
        assert forall|n: Seq<u8>| todo@.contains(n) == old(todo)@.union(files@.dom()).contains(
            n,
        ) by {
            if files@.dom().contains(n) {
                assert(files.order().contains(n));
                let j = choose|j: int| 0 <= j < files.order().len() && files.order()[j] == n;
                assert(files.order()[j] == n);
            }
            if todo@.contains(n) && !old(todo)@.contains(n) {
                let j = choose|j: int| 0 <= j < i && #[trigger] files.order()[j] == n;
                assert(files.order().contains(n));
            }
        }
        assert(todo@ =~= old(todo)@.union(files@.dom()));
    }
}

/// What is known of the replicas once a subdirectory has been processed.
proof fn lemma_outcome<CLI: Replica, ANC: Replica, SRV: Replica, LOG, INT, R: SyncRules>(
    ctx: &Context<CLI, ANC, SRV, LOG, INT>,
    after: &Context<CLI, ANC, SRV, LOG, INT>,
    x: Subdir<CLI::Directory, ANC::Directory, SRV::Directory, R>,
    done: Done<CLI::Directory, ANC::Directory, SRV::Directory>,
    o: Outcome,
    policy: Policy,
    depth: nat,
    skip: Set<Path>,
)
    requires
        ready(ctx, &x.cli, &x.anc, &x.srv),
        fits(ctx, x),
        processed(ctx, after, &x.cli, &x.anc, &x.srv, done, policy, depth, o, skip),
    ensures
        replica::usable(&done.cli, after.cli.state().tree),
        replica::usable(&done.srv, after.srv.state().tree),
        o.empty ==> o.t.c == Map::<Seq<u8>, Node>::empty() && o.t.a == Map::<
            Seq<u8>,
            Node,
        >::empty() && o.t.s == Map::<Seq<u8>, Node>::empty(),
        o.empty ==> vacated(&after.cli, &done.cli) && vacated(&after.anc, &done.anc) && vacated(
            &after.srv,
            &done.srv,
        ),
{
    let t = trio_at(ctx, &x.cli, &x.anc, &x.srv);
    mutate::lemma_usable_after(&x.cli, ctx.cli.state().tree, o.t.c);
    mutate::lemma_usable_after(&x.srv, ctx.srv.state().tree, o.t.s);
    if o.empty {
        ctx.cli.lemma_sound();
        ctx.anc.lemma_sound();
        ctx.srv.lemma_sound();
        mutate::lemma_sound_kids_of(ctx.cli.state().tree, x.cli.path());
        mutate::lemma_sound_kids_of(ctx.anc.state().tree, x.anc.path());
        mutate::lemma_sound_kids_of(ctx.srv.state().tree, x.srv.path());
        super::skipping::law_empty_is_vacant(t, policy, depth, skip);
        assert(o.t.c =~= Map::empty());
        assert(o.t.a =~= Map::empty());
        assert(o.t.s =~= Map::empty());
        lemma_vacated(&ctx.cli, &after.cli, &x.cli, &done.cli);
        lemma_vacated(&ctx.anc, &after.anc, &x.anc, &done.anc);
        lemma_vacated(&ctx.srv, &after.srv, &x.srv, &done.srv);
    }
}

/// Whether a subdirectory that is to be processed is where, and what, its
/// cause says in all three replicas.
pub open spec fn fits<CLI: Replica, ANC: Replica, SRV: Replica, LOG, INT, R>(
    ctx: &Context<CLI, ANC, SRV, LOG, INT>,
    x: Subdir<CLI::Directory, ANC::Directory, SRV::Directory, R>,
) -> bool {
    let n = x.cause@.0;
    let f = x.cause@.1;
    let c = model::at(place::kids_of(ctx.cli.state().tree, x.cli.path().drop_last()), n);
    let a = model::at(place::kids_of(ctx.anc.state().tree, x.anc.path().drop_last()), n);
    let s = model::at(place::kids_of(ctx.srv.state().tree, x.srv.path().drop_last()), n);
    &&& x.delete == (f is Delete)
    &&& in_place(&ctx.cli, &x.cli, n, f, c)
    &&& in_place(&ctx.anc, &x.anc, n, f, a)
    &&& in_place(&ctx.srv, &x.srv, n, f, s)
    &&& a is Some
}

/// Whether a subdirectory has been followed up, with the outcome `o`.
pub open spec fn followed_up<CLI: Replica, ANC: Replica, SRV: Replica, LOG, INT, R>(
    ctx: &Context<CLI, ANC, SRV, LOG, INT>,
    after: &Context<CLI, ANC, SRV, LOG, INT>,
    x: Subdir<CLI::Directory, ANC::Directory, SRV::Directory, R>,
    o: Outcome,
) -> bool {
    let n = x.cause@.0;
    let f = x.cause@.1;
    let gone = f is Delete && o.empty;
    &&& followed(&ctx.cli, &after.cli, &x.cli, n, f, o.t.c, gone)
    &&& followed(&ctx.anc, &after.anc, &x.anc, n, f, o.t.a, gone)
    &&& followed(&ctx.srv, &after.srv, &x.srv, n, f, o.t.s, gone)
    &&& confined(ctx.cli.state(), after.cli.state(), x.cli.path())
    &&& confined(ctx.srv.state(), after.srv.state(), x.srv.path())
}

/// Whether a subdirectory has been followed up with the outcome `o`, where the
/// directories `skip`, as seen from it, were skipped.
pub open spec fn visited<CLI: Replica, ANC: Replica, SRV: Replica, LOG, INT, R>(
    ctx: &Context<CLI, ANC, SRV, LOG, INT>,
    after: &Context<CLI, ANC, SRV, LOG, INT>,
    x: Subdir<CLI::Directory, ANC::Directory, SRV::Directory, R>,
    policy: Policy,
    depth: nat,
    o: Outcome,
    skip: Set<Path>,
) -> bool {
    &&& may_skip(ctx, &x.cli, &x.srv, skip)
    &&& !skip.contains(Seq::empty())
    &&& model::synced_but(trio_at(ctx, &x.cli, &x.anc, &x.srv), policy, depth, skip) == Some(o)
    &&& followed_up(ctx, after, x, o)
}

/// How much a walk still has to do.
spec fn load(todo: Set<Seq<u8>>, c: Set<Seq<u8>>, s: Set<Seq<u8>>) -> nat {
    todo.len() + 2 * todo.intersect(c).intersect(s).len()
}

/// Every name that is to be processed is in use.
pub open spec fn in_use<CD, AD, SD, R>(dir: DirContext<CD, AD, SD, R>) -> bool {
    forall|n: Seq<u8>| #[trigger] dir.todo@.contains(n) ==> dir.names().contains(n)
}

/// Processing a file leaves less to do, and every name that is to be processed
/// in use.
proof fn lemma_load<CD, AD, SD, R>(
    before: DirContext<CD, AD, SD, R>,
    popped: DirContext<CD, AD, SD, R>,
    after: DirContext<CD, AD, SD, R>,
    n: Seq<u8>,
)
    requires
        in_use(before),
        before.todo@.finite(),
        before.todo@.contains(n),
        popped.todo@ == before.todo@.remove(n),
        popped.cli == before.cli,
        popped.anc == before.anc,
        popped.srv == before.srv,
        after.todo@ == popped.todo@ || (popped.cli.files@.dom().contains(n)
            && popped.srv.files@.dom().contains(n) && exists|new: Seq<u8>| #[trigger]
            tree_walk::split_queue(popped, after, n, new)),
        forall|m: Seq<u8>|
            m != n && #[trigger] popped.names().contains(m) ==> {
                &&& after.cli.files@.dom().contains(m) == popped.cli.files@.dom().contains(m)
                &&& after.anc.files@.dom().contains(m) == popped.anc.files@.dom().contains(m)
                &&& after.srv.files@.dom().contains(m) == popped.srv.files@.dom().contains(m)
            },
    ensures
        in_use(after),
        load(after.todo@, after.cli.files@.dom(), after.srv.files@.dom()) < load(
            before.todo@,
            before.cli.files@.dom(),
            before.srv.files@.dom(),
        ),
{
    let c0 = before.cli.files@.dom();
    let s0 = before.srv.files@.dom();
    let c2 = after.cli.files@.dom();
    let s2 = after.srv.files@.dom();
    let x = before.todo@.intersect(c0).intersect(s0);
    let y = after.todo@.intersect(c2).intersect(s2);
    assert(popped.names() =~= before.names());
    assert forall|m: Seq<u8>| #[trigger] popped.todo@.contains(m) implies m != n
        && popped.names().contains(m) by {
        assert(before.todo@.contains(m));
    }
    if after.todo@ == popped.todo@ {
        assert(y.subset_of(x)) by {
            assert forall|m: Seq<u8>| y.contains(m) implies x.contains(m) by {
                assert(popped.todo@.contains(m));
            }
        }
        vstd::set_lib::lemma_len_subset(y, x);
        assert forall|m: Seq<u8>| #[trigger] after.todo@.contains(m) implies after.names().contains(
            m,
        ) by {
            assert(popped.todo@.contains(m));
        }
    } else {
        let new = choose|new: Seq<u8>| #[trigger] tree_walk::split_queue(popped, after, n, new);
        assert(x.contains(n));
        assert(y.subset_of(x.remove(n))) by {
            assert forall|m: Seq<u8>| y.contains(m) implies x.remove(n).contains(m) by {
                assert(m != n && m != new);
                assert(popped.todo@.contains(m));
            }
        }
        vstd::set_lib::lemma_len_subset(y, x.remove(n));
        assert(after.todo@.len() <= popped.todo@.len() + 2);
        assert forall|m: Seq<u8>| #[trigger] after.todo@.contains(m) implies after.names().contains(
            m,
        ) by {
            if m != n && m != new {
                assert(popped.todo@.contains(m));
            }
        }
    }
}

/// What is put into a directory in two steps.
proof fn lemma_compose(b: Kids, p: Path, m: Seq<FileMode>, k1: Kids, k2: Kids)
    requires
        trees::sound(b),
        place::is_there(b, p) || k1 == Map::<Seq<u8>, Node>::empty() || k2 != Map::<
            Seq<u8>,
            Node,
        >::empty(),
    ensures
        place::graft(place::graft(b, p, m, k1), p, m, k2) == place::graft(b, p, m, k2),
{
    if !place::is_there(b, p) && k1 == Map::<Seq<u8>, Node>::empty() {
        if place::kids_of(b, p) != Map::<Seq<u8>, Node>::empty() {
            mutate::lemma_held_is_there(b, p);
        }
    }
    place::lemma_graft_twice(b, p, m, k1, k2);
}

/// Whether a directory exists, or none of the names that are to be processed
/// is in it.
spec fn solid_or_apart(b: Kids, p: Path, k: Kids, todo: Set<Seq<u8>>) -> bool {
    place::is_there(b, p) || forall|n: Seq<u8>| #[trigger] todo.contains(n) ==> !k.dom().contains(n)
}

/// Where one replica stands in the midst of a walk.
spec fn standing_one<A: Replica>(
    before: &A,
    after: &A,
    d: &A::Directory,
    d_after: &A::Directory,
    k: Kids,
    todo: Set<Seq<u8>>,
) -> bool {
    &&& before.ideal()
    &&& mutate::bounded(before, after, d, d_after)
    &&& after.state().tree == place::graft(before.state().tree, d.path(), d.modes(), k)
    &&& solid_or_apart(before.state().tree, d.path(), k, todo)
}

/// One step of a walk in one replica.
proof fn lemma_standing_one<A: Replica>(
    before: &A,
    mid: &A,
    after: &A,
    d: &A::Directory,
    d_mid: &A::Directory,
    d_after: &A::Directory,
    files: NameMap<FileData>,
    k1: Kids,
    k2: Kids,
    todo: Set<Seq<u8>>,
    todo2: Set<Seq<u8>>,
    n: Seq<u8>,
)
    requires
        standing_one(before, mid, d, d_mid, k1, todo),
        mutate::advanced_one(mid, after, d_mid, d_after, files, k2),
        todo.contains(n),
        place::is_there(before.state().tree, d.path()) || ((forall|m: Seq<u8>|
            m != n ==> (#[trigger] k2.dom().contains(m) == k1.dom().contains(m)))
            && todo2.subset_of(todo.remove(n))),
    ensures
        standing_one(before, after, d, d_after, k2, todo2),
{
    let b = before.state().tree;
    before.lemma_sound();
    if !place::is_there(b, d.path()) && k1 != Map::<Seq<u8>, Node>::empty() {
        assert(exists|m: Seq<u8>| k1.dom().contains(m)) by {
            if forall|m: Seq<u8>| !k1.dom().contains(m) {
                assert(k1 =~= Map::empty());
            }
        }
        let m = choose|m: Seq<u8>| k1.dom().contains(m);
        assert(todo.contains(n) ==> !k1.dom().contains(n));
        assert(k2.dom().contains(m));
    }
    lemma_compose(b, d.path(), d.modes(), k1, k2);
    assert(solid_or_apart(b, d.path(), k2, todo2)) by {
        if !place::is_there(b, d.path()) {
            assert forall|m: Seq<u8>| #[trigger] todo2.contains(m) implies !k2.dom().contains(
                m,
            ) by {
                assert(todo.remove(n).contains(m));
            }
        }
    }
}

/// Where a walk stands.
spec fn walking<CLI: Replica, ANC: Replica, SRV: Replica, LOG, INT, R: SyncRules>(
    ctx0: &Context<CLI, ANC, SRV, LOG, INT>,
    ctx: &Context<CLI, ANC, SRV, LOG, INT>,
    dir0: &DirContext<CLI::Directory, ANC::Directory, SRV::Directory, R>,
    dir: &DirContext<CLI::Directory, ANC::Directory, SRV::Directory, R>,
    state: DirState,
    pending: Seq<Subdir<CLI::Directory, ANC::Directory, SRV::Directory, R>>,
    w: Walked,
    policy: Policy,
    skipped: Set<Seq<u8>>,
) -> bool {
    let t = mutate::trio(ctx0, dir0);
    &&& tree_walk::tracks(ctx, dir, state, pending, w, policy, skipped)
    &&& forall|n: Seq<u8>| #[trigger] skipped.contains(n) ==> tree_walk::is_clean(ctx0, dir0, n)
    &&& standing_one(&ctx0.cli, &ctx.cli, &dir0.cli.dir, &dir.cli.dir, w.t.c, dir.todo@)
    &&& standing_one(&ctx0.anc, &ctx.anc, &dir0.anc.dir, &dir.anc.dir, w.t.a, dir.todo@)
    &&& standing_one(&ctx0.srv, &ctx.srv, &dir0.srv.dir, &dir.srv.dir, w.t.s, dir.todo@)
    &&& place::is_there(ctx0.anc.state().tree, dir0.anc.dir.path())
    &&& place::is_there(ctx.anc.state().tree, dir.anc.dir.path())
    &&& model::walk(model::fresh(t), model::names(t), policy) == model::walk(w, dir.todo@, policy)
    &&& forall|n: Seq<u8>| #[trigger] dir.todo@.contains(n) ==> !w.follows.dom().contains(n)
    &&& super::walk_laws::follows_exist(w)
}

/// Processing a file does not make the ancestor's tree deeper.
proof fn lemma_within_step(w: Walked, n: Seq<u8>, policy: Policy, depth: nat)
    requires
        mutate::within(w.t.a, depth),
        tree_walk::can_process(w.t, n, policy),
        depth >= 1,
    ensures
        mutate::within(tree_walk::after_file(w, n, policy).t.a, depth),
{
    let w2 = tree_walk::after_file(w, n, policy);
    mutate::lemma_within_all(w.t.a, depth);
    mutate::lemma_within_all(w2.t.a, depth);
    assert forall|p: Path| !(#[trigger] trees::node_at(Map::empty(), p) is Some) by {
        trees::lemma_nothing(p);
    }
    assert forall|m: Seq<u8>| mutate::within_at(#[trigger] model::at(w2.t.a, m), depth) by {
        assert(mutate::within_at(model::at(w.t.a, m), depth));
        assert(mutate::within_at(model::at(w.t.a, n), depth));
    }
}

/// Processing a file keeps what is to be followed up among the files that
/// exist.
proof fn lemma_follows_step(w: Walked, n: Seq<u8>, policy: Policy)
    requires
        super::walk_laws::follows_exist(w),
        !w.follows.dom().contains(n),
        tree_walk::can_process(w.t, n, policy),
    ensures
        super::walk_laws::follows_exist(tree_walk::after_file(w, n, policy)),
{
    let w2 = tree_walk::after_file(w, n, policy);
    let (c, a, s) = (model::at(w.t.c, n), model::at(w.t.a, n), model::at(w.t.s, n));
    tree_walk::lemma_follow_dirs(c, a, s, model::ruling(w.t, n, policy));
    assert forall|m: Seq<u8>| #[trigger] w2.follows.dom().contains(m) implies model::names(
        w2.t,
    ).contains(m) by {
        if m != n {
            assert(w.follows.dom().contains(m));
            assert(model::names(w.t).contains(m));
        }
    }
}

/// One step of a walk.
proof fn lemma_walking_step<
    CLI: Replica,
    ANC: Replica,
    SRV: Replica,
    LOG: Logger,
    INT: Interrupt,
    R: SyncRules,
>(
    ctx0: &Context<CLI, ANC, SRV, LOG, INT>,
    ctx: &Context<CLI, ANC, SRV, LOG, INT>,
    ctx2: &Context<CLI, ANC, SRV, LOG, INT>,
    dir0: &DirContext<CLI::Directory, ANC::Directory, SRV::Directory, R>,
    dir: &DirContext<CLI::Directory, ANC::Directory, SRV::Directory, R>,
    popped: &DirContext<CLI::Directory, ANC::Directory, SRV::Directory, R>,
    dir2: &DirContext<CLI::Directory, ANC::Directory, SRV::Directory, R>,
    state: DirState,
    state2: DirState,
    pending: Seq<Subdir<CLI::Directory, ANC::Directory, SRV::Directory, R>>,
    pending2: Seq<Subdir<CLI::Directory, ANC::Directory, SRV::Directory, R>>,
    dir_path: Seq<u8>,
    n: Seq<u8>,
    w: Walked,
    policy: Policy,
    skipped: Set<Seq<u8>>,
)
    requires
        walking(ctx0, ctx, dir0, dir, state, pending, w, policy, skipped),
        dir.todo@.finite(),
        model::is_least(dir.todo@, n),
        popped.todo@ == dir.todo@.remove(n),
        popped.cli == dir.cli && popped.anc == dir.anc && popped.srv == dir.srv && popped.rules
            == dir.rules,
        state.success,
        tree_walk::file_step(
            ctx,
            ctx2,
            popped,
            dir2,
            state,
            state2,
            pending,
            pending2,
            dir_path,
            n,
            w,
            policy,
            skipped,
        ),
    ensures
        state2.success ==> walking(
            ctx0,
            ctx2,
            dir0,
            dir2,
            state2,
            pending2,
            tree_walk::after_file(w, n, policy),
            policy,
            tree_walk::skipped_after(
                ctx2,
                popped,
                n,
                tree_walk::after_file(w, n, policy),
                skipped,
            ),
        ) && tree_walk::can_process(w.t, n, policy),
        model::smooth(w, dir.todo@, policy) && ctx.untroubled() && mutate::within(
            w.t.a,
            usize::MAX as nat,
        ) && model::walk(
            w,
            dir.todo@,
            policy,
        ) is Some ==> state2.success && mutate::within(
            tree_walk::after_file(w, n, policy).t.a,
            usize::MAX as nat,
        ) && model::smooth(tree_walk::after_file(w, n, policy), dir2.todo@, policy),
        state2.success && ctx.untroubled() && ctx2.interrupt == ctx.interrupt
            ==> ctx2.untroubled(),
{
    let todo = dir.todo@;
    model::lemma_least(todo);
    assert(n == model::least(todo));
    super::walk_laws::lemma_walk_step(w, todo, policy);
    super::walk_laws::lemma_smooth_step(w, todo, policy);
    assert(tree_walk::tracks(ctx, popped, state, pending, w, policy, skipped)) by {
        tree_walk::lemma_pend_same(pending, dir, popped, w.follows, w.policies, skipped);
    }
    assert(todo.contains(n));
    if tree_walk::can_process(w.t, n, policy) {
        lemma_follows_step(w, n, policy);
        if mutate::within(w.t.a, usize::MAX as nat) {
            lemma_within_step(w, n, policy, usize::MAX as nat);
        }
    }
    if state2.success {
        let w2 = tree_walk::after_file(w, n, policy);
        let todo2 = dir2.todo@;
        let (c, a, s) = (model::at(w.t.c, n), model::at(w.t.a, n), model::at(w.t.s, n));
        let split = model::choice(w.t, n, policy) is Split;
        compute::law_split_needs_both(
            model::seen_at(w.t, n, policy),
            model::data(a),
            model::data(s),
            model::ruling(w.t, n, policy).mode,
        );
        if split {
            let new = model::alternate_for(n, model::names(w.t))->0;
            model::lemma_alternate_for(n, model::names(w.t));
            assert(todo2 =~= todo.insert(new));
        } else {
            assert(todo2 =~= todo.remove(n));
        }
        assert forall|m: Seq<u8>| #[trigger] todo2.contains(m) implies !w2.follows.dom().contains(
            m,
        ) by {
            if split {
                if w2.follows.dom().contains(m) {
                    assert(model::names(w.t).contains(m));
                }
            }
        }
        lemma_standing_one(
            &ctx0.cli,
            &ctx.cli,
            &ctx2.cli,
            &dir0.cli.dir,
            &popped.cli.dir,
            &dir2.cli.dir,
            dir2.cli.files,
            w.t.c,
            w2.t.c,
            todo,
            todo2,
            n,
        );
        lemma_standing_one(
            &ctx0.anc,
            &ctx.anc,
            &ctx2.anc,
            &dir0.anc.dir,
            &popped.anc.dir,
            &dir2.anc.dir,
            dir2.anc.files,
            w.t.a,
            w2.t.a,
            todo,
            todo2,
            n,
        );
        lemma_standing_one(
            &ctx0.srv,
            &ctx.srv,
            &ctx2.srv,
            &dir0.srv.dir,
            &popped.srv.dir,
            &dir2.srv.dir,
            dir2.srv.files,
            w.t.s,
            w2.t.s,
            todo,
            todo2,
            n,
        );
        place::lemma_graft_there(
            ctx.anc.state().tree,
            popped.anc.dir.path(),
            popped.anc.dir.modes(),
            w2.t.a,
        );
    }
}

/// Whether inspections are the first of those of the files of a directory, where
/// of these names the ones of `todo` are left.
spec fn sweeping(
    seen: Seq<Inspection>,
    dir: Seq<u8>,
    names: Set<Seq<u8>>,
    todo: Set<Seq<u8>>,
) -> bool {
    &&& forall|i: int| 0 <= i < seen.len() ==> (#[trigger] seen[i]).dir == dir
    &&& (forall|i: int| 0 <= i < seen.len() ==> (#[trigger] seen[i]).recon !is Split) ==> {
        &&& forall|i: int, j: int|
            0 <= i < j < seen.len() ==> bytes::before(
                (#[trigger] seen[i]).name,
                (#[trigger] seen[j]).name,
            )
        &&& forall|i: int, n: Seq<u8>|
            0 <= i < seen.len() && #[trigger] todo.contains(n) ==> bytes::before(
                (#[trigger] seen[i]).name,
                n,
            )
        &&& forall|n: Seq<u8>| #[trigger]
            names.contains(n) <==> todo.contains(n) || exists|i: int|
                0 <= i < seen.len() && (#[trigger] seen[i]).name == n
    }
}

/// The inspection of the first file that is left goes on with a sweep.
proof fn lemma_sweeping(
    seen: Seq<Inspection>,
    x: Inspection,
    names: Set<Seq<u8>>,
    todo: Set<Seq<u8>>,
    left: Set<Seq<u8>>,
)
    requires
        sweeping(seen, x.dir, names, todo),
        todo.contains(x.name),
        forall|m: Seq<u8>| #[trigger] todo.contains(m) ==> m == x.name || bytes::before(x.name, m),
        x.recon !is Split ==> left == todo.remove(x.name),
    ensures
        sweeping(seen.push(x), x.dir, names, left),
{
    let all = seen.push(x);
    if forall|i: int| 0 <= i < all.len() ==> (#[trigger] all[i]).recon !is Split {
        assert(all[seen.len() as int] == x);
        assert forall|i: int| 0 <= i < seen.len() implies (#[trigger] seen[i]).recon !is Split by {
            assert(all[i] == seen[i]);
        }
        assert forall|n: Seq<u8>| #[trigger] names.contains(n) <==> left.contains(n) || exists|i:
            int|
            0 <= i < all.len() && (#[trigger] all[i]).name == n by {
            if exists|i: int| 0 <= i < seen.len() && (#[trigger] seen[i]).name == n {
                let i = choose|i: int| 0 <= i < seen.len() && (#[trigger] seen[i]).name == n;
                assert(all[i].name == n);
            }
            if exists|i: int| 0 <= i < all.len() && (#[trigger] all[i]).name == n {
                let i = choose|i: int| 0 <= i < all.len() && (#[trigger] all[i]).name == n;
                if i < seen.len() {
                    assert(seen[i].name == n);
                }
            }
        }
    }
}

/// Whether a walk can begin with a known outcome.
spec fn can_walk<CLI: Replica, ANC: Replica, SRV: Replica, LOG, INT, R: SyncRules>(
    ctx: &Context<CLI, ANC, SRV, LOG, INT>,
    dir: &DirContext<CLI::Directory, ANC::Directory, SRV::Directory, R>,
    policy: Policy,
) -> bool {
    &&& dir.rules.policy() == Some(policy)
    &&& mutate::all_in_step(ctx, dir)
    &&& place::is_there(ctx.anc.state().tree, dir.anc.dir.path())
    &&& dir.todo@ == model::names(mutate::trio(ctx, dir))
}

impl<
    CLI: Replica,
    ANC: Replica + NullTransfer + Condemn,
    SRV: Replica<TransferIn = CLI::TransferOut, TransferOut = CLI::TransferIn>,
    LOG: Logger,
    INT: Interrupt,
> Context<CLI, ANC, SRV, LOG, INT> {
    /// Processes all files of a directory.
    ///
    /// Returns the subdirectories that are still to be processed, and the names
    /// of those that are skipped.
    fn walk_dir<R: SyncRules>(
        &mut self,
        dir: &mut DirContext<CLI::Directory, ANC::Directory, SRV::Directory, R>,
        dir_path: &[u8],
        state: &mut DirState,
    ) -> (r: (
        Vec<Subdir<CLI::Directory, ANC::Directory, SRV::Directory, R>>,
        Ghost<Set<Seq<u8>>>,
    ))
        requires
            in_use(*old(dir)),
            old(state).success && old(state).empty,
        ensures
            old(self).keeps(*final(self)),
            final(self).interrupt == old(self).interrupt,
            log::grown(old(self).log.logged(), final(self).log.logged()),
            final(state).success ==> log::flawless(
                old(self).log.logged(),
                final(self).log.logged(),
            ),
            exists|seen: Seq<Inspection>| #[trigger]
                log::sweep(seen, dir_path@, old(dir).todo@) && log::inspections(
                    final(self).log.logged(),
                ) == log::inspections(old(self).log.logged()) + seen,
            final(dir).rules == old(dir).rules,
            tree_walk::spares_client(old(dir).rules.policy()) && mutate::in_step(
                &old(self).cli,
                &old(dir).cli.dir,
                old(dir).cli.files,
            ) ==> {
                &&& final(dir).cli == old(dir).cli
                &&& final(self).cli.ideal()
                &&& final(self).cli.state() == old(self).cli.state()
                &&& tree_walk::client_ready(
                    r.0@,
                    old(self).cli.state().tree,
                )
            },
            old(dir).rules.policy() matches Some(policy) ==> (can_walk(old(self), old(dir), policy)
                ==> {
                let t = mutate::trio(old(self), old(dir));
                let walked = model::walk(model::fresh(t), model::names(t), policy);
                &&& final(state).success ==> (walked matches Some(w) && walking(
                    old(self),
                    final(self),
                    old(dir),
                    final(dir),
                    *final(state),
                    r.0@,
                    w,
                    policy,
                    r.1@,
                ))
                &&& model::smooth(model::fresh(t), model::names(t), policy)
                    && old(self).untroubled() && mutate::within(t.a, usize::MAX as nat) && walked is Some ==> final(state).success && final(self).untroubled()
                    && mutate::within(walked->0.t.a, usize::MAX as nat)
            }),
    {
        let mut pending: Vec<Subdir<CLI::Directory, ANC::Directory, SRV::Directory, R>> =
            Vec::new();
        let ghost given = dir.rules.policy();
        let ghost policy = given->0;
        let ghost good = given is Some && can_walk(self, dir, policy);
        let ghost t = mutate::trio(self, dir);
        let ghost walked = model::walk(model::fresh(t), model::names(t), policy);
        let ghost mut w = model::fresh(t);
        let ghost lucky = good && model::smooth(w, dir.todo@, policy) && self.untroubled()
            && mutate::within(t.a, usize::MAX as nat) && walked is Some;
        let ghost spares = tree_walk::spares_client(given) && mutate::in_step(
            &self.cli,
            &dir.cli.dir,
            dir.cli.files,
        );
        let ghost mut skipped: Set<Seq<u8>> = Set::empty();
        let ghost mut seen: Seq<Inspection> = Seq::empty();
        proof {
            log::lemma_grown(self.log.logged(), self.log.logged());
        }
        assert(log::inspections(self.log.logged()) + seen =~= log::inspections(self.log.logged()));
        proof {
            if good {
                assert(tree_walk::pend(pending@, dir, w.follows, w.policies, skipped));
                lemma_begins(&self.cli, &dir.cli.dir, dir.cli.files, t.c, dir.todo@);
                lemma_begins(&self.anc, &dir.anc.dir, dir.anc.files, t.a, dir.todo@);
                lemma_begins(&self.srv, &dir.srv.dir, dir.srv.files, t.s, dir.todo@);
                assert(walking(self, self, dir, dir, *state, pending@, w, policy, skipped));
            }
        }
        loop
            invariant
                in_use(*dir),
                given == old(dir).rules.policy(),
                given is Some ==> policy == given->0,
                good == (given is Some && can_walk(old(self), old(dir), policy)),
                t == mutate::trio(old(self), old(dir)),
                walked == model::walk(model::fresh(t), model::names(t), policy),
                lucky == (good && model::smooth(model::fresh(t), model::names(t), policy)
                    && old(self).untroubled() && mutate::within(t.a, usize::MAX as nat) && walked is Some),
                spares == (tree_walk::spares_client(given) && mutate::in_step(
                    &old(self).cli,
                    &old(dir).cli.dir,
                    old(dir).cli.files,
                )),
                old(self).keeps(*self),
                self.interrupt == old(self).interrupt,
                log::grown(old(self).log.logged(), self.log.logged()),
                state.success ==> log::flawless(old(self).log.logged(), self.log.logged()),
                log::inspections(self.log.logged()) == log::inspections(old(self).log.logged())
                    + seen,
                sweeping(seen, dir_path@, old(dir).todo@, dir.todo@),
                dir.rules == old(dir).rules,
                spares ==> {
                    &&& dir.cli == old(dir).cli
                    &&& self.cli.ideal()
                    &&& self.cli.state() == old(self).cli.state()
                    &&& tree_walk::client_ready(
                        pending@,
                        old(self).cli.state().tree,
                    )
                },
                good && state.success ==> walking(
                    old(self),
                    self,
                    old(dir),
                    dir,
                    *state,
                    pending@,
                    w,
                    policy,
                    skipped,
                ),
                lucky ==> state.success && self.untroubled() && mutate::within(
                    w.t.a,
                    usize::MAX as nat,
                ) && model::smooth(w, dir.todo@, policy),
            ensures
                dir.todo@.is_empty(),
            decreases load(dir.todo@, dir.cli.files@.dom(), dir.srv.files@.dom()),
        {
            let ghost dir1 = *dir;
            proof {
                dir.todo.lemma_finite();
            }
            let name = match dir.todo.pop() {
                Some(name) => name,
                None => {
                    break;
                },
            };
            let ghost popped = *dir;
            let ghost self1 = *self;
            let ghost state1 = *state;
            let ghost pending1 = pending@;
            proof {
                assert(dir1.todo@.contains(name@));
                assert(popped.names() =~= dir1.names());
            }
            self.process_file(dir, dir_path, name.as_slice(), state, &mut pending);
            proof {
                lemma_load(dir1, popped, *dir, name@);
                let x = choose|x: Inspection| #[trigger]
                    log::inspected(self1.log.logged(), self.log.logged(), x) && x.dir == dir_path@
                        && x.name == name@ && (x.recon !is Split ==> dir.todo@ == popped.todo@);
                log::lemma_inspected(self1.log.logged(), self.log.logged(), x);
                log::lemma_grown(
                    self1.log.logged().push(log::inspection_entry(x)),
                    self.log.logged(),
                );
                log::lemma_added_twice(
                    old(self).log.logged(),
                    self1.log.logged(),
                    self.log.logged(),
                );
                lemma_sweeping(seen, x, old(dir).todo@, dir1.todo@, dir.todo@);
                assert(log::inspections(old(self).log.logged()) + seen.push(x) =~= (
                log::inspections(old(self).log.logged()) + seen).push(x));
                seen = seen.push(x);
                if good && state1.success {
                    assert(tree_walk::file_step(
                        &self1,
                        self,
                        &popped,
                        dir,
                        state1,
                        *state,
                        pending1,
                        pending@,
                        dir_path@,
                        name@,
                        w,
                        policy,
                        skipped,
                    ));
                    lemma_walking_step(
                        old(self),
                        &self1,
                        self,
                        old(dir),
                        &dir1,
                        &popped,
                        dir,
                        state1,
                        *state,
                        pending1,
                        pending@,
                        dir_path@,
                        name@,
                        w,
                        policy,
                        skipped,
                    );
                    w = tree_walk::after_file(w, name@, policy);
                    skipped = tree_walk::skipped_after(self, &popped, name@, w, skipped);
                }
            }
        }
        proof {
            assert(dir.todo@ =~= Set::empty());
            assert(log::sweep(seen, dir_path@, old(dir).todo@));
        }
        (pending, Ghost(skipped))
    }
}

/// Where a replica stands before a walk.
proof fn lemma_begins<A: Replica>(
    rep: &A,
    d: &A::Directory,
    files: NameMap<FileData>,
    k: Kids,
    todo: Set<Seq<u8>>,
)
    requires
        mutate::in_step(rep, d, files),
        k == mutate::held(rep, d),
    ensures
        standing_one(rep, rep, d, d, k, todo),
{
    place::lemma_graft_same(rep.state().tree, d.path(), d.modes());
    rep.lemma_sound();
    if !place::is_there(rep.state().tree, d.path()) {
        if k != Map::<Seq<u8>, Node>::empty() {
            mutate::lemma_held_is_there(rep.state().tree, d.path());
        }
    }
}

/// One file of one replica after some subdirectories have been followed up.
spec fn progress_at(
    k: Kids,
    follows: Map<Seq<u8>, Follow>,
    subs: Map<Seq<u8>, (Kids, bool)>,
    n: Seq<u8>,
) -> Option<Node> {
    if subs.dom().contains(n) {
        model::finished(model::at(k, n), follows[n], subs[n].0, subs[n].1)
    } else {
        model::at(k, n)
    }
}

/// One replica after some subdirectories have been followed up.
spec fn progress(
    k: Kids,
    follows: Map<Seq<u8>, Follow>,
    subs: Map<Seq<u8>, (Kids, bool)>,
) -> Kids {
    Map::new(
        |n: Seq<u8>| progress_at(k, follows, subs, n) is Some,
        |n: Seq<u8>| progress_at(k, follows, subs, n)->0,
    )
}

proof fn lemma_progress(
    k: Kids,
    follows: Map<Seq<u8>, Follow>,
    subs: Map<Seq<u8>, (Kids, bool)>,
)
    ensures
        forall|n: Seq<u8>| #[trigger]
            model::at(progress(k, follows, subs), n) == progress_at(k, follows, subs, n),
        subs.dom().is_empty() ==> progress(k, follows, subs) == k,
        subs.dom() == follows.dom() ==> progress(k, follows, subs) == model::gathered_one(
            k,
            follows,
            subs,
        ),
{
    assert forall|n: Seq<u8>| #[trigger]
        model::at(progress(k, follows, subs), n) == progress_at(k, follows, subs, n) by {}
    if subs.dom().is_empty() {
        assert(progress(k, follows, subs) =~= k);
    }
    if subs.dom() == follows.dom() {
        assert(progress(k, follows, subs) =~= model::gathered_one(k, follows, subs));
    }
}

/// Leaving subdirectories as they are is no progress.
proof fn lemma_progress_same(
    k: Kids,
    follows: Map<Seq<u8>, Follow>,
    subs: Map<Seq<u8>, (Kids, bool)>,
)
    requires
        forall|n: Seq<u8>| #[trigger]
            subs.dom().contains(n) ==> follows[n] is Enter && model::at(k, n) is Some
                && subs[n].0 == model::kids(model::at(k, n)),
    ensures
        progress(k, follows, subs) == k,
{
    lemma_progress(k, follows, subs);
    let g = progress(k, follows, subs);
    assert forall|n: Seq<u8>| model::at(g, n) == model::at(k, n) by {
        if subs.dom().contains(n) {
            assert(progress_at(k, follows, subs, n) == model::at(k, n));
        }
    }
    assert forall|n: Seq<u8>| g.dom().contains(n) == k.dom().contains(n) by {
        assert(model::at(g, n) == model::at(k, n));
    }
    assert forall|n: Seq<u8>| g.dom().contains(n) implies g[n] == k[n] by {
        assert(model::at(g, n) == model::at(k, n));
    }
    assert(g =~= k);
}

/// Where one replica stands while subdirectories are followed up.
spec fn gathering<A: Replica>(
    entry: &A,
    now: &A,
    d: &A::Directory,
    k: Kids,
    follows: Map<Seq<u8>, Follow>,
    subs: Map<Seq<u8>, (Kids, bool)>,
) -> bool {
    &&& mutate::sane(entry)
    &&& replica::usable(d, entry.state().tree)
    &&& k == mutate::held(entry, d)
    &&& now.ideal()
    &&& now.state().faultless == entry.state().faultless
    &&& now.state().condemned == entry.state().condemned
    &&& now.state().tree == place::graft(
        entry.state().tree,
        d.path(),
        d.modes(),
        progress(k, follows, subs),
    )
}

/// What a walk leaves of the files that are to be followed up.
struct Followed;

impl super::walk_laws::PerFile for Followed {
    open spec fn pending(
        policy: Policy,
        h: Seq<u8>,
        c: Option<Node>,
        a: Option<Node>,
        s: Option<Node>,
    ) -> bool {
        true
    }

    open spec fn settled(
        policy: Policy,
        h: Seq<u8>,
        c: Option<Node>,
        a: Option<Node>,
        s: Option<Node>,
        f: Option<Follow>,
    ) -> bool {
        match f {
            None => true,
            Some(Follow::Enter) => defs::opt_is_dir(model::data(c)) && defs::opt_is_dir(
                model::data(a),
            ) && defs::opt_is_dir(model::data(s)),
            Some(Follow::Delete(ReconciliationSide::Client, m)) => defs::opt_is_dir(model::data(c))
                && defs::opt_is_dir(model::data(a)) && s is None,
            Some(Follow::Delete(ReconciliationSide::Server, m)) => defs::opt_is_dir(model::data(s))
                && defs::opt_is_dir(model::data(a)) && c is None,
        }
    }

    proof fn none_settled(policy: Policy, h: Seq<u8>, f: Option<Follow>) {
    }

    proof fn settles(
        policy: Policy,
        rule: Ruling,
        h: Seq<u8>,
        c: Option<Node>,
        a: Option<Node>,
        s: Option<Node>,
    ) {
        tree_walk::lemma_follow_dirs(c, a, s, rule);
    }

    proof fn splits(
        policy: Policy,
        rule: Ruling,
        h: Seq<u8>,
        c: Option<Node>,
        a: Option<Node>,
        s: Option<Node>,
        side: ReconciliationSide,
        st: compute::SplitAncestorState,
    ) {
    }
}

/// A subdirectory that is to be followed up can be used, and is in place.
proof fn lemma_next<A: Replica>(
    entry: &A,
    now: &A,
    d: &A::Directory,
    x: &A::Directory,
    k: Kids,
    follows: Map<Seq<u8>, Follow>,
    subs: Map<Seq<u8>, (Kids, bool)>,
    n: Seq<u8>,
    m: FileMode,
)
    requires
        gathering(entry, now, d, k, follows, subs),
        follows.dom().contains(n),
        !subs.dom().contains(n),
        model::at(k, n) is Some ==> model::at(k, n)->0.data.is_dir(),
        follows[n] is Enter ==> model::at(k, n) is Some,
        follows[n] matches Follow::Delete(_, dm) ==> dm == m,
        (model::at(k, n) is Some && tree_walk::entered(x, d, n)) || tree_walk::conjured(x, d, n, m),
    ensures
        mutate::held(now, d) == progress(k, follows, subs),
        replica::usable(x, now.state().tree),
        mutate::held(now, x) == model::kids(model::at(k, n)),
        in_place(
            now,
            x,
            n,
            follows[n],
            model::at(place::kids_of(now.state().tree, x.path().drop_last()), n),
        ),
        x.path().drop_last() == d.path(),
        model::at(k, n) is Some ==> place::is_there(now.state().tree, x.path()),
{
    let g = progress(k, follows, subs);
    let tree = now.state().tree;
    lemma_progress(k, follows, subs);
    place::lemma_graft_get(entry.state().tree, d.path(), d.modes(), g);
    mutate::lemma_usable_after(d, entry.state().tree, g);
    assert(x.path().drop_last() =~= d.path());
    place::lemma_graft_child(tree, d.path(), d.modes(), n, 0, Map::empty());
    now.lemma_sound();
    assert(model::at(g, n) == model::at(k, n));
    if model::at(k, n) is Some {
        mutate::lemma_held_is_there(tree, d.path());
        if tree_walk::entered(x, d, n) {
            mutate::lemma_standing(x, tree);
        }
    }
    if tree_walk::conjured(x, d, n, m) {
        tree_walk::lemma_conjured_usable(x, d, tree, n, m);
    }
}

/// Following up one more subdirectory in one replica.
proof fn lemma_gather<A: Replica>(
    entry: &A,
    now: &A,
    after: &A,
    d: &A::Directory,
    x: &A::Directory,
    k: Kids,
    follows: Map<Seq<u8>, Follow>,
    subs: Map<Seq<u8>, (Kids, bool)>,
    n: Seq<u8>,
    m: FileMode,
    done: Kids,
    empty: bool,
)
    requires
        gathering(entry, now, d, k, follows, subs),
        follows.dom().contains(n),
        !subs.dom().contains(n),
        subs.dom().subset_of(follows.dom()),
        model::at(k, n) is Some ==> model::at(k, n)->0.data.is_dir(),
        follows[n] is Enter ==> model::at(k, n) is Some,
        follows[n] matches Follow::Delete(_, dm) ==> dm == m,
        (model::at(k, n) is Some && tree_walk::entered(x, d, n)) || tree_walk::conjured(x, d, n, m),
        followed(now, after, x, n, follows[n], done, follows[n] is Delete && empty),
    ensures
        gathering(entry, after, d, k, follows, subs.insert(n, (done, empty))),
{
    let g = progress(k, follows, subs);
    let subs2 = subs.insert(n, (done, empty));
    let g2 = progress(k, follows, subs2);
    let f = follows[n];
    let gone = f is Delete && empty;
    let p = d.path();
    let tree = now.state().tree;
    let e = entry.state().tree;
    lemma_next(entry, now, d, x, k, follows, subs, n, m);
    lemma_progress(k, follows, subs);
    lemma_progress(k, follows, subs2);
    entry.lemma_sound();
    now.lemma_sound();
    if model::at(k, n) is Some {
        mutate::lemma_held_is_there(tree, p);
    }
    if !place::is_there(tree, p) {
        assert(x.modes().drop_last() =~= d.modes());
    }
    place::lemma_concluded_modes(
        tree,
        p,
        x.modes().drop_last(),
        d.modes(),
        n,
        f,
        done,
        gone,
    );
    let v = model::with(g, n, model::finished(model::at(g, n), f, done, gone));
    assert forall|q: Seq<u8>| model::at(v, q) == #[trigger] model::at(g2, q) by {
        assert(model::at(g2, q) == progress_at(k, follows, subs2, q));
        assert(model::at(g, q) == progress_at(k, follows, subs, q));
    }
    assert(v =~= g2) by {
        assert forall|q: Seq<u8>| v.dom().contains(q) == g2.dom().contains(q) by {
            assert(model::at(v, q) == model::at(g2, q));
        }
        assert forall|q: Seq<u8>| v.dom().contains(q) implies v[q] == g2[q] by {
            assert(model::at(v, q) == model::at(g2, q));
        }
    }
    if !place::is_there(e, p) && g != Map::<Seq<u8>, Node>::empty() {
        if k != Map::<Seq<u8>, Node>::empty() {
            mutate::lemma_held_is_there(e, p);
        }
        assert(model::at(g, n) is None);
        assert(exists|q: Seq<u8>| g.dom().contains(q)) by {
            if forall|q: Seq<u8>| !g.dom().contains(q) {
                assert(g =~= Map::empty());
            }
        }
        let q = choose|q: Seq<u8>| g.dom().contains(q);
        assert(model::at(g, q) is Some);
        assert(q != n);
        assert(v.dom().contains(q));
    }
    lemma_compose(e, p, d.modes(), g, g2);
}

/// The outcomes for one replica.
spec fn cli_part(subs: Map<Seq<u8>, Outcome>) -> Map<Seq<u8>, (Kids, bool)> {
    subs.map_values(|o: Outcome| (o.t.c, o.empty))
}

spec fn anc_part(subs: Map<Seq<u8>, Outcome>) -> Map<Seq<u8>, (Kids, bool)> {
    subs.map_values(|o: Outcome| (o.t.a, o.empty))
}

spec fn srv_part(subs: Map<Seq<u8>, Outcome>) -> Map<Seq<u8>, (Kids, bool)> {
    subs.map_values(|o: Outcome| (o.t.s, o.empty))
}

/// Whether `q` is at or below one of the subdirectories `names` of `p`.
spec fn below_some(p: Path, names: Set<Seq<u8>>, q: Path) -> bool {
    exists|n: Seq<u8>| names.contains(n) && #[trigger] at_or_below(p.push(n), q)
}

/// Whether the directories marked clean since are below `p`, in one of the
/// subdirectories `names`.
spec fn cleaned(before: Set<Path>, after: Set<Path>, p: Path, names: Set<Seq<u8>>) -> bool {
    forall|q: Path| #[trigger]
        after.contains(q) ==> before.contains(q) || below_some(p, names, q)
}

/// What is marked clean at or below a subdirectory that has not been followed
/// up was so before.
proof fn lemma_cleaned(
    before: Set<Path>,
    after: Set<Path>,
    p: Path,
    names: Set<Seq<u8>>,
    n: Seq<u8>,
    q: Path,
)
    requires
        cleaned(before, after, p, names),
        !names.contains(n),
        after.contains(p.push(n) + q),
    ensures
        before.contains(p.push(n) + q),
{
    let r = p.push(n) + q;
    if !before.contains(r) {
        let m = choose|m: Seq<u8>| names.contains(m) && #[trigger] at_or_below(p.push(m), r);
        let l = p.len() as int;
        assert(r[l] == n);
        if r != p.push(m) {
            assert(r.take(l + 1)[l] == p.push(m)[l]);
        }
        assert(r[l] == m);
    }
}

/// What is marked clean while one more subdirectory is followed up.
proof fn lemma_cleaned_step(
    before: Set<Path>,
    mid: ReplicaState,
    after: ReplicaState,
    p: Path,
    names: Set<Seq<u8>>,
    n: Seq<u8>,
)
    requires
        cleaned(before, mid.clean, p, names),
        confined(mid, after, p.push(n)),
    ensures
        cleaned(before, after.clean, p, names.insert(n)),
{
    assert forall|q: Path| #[trigger] after.clean.contains(q) implies before.contains(q)
        || below_some(p, names.insert(n), q) by {
        if mid.clean.contains(q) {
            if !before.contains(q) {
                let m = choose|m: Seq<u8>|
                    names.contains(m) && #[trigger] at_or_below(p.push(m), q);
                assert(names.insert(n).contains(m) && at_or_below(p.push(m), q));
            }
        } else {
            assert(names.insert(n).contains(n) && at_or_below(p.push(n), q));
        }
    }
}

/// What is marked clean while subdirectories are followed up is below their
/// parent.
proof fn lemma_cleaned_confined(
    before: ReplicaState,
    after: ReplicaState,
    p: Path,
    names: Set<Seq<u8>>,
)
    requires
        cleaned(before.clean, after.clean, p, names),
        after.faultless == before.faultless,
        after.condemned == before.condemned,
    ensures
        confined(before, after, p),
{
    assert forall|q: Path| #[trigger] after.clean.contains(q) implies before.clean.contains(q)
        || at_or_below(p, q) by {
        if !before.clean.contains(q) {
            let m = choose|m: Seq<u8>| names.contains(m) && #[trigger] at_or_below(p.push(m), q);
            let l = p.len() as int;
            if q == p.push(m) {
                assert(q.take(l) =~= p);
            } else {
                assert(q.take(l) =~= q.take(l + 1).take(l));
                assert(p.push(m).take(l) =~= p);
            }
        }
    }
}

/// The outcomes for subdirectories that are skipped.
spec fn left_alone(w: Walked, skipped: Set<Seq<u8>>) -> Map<Seq<u8>, Outcome> {
    Map::new(
        |n: Seq<u8>| skipped.contains(n),
        |n: Seq<u8>| Outcome { t: model::under(w.t, n), empty: false },
    )
}

/// What is skipped in each of the subdirectories `skipped`: the subdirectory
/// itself.
spec fn themselves(skipped: Set<Seq<u8>>) -> Map<Seq<u8>, Set<Path>> {
    Map::new(|n: Seq<u8>| skipped.contains(n), |n: Seq<u8>| set![Seq::<Seq<u8>>::empty()])
}

/// What is skipped in a directory where `kept` is skipped in its subdirectories.
spec fn joined(kept: Map<Seq<u8>, Set<Path>>) -> Set<Path> {
    Set::new(
        |q: Path|
            q.len() > 0 && kept.dom().contains(q[0]) && kept[q[0]].contains(q.drop_first()),
    )
}

/// The directories that are marked clean on the client and on the server.
struct Marks {
    c: Set<Path>,
    s: Set<Path>,
}

/// Whether what is skipped in the subdirectories of a directory is marked clean
/// on both sides.
spec fn kept_clean<CD: ReplicaDirectory, AD, SD: ReplicaDirectory, R>(
    marks: Marks,
    dir: &DirContext<CD, AD, SD, R>,
    kept: Map<Seq<u8>, Set<Path>>,
) -> bool {
    forall|n: Seq<u8>, q: Path|
        kept.dom().contains(n) && #[trigger] kept[n].contains(q) ==> marks.c.contains(
            dir.cli.dir.path().push(n) + q,
        ) && marks.s.contains(dir.srv.dir.path().push(n) + q)
}

/// Whether the outcomes `subs` are those where `kept` is skipped.
spec fn outcomes_are(
    w: Walked,
    depth: nat,
    subs: Map<Seq<u8>, Outcome>,
    kept: Map<Seq<u8>, Set<Path>>,
) -> bool {
    &&& kept.dom() == subs.dom()
    &&& forall|n: Seq<u8>| #[trigger]
        subs.dom().contains(n) ==> model::outcome_but(w, n, depth, kept[n]) == Some(subs[n])
}

/// The outcomes for all subdirectories.
proof fn lemma_joined(
    w: Walked,
    depth: nat,
    subs: Map<Seq<u8>, Outcome>,
    kept: Map<Seq<u8>, Set<Path>>,
)
    requires
        subs.dom() == w.follows.dom(),
        outcomes_are(w, depth, subs, kept),
    ensures
        model::outcomes_but(w, depth, joined(kept)) == Some(subs),
        !joined(kept).contains(Seq::empty()),
{
    let skip = joined(kept);
    assert forall|n: Seq<u8>| #[trigger] w.follows.dom().contains(n) implies model::outcome_but(
        w,
        n,
        depth,
        model::from_there(skip, n),
    ) == Some(subs[n]) by {
        assert forall|q: Path| #[trigger]
            model::from_there(skip, n).contains(q) == kept[n].contains(q) by {
            assert((seq![n] + q)[0] == n);
            assert((seq![n] + q).drop_first() =~= q);
        }
        assert(model::from_there(skip, n) =~= kept[n]);
    }
    assert(model::outcomes_but(w, depth, skip)->0 =~= subs);
}

/// What is skipped in the subdirectories may be skipped in the directory.
proof fn lemma_joined_clean<CD: ReplicaDirectory, AD, SD: ReplicaDirectory, R>(
    marks: Marks,
    dir: &DirContext<CD, AD, SD, R>,
    kept: Map<Seq<u8>, Set<Path>>,
)
    requires
        kept_clean(marks, dir, kept),
    ensures
        forall|q: Path| #[trigger]
            joined(kept).contains(q) ==> marks.c.contains(dir.cli.dir.path() + q)
                && marks.s.contains(dir.srv.dir.path() + q),
{
    let (c, s) = (dir.cli.dir.path(), dir.srv.dir.path());
    assert forall|q: Path| #[trigger] joined(kept).contains(q) implies marks.c.contains(c + q)
        && marks.s.contains(s + q) by {
        assert(kept[q[0]].contains(q.drop_first()));
        assert(c.push(q[0]) + q.drop_first() =~= c + q);
        assert(s.push(q[0]) + q.drop_first() =~= s + q);
    }
}

/// Where the replicas stand while subdirectories are followed up: `subs` are
/// the outcomes so far, where `kept` is skipped, and `rest` is what is still to
/// be processed.
spec fn following<CLI: Replica, ANC: Replica, SRV: Replica, LOG, INT, R: SyncRules>(
    ctx0: &Context<CLI, ANC, SRV, LOG, INT>,
    ctx: &Context<CLI, ANC, SRV, LOG, INT>,
    dir: &DirContext<CLI::Directory, ANC::Directory, SRV::Directory, R>,
    marks: Marks,
    w: Walked,
    subs: Map<Seq<u8>, Outcome>,
    kept: Map<Seq<u8>, Set<Path>>,
    rest: Seq<Subdir<CLI::Directory, ANC::Directory, SRV::Directory, R>>,
    policy: Policy,
    depth: nat,
) -> bool {
    &&& gathering(&ctx0.cli, &ctx.cli, &dir.cli.dir, w.t.c, w.follows, cli_part(subs))
    &&& gathering(&ctx0.anc, &ctx.anc, &dir.anc.dir, w.t.a, w.follows, anc_part(subs))
    &&& gathering(&ctx0.srv, &ctx.srv, &dir.srv.dir, w.t.s, w.follows, srv_part(subs))
    &&& kept_clean(marks, dir, kept)
    &&& ctx0.cli.state().clean.subset_of(marks.c)
    &&& ctx0.srv.state().clean.subset_of(marks.s)
    &&& outcomes_are(w, depth, subs, kept)
    &&& cleaned(ctx0.cli.state().clean, ctx.cli.state().clean, dir.cli.dir.path(), subs.dom())
    &&& cleaned(ctx0.srv.state().clean, ctx.srv.state().clean, dir.srv.dir.path(), subs.dom())
    &&& super::walk_laws::settled_but::<Followed>(w, Set::empty(), policy, Seq::empty())
    &&& subs.dom().subset_of(w.follows.dom())
    &&& forall|i: int|
        0 <= i < rest.len() ==> {
            let x = #[trigger] rest[i];
            &&& w.follows.dom().contains(x.cause@.0) && w.follows[x.cause@.0] == x.cause@.1
            &&& tree_walk::shaped(x, dir)
            &&& x.rules.policy() == Some(w.policies[x.cause@.0])
            &&& !subs.dom().contains(x.cause@.0)
        }
    &&& forall|n: Seq<u8>| #[trigger]
        w.follows.dom().contains(n) ==> subs.dom().contains(n) || exists|i: int|
            0 <= i < rest.len() && (#[trigger] rest[i]).cause@.0 == n
    &&& forall|i: int, j: int|
        0 <= i < j < rest.len() ==> (#[trigger] rest[i]).cause@.0 != (#[trigger] rest[j]).cause@.0
}

/// Whether everything followed up so far has ended up empty.
spec fn all_empty(w: Walked, subs: Map<Seq<u8>, Outcome>) -> bool {
    w.empty && forall|n: Seq<u8>| #[trigger] subs.dom().contains(n) ==> subs[n].empty
}

/// The mode that a subdirectory is created with.
spec fn synth_mode(f: Follow) -> FileMode {
    match f {
        Follow::Enter => 0,
        Follow::Delete(_, m) => m,
    }
}

/// The next subdirectory that is to be processed is ready for that.
proof fn lemma_following_next<CLI: Replica, ANC: Replica, SRV: Replica, LOG, INT, R: SyncRules>(
    ctx0: &Context<CLI, ANC, SRV, LOG, INT>,
    ctx: &Context<CLI, ANC, SRV, LOG, INT>,
    dir: &DirContext<CLI::Directory, ANC::Directory, SRV::Directory, R>,
    marks: Marks,
    w: Walked,
    subs: Map<Seq<u8>, Outcome>,
    kept: Map<Seq<u8>, Set<Path>>,
    rest: Seq<Subdir<CLI::Directory, ANC::Directory, SRV::Directory, R>>,
    policy: Policy,
    depth: nat,
)
    requires
        following(ctx0, ctx, dir, marks, w, subs, kept, rest, policy, depth),
        rest.len() > 0,
    ensures
        ready(ctx, &rest.last().cli, &rest.last().anc, &rest.last().srv),
        fits(ctx, rest.last()),
        trio_at(ctx, &rest.last().cli, &rest.last().anc, &rest.last().srv) == model::under(
            w.t,
            rest.last().cause@.0,
        ),
{
    let x = rest.last();
    assert(x == rest[rest.len() - 1]);
    let n = x.cause@.0;
    let f = x.cause@.1;
    let m = synth_mode(f);
    assert(super::walk_laws::settled_at::<Followed>(w, n, policy, Seq::empty()));
    lemma_next(
        &ctx0.cli,
        &ctx.cli,
        &dir.cli.dir,
        &x.cli,
        w.t.c,
        w.follows,
        cli_part(subs),
        n,
        m,
    );
    lemma_next(
        &ctx0.anc,
        &ctx.anc,
        &dir.anc.dir,
        &x.anc,
        w.t.a,
        w.follows,
        anc_part(subs),
        n,
        m,
    );
    lemma_next(
        &ctx0.srv,
        &ctx.srv,
        &dir.srv.dir,
        &x.srv,
        w.t.s,
        w.follows,
        srv_part(subs),
        n,
        m,
    );
    lemma_progress(w.t.a, w.follows, anc_part(subs));
}

/// Following up the next subdirectory.
proof fn lemma_following_step<CLI: Replica, ANC: Replica, SRV: Replica, LOG, INT, R: SyncRules>(
    ctx0: &Context<CLI, ANC, SRV, LOG, INT>,
    ctx: &Context<CLI, ANC, SRV, LOG, INT>,
    after: &Context<CLI, ANC, SRV, LOG, INT>,
    dir: &DirContext<CLI::Directory, ANC::Directory, SRV::Directory, R>,
    marks: Marks,
    w: Walked,
    subs: Map<Seq<u8>, Outcome>,
    kept: Map<Seq<u8>, Set<Path>>,
    rest: Seq<Subdir<CLI::Directory, ANC::Directory, SRV::Directory, R>>,
    policy: Policy,
    depth: nat,
    o: Outcome,
    skip: Set<Path>,
)
    requires
        following(ctx0, ctx, dir, marks, w, subs, kept, rest, policy, depth),
        rest.len() > 0,
        trio_at(ctx, &rest.last().cli, &rest.last().anc, &rest.last().srv) == model::under(
            w.t,
            rest.last().cause@.0,
        ),
        visited(
            ctx,
            after,
            rest.last(),
            w.policies[rest.last().cause@.0],
            depth,
            o,
            skip,
        ),
    ensures
        following(
            ctx0,
            after,
            dir,
            marks,
            w,
            subs.insert(rest.last().cause@.0, o),
            kept.insert(rest.last().cause@.0, skip),
            rest.drop_last(),
            policy,
            depth,
        ),
        all_empty(w, subs.insert(rest.last().cause@.0, o)) == (all_empty(w, subs) && o.empty),
{
    let x = rest.last();
    let l = rest.len() - 1;
    assert(x == rest[l]);
    let n = x.cause@.0;
    let f = x.cause@.1;
    let m = synth_mode(f);
    let subs2 = subs.insert(n, o);
    let rest2 = rest.drop_last();
    assert(super::walk_laws::settled_at::<Followed>(w, n, policy, Seq::empty()));
    assert(cli_part(subs2) =~= cli_part(subs).insert(n, (o.t.c, o.empty)));
    assert(anc_part(subs2) =~= anc_part(subs).insert(n, (o.t.a, o.empty)));
    assert(srv_part(subs2) =~= srv_part(subs).insert(n, (o.t.s, o.empty)));
    lemma_gather(
        &ctx0.cli,
        &ctx.cli,
        &after.cli,
        &dir.cli.dir,
        &x.cli,
        w.t.c,
        w.follows,
        cli_part(subs),
        n,
        m,
        o.t.c,
        o.empty,
    );
    lemma_gather(
        &ctx0.anc,
        &ctx.anc,
        &after.anc,
        &dir.anc.dir,
        &x.anc,
        w.t.a,
        w.follows,
        anc_part(subs),
        n,
        m,
        o.t.a,
        o.empty,
    );
    lemma_gather(
        &ctx0.srv,
        &ctx.srv,
        &after.srv,
        &dir.srv.dir,
        &x.srv,
        w.t.s,
        w.follows,
        srv_part(subs),
        n,
        m,
        o.t.s,
        o.empty,
    );
    assert(subs2.dom() =~= subs.dom().insert(n));
    lemma_cleaned_step(
        ctx0.cli.state().clean,
        ctx.cli.state(),
        after.cli.state(),
        dir.cli.dir.path(),
        subs.dom(),
        n,
    );
    lemma_cleaned_step(
        ctx0.srv.state().clean,
        ctx.srv.state(),
        after.srv.state(),
        dir.srv.dir.path(),
        subs.dom(),
        n,
    );
    assert forall|i: int| 0 <= i < rest2.len() implies {
        let y = #[trigger] rest2[i];
        &&& w.follows.dom().contains(y.cause@.0) && w.follows[y.cause@.0] == y.cause@.1
        &&& tree_walk::shaped(y, dir)
        &&& y.rules.policy() == Some(w.policies[y.cause@.0])
        &&& !subs2.dom().contains(y.cause@.0)
    } by {
        assert(rest2[i] == rest[i]);
        assert(rest[i].cause@.0 != rest[l].cause@.0);
    }
    assert forall|q: Seq<u8>| #[trigger] w.follows.dom().contains(q) implies subs2.dom().contains(q)
        || exists|i: int| 0 <= i < rest2.len() && (#[trigger] rest2[i]).cause@.0 == q by {
        if !subs2.dom().contains(q) {
            let i = choose|i: int| 0 <= i < rest.len() && (#[trigger] rest[i]).cause@.0 == q;
            assert(rest2[i].cause@.0 == q);
        }
    }
    assert forall|i: int, j: int| 0 <= i < j < rest2.len() implies (
    #[trigger] rest2[i]).cause@.0 != (#[trigger] rest2[j]).cause@.0 by {
        assert(rest[i].cause@.0 != rest[j].cause@.0);
    }
    let kept2 = kept.insert(n, skip);
    assert(kept2.dom() =~= subs2.dom());
    assert forall|q: Seq<u8>| #[trigger] subs2.dom().contains(q) implies model::outcome_but(
        w,
        q,
        depth,
        kept2[q],
    ) == Some(subs2[q]) by {
        if q != n {
            assert(subs.dom().contains(q));
        }
    }
    assert forall|k: Seq<u8>, q: Path| kept2.dom().contains(k) && #[trigger] kept2[k].contains(
        q,
    ) implies marks.c.contains(dir.cli.dir.path().push(k) + q) && marks.s.contains(
        dir.srv.dir.path().push(k) + q,
    ) by {
        if k == n {
            assert(skip.contains(q));
            lemma_cleaned(
                ctx0.cli.state().clean,
                ctx.cli.state().clean,
                dir.cli.dir.path(),
                subs.dom(),
                n,
                q,
            );
            lemma_cleaned(
                ctx0.srv.state().clean,
                ctx.srv.state().clean,
                dir.srv.dir.path(),
                subs.dom(),
                n,
                q,
            );
        } else {
            assert(kept[k].contains(q));
        }
    }
    if all_empty(w, subs2) {
        assert forall|q: Seq<u8>| #[trigger] subs.dom().contains(q) implies subs[q].empty by {
            assert(subs2.dom().contains(q));
            assert(q != n);
        }
        assert(subs2.dom().contains(n));
    }
}

/// Whether one replica has come to hold `k` in a directory by way of what it
/// held there before.
spec fn settled_as<A: Replica>(before: &A, after: &A, d: &A::Directory, k: Kids) -> bool {
    &&& after.ideal()
    &&& after.state().tree == place::graft(before.state().tree, d.path(), d.modes(), k)
    &&& after.state().faultless == before.state().faultless
    &&& after.state().condemned == before.state().condemned
}

/// Whether the client can be expected to go along with all that following up
/// takes.
spec fn smooth_subs(w: Walked, depth: nat) -> bool {
    forall|n: Seq<u8>| #[trigger]
        w.follows.dom().contains(n) ==> model::smooth_below(
            model::under(w.t, n),
            w.policies[n],
            depth,
        )
}

/// Whether all subdirectories have been followed up, with the outcomes `subs`,
/// where `kept` was skipped.
spec fn followed_by<CLI: Replica, ANC: Replica, SRV: Replica, LOG, INT, R>(
    ctx0: &Context<CLI, ANC, SRV, LOG, INT>,
    ctx: &Context<CLI, ANC, SRV, LOG, INT>,
    dir: &DirContext<CLI::Directory, ANC::Directory, SRV::Directory, R>,
    marks: Marks,
    w: Walked,
    empty: bool,
    depth: nat,
    subs: Map<Seq<u8>, Outcome>,
    kept: Map<Seq<u8>, Set<Path>>,
) -> bool {
    &&& subs.dom() == w.follows.dom()
    &&& outcomes_are(w, depth, subs, kept)
    &&& kept_clean(marks, dir, kept)
    &&& empty == model::gathered(w, subs).empty
    &&& settled_as(&ctx0.cli, &ctx.cli, &dir.cli.dir, model::gathered(w, subs).t.c)
    &&& settled_as(&ctx0.anc, &ctx.anc, &dir.anc.dir, model::gathered(w, subs).t.a)
    &&& settled_as(&ctx0.srv, &ctx.srv, &dir.srv.dir, model::gathered(w, subs).t.s)
    &&& confined(ctx0.cli.state(), ctx.cli.state(), dir.cli.dir.path())
    &&& confined(ctx0.srv.state(), ctx.srv.state(), dir.srv.dir.path())
}

/// Once everything has been followed up, the outcome is known.
proof fn lemma_followed_all<CLI: Replica, ANC: Replica, SRV: Replica, LOG, INT, R: SyncRules>(
    ctx0: &Context<CLI, ANC, SRV, LOG, INT>,
    ctx: &Context<CLI, ANC, SRV, LOG, INT>,
    dir: &DirContext<CLI::Directory, ANC::Directory, SRV::Directory, R>,
    marks: Marks,
    w: Walked,
    subs: Map<Seq<u8>, Outcome>,
    kept: Map<Seq<u8>, Set<Path>>,
    policy: Policy,
    depth: nat,
)
    requires
        following(ctx0, ctx, dir, marks, w, subs, kept, Seq::empty(), policy, depth),
    ensures
        followed_by(ctx0, ctx, dir, marks, w, all_empty(w, subs), depth, subs, kept),
{
    assert forall|n: Seq<u8>| #[trigger] w.follows.dom().contains(n) implies subs.dom().contains(
        n,
    ) by {}
    assert(subs.dom() =~= w.follows.dom());
    assert(cli_part(subs).dom() =~= w.follows.dom());
    assert(anc_part(subs).dom() =~= w.follows.dom());
    assert(srv_part(subs).dom() =~= w.follows.dom());
    lemma_progress(w.t.c, w.follows, cli_part(subs));
    lemma_progress(w.t.a, w.follows, anc_part(subs));
    lemma_progress(w.t.s, w.follows, srv_part(subs));
    lemma_cleaned_confined(
        ctx0.cli.state(),
        ctx.cli.state(),
        dir.cli.dir.path(),
        subs.dom(),
    );
    lemma_cleaned_confined(
        ctx0.srv.state(),
        ctx.srv.state(),
        dir.srv.dir.path(),
        subs.dom(),
    );
}

impl<
    CLI: Replica,
    ANC: Replica + NullTransfer + Condemn,
    SRV: Replica<TransferIn = CLI::TransferOut, TransferOut = CLI::TransferIn>,
    LOG: Logger,
    INT: Interrupt,
> Context<CLI, ANC, SRV, LOG, INT> {
    /// Processes the subdirectories of a directory all of whose files have been
    /// processed.
    ///
    /// The flags of their states are ANDed into `state`.
    fn follow_up<R: SyncRules>(
        &mut self,
        pending: Vec<Subdir<CLI::Directory, ANC::Directory, SRV::Directory, R>>,
        depth: usize,
        state: &mut DirState,
        Ghost(dir): Ghost<DirContext<CLI::Directory, ANC::Directory, SRV::Directory, R>>,
        Ghost(marks): Ghost<Marks>,
        Ghost(w): Ghost<Walked>,
        Ghost(policy): Ghost<Policy>,
        Ghost(subs0): Ghost<Map<Seq<u8>, Outcome>>,
        Ghost(kept0): Ghost<Map<Seq<u8>, Set<Path>>>,
    )
        ensures
            old(self).keeps(*final(self)),
            final(self).interrupt == old(self).interrupt,
            log::grown(old(self).log.logged(), final(self).log.logged()),
            final(state).success ==> log::flawless(
                old(self).log.logged(),
                final(self).log.logged(),
            ),
            final(state).success ==> old(state).success,
            tree_walk::spares_client(dir.rules.policy()) && mutate::sane(&old(self).cli)
                && tree_walk::client_ready(
                pending@,
                old(self).cli.state().tree,
            ) ==> mutate::sane(&final(self).cli) && final(self).cli.state().tree
                == old(self).cli.state().tree,
            old(state).success && old(state).empty == all_empty(w, subs0) && following(
                old(self),
                old(self),
                &dir,
                marks,
                w,
                subs0,
                kept0,
                pending@,
                policy,
                depth as nat,
            ) ==> {
                &&& final(state).success ==> exists|
                    subs: Map<Seq<u8>, Outcome>,
                    kept: Map<Seq<u8>, Set<Path>>,
                | #[trigger]
                    followed_by(
                        old(self),
                        final(self),
                        &dir,
                        marks,
                        w,
                        final(state).empty,
                        depth as nat,
                        subs,
                        kept,
                    )
                &&& smooth_subs(w, depth as nat) && old(self).untroubled() && mutate::within(
                    w.t.a,
                    usize::MAX as nat,
                ) && model::outcomes(w, depth as nat) is Some ==> final(state).success
            },
        decreases depth, 2nat,
    {
        let mut pending = pending;
        let ghost good = state.success && state.empty == all_empty(w, subs0) && following(
            self,
            self,
            &dir,
            marks,
            w,
            subs0,
            kept0,
            pending@,
            policy,
            depth as nat,
        );
        let ghost lucky = good && smooth_subs(w, depth as nat) && self.untroubled() && mutate::within(
            w.t.a,
            usize::MAX as nat,
        ) && model::outcomes(w, depth as nat) is Some;
        let ghost spares = tree_walk::spares_client(dir.rules.policy()) && mutate::sane(&self.cli)
            && tree_walk::client_ready(pending@, self.cli.state().tree);
        let ghost mut subs = subs0;
        let ghost mut kept = kept0;
        proof {
            log::lemma_grown(self.log.logged(), self.log.logged());
            mutate::lemma_within_all(w.t.a, usize::MAX as nat);
        }
        loop
            invariant
                old(self).keeps(*self),
                self.interrupt == old(self).interrupt,
                log::grown(old(self).log.logged(), self.log.logged()),
                state.success ==> log::flawless(old(self).log.logged(), self.log.logged()),
                state.success ==> old(state).success,
                good ==> old(state).success,
                spares ==> mutate::sane(&self.cli) && self.cli.state().tree
                    == old(self).cli.state().tree && tree_walk::spares_client(dir.rules.policy())
                    && tree_walk::client_ready(pending@, self.cli.state().tree),
                good && state.success ==> following(
                    old(self),
                    self,
                    &dir,
                    marks,
                    w,
                    subs,
                    kept,
                    pending@,
                    policy,
                    depth as nat,
                ) && state.empty == all_empty(w, subs),
                lucky ==> good && smooth_subs(w, depth as nat) && state.success && self.untroubled()
                    && model::outcomes(w, depth as nat) is Some && forall|n: Seq<u8>| mutate::within_at(
                    #[trigger] model::at(w.t.a, n),
                    usize::MAX as nat,
                ),
            ensures
                pending@.len() == 0,
            decreases pending@.len(),
        {
            let ghost rest = pending@;
            let ghost self1 = *self;
            let ghost state1 = *state;
            let x = match pending.pop() {
                Some(x) => x,
                None => {
                    break;
                },
            };
            let ghost x0 = x;
            proof {
                assert(rest.last() == x && pending@ =~= rest.drop_last());
                assert(rest[rest.len() - 1] == x);
                if good && state.success {
                    lemma_following_next(
                        old(self),
                        self,
                        &dir,
                        marks,
                        w,
                        subs,
                        kept,
                        rest,
                        policy,
                        depth as nat,
                    );
                    if lucky {
                        assert(mutate::within_at(
                            model::at(w.t.a, x.cause@.0),
                            usize::MAX as nat,
                        ));
                        assert(w.follows.dom().contains(x.cause@.0));
                        assert forall|q: Path| #[trigger]
                            trees::node_at(model::under(w.t, x.cause@.0).a, q)
                                is Some implies q.len() <= usize::MAX by {
                            trees::lemma_nothing(q);
                        }
                        assert(mutate::within(
                            model::under(w.t, x.cause@.0).a,
                            usize::MAX as nat,
                        ));
                    }
                }
            }
            self.recurse_and_then(x, depth, state);
            proof {
                log::lemma_added_twice(
                    old(self).log.logged(),
                    self1.log.logged(),
                    self.log.logged(),
                );
                if spares {
                    assert forall|i: int| 0 <= i < pending@.len() implies {
                        &&& replica::usable(
                            &(#[trigger] pending@[i]).cli,
                            self.cli.state().tree,
                        )
                        &&& pending@[i].delete ==> !place::is_there(
                            self.cli.state().tree,
                            pending@[i].cli.path(),
                        )
                        &&& tree_walk::spares_client(pending@[i].rules.policy())
                    } by {
                        assert(pending@[i] == rest[i]);
                    }
                }
                if good && state.success {
                    let n = x0.cause@.0;
                    let (o, skip) = choose|o: Outcome, skip: Set<Path>| #[trigger]
                        visited(&self1, self, x0, w.policies[n], depth as nat, o, skip)
                            && state.empty == (state1.empty && o.empty);
                    lemma_following_step(
                        old(self),
                        &self1,
                        self,
                        &dir,
                        marks,
                        w,
                        subs,
                        kept,
                        rest,
                        policy,
                        depth as nat,
                        o,
                        skip,
                    );
                    subs = subs.insert(n, o);
                    kept = kept.insert(n, skip);
                }
            }
        }
        proof {
            if good && state.success {
                assert(pending@ =~= Seq::empty());
                lemma_followed_all(old(self), self, &dir, marks, w, subs, kept, policy, depth as nat);
            }
        }
    }
}

/// What a walk leaves to be followed up where the client has nothing.
struct ClientMissing;

impl super::walk_laws::PerFile for ClientMissing {
    open spec fn pending(
        policy: Policy,
        h: Seq<u8>,
        c: Option<Node>,
        a: Option<Node>,
        s: Option<Node>,
    ) -> bool {
        c is None
    }

    open spec fn settled(
        policy: Policy,
        h: Seq<u8>,
        c: Option<Node>,
        a: Option<Node>,
        s: Option<Node>,
        f: Option<Follow>,
    ) -> bool {
        &&& <Followed as super::walk_laws::PerFile>::settled(policy, h, c, a, s, f)
        &&& !(f matches Some(Follow::Delete(ReconciliationSide::Client, _)))
    }

    proof fn none_settled(policy: Policy, h: Seq<u8>, f: Option<Follow>) {
    }

    proof fn settles(
        policy: Policy,
        rule: Ruling,
        h: Seq<u8>,
        c: Option<Node>,
        a: Option<Node>,
        s: Option<Node>,
    ) {
        tree_walk::lemma_follow_dirs(c, a, s, rule);
    }

    proof fn splits(
        policy: Policy,
        rule: Ruling,
        h: Seq<u8>,
        c: Option<Node>,
        a: Option<Node>,
        s: Option<Node>,
        side: ReconciliationSide,
        st: compute::SplitAncestorState,
    ) {
        compute::law_split_needs_both(
            model::seen(model::data(c), model::data(a), model::data(s), rule.trust),
            model::data(a),
            model::data(s),
            rule.mode,
        );
    }
}

/// What a walk leaves to be followed up where the server has nothing.
struct ServerMissing;

impl super::walk_laws::PerFile for ServerMissing {
    open spec fn pending(
        policy: Policy,
        h: Seq<u8>,
        c: Option<Node>,
        a: Option<Node>,
        s: Option<Node>,
    ) -> bool {
        s is None
    }

    open spec fn settled(
        policy: Policy,
        h: Seq<u8>,
        c: Option<Node>,
        a: Option<Node>,
        s: Option<Node>,
        f: Option<Follow>,
    ) -> bool {
        &&& <Followed as super::walk_laws::PerFile>::settled(policy, h, c, a, s, f)
        &&& !(f matches Some(Follow::Delete(ReconciliationSide::Server, _)))
    }

    proof fn none_settled(policy: Policy, h: Seq<u8>, f: Option<Follow>) {
    }

    proof fn settles(
        policy: Policy,
        rule: Ruling,
        h: Seq<u8>,
        c: Option<Node>,
        a: Option<Node>,
        s: Option<Node>,
    ) {
        tree_walk::lemma_follow_dirs(c, a, s, rule);
    }

    proof fn splits(
        policy: Policy,
        rule: Ruling,
        h: Seq<u8>,
        c: Option<Node>,
        a: Option<Node>,
        s: Option<Node>,
        side: ReconciliationSide,
        st: compute::SplitAncestorState,
    ) {
        compute::law_split_needs_both(
            model::seen(model::data(c), model::data(a), model::data(s), rule.trust),
            model::data(a),
            model::data(s),
            rule.mode,
        );
    }
}

/// Where a replica starts with nothing in a directory, what the walk puts there
/// does not all go again.
proof fn lemma_stays_occupied(
    t: Trio,
    w: Walked,
    subs: Map<Seq<u8>, Outcome>,
    policy: Policy,
)
    requires
        t.c.dom().finite() && t.a.dom().finite() && t.s.dom().finite(),
        model::walk(model::fresh(t), model::names(t), policy) == Some(w),
        subs.dom() == w.follows.dom(),
    ensures
        t.c == Map::<Seq<u8>, Node>::empty() ==> w.t.c == Map::<Seq<u8>, Node>::empty()
            || model::gathered(w, subs).t.c != Map::<Seq<u8>, Node>::empty(),
        t.s == Map::<Seq<u8>, Node>::empty() ==> w.t.s == Map::<Seq<u8>, Node>::empty()
            || model::gathered(w, subs).t.s != Map::<Seq<u8>, Node>::empty(),
{
    let g = model::gathered(w, subs);
    if t.c == Map::<Seq<u8>, Node>::empty() {
        super::walk_laws::lemma_walk_fresh::<ClientMissing>(t, policy, Seq::empty());
        if forall|n: Seq<u8>| !w.t.c.dom().contains(n) {
            assert(w.t.c =~= Map::empty());
        } else {
            let n = choose|n: Seq<u8>| w.t.c.dom().contains(n);
            assert(super::walk_laws::settled_at::<ClientMissing>(w, n, policy, Seq::empty()));
            assert(g.t.c.dom().contains(n));
        }
    }
    if t.s == Map::<Seq<u8>, Node>::empty() {
        super::walk_laws::lemma_walk_fresh::<ServerMissing>(t, policy, Seq::empty());
        if forall|n: Seq<u8>| !w.t.s.dom().contains(n) {
            assert(w.t.s =~= Map::empty());
        } else {
            let n = choose|n: Seq<u8>| w.t.s.dom().contains(n);
            assert(super::walk_laws::settled_at::<ServerMissing>(w, n, policy, Seq::empty()));
            assert(g.t.s.dom().contains(n));
        }
    }
}

/// What is to be followed up after a walk.
proof fn lemma_following_begins<
    CLI: Replica,
    ANC: Replica,
    SRV: Replica,
    LOG: Logger,
    INT: Interrupt,
    R: SyncRules,
>(
    ctx0: &Context<CLI, ANC, SRV, LOG, INT>,
    ctx: &Context<CLI, ANC, SRV, LOG, INT>,
    dir0: &DirContext<CLI::Directory, ANC::Directory, SRV::Directory, R>,
    dir: &DirContext<CLI::Directory, ANC::Directory, SRV::Directory, R>,
    state: DirState,
    pending: Seq<Subdir<CLI::Directory, ANC::Directory, SRV::Directory, R>>,
    t: Trio,
    w: Walked,
    policy: Policy,
    skipped: Set<Seq<u8>>,
    depth: nat,
)
    requires
        walking(ctx0, ctx, dir0, dir, state, pending, w, policy, skipped),
        model::walk(model::fresh(t), model::names(t), policy) == Some(w),
        t.c.dom().finite() && t.a.dom().finite() && t.s.dom().finite(),
    ensures
        following(
            ctx,
            ctx,
            dir,
            Marks { c: ctx0.cli.state().clean, s: ctx0.srv.state().clean },
            w,
            left_alone(w, skipped),
            themselves(skipped),
            pending,
            policy,
            depth,
        ),
        state.empty == all_empty(w, left_alone(w, skipped)),
{
    let subs = left_alone(w, skipped);
    let kept = themselves(skipped);
    super::walk_laws::lemma_walk_fresh::<Followed>(t, policy, Seq::empty());
    super::walk_laws::lemma_walk_empty(model::fresh(t), model::names(t), policy);
    assert forall|n: Seq<u8>| #[trigger] skipped.contains(n) implies !super::walk_laws::may_go(
        w,
        n,
    ) && super::walk_laws::settled_at::<Followed>(w, n, policy, Seq::empty()) by {}
    lemma_progress_same(w.t.c, w.follows, cli_part(subs));
    lemma_progress_same(w.t.a, w.follows, anc_part(subs));
    lemma_progress_same(w.t.s, w.follows, srv_part(subs));
    assert(subs.dom() =~= skipped);
    assert(kept.dom() =~= skipped);
    assert forall|n: Seq<u8>, q: Path| kept.dom().contains(n) && #[trigger] kept[n].contains(
        q,
    ) implies ctx0.cli.state().clean.contains(dir.cli.dir.path().push(n) + q)
        && ctx0.srv.state().clean.contains(dir.srv.dir.path().push(n) + q) by {
        assert(skipped.contains(n));
        assert(dir.cli.dir.path().push(n) + q =~= dir.cli.dir.path().push(n));
        assert(dir.srv.dir.path().push(n) + q =~= dir.srv.dir.path().push(n));
    }
    if w.empty && !all_empty(w, subs) {
        let n = choose|n: Seq<u8>| #[trigger] subs.dom().contains(n) && !subs[n].empty;
        assert(skipped.contains(n));
    }
    place::lemma_graft_same(ctx.cli.state().tree, dir.cli.dir.path(), dir.cli.dir.modes());
    place::lemma_graft_same(ctx.anc.state().tree, dir.anc.dir.path(), dir.anc.dir.modes());
    place::lemma_graft_same(ctx.srv.state().tree, dir.srv.dir.path(), dir.srv.dir.modes());
    assert forall|i: int| 0 <= i < pending.len() implies {
        let x = #[trigger] pending[i];
        &&& w.follows.dom().contains(x.cause@.0) && w.follows[x.cause@.0] == x.cause@.1
        &&& tree_walk::shaped(x, dir)
        &&& x.rules.policy() == Some(w.policies[x.cause@.0])
        &&& !subs.dom().contains(x.cause@.0)
    } by {}
}

/// What a directory that has been read, walked and followed up holds in one
/// replica.
proof fn lemma_placed<A: Replica>(
    before: &A,
    read: &A,
    walked: &A,
    after: &A,
    d: &A::Directory,
    d_read: &A::Directory,
    d_walked: &A::Directory,
    k: Kids,
    done: Kids,
    todo: Set<Seq<u8>>,
)
    requires
        mutate::sane(before),
        mutate::sane(read),
        replica::same_handle(d_read, d),
        read.state().tree == before.state().tree,
        read.state().faultless == before.state().faultless,
        standing_one(read, walked, d_read, d_walked, k, todo),
        settled_as(walked, after, d_walked, done),
        place::is_there(before.state().tree, d.path()) || k == Map::<Seq<u8>, Node>::empty()
            || done != Map::<Seq<u8>, Node>::empty(),
    ensures
        placed(before, after, d, done),
        replica::same_handle(d_walked, d),
        read.state().clean.subset_of(before.state().clean) && confined(
            walked.state(),
            after.state(),
            d.path(),
        ) ==> confined(before.state(), after.state(), d.path()),
{
    before.lemma_sound();
    lemma_compose(before.state().tree, d.path(), d.modes(), k, done);
    assert(before.state().condemned =~= read.state().condemned);
}

/// What an ideal replica holds in a directory.
proof fn lemma_held_sound<A: Replica>(rep: &A, d: &A::Directory)
    requires
        rep.ideal(),
    ensures
        mutate::held(rep, d).dom().finite(),
        !place::is_there(rep.state().tree, d.path()) ==> mutate::held(rep, d) == Map::<
            Seq<u8>,
            Node,
        >::empty(),
{
    rep.lemma_sound();
    mutate::lemma_sound_kids_of(rep.state().tree, d.path());
    if mutate::held(rep, d) != Map::<Seq<u8>, Node>::empty() {
        mutate::lemma_held_is_there(rep.state().tree, d.path());
    }
}

/// The three trees.
pub open spec fn trees_of<CLI: Replica, ANC: Replica, SRV: Replica, LOG, INT>(
    ctx: &Context<CLI, ANC, SRV, LOG, INT>,
) -> Trio {
    Trio { c: ctx.cli.state().tree, a: ctx.anc.state().tree, s: ctx.srv.state().tree }
}

/// Whether the replicas have been synchronised, but for the directories `skip`,
/// which were marked clean on both sides. `empty` says whether nothing is left.
pub open spec fn synchronised<CLI: Replica, ANC: Replica, SRV: Replica, LOG, INT>(
    ctx: &Context<CLI, ANC, SRV, LOG, INT>,
    after: &Context<CLI, ANC, SRV, LOG, INT>,
    policy: Policy,
    empty: bool,
    skip: Set<Path>,
) -> bool {
    &&& skip.subset_of(ctx.cli.state().clean)
    &&& skip.subset_of(ctx.srv.state().clean)
    &&& !skip.contains(Seq::empty())
    &&& mutate::sane(&after.cli) && mutate::sane(&after.anc) && mutate::sane(&after.srv)
    &&& model::synced_but(trees_of(ctx), policy, usize::MAX as nat, skip) == Some(
        Outcome { t: trees_of(after), empty },
    )
}

/// Whether the replicas can be synchronised with a known outcome: they are
/// ideal, and nothing in them is condemned.
pub open spec fn can_sync<CLI: Replica, ANC: Replica, SRV: Replica, LOG, INT>(
    ctx: &Context<CLI, ANC, SRV, LOG, INT>,
) -> bool {
    &&& mutate::sane(&ctx.cli) && mutate::sane(&ctx.anc) && mutate::sane(&ctx.srv)
}

/// Where nothing below the root is marked clean on one of the sides, everything
/// has been synchronised.
pub proof fn law_all_dirty<CLI: Replica, ANC: Replica, SRV: Replica, LOG, INT>(
    ctx: &Context<CLI, ANC, SRV, LOG, INT>,
    after: &Context<CLI, ANC, SRV, LOG, INT>,
    policy: Policy,
    empty: bool,
    skip: Set<Path>,
)
    requires
        synchronised(ctx, after, policy, empty, skip),
        replica::none_below(ctx.cli.state().clean, Seq::empty()) || replica::none_below(
            ctx.srv.state().clean,
            Seq::empty(),
        ),
    ensures
        model::synced(trees_of(ctx), policy, usize::MAX as nat) == Some(
            Outcome { t: trees_of(after), empty },
        ),
{
    let root: Path = Seq::empty();
    assert forall|q: Path| #[trigger] skip.contains(q) implies q.len() == 0 by {
        assert(q.take(0) =~= root);
        assert(ctx.cli.state().clean.contains(q) && ctx.srv.state().clean.contains(q));
    }
    super::skipping::law_nothing_skipped(trees_of(ctx), policy, usize::MAX as nat, skip);
}

/// A run that starts from what a successful one has left, with every file
/// synchronised in the same way, leaves the names, types, modes and contents of
/// all files as they are (see `convergence::law_converges`).
pub proof fn law_second_run<CLI: Replica, ANC: Replica, SRV: Replica, LOG, INT>(
    ctx: &Context<CLI, ANC, SRV, LOG, INT>,
    after: &Context<CLI, ANC, SRV, LOG, INT>,
    again: &Context<CLI, ANC, SRV, LOG, INT>,
    after_again: &Context<CLI, ANC, SRV, LOG, INT>,
    policy: Policy,
    rule: Ruling,
    empty: bool,
    empty_again: bool,
    skip: Set<Path>,
    skip_again: Set<Path>,
)
    requires
        can_sync(ctx),
        convergence::only(policy, rule),
        synchronised(ctx, after, policy, empty, skip),
        convergence::skips_settled(trees_of(ctx), policy, rule, usize::MAX as nat, skip),
        trees_of(again) == trees_of(after),
        synchronised(again, after_again, policy, empty_again, skip_again),
    ensures
        convergence::same_trees(trees_of(after_again), trees_of(after), rule),
{
    ctx.cli.lemma_sound();
    ctx.anc.lemma_sound();
    ctx.srv.lemma_sound();
    convergence::law_converges(
        trees_of(ctx),
        policy,
        rule,
        usize::MAX as nat,
        skip,
        skip_again,
    );
}

impl<
    CLI: Replica,
    ANC: Replica + NullTransfer + Condemn,
    SRV: Replica<TransferIn = CLI::TransferOut, TransferOut = CLI::TransferIn>,
    LOG: Logger,
    INT: Interrupt,
> Context<CLI, ANC, SRV, LOG, INT> {
    /// Synchronises the replicas, starting at their root directories.
    ///
    /// Fails if the root of one of the replicas cannot be obtained. Otherwise
    /// the state of the root directory is returned, which says whether any
    /// errors occurred.
    pub fn start_root<R: SyncRules>(&mut self, rules: R) -> (r: Result<DirState>)
        ensures
            old(self).keeps(*final(self)),
            final(self).interrupt == old(self).interrupt,
            log::grown(old(self).log.logged(), final(self).log.logged()),
            r is Ok && r->Ok_0.success ==> log::flawless(
                old(self).log.logged(),
                final(self).log.logged(),
            ) && exists|dir: Seq<u8>, names: Set<Seq<u8>>| #[trigger]
                log::swept(old(self).log.logged(), final(self).log.logged(), dir, names) && (
                can_sync(old(self)) ==> names == model::names(trees_of(old(self)))),
            tree_walk::spares_client(rules.policy()) && mutate::sane(&old(self).cli)
                ==> mutate::sane(&final(self).cli) && final(self).cli.state().tree
                == old(self).cli.state().tree,
            old(self).untroubled() ==> r is Ok,
            can_sync(old(self)) ==> (rules.policy() matches Some(policy) ==> {
                let t = trees_of(old(self));
                &&& r is Ok && r->Ok_0.success ==> {
                    &&& exists|skip: Set<Path>| #[trigger]
                        synchronised(old(self), final(self), policy, r->Ok_0.empty, skip)
                    &&& final(self).cli.state().clean.contains(Seq::empty())
                    &&& final(self).srv.state().clean.contains(Seq::empty())
                }
                &&& model::smooth_below(t, policy, usize::MAX as nat)
                    && old(self).untroubled() && mutate::within(t.a, usize::MAX as nat) && model::synced(t, policy, usize::MAX as nat) is Some ==> r is Ok
                    && r->Ok_0.success
            }),
    {
        let ghost self0 = *self;
        let cli = match self.cli.root() {
            Ok(dir) => dir,
            Err(error) => {
                return Err(error);
            },
        };
        let anc = match self.anc.root() {
            Ok(dir) => dir,
            Err(error) => {
                return Err(error);
            },
        };
        let srv = match self.srv.root() {
            Ok(dir) => dir,
            Err(error) => {
                return Err(error);
            },
        };
        let ghost self1 = *self;
        let ghost given = rules.policy();
        let ghost (c0, a0, s0) = (cli, anc, srv);
        proof {
            let nowhere: Path = Seq::empty();
            if self0.cli.ideal() {
                assert(cli.path() =~= nowhere);
                assert(cli.path().take(0) =~= nowhere);
            }
            if self0.anc.ideal() {
                assert(anc.path() =~= nowhere);
                assert(anc.path().take(0) =~= nowhere);
            }
            if self0.srv.ideal() {
                assert(srv.path() =~= nowhere);
                assert(srv.path().take(0) =~= nowhere);
            }
        }
        let mut state = DirState::new();
        match self.process_dir(cli, anc, srv, rules, usize::MAX) {
            Some(done) => {
                let ghost self2 = *self;
                let mut done_state = done.state;
                if done_state.success && !self.mark_both_clean(&done.cli, &done.srv) {
                    done_state.fail();
                }
                proof {
                    let names = choose|names: Set<Seq<u8>>| #[trigger]
                        log::swept(
                            self1.log.logged(),
                            self2.log.logged(),
                            c0.shown(),
                            names,
                        ) && (ready(&self1, &c0, &a0, &s0) ==> names == model::names(
                            trio_at(&self1, &c0, &a0, &s0),
                        ));
                    log::lemma_inspections_grow(self2.log.logged(), self.log.logged());
                    assert(log::swept(self0.log.logged(), self.log.logged(), c0.shown(), names));
                    if can_sync(&self0) && given is Some && done_state.success {
                        let (o, skip) = choose|o: Outcome, skip: Set<Path>| #[trigger]
                            processed(
                                &self1,
                                &self2,
                                &c0,
                                &a0,
                                &s0,
                                done,
                                given->0,
                                usize::MAX as nat,
                                o,
                                skip,
                            );
                        assert forall|q: Path| #[trigger] skip.contains(q) implies
                            self0.cli.state().clean.contains(q) && self0.srv.state().clean.contains(
                            q,
                        ) by {
                            assert(c0.path() + q =~= q);
                            assert(s0.path() + q =~= q);
                        }
                        assert(o.t == trees_of(self));
                        assert(synchronised(&self0, self, given->0, o.empty, skip));
                    }
                }
                state.finish_task_in_dir(&done_state);
            },
            None => {
                state.fail();
            },
        }
        Ok(state)
    }
}

} // verus!
