//! What becomes of a single file, and what is told about it.

use vstd::prelude::*;

use crate::defs;
use crate::defs::FileModel;
use crate::log;
use crate::log::{LogLevel, LogModel, ReplicaSide};
use crate::replica;
use crate::rules::Policy;

use super::compute;
use super::compute::{Reconciliation, ReconciliationSide, SplitAncestorState};
use super::model;
use super::model::{Follow, Kids, Node, Outcome, Trio, Walked};
use super::mutate;
use super::tree_walk;

verus! {

/// A file of the client is always taken for one of the same content. If its unix
/// mode is not to be trusted, it is taken to have the one that the server has, or
/// if there is none, the one that the ancestor has.
pub proof fn law_seen(
    c: Option<FileModel>,
    a: Option<FileModel>,
    s: Option<FileModel>,
    trust: bool,
)
    ensures
        ({
            let d = model::seen(c, a, s, trust);
            &&& d is Some <==> c is Some
            &&& c matches Some(x) ==> d->0.matches_content(x) && !d->0.newer_than(x)
                && !x.newer_than(d->0)
            &&& trust || (s is None && a is None) ==> d == c
            &&& c is Some && !trust && c->0.mode() is Some ==> {
                &&& s is Some && s->0.mode() is Some ==> d->0.mode() == s->0.mode()
                &&& s is None && a is Some && a->0.mode() is Some ==> d->0.mode() == a->0.mode()
                &&& s is Some && s->0.mode() is None ==> d == c
            }
        }),
{
    if let Some(x) = c {
        if let Some(y) = s {
            defs::law_transrich(x, y);
            defs::law_transrich_rest(x, y);
        } else if let Some(y) = a {
            defs::law_transrich(x, y);
            defs::law_transrich_rest(x, y);
        }
    }
}

/// What is done with a file stays with that file: all others are as they were.
pub proof fn law_with(k: Kids, n: Seq<u8>, v: Option<Node>, m: Seq<u8>)
    ensures
        model::at(model::with(k, n, v), n) == v,
        m != n ==> model::at(model::with(k, n, v), m) == model::at(k, m),
{
}

/// A file that is given a state has that state. What was in it is kept if it is and
/// stays a directory, and only then.
pub proof fn law_replaced(v: Option<Node>, new: Option<FileModel>)
    ensures
        model::data(model::replaced(v, new)) == new,
        defs::opt_is_dir(new) && defs::opt_is_dir(model::data(v)) ==> model::kids(
            model::replaced(v, new),
        ) == model::kids(v),
        !(defs::opt_is_dir(new) && defs::opt_is_dir(model::data(v))) ==> model::kids(
            model::replaced(v, new),
        ) == Map::<Seq<u8>, Node>::empty(),
{
}

/// A file that is left out of sync is left alone everywhere. One that is in sync
/// is left alone on the client and the server, and the ancestor takes note of it.
pub proof fn law_settle_idle(
    c: Option<Node>,
    a: Option<Node>,
    s: Option<Node>,
    d: Option<FileModel>,
    r: Reconciliation,
)
    requires
        !(r is Use),
    ensures
        ({
            let x = model::settle_as(c, a, s, d, r);
            &&& x.c == c && x.s == s
            &&& r is InSync ==> model::data(x.a) == d
            &&& !(r is InSync) ==> x.a == a && x.follow is None
            &&& x.follow is Some <==> r is InSync && defs::opt_is_dir(d)
            &&& x.follow is Some ==> x.follow->0 is Enter
        }),
{
}

/// If the version of the client is used, the client is left alone, and the server
/// and the ancestor come to have that version. Only where a directory would have to
/// be deleted it is kept for the time being, to be entered first.
pub proof fn law_settle_client(
    c: Option<Node>,
    a: Option<Node>,
    s: Option<Node>,
    d: Option<FileModel>,
)
    requires
        d is Some <==> c is Some,
    ensures
        ({
            let x = model::settle_as(
                c,
                a,
                s,
                d,
                Reconciliation::Use(ReconciliationSide::Client),
            );
            let deletes = c is None && defs::opt_is_dir(model::data(s));
            &&& x.c == c
            &&& !deletes ==> model::data(x.s) == d && model::data(x.a) == d
            &&& deletes ==> x.s == s && model::data(x.a) == model::data(s)
            &&& x.follow matches Some(Follow::Delete(side, mode)) ==> deletes && side
                == ReconciliationSide::Server && model::data(s) == Some(FileModel::Directory(mode))
            &&& deletes ==> x.follow is Some && x.follow->0 is Delete
            &&& !deletes ==> (x.follow is Some <==> defs::opt_is_dir(d))
        }),
{
}

/// If the version of the server is used, the server is left alone, and the client
/// and the ancestor come to have that version. Only where a directory would have to
/// be deleted it is kept for the time being, to be entered first.
pub proof fn law_settle_server(
    c: Option<Node>,
    a: Option<Node>,
    s: Option<Node>,
    d: Option<FileModel>,
)
    requires
        d is Some <==> c is Some,
        c is Some ==> d->0.matches_content(c->0.data),
    ensures
        ({
            let x = model::settle_as(
                c,
                a,
                s,
                d,
                Reconciliation::Use(ReconciliationSide::Server),
            );
            let deletes = s is None && defs::opt_is_dir(model::data(c));
            &&& x.s == s
            &&& !deletes ==> model::data(x.a) == model::data(s)
            &&& !deletes && d != model::data(s) ==> model::data(x.c) == model::data(s)
            &&& d == model::data(s) ==> x.c == c
            &&& deletes ==> x.c == c && model::data(x.a) == d
            &&& x.follow matches Some(Follow::Delete(side, mode)) ==> deletes && side
                == ReconciliationSide::Client && d == Some(FileModel::Directory(mode))
            &&& deletes ==> x.follow is Some && x.follow->0 is Delete
            &&& !deletes ==> (x.follow is Some <==> defs::opt_is_dir(model::data(s)))
        }),
{
}

/// A file that is renamed is found by its new name and not by the old one; all
/// others are as they were.
pub proof fn law_renamed(k: Kids, n: Seq<u8>, new: Seq<u8>, m: Seq<u8>)
    requires
        n != new,
        !k.dom().contains(new),
    ensures
        model::at(model::renamed(k, n, new), new) == model::at(k, n),
        model::at(model::renamed(k, n, new), n) is None,
        m != n && m != new ==> model::at(model::renamed(k, n, new), m) == model::at(k, m),
{
}

/// A file that is split is renamed on one side only. The ancestor forgets about it
/// or keeps it by the new name, and nothing is left by the old one.
pub proof fn law_split(
    w: Walked,
    n: Seq<u8>,
    new: Seq<u8>,
    side: ReconciliationSide,
    st: SplitAncestorState,
)
    requires
        n != new,
        !model::names(w.t).contains(new),
    ensures
        ({
            let t = model::split(w, n, new, side, st).t;
            &&& side == ReconciliationSide::Client ==> {
                &&& t.s == w.t.s
                &&& model::at(t.c, new) == model::at(w.t.c, n) && model::at(t.c, n) is None
            }
            &&& side == ReconciliationSide::Server ==> {
                &&& t.c == w.t.c
                &&& model::at(t.s, new) == model::at(w.t.s, n) && model::at(t.s, n) is None
            }
            &&& model::at(t.a, n) is None
            &&& model::at(t.a, new) == if st is Move {
                model::at(w.t.a, n)
            } else {
                None
            }
            &&& forall|m: Seq<u8>|
                m != n && m != new ==> #[trigger] model::at(t.c, m) == model::at(w.t.c, m)
                    && model::at(t.a, m) == model::at(w.t.a, m) && model::at(t.s, m) == model::at(
                    w.t.s,
                    m,
                )
        }),
{
}

/// A file is shown to the rules as the client has it, if it does, or else as the
/// ancestor has it, or else as the server does.
pub proof fn law_shown(t: Trio, n: Seq<u8>)
    ensures
        model::at(t.c, n) matches Some(x) ==> model::shown(t, n) == x.data,
        model::at(t.c, n) is None && model::at(t.a, n) is Some ==> model::shown(t, n) == model::at(
            t.a,
            n,
        )->0.data,
        model::at(t.c, n) is None && model::at(t.a, n) is None && model::at(t.s, n) is Some
            ==> model::shown(t, n) == model::at(t.s, n)->0.data,
{
}

/// A directory that was entered keeps its data and holds what came of it. One that
/// was to be deleted goes if nothing is left in it, and is otherwise kept or, where
/// there was none, made for what is to be in it.
pub proof fn law_finished(v: Option<Node>, f: Follow, done: Kids, empty: bool)
    ensures
        ({
            let x = model::finished(v, f, done, empty);
            &&& f is Enter ==> (x is Some <==> v is Some)
            &&& f is Delete && empty ==> x is None
            &&& f is Delete && !empty ==> (x is None <==> v is None && done.dom().is_empty())
            &&& x matches Some(node) ==> node.kids == done
            &&& x is Some && v is Some ==> x->0.data == v->0.data
            &&& x is Some && v is None ==> (f matches Follow::Delete(_, m) && x->0.data
                == FileModel::Directory(m))
        }),
{
}

/// The files of a directory that were not followed up are as they were.
pub proof fn law_gathered(w: Walked, subs: Map<Seq<u8>, Outcome>, n: Seq<u8>)
    ensures
        !w.follows.dom().contains(n) ==> {
            let t = model::gathered(w, subs).t;
            &&& model::at(t.c, n) == model::at(w.t.c, n)
            &&& model::at(t.a, n) == model::at(w.t.a, n)
            &&& model::at(t.s, n) == model::at(w.t.s, n)
        },
        model::gathered(w, subs).empty <==> w.empty && forall|m: Seq<u8>| #[trigger]
            subs.dom().contains(m) ==> subs[m].empty,
{
}

/// Whether a log entry tells that a file has gone from one state to another.
pub open spec fn tells(
    what: LogModel,
    side: ReplicaSide,
    dir: Seq<u8>,
    n: Seq<u8>,
    before: Option<FileModel>,
    after: Option<FileModel>,
) -> bool {
    match what {
        LogModel::Create(x, d, m, fd) => x == side && d == dir && m == n && before is None && after
            == Some(fd),
        LogModel::Update(x, d, m, old_fd, new_fd) => x == side && d == dir && m == n && before
            == Some(old_fd) && after == Some(new_fd),
        LogModel::Remove(x, d, m, fd) => x == side && d == dir && m == n && before == Some(fd)
            && after is None,
        _ => false,
    }
}

/// The change of a file is told as what it is: a creation, an update or a removal,
/// with the states that it went between.
pub proof fn law_change(
    side: ReplicaSide,
    dir: Seq<u8>,
    n: Seq<u8>,
    before: Option<FileModel>,
    after: Option<FileModel>,
)
    requires
        before is Some || after is Some,
    ensures
        tells(mutate::change(side, dir, n, before, after).0, side, dir, n, before, after),
        match mutate::change(side, dir, n, before, after).1 {
            log::OperationModel::Create(m) => m == n && before is None,
            log::OperationModel::Update(m) => m == n && before is Some && after is Some,
            log::OperationModel::Remove(m) => m == n && after is None,
            _ => false,
        },
{
}

/// What is told about a file agrees with what becomes of it. First comes the
/// decision. Then comes the change on the side that is changed, with the state that
/// the file is taken to have there and the one that it is given; nothing if it stays
/// as it is. The deletion of a directory is told last.
pub proof fn law_file_log(
    before: Seq<(LogLevel, LogModel)>,
    dir: Seq<u8>,
    shown: Seq<u8>,
    t: Trio,
    n: Seq<u8>,
    policy: Policy,
)
    ensures
        ({
            let l = tree_walk::file_log(before, dir, shown, t, n, policy);
            let b = before.len() as int;
            let (r, conflict) = tree_walk::decision(t, n, policy);
            let d = model::seen_at(t, n, policy);
            let s = model::data(model::at(t.s, n));
            &&& l.len() > b && l.take(b) == before
            &&& l[b].1 == LogModel::Inspect(dir, n, r, conflict)
            &&& l[b].0 == (if conflict is NoConflict {
                log::INFO
            } else {
                log::WARN
            })
            &&& forall|i: int| b < i < l.len() ==> (#[trigger] l[i]).0 == log::EDIT
            &&& r is InSync || r is Unsync || r is Irreconcilable ==> l.len() == b + 1
            &&& r matches Reconciliation::Use(side) ==> {
                let (from, to) = if side == ReconciliationSide::Client {
                    (s, d)
                } else {
                    (d, s)
                };
                let there = side.other().replica();
                &&& from == to ==> l.len() == b + 1
                &&& defs::opt_is_dir(from) && to is None ==> l.len() == b + 2 && l[b + 1].1
                    == LogModel::RecursiveDelete(there, replica::shown_in(shown, n))
                &&& from != to && !(defs::opt_is_dir(from) && to is None) ==> l.len() == b + 2
                    && tells(l[b + 1].1, there, dir, n, from, to)
            }
            &&& r matches Reconciliation::Split(side, st) ==> {
                let new = model::alternate_for(n, model::names(t))->0;
                &&& l.len() == (if st is Move && model::at(t.a, n) is Some {
                    b + 3
                } else {
                    b + 2
                })
                &&& l[b + 1].1 == LogModel::Rename(side.replica(), dir, n, new)
                &&& l.len() == b + 3 ==> l[b + 2].1 == LogModel::Rename(
                    ReplicaSide::Ancestor,
                    dir,
                    n,
                    new,
                )
            }
        }),
{
    let l = tree_walk::file_log(before, dir, shown, t, n, policy);
    let b = before.len() as int;
    assert(l.take(b) =~= before);
    let (r, conflict) = tree_walk::decision(t, n, policy);
    let d = model::seen_at(t, n, policy);
    let s = model::data(model::at(t.s, n));
    law_seen(
        model::data(model::at(t.c, n)),
        model::data(model::at(t.a, n)),
        s,
        model::ruling(t, n, policy).trust,
    );
    if d is Some {
        defs::law_matching_types(d->0, model::at(t.c, n)->0.data);
    }
}

/// The client is changed only where the version of the server is used, or where it
/// is the one that is split.
pub proof fn law_touches_client(t: Trio, n: Seq<u8>, d: Option<FileModel>, r: Reconciliation)
    ensures
        !mutate::touches_client(r) ==> mutate::applied(t, n, d, r).c =~= t.c,
        mutate::touches_client(r) ==> r == Reconciliation::Use(ReconciliationSide::Server) || (r
            is Split && r->Split_0 == ReconciliationSide::Client),
{
}

/// The name that a file is given is not in use, is found from its own, and does
/// not depend on anything else.
pub proof fn law_alternate_free(n: Seq<u8>, used: Set<Seq<u8>>)
    ensures
        model::alternate_for(n, used) matches Some(new) ==> {
            &&& !used.contains(new)
            &&& exists|k: u64|
                k >= 1 && new == #[trigger] compute::alternate(compute::readable(n), k as nat)
        },
{
    if let Some(new) = model::alternate_for(n, used) {
        let r = compute::readable(n);
        let k = choose|k: u64| model::is_first_free(r, used, k);
        assert(k >= 1 && new == compute::alternate(r, k as nat));
    }
}

} // verus!
