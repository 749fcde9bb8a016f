//! That a second synchronisation finds nothing left to do.

use vstd::prelude::*;

use crate::defs;
use crate::defs::FileModel;
use crate::rules::{Policy, Ruling, SyncMode, SyncModeSetting};

use super::compute;
use super::compute::{Reconciliation, ReconciliationSide, SplitAncestorState};
use super::laws;
use super::model;
use super::model::{Follow, Kids, Node, Outcome, Trio, Walked};
use super::skipping;
use super::trees;
use super::trees::Path;
use super::walk_laws;
use super::walk_laws::PerFile;

verus! {

/// Whether a file that is in sync once its ancestor has been brought up to
/// date would not be in sync any more. Such a file differs in its modification
/// time alone.
pub open spec fn fickle(
    c: Option<FileModel>,
    a: Option<FileModel>,
    s: Option<FileModel>,
    mode: SyncMode,
) -> bool {
    compute::chosen(c, a, s, mode).0 == Reconciliation::InSync && compute::chosen(c, c, s, mode).0
        != Reconciliation::InSync
}

/// A file is fickle exactly if client and server differ in the modification
/// time alone, the client's version is to be preferred but nothing is
/// propagated to the server, and updates are propagated to the client without
/// force.
pub proof fn law_fickle(
    c: Option<FileModel>,
    a: Option<FileModel>,
    s: Option<FileModel>,
    mode: SyncMode,
)
    ensures
        fickle(c, a, s, mode) <==> (c matches Some(x) && s matches Some(y) && !x.matches(y)
            && x.matches_data(y) && !compute::server_wins(x, a, y) && mode.inbound.update
            == SyncModeSetting::On && mode.outbound.update == SyncModeSetting::Off),
{
}

/// Whether two files, if they exist, have the same type, mode and content, and
/// exist in both places or neither. If `lax` is set, the mode does not matter.
pub open spec fn same_file(x: Option<FileModel>, y: Option<FileModel>, lax: bool) -> bool {
    match (x, y) {
        (None, None) => true,
        (Some(x), Some(y)) => x.matches_data(y) || (lax && x.matches_content(y)),
        _ => false,
    }
}

/// Whether two trees hold files of the same names, types, modes and contents. If
/// `lax` is set, the modes do not matter.
#[verifier::opaque]
pub open spec fn same_tree(x: Kids, y: Kids, lax: bool) -> bool {
    forall|p: Path| same_file(#[trigger] trees::lookup(x, p), trees::lookup(y, p), lax)
}

/// Whether a second synchronisation may give files of the client modes that the
/// first has left alone: those that they have are not trusted, and a file that
/// differs from that of the server in its modification time may count as in sync
/// until the ancestor has been brought up to date.
pub open spec fn lax(rule: Ruling) -> bool {
    &&& !rule.trust
    &&& rule.mode.inbound.update == SyncModeSetting::On
    &&& rule.mode.outbound.update == SyncModeSetting::Off
}

/// Whether client, ancestor and server hold the same files as before, whatever
/// their modification times.
pub open spec fn same_trees(x: Trio, y: Trio, rule: Ruling) -> bool {
    same_tree(x.c, y.c, lax(rule)) && same_tree(x.a, y.a, false) && same_tree(x.s, y.s, false)
}

/// Whether two files are the same, and so is what is under them.
pub open spec fn near(x: Option<Node>, y: Option<Node>, lax: bool) -> bool {
    same_file(model::data(x), model::data(y), lax) && model::kids(x) == model::kids(y)
}

/// Trees are the same if all their files are, and what is under them.
proof fn lemma_same_tree(x: Kids, y: Kids, lax: bool)
    requires
        forall|n: Seq<u8>| #[trigger] same_at(x, y, n, lax),
    ensures
        same_tree(x, y, lax),
{
    reveal(same_tree);
    assert forall|p: Path| same_file(
        #[trigger] trees::lookup(x, p),
        trees::lookup(y, p),
        lax,
    ) by {
        if p.len() > 0 {
            let n = p[0];
            trees::lemma_split_path(x, p);
            trees::lemma_split_path(y, p);
            assert(same_at(x, y, n, lax));
            if p.len() > 1 {
                let q = p.drop_first();
                assert(same_file(
                    trees::lookup(model::kids(model::at(x, n)), q),
                    trees::lookup(model::kids(model::at(y, n)), q),
                    lax,
                ));
            }
        }
    }
}

/// Every tree is the same as itself.
proof fn lemma_same_self(x: Kids, lax: bool)
    ensures
        same_tree(x, x, lax),
{
    reveal(same_tree);
}

/// A tree that is the same as one that holds nothing holds nothing.
proof fn lemma_same_nothing(x: Kids, lax: bool)
    requires
        same_tree(x, Map::empty(), lax),
    ensures
        x.dom().is_empty(),
{
    reveal(same_tree);
    assert forall|n: Seq<u8>| !x.dom().contains(n) by {
        assert(trees::node_at(x, seq![n]) == model::at(x, n));
        trees::lemma_nothing(seq![n]);
        assert(same_file(
            trees::lookup(x, seq![n]),
            trees::lookup(Map::empty(), seq![n]),
            lax,
        ));
    }
    assert(x.dom() =~= Set::empty());
}

/// What is to be done about a file that a walk leaves as it is.
pub open spec fn idle_follow(
    c: Option<Node>,
    a: Option<Node>,
    s: Option<Node>,
    rule: Ruling,
) -> Option<Follow> {
    model::settle(c, a, s, rule.trust, walk_laws::choice(c, a, s, rule)).follow
}

/// Whether a walk leaves a file as it is but for its modification time.
pub open spec fn idle(c: Option<Node>, a: Option<Node>, s: Option<Node>, rule: Ruling) -> bool {
    let x = model::settle(c, a, s, rule.trust, walk_laws::choice(c, a, s, rule));
    &&& walk_laws::choice(c, a, s, rule) !is Split
    &&& near(x.c, c, lax(rule))
    &&& near(x.a, a, false)
    &&& near(x.s, s, false)
}

/// What is to be done about the file named `n`.
pub open spec fn idle_follow_at(t: Trio, n: Seq<u8>, rule: Ruling) -> Option<Follow> {
    idle_follow(model::at(t.c, n), model::at(t.a, n), model::at(t.s, n), rule)
}

/// Whether a synchronisation leaves the three trees as they are but for
/// modification times.
pub open spec fn stable(t: Trio, rule: Ruling, depth: nat) -> bool
    decreases depth,
{
    depth > 0 && forall|n: Seq<u8>| #[trigger]
        model::names(t).contains(n) ==> {
            &&& idle(model::at(t.c, n), model::at(t.a, n), model::at(t.s, n), rule)
            &&& idle_follow_at(t, n, rule) is Some ==> stable(
                model::under(t, n),
                rule,
                (depth - 1) as nat,
            )
            &&& idle_follow_at(t, n, rule) is Some && idle_follow_at(t, n, rule)->0 is Delete
                ==> !trees::vacant(model::under(t, n))
        }
}

/// Whether every file is synchronised in the same way.
pub open spec fn only(policy: Policy, rule: Ruling) -> bool {
    forall|x: Ruling| #[trigger] policy.gives(x) ==> x == rule
}

/// How files are synchronised, if it is in only one way.
pub open spec fn single(policy: Policy) -> Ruling {
    choose|x: Ruling| policy.gives(x)
}

proof fn lemma_single(policy: Policy, rule: Ruling)
    requires
        only(policy, rule),
    ensures
        single(policy) == rule,
{
    assert(policy.gives(policy.ruling(Seq::empty(), FileModel::Special)));
}

/// Walking a stable directory changes nothing but modification times.
proof fn lemma_walk_stable(w: Walked, todo: Set<Seq<u8>>, policy: Policy, rule: Ruling)
    requires
        todo.finite(),
        only(policy, rule),
        todo.subset_of(model::names(w.t)),
        forall|n: Seq<u8>| #[trigger] todo.contains(n) ==> walk_laws::follow(w, n) is None,
        forall|n: Seq<u8>| #[trigger]
            todo.contains(n) ==> idle(
                model::at(w.t.c, n),
                model::at(w.t.a, n),
                model::at(w.t.s, n),
                rule,
            ),
    ensures
        model::walk(w, todo, policy) matches Some(v) && {
            &&& forall|n: Seq<u8>|
                near(#[trigger] model::at(v.t.c, n), model::at(w.t.c, n), lax(rule)) && (!todo.contains(n)
                    ==> model::at(v.t.c, n) == model::at(w.t.c, n))
            &&& forall|n: Seq<u8>|
                near(#[trigger] model::at(v.t.a, n), model::at(w.t.a, n), false) && (!todo.contains(n)
                    ==> model::at(v.t.a, n) == model::at(w.t.a, n))
            &&& forall|n: Seq<u8>|
                near(#[trigger] model::at(v.t.s, n), model::at(w.t.s, n), false) && (!todo.contains(n)
                    ==> model::at(v.t.s, n) == model::at(w.t.s, n))
            &&& forall|n: Seq<u8>| #[trigger]
                todo.contains(n) ==> walk_laws::follow(v, n) == idle_follow_at(w.t, n, rule)
            &&& forall|n: Seq<u8>| !todo.contains(n) ==> #[trigger] walk_laws::follow(v, n)
                == walk_laws::follow(w, n)
            &&& v.empty == (w.empty && forall|n: Seq<u8>| #[trigger]
                todo.contains(n) ==> walk_laws::may_go(v, n))
        },
    decreases model::weight(w.t, todo),
{
    if !todo.is_empty() {
        let n = model::least(todo);
        walk_laws::lemma_walk_step(w, todo, policy);
        let w2 = model::processed(w, n, policy);
        let todo2 = todo.remove(n);
        assert(todo.contains(n));
        assert(policy.gives(model::ruling(w.t, n, policy)));
        assert forall|m: Seq<u8>| m != n implies #[trigger] model::at(w2.t.c, m) == model::at(
            w.t.c,
            m,
        ) && model::at(w2.t.a, m) == model::at(w.t.a, m) && model::at(w2.t.s, m) == model::at(
            w.t.s,
            m,
        ) by {}
        assert(near(model::at(w2.t.c, n), model::at(w.t.c, n), lax(rule)));
        assert(near(model::at(w2.t.a, n), model::at(w.t.a, n), false));
        assert(near(model::at(w2.t.s, n), model::at(w.t.s, n), false));
        assert forall|m: Seq<u8>| todo2.contains(m) implies model::names(w2.t).contains(m) by {
            assert(todo.contains(m));
            assert(model::at(w2.t.c, m) == model::at(w.t.c, m));
        }
        assert forall|m: Seq<u8>| #[trigger] todo2.contains(m) implies walk_laws::follow(w2, m)
            is None && idle(
            model::at(w2.t.c, m),
            model::at(w2.t.a, m),
            model::at(w2.t.s, m),
            rule,
        ) by {
            assert(todo.contains(m));
            assert(model::at(w2.t.c, m) == model::at(w.t.c, m));
        }
        lemma_walk_stable(w2, todo2, policy, rule);
        let v = model::walk(w, todo, policy)->0;
        assert(!todo2.contains(n));
        assert(walk_laws::follow(v, n) == walk_laws::follow(w2, n));
        assert forall|m: Seq<u8>| #[trigger] todo.contains(m) implies walk_laws::follow(v, m)
            == idle_follow_at(w.t, m, rule) by {
            if m != n {
                assert(todo2.contains(m));
                assert(model::at(w2.t.c, m) == model::at(w.t.c, m));
            }
        }
        assert forall|m: Seq<u8>|
            near(#[trigger] model::at(v.t.c, m), model::at(w.t.c, m), lax(rule)) && (!todo.contains(m)
                ==> model::at(v.t.c, m) == model::at(w.t.c, m)) by {
            assert(model::at(v.t.c, n) == model::at(w2.t.c, n));
        }
        assert forall|m: Seq<u8>|
            near(#[trigger] model::at(v.t.a, m), model::at(w.t.a, m), false) && (!todo.contains(m)
                ==> model::at(v.t.a, m) == model::at(w.t.a, m)) by {
            assert(model::at(v.t.a, n) == model::at(w2.t.a, n));
            assert(m != n ==> model::at(w2.t.c, m) == model::at(w.t.c, m));
        }
        assert forall|m: Seq<u8>|
            near(#[trigger] model::at(v.t.s, m), model::at(w.t.s, m), false) && (!todo.contains(m)
                ==> model::at(v.t.s, m) == model::at(w.t.s, m)) by {
            assert(model::at(v.t.s, n) == model::at(w2.t.s, n));
            assert(m != n ==> model::at(w2.t.c, m) == model::at(w.t.c, m));
        }
        assert forall|m: Seq<u8>| !todo.contains(m) implies #[trigger] walk_laws::follow(v, m)
            == walk_laws::follow(w, m) by {
            assert(!todo2.contains(m));
            assert(walk_laws::follow(w2, m) == walk_laws::follow(w, m));
        }
        assert(w2.empty == (w.empty && walk_laws::may_go(v, n)));
        if forall|m: Seq<u8>| #[trigger] todo.contains(m) ==> walk_laws::may_go(v, m) {
            assert forall|m: Seq<u8>| #[trigger] todo2.contains(m) implies walk_laws::may_go(
                v,
                m,
            ) by {
                assert(todo.contains(m));
            }
        } else {
            let m = choose|m: Seq<u8>| #[trigger] todo.contains(m) && !walk_laws::may_go(v, m);
            if m != n {
                assert(todo2.contains(m));
            }
        }
    }
}

/// Synchronising stable trees changes nothing but modification times, whatever
/// is skipped.
proof fn lemma_stable(t: Trio, policy: Policy, rule: Ruling, depth: nat, skip: Set<Path>)
    requires
        only(policy, rule),
        laws::sound(t),
        stable(t, rule, depth),
    ensures
        model::synced_but(t, policy, depth, skip) matches Some(o) && same_trees(o.t, t, rule)
            && o.empty == trees::vacant(t),
    decreases depth,
{
    let todo = model::names(t);
    let f = model::fresh(t);
    let d = (depth - 1) as nat;
    laws::lemma_policies(t, policy);
    lemma_walk_stable(f, todo, model::informed(t, policy), rule);
    let w = laws::walked(t, policy);
    laws::lemma_per_file(t);
    laws::lemma_nothing_is_sound();
    assert forall|n: Seq<u8>| #[trigger] w.follows.dom().contains(n) implies {
        &&& todo.contains(n)
        &&& walk_laws::follow(w, n) == idle_follow_at(t, n, rule)
        &&& model::under(w.t, n) == model::under(t, n)
        &&& model::outcome_but(w, n, d, model::from_there(skip, n)) matches Some(b) && same_trees(
            b.t,
            model::under(t, n),
            rule,
        ) && (w.follows[n] is Delete ==> b.empty == trees::vacant(
            model::under(t, n),
        ))
    } by {
        assert(walk_laws::follow(w, n) is Some);
        if !todo.contains(n) {
            assert(walk_laws::follow(w, n) == walk_laws::follow(f, n));
        }
        assert(todo.contains(n));
        assert(near(model::at(w.t.c, n), model::at(t.c, n), lax(rule)));
        assert(near(model::at(w.t.a, n), model::at(t.a, n), false));
        assert(near(model::at(w.t.s, n), model::at(t.s, n), false));
        lemma_same_self(model::under(t, n).c, lax(rule));
        lemma_same_self(model::under(t, n).a, false);
        lemma_same_self(model::under(t, n).s, false);
        lemma_stable(
            model::under(t, n),
            w.policies[n],
            rule,
            d,
            model::from_there(skip, n),
        );
    }
    assert(model::outcomes_but(w, d, skip) is Some);
    let subs = model::outcomes_but(w, d, skip)->0;
    let o = model::gathered(w, subs);
    assert(model::synced_but(t, policy, depth, skip) == Some(o));
    assert forall|n: Seq<u8>|
        #[trigger] same_at(o.t.c, t.c, n, lax(rule)) && same_at(o.t.a, t.a, n, false) && same_at(
            o.t.s,
            t.s,
            n,
            false,
        ) by {
        assert(near(model::at(w.t.c, n), model::at(t.c, n), lax(rule)));
        assert(near(model::at(w.t.a, n), model::at(t.a, n), false));
        assert(near(model::at(w.t.s, n), model::at(t.s, n), false));
        lemma_same_self(model::under(t, n).c, lax(rule));
        lemma_same_self(model::under(t, n).a, false);
        lemma_same_self(model::under(t, n).s, false);
        if w.follows.dom().contains(n) {
            assert(todo.contains(n));
            let b = subs[n];
            assert(same_trees(b.t, model::under(t, n), rule));
            lemma_same_finished(
                model::at(w.t.c, n),
                model::at(t.c, n),
                w.follows[n],
                b.t.c,
                b.empty,
                lax(rule),
            );
            lemma_same_finished(
                model::at(w.t.a, n),
                model::at(t.a, n),
                w.follows[n],
                b.t.a,
                b.empty,
                false,
            );
            lemma_same_finished(
                model::at(w.t.s, n),
                model::at(t.s, n),
                w.follows[n],
                b.t.s,
                b.empty,
                false,
            );
        }
    }
    assert forall|n: Seq<u8>| same_at(o.t.a, t.a, n, false) by {
        assert(same_at(o.t.c, t.c, n, lax(rule)));
    }
    assert forall|n: Seq<u8>| same_at(o.t.s, t.s, n, false) by {
        assert(same_at(o.t.c, t.c, n, lax(rule)));
    }
    lemma_same_tree(o.t.c, t.c, lax(rule));
    lemma_same_tree(o.t.a, t.a, false);
    lemma_same_tree(o.t.s, t.s, false);
    if trees::vacant(t) {
        assert forall|n: Seq<u8>| !todo.contains(n) by {}
        assert forall|n: Seq<u8>| !w.follows.dom().contains(n) by {
            if w.follows.dom().contains(n) {
                assert(todo.contains(n));
            }
        }
        assert(w.empty);
    } else {
        assert(exists|n: Seq<u8>| todo.contains(n)) by {
            if !t.c.dom().is_empty() {
                assert(todo.contains(t.c.dom().choose()));
            } else if !t.a.dom().is_empty() {
                assert(todo.contains(t.a.dom().choose()));
            } else {
                assert(todo.contains(t.s.dom().choose()));
            }
        }
        let n = choose|n: Seq<u8>| todo.contains(n);
        assert(walk_laws::follow(w, n) == idle_follow_at(t, n, rule));
        if w.empty {
            assert(walk_laws::may_go(w, n));
            assert(w.follows.dom().contains(n));
            assert(subs.dom().contains(n));
            assert(!subs[n].empty);
        }
    }
}

/// Whether two trees have the same file by a name, and the same under it.
spec fn same_at(x: Kids, y: Kids, n: Seq<u8>, lax: bool) -> bool {
    same_file(model::data(model::at(x, n)), model::data(model::at(y, n)), lax) && same_tree(
        model::kids(model::at(x, n)),
        model::kids(model::at(y, n)),
        lax,
    )
}

/// A directory that is followed up stays the same if what is under it does.
proof fn lemma_same_finished(
    v: Option<Node>,
    u: Option<Node>,
    f: Follow,
    done: Kids,
    empty: bool,
    lax: bool,
)
    requires
        near(v, u, lax),
        same_tree(done, model::kids(u), lax),
        f is Delete ==> !empty,
    ensures
        ({
            let x = model::finished(v, f, done, empty);
            same_file(model::data(x), model::data(u), lax) && same_tree(
                model::kids(x),
                model::kids(u),
                lax,
            )
        }),
{
    if v is None {
        lemma_same_nothing(done, lax);
        lemma_same_self(Map::empty(), lax);
    }
}

/// What a walk makes of each file: another walk would leave it as it is but for
/// its modification time.
struct Calmed;

impl PerFile for Calmed {
    open spec fn pending(
        policy: Policy,
        h: Seq<u8>,
        c: Option<Node>,
        a: Option<Node>,
        s: Option<Node>,
    ) -> bool {
        &&& trees::sound_tree(c) && trees::sound_tree(a) && trees::sound_tree(s)
        &&& only(policy, single(policy))
    }

    open spec fn settled(
        policy: Policy,
        h: Seq<u8>,
        c: Option<Node>,
        a: Option<Node>,
        s: Option<Node>,
        f: Option<Follow>,
    ) -> bool {
        &&& trees::sound_tree(c) && trees::sound_tree(a) && trees::sound_tree(s)
        &&& idle(c, a, s, single(policy))
        &&& idle_follow(c, a, s, single(policy)) == f
        &&& match f {
            None => true,
            Some(Follow::Enter) => c is Some && a is Some && s is Some && c->0.data.is_dir()
                && s->0.data.is_dir() && a->0.data == s->0.data && (single(policy).trust
                ==> c->0.data == s->0.data),
            Some(Follow::Delete(ReconciliationSide::Client, m)) => s is None && c is Some
                && a is Some && c->0.data.is_dir() && a->0.data == FileModel::Directory(m) && (
            single(policy).trust ==> c->0.data == a->0.data),
            Some(Follow::Delete(ReconciliationSide::Server, m)) => c is None && s is Some
                && a is Some && s->0.data == FileModel::Directory(m) && a->0.data == s->0.data,
        }
    }

    proof fn none_settled(policy: Policy, h: Seq<u8>, f: Option<Follow>) {
    }

    proof fn settles(
        policy: Policy,
        rule: Ruling,
        h: Seq<u8>,
        c: Option<Node>,
        a: Option<Node>,
        s: Option<Node>,
    ) {
        laws::lemma_nothing_is_sound();
        let r = walk_laws::choice(c, a, s, rule);
        compute::law_directories_not_overwritten(
            model::seen(model::data(c), model::data(a), model::data(s), rule.trust),
            model::data(a),
            model::data(s),
            rule.mode,
        );
        let x = model::settle(c, a, s, rule.trust, r);
        let e = Map::<Seq<u8>, Node>::empty();
        match r {
            Reconciliation::InSync => {
                law_fickle(
                    model::seen(model::data(c), model::data(a), model::data(s), rule.trust),
                    model::data(a),
                    model::data(s),
                    rule.mode,
                );
                assert(model::kids(x.a) == model::kids(a) || model::kids(x.a) == e);
                assert(idle(x.c, x.a, x.s, rule));
            },
            Reconciliation::Use(ReconciliationSide::Client) => {
                lemma_used(rule, c, a, s, r);
            },
            Reconciliation::Use(ReconciliationSide::Server) => {
                lemma_used(rule, c, a, s, r);
            },
            _ => {},
        }
    }

    proof fn splits(
        policy: Policy,
        rule: Ruling,
        h: Seq<u8>,
        c: Option<Node>,
        a: Option<Node>,
        s: Option<Node>,
        side: ReconciliationSide,
        st: SplitAncestorState,
    ) {
    }
}

/// After one side's version has been used, another look leaves it at that.
proof fn lemma_used(
    rule: Ruling,
    c: Option<Node>,
    a: Option<Node>,
    s: Option<Node>,
    r: Reconciliation,
)
    requires
        trees::sound_tree(c) && trees::sound_tree(a) && trees::sound_tree(s),
        r == walk_laws::choice(c, a, s, rule),
        r is Use,
    ensures
        ({
            let x = model::settle(c, a, s, rule.trust, r);
            &&& idle(x.c, x.a, x.s, rule)
            &&& idle_follow(x.c, x.a, x.s, rule) == x.follow
        }),
{
    compute::law_directories_not_overwritten(
        model::seen(model::data(c), model::data(a), model::data(s), rule.trust),
        model::data(a),
        model::data(s),
        rule.mode,
    );
    let x = model::settle(c, a, s, rule.trust, r);
    if x.follow is Some && x.follow->0 is Delete {
        assert(walk_laws::choice(x.c, x.a, x.s, rule) == r);
    } else {
        assert(model::seen(model::data(x.c), model::data(x.a), model::data(x.s), rule.trust)
            == model::data(x.s));
        assert(walk_laws::choice(x.c, x.a, x.s, rule) == Reconciliation::InSync);
    }
}

/// Whether every directory that a synchronisation skips is one that another would
/// leave as it is.
pub open spec fn skips_settled(
    t: Trio,
    policy: Policy,
    rule: Ruling,
    depth: nat,
    skip: Set<Path>,
) -> bool
    decreases depth,
{
    depth > 0 ==> (model::walked(t, policy) matches Some(w) ==> forall|n: Seq<u8>| #[trigger]
        w.follows.dom().contains(n) ==> {
            let there = model::from_there(skip, n);
            if w.follows[n] is Enter && there.contains(Seq::empty()) {
                stable(model::under(w.t, n), rule, (depth - 1) as nat)
            } else {
                skips_settled(
                    model::under(w.t, n),
                    w.policies[n],
                    rule,
                    (depth - 1) as nat,
                    there,
                )
            }
        })
}

/// Where nothing is skipped, nothing that is skipped needs to be settled.
pub proof fn law_none_skipped(t: Trio, policy: Policy, rule: Ruling, depth: nat, skip: Set<Path>)
    requires
        skipping::nothing(skip),
    ensures
        skips_settled(t, policy, rule, depth, skip),
    decreases depth,
{
    if depth > 0 {
        if let Some(w) = model::walked(t, policy) {
            assert forall|n: Seq<u8>| #[trigger] w.follows.dom().contains(n) implies {
                let there = model::from_there(skip, n);
                if w.follows[n] is Enter && there.contains(Seq::empty()) {
                    stable(model::under(w.t, n), rule, (depth - 1) as nat)
                } else {
                    skips_settled(
                        model::under(w.t, n),
                        w.policies[n],
                        rule,
                        (depth - 1) as nat,
                        there,
                    )
                }
            } by {
                skipping::lemma_nothing_there(skip, n);
                law_none_skipped(
                    model::under(w.t, n),
                    w.policies[n],
                    rule,
                    (depth - 1) as nat,
                    model::from_there(skip, n),
                );
            }
        }
    }
}

/// A synchronisation leaves trees that another would leave as they are, if those
/// that it skips are.
pub proof fn law_settles_down(
    t: Trio,
    policy: Policy,
    rule: Ruling,
    depth: nat,
    skip: Set<Path>,
)
    requires
        laws::sound(t),
        only(policy, rule),
        skips_settled(t, policy, rule, depth, skip),
    ensures
        model::synced_but(t, policy, depth, skip) matches Some(o) ==> stable(o.t, rule, depth)
            && laws::sound(o.t),
    decreases depth, 1nat,
{
    if let Some(o) = model::synced_but(t, policy, depth, skip) {
        skipping::lemma_synced_but(t, policy, depth, skip);
        laws::lemma_per_file(t);
        laws::lemma_nothing_is_sound();
        let w = laws::walked(t, policy);
        let q = model::informed(t, policy);
        laws::lemma_policies(t, policy);
        lemma_single(q, rule);
        let d = (depth - 1) as nat;
        let h: Seq<u8> = Seq::empty();
        assert forall|n: Seq<u8>|
            model::names(t).contains(n) implies #[trigger] Calmed::pending(
            q,
            h,
            model::at(t.c, n),
            model::at(t.a, n),
            model::at(t.s, n),
        ) by {}
        walk_laws::lemma_walk_fresh::<Calmed>(t, q, h);
        walk_laws::lemma_walk_finite(model::fresh(t), model::names(t), q);
        let subs = model::outcomes_but(w, d, skip)->0;
        walk_laws::lemma_gathered_finite(
            w.t.c,
            w.follows,
            subs.map_values(|o: Outcome| (o.t.c, o.empty)),
        );
        walk_laws::lemma_gathered_finite(
            w.t.a,
            w.follows,
            subs.map_values(|o: Outcome| (o.t.a, o.empty)),
        );
        walk_laws::lemma_gathered_finite(
            w.t.s,
            w.follows,
            subs.map_values(|o: Outcome| (o.t.s, o.empty)),
        );
        assert forall|n: Seq<u8>|
            trees::sound_tree(#[trigger] model::at(o.t.c, n)) && trees::sound_tree(
                model::at(o.t.a, n),
            ) && trees::sound_tree(model::at(o.t.s, n)) by {
            lemma_settles_down_at(t, policy, rule, depth, skip, n);
        }
        assert forall|n: Seq<u8>| trees::sound_tree(#[trigger] model::at(o.t.a, n)) by {
            assert(trees::sound_tree(model::at(o.t.c, n)));
        }
        assert forall|n: Seq<u8>| trees::sound_tree(#[trigger] model::at(o.t.s, n)) by {
            assert(trees::sound_tree(model::at(o.t.c, n)));
        }
        trees::lemma_sound(o.t.c);
        trees::lemma_sound(o.t.a);
        trees::lemma_sound(o.t.s);
        assert forall|n: Seq<u8>| #[trigger] model::names(o.t).contains(n) implies {
            &&& idle(model::at(o.t.c, n), model::at(o.t.a, n), model::at(o.t.s, n), rule)
            &&& idle_follow_at(o.t, n, rule) is Some ==> stable(model::under(o.t, n), rule, d)
            &&& idle_follow_at(o.t, n, rule) is Some && idle_follow_at(o.t, n, rule)->0 is Delete
                ==> !trees::vacant(model::under(o.t, n))
        } by {
            lemma_settles_down_at(t, policy, rule, depth, skip, n);
        }
    }
}

proof fn lemma_settles_down_at(
    t: Trio,
    policy: Policy,
    rule: Ruling,
    depth: nat,
    skip: Set<Path>,
    n: Seq<u8>,
)
    requires
        laws::sound(t),
        only(policy, rule),
        skips_settled(t, policy, rule, depth, skip),
        model::synced_but(t, policy, depth, skip) is Some,
        walk_laws::settled_but::<Calmed>(
            laws::walked(t, policy),
            Set::empty(),
            model::informed(t, policy),
            Seq::empty(),
        ),
    ensures
        ({
            let o = model::synced_but(t, policy, depth, skip)->0;
            &&& trees::sound_tree(model::at(o.t.c, n))
            &&& trees::sound_tree(model::at(o.t.a, n))
            &&& trees::sound_tree(model::at(o.t.s, n))
            &&& idle(model::at(o.t.c, n), model::at(o.t.a, n), model::at(o.t.s, n), rule)
            &&& idle_follow_at(o.t, n, rule) is Some ==> stable(
                model::under(o.t, n),
                rule,
                (depth - 1) as nat,
            )
            &&& idle_follow_at(o.t, n, rule) is Some && idle_follow_at(o.t, n, rule)->0 is Delete
                ==> !trees::vacant(model::under(o.t, n))
        }),
    decreases depth, 0nat,
{
    skipping::lemma_synced_but(t, policy, depth, skip);
    laws::lemma_nothing_is_sound();
    let o = model::synced_but(t, policy, depth, skip)->0;
    let w = laws::walked(t, policy);
    let q = model::informed(t, policy);
    laws::lemma_policies(t, policy);
    lemma_single(q, rule);
    let d = (depth - 1) as nat;
    let h: Seq<u8> = Seq::empty();
    assert(walk_laws::settled_at::<Calmed>(w, n, q, h));
    if w.follows.dom().contains(n) {
        let u = model::under(w.t, n);
        let there = model::from_there(skip, n);
        let b = skipping::below(t, policy, depth, skip, n);
        let f = w.follows[n];
        if f is Enter && there.contains(Seq::empty()) {
            assert(b.t == u);
            assert(model::under(o.t, n) =~= u);
        } else {
            law_settles_down(u, w.policies[n], rule, d, there);
            skipping::law_empty_is_vacant(u, w.policies[n], d, there);
            match f {
                Follow::Enter => {
                    assert(model::under(o.t, n) =~= b.t);
                },
                Follow::Delete(side, m) => {
                    law_delete_one_sided(w, n, side, m);
                    skipping::law_vacant_is_empty(u, w.policies[n], d, there);
                    if !b.empty {
                        assert(model::under(o.t, n) =~= b.t) by {
                            if b.t.c.dom().is_empty() {
                                assert(b.t.c =~= Map::empty());
                            }
                            if b.t.s.dom().is_empty() {
                                assert(b.t.s =~= Map::empty());
                            }
                        }
                        let (c, a, s) = (
                            model::at(o.t.c, n),
                            model::at(o.t.a, n),
                            model::at(o.t.s, n),
                        );
                        if c is Some && s is Some {
                            assert(walk_laws::choice(c, a, s, rule)
                                == Reconciliation::InSync);
                        } else {
                            assert(model::data(c) == model::data(model::at(w.t.c, n)));
                            assert(model::data(s) == model::data(model::at(w.t.s, n)));
                            assert(model::data(a) == model::data(model::at(w.t.a, n)));
                        }
                    }
                },
            }
        }
    }
}

proof fn law_delete_one_sided(w: Walked, n: Seq<u8>, side: ReconciliationSide, m: defs::FileMode)
    requires
        side == ReconciliationSide::Client ==> model::at(w.t.s, n) is None,
        side == ReconciliationSide::Server ==> model::at(w.t.c, n) is None,
    ensures
        model::under(w.t, n).c.dom().is_empty() || model::under(w.t, n).s.dom().is_empty(),
{
    assert(Map::<Seq<u8>, Node>::empty().dom().is_empty());
}

/// Where a synchronisation changes nothing, everything that it might skip is
/// settled.
proof fn lemma_stable_skips(t: Trio, policy: Policy, rule: Ruling, depth: nat, skip: Set<Path>)
    requires
        only(policy, rule),
        laws::sound(t),
        stable(t, rule, depth),
    ensures
        skips_settled(t, policy, rule, depth, skip),
    decreases depth,
{
    let todo = model::names(t);
    let f = model::fresh(t);
    let d = (depth - 1) as nat;
    laws::lemma_policies(t, policy);
    lemma_walk_stable(f, todo, model::informed(t, policy), rule);
    let w = laws::walked(t, policy);
    laws::lemma_per_file(t);
    laws::lemma_nothing_is_sound();
    assert forall|n: Seq<u8>| #[trigger] w.follows.dom().contains(n) implies {
        let there = model::from_there(skip, n);
        if w.follows[n] is Enter && there.contains(Seq::empty()) {
            stable(model::under(w.t, n), rule, d)
        } else {
            skips_settled(model::under(w.t, n), w.policies[n], rule, d, there)
        }
    } by {
        assert(walk_laws::follow(w, n) is Some);
        if !todo.contains(n) {
            assert(walk_laws::follow(w, n) == walk_laws::follow(f, n));
        }
        assert(todo.contains(n));
        assert(near(model::at(w.t.c, n), model::at(t.c, n), lax(rule)));
        assert(near(model::at(w.t.a, n), model::at(t.a, n), false));
        assert(near(model::at(w.t.s, n), model::at(t.s, n), false));
        assert(model::under(w.t, n) == model::under(t, n));
        lemma_stable_skips(
            model::under(t, n),
            w.policies[n],
            rule,
            d,
            model::from_there(skip, n),
        );
    }
}

/// Once a synchronisation would change nothing, any number of them change
/// nothing, whatever directories each of them skips.
pub proof fn law_stays_settled(
    t: Trio,
    policy: Policy,
    rule: Ruling,
    depth: nat,
    skip: Set<Path>,
)
    requires
        laws::sound(t),
        only(policy, rule),
        stable(t, rule, depth),
    ensures
        model::synced_but(t, policy, depth, skip) matches Some(o) && same_trees(o.t, t, rule) && stable(
            o.t,
            rule,
            depth,
        ) && laws::sound(o.t),
{
    lemma_stable(t, policy, rule, depth, skip);
    lemma_stable_skips(t, policy, rule, depth, skip);
    law_settles_down(t, policy, rule, depth, skip);
}

/// A synchronisation by one mode converges, whether or not it trusts the unix
/// modes of the client's files: another one right after it leaves the names,
/// types, modes and contents of all files as they are, on the client, on the
/// server and in the ancestor, whatever directories it skips. Only modes that are
/// not trusted may still change, where updates go to the client alone (see
/// `lax`).
///
/// The first one may have skipped directories, too, if those are ones that a
/// synchronisation would leave as they are, such as what an earlier one left of
/// them (see `law_settles_down`).
pub proof fn law_converges(
    t: Trio,
    policy: Policy,
    rule: Ruling,
    depth: nat,
    skip: Set<Path>,
    skip_again: Set<Path>,
)
    requires
        laws::sound(t),
        only(policy, rule),
        skips_settled(t, policy, rule, depth, skip),
    ensures
        model::synced_but(t, policy, depth, skip) matches Some(o) ==> (model::synced_but(
            o.t,
            policy,
            depth,
            skip_again,
        ) matches Some(again) && same_trees(again.t, o.t, rule)),
{
    if let Some(o) = model::synced_but(t, policy, depth, skip) {
        law_settles_down(t, policy, rule, depth, skip);
        lemma_stable(o.t, policy, rule, depth, skip_again);
    }
}

/// A synchronisation by one mode that skips nothing converges.
pub proof fn law_full_converges(t: Trio, policy: Policy, rule: Ruling, depth: nat)
    requires
        laws::sound(t),
        only(policy, rule),
    ensures
        model::synced(t, policy, depth) matches Some(o) ==> (model::synced(
            o.t,
            policy,
            depth,
        ) matches Some(again) && same_trees(again.t, o.t, rule)),
{
    let none = Set::<Path>::empty();
    law_none_skipped(t, policy, rule, depth, none);
    law_converges(t, policy, rule, depth, none, none);
    skipping::law_nothing_skipped(t, policy, depth, none);
    if let Some(o) = model::synced(t, policy, depth) {
        skipping::law_nothing_skipped(o.t, policy, depth, none);
    }
}

} // verus!
