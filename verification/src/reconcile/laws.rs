//! What a synchronisation that meets no failure guarantees.

use vstd::prelude::*;

use crate::defs::FileModel;
use crate::rules;
use crate::rules::{Policy, Ruling, SyncMode, SyncModeSetting};

use super::compute;
use super::compute::{ReconciliationSide, SplitAncestorState};
use super::model;
use super::model::{Follow, Kids, Node, Outcome, Trio, Walked};
use super::trees;
use super::walk_laws;
use super::walk_laws::PerFile;

verus! {

/// Whether the three trees are sound.
pub open spec fn sound(t: Trio) -> bool {
    trees::sound(t.c) && trees::sound(t.a) && trees::sound(t.s)
}

/// Whether neither the client nor the server has special files.
pub open spec fn ordinary(t: Trio) -> bool {
    trees::ordinary(t.c) && trees::ordinary(t.s)
}

/// The walk that synchronising a directory begins with.
pub open spec fn walked(t: Trio, policy: Policy) -> Walked {
    model::walked(t, policy)->0
}

/// The outcome for the subdirectory named `n`.
pub open spec fn below(t: Trio, policy: Policy, depth: nat, n: Seq<u8>) -> Outcome {
    model::synced(
        model::under(walked(t, policy).t, n),
        walked(t, policy).policies[n],
        (depth - 1) as nat,
    )->0
}

/// What becomes of the file named `n` in one replica after the walk.
pub open spec fn ended(
    w: Walked,
    n: Seq<u8>,
    v: Option<Node>,
    done: Kids,
    empty: bool,
) -> Option<Node> {
    match walk_laws::follow(w, n) {
        Some(f) => model::finished(v, f, done, empty),
        None => v,
    }
}

/// How the outcome for a directory is made up of what the walk left and of the
/// outcomes for its subdirectories.
pub proof fn lemma_synced(t: Trio, policy: Policy, depth: nat)
    requires
        model::synced(t, policy, depth) is Some,
    ensures
        depth > 0,
        model::walked(t, policy) == Some(walked(t, policy)),
        ({
            let o = model::synced(t, policy, depth)->0;
            let w = walked(t, policy);
            let q = model::informed(t, policy);
            &&& forall|n: Seq<u8>| #[trigger]
                w.follows.dom().contains(n) ==> model::synced(
                    model::under(w.t, n),
                    w.policies[n],
                    (depth - 1) as nat,
                ) == Some(below(t, policy, depth, n))
            &&& forall|n: Seq<u8>| #[trigger]
                model::at(o.t.c, n) == ended(
                    w,
                    n,
                    model::at(w.t.c, n),
                    below(t, policy, depth, n).t.c,
                    below(t, policy, depth, n).empty,
                )
            &&& forall|n: Seq<u8>| #[trigger]
                model::at(o.t.a, n) == ended(
                    w,
                    n,
                    model::at(w.t.a, n),
                    below(t, policy, depth, n).t.a,
                    below(t, policy, depth, n).empty,
                )
            &&& forall|n: Seq<u8>| #[trigger]
                model::at(o.t.s, n) == ended(
                    w,
                    n,
                    model::at(w.t.s, n),
                    below(t, policy, depth, n).t.s,
                    below(t, policy, depth, n).empty,
                )
            &&& o.empty == (w.empty && forall|n: Seq<u8>| #[trigger]
                w.follows.dom().contains(n) ==> below(t, policy, depth, n).empty)
        }),
{
    let o = model::synced(t, policy, depth)->0;
    let w = walked(t, policy);
    let subs = model::outcomes(w, (depth - 1) as nat)->0;
    assert(o == model::gathered(w, subs));
    assert forall|n: Seq<u8>| #[trigger] w.follows.dom().contains(n) implies subs[n] == below(
        t,
        policy,
        depth,
        n,
    ) by {}
    if o.empty {
        assert forall|n: Seq<u8>| #[trigger] w.follows.dom().contains(n) implies below(
            t,
            policy,
            depth,
            n,
        ).empty by {
            assert(subs.dom().contains(n));
        }
    }
    if w.empty && forall|n: Seq<u8>| #[trigger]
        w.follows.dom().contains(n) ==> below(t, policy, depth, n).empty {
        assert forall|n: Seq<u8>| #[trigger] subs.dom().contains(n) implies subs[n].empty by {
            assert(w.follows.dom().contains(n));
        }
    }
}

/// The files of a directory and those below it are given the same modes.
pub proof fn lemma_policies(t: Trio, policy: Policy)
    requires
        model::names(t).finite(),
    ensures
        rules::kin(model::informed(t, policy), policy),
        forall|x: Ruling| #[trigger] model::informed(t, policy).gives(x) == policy.gives(x),
        model::walked(t, policy) matches Some(w) ==> {
            &&& forall|n: Seq<u8>| #[trigger]
                w.follows.dom().contains(n) ==> rules::kin(w.policies[n], policy)
            &&& forall|n: Seq<u8>, x: Ruling|
                w.follows.dom().contains(n) ==> #[trigger] w.policies[n].gives(x) == policy.gives(x)
        },
{
    let q = model::informed(t, policy);
    rules::lemma_kin(q, policy);
    walk_laws::lemma_walk_policies(model::fresh(t), model::names(t), q);
    if let Some(w) = model::walked(t, policy) {
        assert forall|n: Seq<u8>, x: Ruling| w.follows.dom().contains(n) implies (
        #[trigger] w.policies[n].gives(x)) == policy.gives(x) by {
            rules::lemma_kin(w.policies[n], q);
        }
    }
}

/// Where the unix modes of client files are trusted, the client can be expected
/// to go along with everything.
pub proof fn law_trusting_is_smooth(t: Trio, policy: Policy, depth: nat)
    requires
        sound(t),
        policy.trusting(),
    ensures
        model::smooth_below(t, policy, depth),
    decreases depth,
{
    if depth > 0 {
        let q = model::informed(t, policy);
        lemma_per_file(t);
        lemma_policies(t, policy);
        lemma_nothing_is_sound();
        assert(q.trusting());
        walk_laws::lemma_trusting_walk(model::fresh(t), model::names(t), q);
        if let Some(w) = model::walked(t, policy) {
            walk_laws::lemma_walk_fresh::<Whole>(t, q, Seq::empty());
            assert forall|n: Seq<u8>| #[trigger]
                w.follows.dom().contains(n) implies model::smooth_below(
                model::under(w.t, n),
                w.policies[n],
                (depth - 1) as nat,
            ) by {
                assert(walk_laws::settled_at::<Whole>(w, n, q, Seq::empty()));
                assert(w.policies[n].trusting());
                law_trusting_is_smooth(
                    model::under(w.t, n),
                    w.policies[n],
                    (depth - 1) as nat,
                );
            }
        }
    }
}

/// If nothing counts as left, nothing is left.
pub proof fn law_empty_is_vacant(t: Trio, policy: Policy, depth: nat)
    requires
        sound(t),
    ensures
        model::synced(t, policy, depth) matches Some(o) ==> (o.empty ==> trees::vacant(o.t)),
{
    if let Some(o) = model::synced(t, policy, depth) {
        if o.empty {
            lemma_synced(t, policy, depth);
            let w = walked(t, policy);
            let q = model::informed(t, policy);
            walk_laws::lemma_walk_empty(model::fresh(t), model::names(t), q);
            assert forall|n: Seq<u8>|
                model::at(o.t.c, n) is None && model::at(o.t.a, n) is None && model::at(
                    o.t.s,
                    n,
                ) is None by {
                assert(walk_laws::may_go(w, n));
                if w.follows.dom().contains(n) {
                    assert(below(t, policy, depth, n).empty);
                }
            }
            lemma_vacant(o.t);
        }
    }
}

proof fn lemma_vacant(t: Trio)
    requires
        forall|n: Seq<u8>|
            model::at(t.c, n) is None && model::at(t.a, n) is None && model::at(t.s, n) is None,
    ensures
        trees::vacant(t),
{
    assert forall|n: Seq<u8>| !t.c.dom().contains(n) && !t.a.dom().contains(n)
        && !t.s.dom().contains(n) by {
        assert(model::at(t.c, n) is None);
    }
    assert(t.c.dom() =~= Set::empty());
    assert(t.a.dom() =~= Set::empty());
    assert(t.s.dom() =~= Set::empty());
}

/// Where a directory that exists on one side only ends up with nothing in it,
/// it counts as empty.
pub proof fn law_vacant_is_empty(t: Trio, policy: Policy, depth: nat)
    requires
        sound(t),
        t.c.dom().is_empty() || t.s.dom().is_empty(),
    ensures
        model::synced(t, policy, depth) matches Some(o) ==> (trees::vacant(o.t) ==> o.empty),
{
    if let Some(o) = model::synced(t, policy, depth) {
        if trees::vacant(o.t) {
            lemma_synced(t, policy, depth);
            let w = walked(t, policy);
            let q = model::informed(t, policy);
            let todo = model::names(t);
            assert(walk_laws::one_sided(t, todo)) by {
                if t.c.dom().is_empty() {
                    assert forall|n: Seq<u8>| #[trigger] todo.contains(n) implies model::at(
                        t.c,
                        n,
                    ) is None by {}
                } else {
                    assert forall|n: Seq<u8>| #[trigger] todo.contains(n) implies model::at(
                        t.s,
                        n,
                    ) is None by {}
                }
            }
            walk_laws::lemma_walk_one_sided(model::fresh(t), todo, q);
            walk_laws::lemma_walk_fresh::<Anything>(t, q, Seq::empty());
            assert forall|n: Seq<u8>| todo.contains(n) implies #[trigger] walk_laws::may_go(
                w,
                n,
            ) by {
                lemma_gone(t, policy, depth, n);
            }
            assert forall|n: Seq<u8>| #[trigger] w.follows.dom().contains(n) implies below(
                t,
                policy,
                depth,
                n,
            ).empty by {
                lemma_gone(t, policy, depth, n);
            }
        }
    }
}

proof fn lemma_gone(t: Trio, policy: Policy, depth: nat, n: Seq<u8>)
    requires
        sound(t),
        model::synced(t, policy, depth) matches Some(o) && trees::vacant(o.t),
        walk_laws::settled_but::<Anything>(
            walked(t, policy),
            Set::empty(),
            model::informed(t, policy),
            Seq::empty(),
        ),
    ensures
        walk_laws::may_go(walked(t, policy), n),
        walked(t, policy).follows.dom().contains(n) ==> below(t, policy, depth, n).empty,
{
    let o = model::synced(t, policy, depth)->0;
    let w = walked(t, policy);
    let q = model::informed(t, policy);
    lemma_synced(t, policy, depth);
    assert(model::at(o.t.c, n) is None);
    assert(model::at(o.t.a, n) is None);
    assert(model::at(o.t.s, n) is None);
    assert(walk_laws::settled_at::<Anything>(w, n, q, Seq::empty()));
}

/// That a walk keeps trees sound.
pub struct Whole;

impl PerFile for Whole {
    open spec fn pending(
        policy: Policy,
        h: Seq<u8>,
        c: Option<Node>,
        a: Option<Node>,
        s: Option<Node>,
    ) -> bool {
        trees::sound_tree(c) && trees::sound_tree(a) && trees::sound_tree(s)
    }

    open spec fn settled(
        policy: Policy,
        h: Seq<u8>,
        c: Option<Node>,
        a: Option<Node>,
        s: Option<Node>,
        f: Option<Follow>,
    ) -> bool {
        &&& trees::sound_tree(c) && trees::sound_tree(a) && trees::sound_tree(s)
        &&& f is Some ==> c is Some || s is Some
    }

    proof fn none_settled(policy: Policy, h: Seq<u8>, f: Option<Follow>) {
    }

    proof fn settles(
        policy: Policy,
        rule: Ruling,
        h: Seq<u8>,
        c: Option<Node>,
        a: Option<Node>,
        s: Option<Node>,
    ) {
        lemma_nothing_is_sound();
    }

    proof fn splits(
        policy: Policy,
        rule: Ruling,
        h: Seq<u8>,
        c: Option<Node>,
        a: Option<Node>,
        s: Option<Node>,
        side: ReconciliationSide,
        st: SplitAncestorState,
    ) {
    }
}

/// What holds of every file after the walk, in any mode: what is descended
/// into exists.
pub struct Anything;

impl PerFile for Anything {
    open spec fn pending(
        policy: Policy,
        h: Seq<u8>,
        c: Option<Node>,
        a: Option<Node>,
        s: Option<Node>,
    ) -> bool {
        true
    }

    open spec fn settled(
        policy: Policy,
        h: Seq<u8>,
        c: Option<Node>,
        a: Option<Node>,
        s: Option<Node>,
        f: Option<Follow>,
    ) -> bool {
        match f {
            None => true,
            Some(Follow::Enter) => c is Some && s is Some,
            Some(Follow::Delete(ReconciliationSide::Client, _)) => c is Some && s is None,
            Some(Follow::Delete(ReconciliationSide::Server, _)) => s is Some && c is None,
        }
    }

    proof fn none_settled(policy: Policy, h: Seq<u8>, f: Option<Follow>) {
    }

    proof fn settles(
        policy: Policy,
        rule: Ruling,
        h: Seq<u8>,
        c: Option<Node>,
        a: Option<Node>,
        s: Option<Node>,
    ) {
    }

    proof fn splits(
        policy: Policy,
        rule: Ruling,
        h: Seq<u8>,
        c: Option<Node>,
        a: Option<Node>,
        s: Option<Node>,
        side: ReconciliationSide,
        st: SplitAncestorState,
    ) {
    }
}

/// Whether everything is propagated to the server, by force, and nothing to
/// the client.
pub open spec fn is_mirror(mode: SyncMode) -> bool {
    mode.inbound == rules::uniform(SyncModeSetting::Off) && mode.outbound == rules::uniform(
        SyncModeSetting::Force,
    )
}

/// Whether every file is mirrored to the server.
pub open spec fn mirrors(policy: Policy) -> bool {
    forall|x: Ruling| #[trigger] policy.gives(x) ==> is_mirror(x.mode) && x.trust
}

/// What a mirroring walk makes of each file.
struct Mirror;

impl PerFile for Mirror {
    open spec fn pending(
        policy: Policy,
        h: Seq<u8>,
        c: Option<Node>,
        a: Option<Node>,
        s: Option<Node>,
    ) -> bool {
        &&& mirrors(policy)
        &&& trees::sound_tree(c) && trees::sound_tree(a) && trees::sound_tree(s)
        &&& trees::ordinary_tree(c) && trees::ordinary_tree(s)
    }

    open spec fn settled(
        policy: Policy,
        h: Seq<u8>,
        c: Option<Node>,
        a: Option<Node>,
        s: Option<Node>,
        f: Option<Follow>,
    ) -> bool {
        &&& trees::sound_tree(c) && trees::sound_tree(a) && trees::sound_tree(s)
        &&& trees::ordinary_tree(c) && trees::ordinary_tree(s)
        &&& match c {
            None => match f {
                None => a is None && s is None,
                Some(Follow::Delete(ReconciliationSide::Server, _)) => s is Some,
                _ => false,
            },
            Some(x) => {
                &&& s matches Some(y) && y.data.matches(x.data)
                &&& f == (if x.data.is_dir() {
                    Some(Follow::Enter)
                } else {
                    None
                })
            },
        }
    }

    proof fn none_settled(policy: Policy, h: Seq<u8>, f: Option<Follow>) {
    }

    proof fn settles(
        policy: Policy,
        rule: Ruling,
        h: Seq<u8>,
        c: Option<Node>,
        a: Option<Node>,
        s: Option<Node>,
    ) {
        lemma_nothing_is_sound();
        compute::law_outbound_force(model::data(c), model::data(a), model::data(s), rule.mode);
        compute::law_directories_not_overwritten(
            model::seen(model::data(c), model::data(a), model::data(s), rule.trust),
            model::data(a),
            model::data(s),
            rule.mode,
        );
    }

    proof fn splits(
        policy: Policy,
        rule: Ruling,
        h: Seq<u8>,
        c: Option<Node>,
        a: Option<Node>,
        s: Option<Node>,
        side: ReconciliationSide,
        st: SplitAncestorState,
    ) {
    }
}

/// An empty directory is sound.
pub proof fn lemma_nothing_is_sound()
    ensures
        trees::sound(Map::empty()),
        trees::ordinary(Map::empty()),
{
    assert forall|p: trees::Path| trees::sound_node(
        #[trigger] trees::node_at(Map::empty(), p),
    ) by {
        trees::lemma_nothing(p);
    }
    assert forall|p: trees::Path| #[trigger]
        trees::lookup(Map::empty(), p) != Some(FileModel::Special) by {
        trees::lemma_nothing(p);
    }
}

/// What is known of sound trees without special files, file by file.
pub proof fn lemma_per_file(t: Trio)
    requires
        sound(t),
    ensures
        forall|n: Seq<u8>|
            trees::sound_tree(#[trigger] model::at(t.c, n)),
        forall|n: Seq<u8>|
            trees::sound_tree(#[trigger] model::at(t.a, n)),
        forall|n: Seq<u8>|
            trees::sound_tree(#[trigger] model::at(t.s, n)),
        ordinary(t) ==> forall|n: Seq<u8>|
            trees::ordinary_tree(#[trigger] model::at(t.c, n)),
        ordinary(t) ==> forall|n: Seq<u8>|
            trees::ordinary_tree(#[trigger] model::at(t.s, n)),
{
    trees::lemma_sound(t.c);
    trees::lemma_sound(t.a);
    trees::lemma_sound(t.s);
    if ordinary(t) {
        trees::lemma_ordinary(t.c);
        trees::lemma_ordinary(t.s);
    }
}

/// Whether nothing is propagated to the client.
pub open spec fn outbound_only(policy: Policy) -> bool {
    forall|x: Ruling| #[trigger]
        policy.gives(x) ==> x.mode.inbound == rules::uniform(SyncModeSetting::Off)
}

/// Where nothing is propagated to the client, the walk leaves the client as it
/// is.
pub proof fn lemma_walk_client(w: Walked, todo: Set<Seq<u8>>, policy: Policy)
    requires
        todo.finite(),
        outbound_only(policy),
    ensures
        model::walk(w, todo, policy) matches Some(v) ==> v.t.c == w.t.c,
    decreases model::weight(w.t, todo),
{
    if !todo.is_empty() {
        let n = model::least(todo);
        walk_laws::lemma_walk_step(w, todo, policy);
        if let Some(x) = walk_laws::stepped(w, todo, policy) {
            assert(policy.gives(model::ruling(w.t, n, policy)));
            compute::law_client_untouched(
                model::seen_at(w.t, n, policy),
                model::data(model::at(w.t.a, n)),
                model::data(model::at(w.t.s, n)),
                model::ruling(w.t, n, policy).mode,
            );
            assert(x.w.t.c =~= w.t.c);
            lemma_walk_client(x.w, x.todo, policy);
        }
    }
}

/// Mirroring to the server never changes the client and makes the server like
/// the client: every file of the client has a matching file on the server, and
/// there is nothing else there.
pub proof fn law_mirror(t: Trio, policy: Policy, depth: nat)
    requires
        sound(t),
        ordinary(t),
        mirrors(policy),
    ensures
        model::synced(t, policy, depth) matches Some(o) ==> {
            &&& o.t.c == t.c
            &&& trees::alike(o.t.c, o.t.s)
        },
{
    lemma_mirror(t, policy, depth);
}

proof fn lemma_mirror(t: Trio, policy: Policy, depth: nat)
    requires
        sound(t),
        ordinary(t),
        mirrors(policy),
    ensures
        model::synced(t, policy, depth) matches Some(o) ==> {
            &&& o.t.c == t.c
            &&& trees::alike(o.t.c, o.t.s)
            &&& (t.c.dom().is_empty() ==> o.empty)
        },
    decreases depth,
{
    if let Some(o) = model::synced(t, policy, depth) {
        lemma_synced(t, policy, depth);
        lemma_per_file(t);
        lemma_policies(t, policy);
        let w = walked(t, policy);
        let q = model::informed(t, policy);
        let h: Seq<u8> = Seq::empty();
        walk_laws::lemma_walk_fresh::<Mirror>(t, q, h);
        lemma_walk_client(model::fresh(t), model::names(t), q);
        assert forall|n: Seq<u8>|
            model::at(o.t.c, n) == model::at(t.c, n) && trees::alike_tree(
                #[trigger] model::at(o.t.c, n),
                model::at(o.t.s, n),
            ) && (model::at(t.c, n) is None ==> model::at(o.t.a, n) is None) by {
            assert(walk_laws::settled_at::<Mirror>(w, n, q, h));
            if w.follows.dom().contains(n) {
                let u = model::under(w.t, n);
                lemma_nothing_is_sound();
                lemma_mirror(u, w.policies[n], (depth - 1) as nat);
                if model::at(w.t.c, n) is Some {
                    assert(model::at(o.t.c, n)->0.kids == model::at(t.c, n)->0.kids);
                }
            } else {
                assert(trees::alike(Map::empty(), Map::empty()));
            }
        }
        assert(o.t.c =~= t.c) by {
            assert forall|n: Seq<u8>| o.t.c.dom().contains(n) == t.c.dom().contains(n) by {
                assert(model::at(o.t.c, n) == model::at(t.c, n));
            }
            assert forall|n: Seq<u8>| o.t.c.dom().contains(n) implies o.t.c[n] == t.c[n] by {
                assert(model::at(o.t.c, n) == model::at(t.c, n));
            }
        }
        trees::lemma_alike(o.t.c, o.t.s);
        if t.c.dom().is_empty() {
            trees::lemma_alike_empty(o.t.c, o.t.s);
            assert(o.t.a.dom() =~= Set::empty()) by {
                assert forall|n: Seq<u8>| !o.t.a.dom().contains(n) by {
                    assert(model::at(t.c, n) is None);
                    assert(model::at(o.t.c, n) is None);
                    assert(model::at(o.t.a, n) is None);
                }
            }
            assert(trees::vacant(o.t));
            law_vacant_is_empty(t, policy, depth);
        }
    }
}

/// Whether every kind of change is propagated in a direction.
pub open spec fn all_on(half: rules::HalfSyncMode) -> bool {
    half.create.on() && half.update.on() && half.delete.on()
}

/// Whether every kind of change to every file is propagated in both
/// directions.
pub open spec fn everything_on(policy: Policy) -> bool {
    forall|x: Ruling| #[trigger] policy.gives(x) ==> x.trust && all_on(x.mode.inbound) && all_on(
        x.mode.outbound,
    )
}

/// What a walk makes of each file where everything is propagated in both
/// directions.
struct Identical;

impl PerFile for Identical {
    open spec fn pending(
        policy: Policy,
        h: Seq<u8>,
        c: Option<Node>,
        a: Option<Node>,
        s: Option<Node>,
    ) -> bool {
        &&& everything_on(policy)
        &&& trees::sound_tree(c) && trees::sound_tree(a) && trees::sound_tree(s)
        &&& trees::ordinary_tree(c) && trees::ordinary_tree(s)
    }

    open spec fn settled(
        policy: Policy,
        h: Seq<u8>,
        c: Option<Node>,
        a: Option<Node>,
        s: Option<Node>,
        f: Option<Follow>,
    ) -> bool {
        &&& trees::sound_tree(c) && trees::sound_tree(a) && trees::sound_tree(s)
        &&& trees::ordinary_tree(c) && trees::ordinary_tree(s)
        &&& match (c, s) {
            (None, None) => a is None && f is None,
            (Some(x), Some(y)) => y.data.matches(x.data) && f == model::enter_if_dir(Some(x.data)),
            (None, Some(y)) => y.data matches FileModel::Directory(m) && f == Some(
                Follow::Delete(ReconciliationSide::Server, m),
            ),
            (Some(x), None) => x.data matches FileModel::Directory(m) && f == Some(
                Follow::Delete(ReconciliationSide::Client, m),
            ),
        }
    }

    proof fn none_settled(policy: Policy, h: Seq<u8>, f: Option<Follow>) {
    }

    proof fn settles(
        policy: Policy,
        rule: Ruling,
        h: Seq<u8>,
        c: Option<Node>,
        a: Option<Node>,
        s: Option<Node>,
    ) {
        lemma_nothing_is_sound();
        let r = walk_laws::choice(c, a, s, rule);
        assert(r is InSync ==> trees::alike_data(model::data(c), model::data(s)));
        assert(r is InSync || r is Use);
        compute::law_directories_not_overwritten(
            model::seen(model::data(c), model::data(a), model::data(s), rule.trust),
            model::data(a),
            model::data(s),
            rule.mode,
        );
    }

    proof fn splits(
        policy: Policy,
        rule: Ruling,
        h: Seq<u8>,
        c: Option<Node>,
        a: Option<Node>,
        s: Option<Node>,
        side: ReconciliationSide,
        st: SplitAncestorState,
    ) {
    }
}

/// Where everything is propagated in both directions, client and server end up
/// identical: every file of one has a matching file on the other.
pub proof fn law_identical(t: Trio, policy: Policy, depth: nat)
    requires
        sound(t),
        ordinary(t),
        everything_on(policy),
    ensures
        model::synced(t, policy, depth) matches Some(o) ==> trees::alike(o.t.c, o.t.s),
    decreases depth,
{
    if let Some(o) = model::synced(t, policy, depth) {
        lemma_synced(t, policy, depth);
        lemma_per_file(t);
        lemma_policies(t, policy);
        let w = walked(t, policy);
        let q = model::informed(t, policy);
        let h: Seq<u8> = Seq::empty();
        walk_laws::lemma_walk_fresh::<Identical>(t, q, h);
        assert forall|n: Seq<u8>|
            trees::alike_tree(#[trigger] model::at(o.t.c, n), model::at(o.t.s, n)) by {
            assert(walk_laws::settled_at::<Identical>(w, n, q, h));
            assert(trees::alike(Map::empty(), Map::empty()));
            if w.follows.dom().contains(n) {
                let u = model::under(w.t, n);
                let d = (depth - 1) as nat;
                lemma_nothing_is_sound();
                law_identical(u, w.policies[n], d);
                let b = below(t, policy, depth, n);
                trees::lemma_alike_empty(b.t.c, b.t.s);
                if w.follows[n] is Delete {
                    lemma_identical_ancestor(u, w.policies[n], d);
                    law_vacant_is_empty(u, w.policies[n], d);
                }
            }
        }
        trees::lemma_alike(o.t.c, o.t.s);
    }
}

/// Where everything is propagated in both directions, the ancestor holds
/// nothing in the end that neither side has.
proof fn lemma_identical_ancestor(t: Trio, policy: Policy, depth: nat)
    requires
        sound(t),
        ordinary(t),
        everything_on(policy),
    ensures
        model::synced(t, policy, depth) matches Some(o) ==> (o.t.c.dom().is_empty()
            && o.t.s.dom().is_empty() ==> trees::vacant(o.t)),
{
    if let Some(o) = model::synced(t, policy, depth) {
        if o.t.c.dom().is_empty() && o.t.s.dom().is_empty() {
            lemma_synced(t, policy, depth);
            lemma_per_file(t);
            lemma_policies(t, policy);
            let w = walked(t, policy);
            let q = model::informed(t, policy);
            let h: Seq<u8> = Seq::empty();
            walk_laws::lemma_walk_fresh::<Identical>(t, q, h);
            assert forall|n: Seq<u8>| !o.t.a.dom().contains(n) by {
                assert(walk_laws::settled_at::<Identical>(w, n, q, h));
                assert(model::at(o.t.c, n) is None);
                assert(model::at(o.t.s, n) is None);
                assert(model::at(o.t.a, n) is None);
            }
            assert(o.t.a.dom() =~= Set::empty());
        }
    }
}

} // verus!
