//! What skipping directories that are marked clean does to a synchronisation.

use vstd::prelude::*;

use crate::rules::{Policy, Ruling};

use super::compute;
use super::compute::{ReconciliationSide, SplitAncestorState};
use super::laws;
use super::model;
use super::model::{Follow, Node, Outcome, Trio, Walked};
use super::trees;
use super::trees::Path;
use super::walk_laws;
use super::walk_laws::PerFile;

verus! {

/// Whether nothing below the directory is among `skip`.
pub open spec fn nothing(skip: Set<Path>) -> bool {
    forall|q: Path| #[trigger] skip.contains(q) ==> q.len() == 0
}

pub proof fn lemma_nothing_there(skip: Set<Path>, n: Seq<u8>)
    requires
        nothing(skip),
    ensures
        nothing(model::from_there(skip, n)),
        !model::from_there(skip, n).contains(Seq::empty()),
{
    let there = model::from_there(skip, n);
    assert forall|q: Path| !(#[trigger] there.contains(q)) by {
        if there.contains(q) {
            assert(skip.contains(seq![n] + q));
        }
    }
}

/// Where nothing is skipped, everything is synchronised.
pub proof fn law_nothing_skipped(t: Trio, policy: Policy, depth: nat, skip: Set<Path>)
    requires
        nothing(skip),
    ensures
        model::synced_but(t, policy, depth, skip) == model::synced(t, policy, depth),
    decreases depth,
{
    if depth > 0 {
        if let Some(w) = model::walked(t, policy) {
            let d = (depth - 1) as nat;
            assert forall|n: Seq<u8>| model::outcome_but(
                w,
                n,
                d,
                #[trigger] model::from_there(skip, n),
            ) == model::synced(model::under(w.t, n), w.policies[n], d) by {
                lemma_nothing_there(skip, n);
                law_nothing_skipped(
                    model::under(w.t, n),
                    w.policies[n],
                    d,
                    model::from_there(skip, n),
                );
            }
            if model::outcomes(w, d) is Some {
                assert forall|n: Seq<u8>| #[trigger]
                    w.follows.dom().contains(n) implies model::outcome_but(
                    w,
                    n,
                    d,
                    model::from_there(skip, n),
                ) is Some by {}
                assert(model::outcomes_but(w, d, skip)->0 =~= model::outcomes(w, d)->0);
            } else {
                let n = choose|n: Seq<u8>| #[trigger]
                    w.follows.dom().contains(n) && model::synced(
                        model::under(w.t, n),
                        w.policies[n],
                        d,
                    ) is None;
                assert(model::outcome_but(w, n, d, model::from_there(skip, n)) is None);
                assert(w.follows.dom().contains(n));
            }
        }
    }
}

/// What can be synchronised as a whole can be synchronised with directories
/// skipped.
pub proof fn law_skipping_possible(t: Trio, policy: Policy, depth: nat, skip: Set<Path>)
    requires
        model::synced(t, policy, depth) is Some,
    ensures
        model::synced_but(t, policy, depth, skip) is Some,
    decreases depth,
{
    let w = model::walked(t, policy)->0;
    let d = (depth - 1) as nat;
    assert(model::outcomes(w, d) is Some);
    assert forall|n: Seq<u8>| #[trigger] w.follows.dom().contains(n) implies model::outcome_but(
        w,
        n,
        d,
        model::from_there(skip, n),
    ) is Some by {
        law_skipping_possible(
            model::under(w.t, n),
            w.policies[n],
            d,
            model::from_there(skip, n),
        );
    }
}

/// The outcome for the subdirectory named `n`.
pub open spec fn below(
    t: Trio,
    policy: Policy,
    depth: nat,
    skip: Set<Path>,
    n: Seq<u8>,
) -> Outcome {
    model::outcome_but(
        laws::walked(t, policy),
        n,
        (depth - 1) as nat,
        model::from_there(skip, n),
    )->0
}

/// How the outcome for a directory is made up of what the walk left and of the
/// outcomes for its subdirectories.
pub proof fn lemma_synced_but(t: Trio, policy: Policy, depth: nat, skip: Set<Path>)
    requires
        model::synced_but(t, policy, depth, skip) is Some,
    ensures
        depth > 0,
        model::walked(t, policy) == Some(laws::walked(t, policy)),
        ({
            let o = model::synced_but(t, policy, depth, skip)->0;
            let w = laws::walked(t, policy);
            &&& forall|n: Seq<u8>| #[trigger]
                w.follows.dom().contains(n) ==> model::outcome_but(
                    w,
                    n,
                    (depth - 1) as nat,
                    model::from_there(skip, n),
                ) == Some(below(t, policy, depth, skip, n))
            &&& forall|n: Seq<u8>| #[trigger]
                model::at(o.t.c, n) == laws::ended(
                    w,
                    n,
                    model::at(w.t.c, n),
                    below(t, policy, depth, skip, n).t.c,
                    below(t, policy, depth, skip, n).empty,
                )
            &&& forall|n: Seq<u8>| #[trigger]
                model::at(o.t.a, n) == laws::ended(
                    w,
                    n,
                    model::at(w.t.a, n),
                    below(t, policy, depth, skip, n).t.a,
                    below(t, policy, depth, skip, n).empty,
                )
            &&& o.empty == (w.empty && forall|n: Seq<u8>| #[trigger]
                w.follows.dom().contains(n) ==> below(t, policy, depth, skip, n).empty)
            &&& forall|n: Seq<u8>| #[trigger]
                model::at(o.t.s, n) == laws::ended(
                    w,
                    n,
                    model::at(w.t.s, n),
                    below(t, policy, depth, skip, n).t.s,
                    below(t, policy, depth, skip, n).empty,
                )
        }),
{
    let o = model::synced_but(t, policy, depth, skip)->0;
    let w = laws::walked(t, policy);
    let subs = model::outcomes_but(w, (depth - 1) as nat, skip)->0;
    assert(o == model::gathered(w, subs));
    assert forall|n: Seq<u8>| #[trigger] w.follows.dom().contains(n) implies subs[n] == below(
        t,
        policy,
        depth,
        skip,
        n,
    ) by {}
}

/// What is known of a directory into which outcomes have been taken in that
/// counts as empty.
proof fn lemma_gathered_vacant(w: Walked, subs: Map<Seq<u8>, Outcome>)
    requires
        subs.dom() == w.follows.dom(),
        w.empty ==> forall|n: Seq<u8>| #[trigger] walk_laws::may_go(w, n),
    ensures
        model::gathered(w, subs).empty ==> trees::vacant(model::gathered(w, subs).t),
{
    let o = model::gathered(w, subs);
    if o.empty {
        assert forall|n: Seq<u8>| !o.t.c.dom().contains(n) && !o.t.a.dom().contains(n)
            && !o.t.s.dom().contains(n) by {
            assert(walk_laws::may_go(w, n));
            if w.follows.dom().contains(n) {
                assert(subs.dom().contains(n));
                assert(subs[n].empty);
            }
        }
        assert(o.t.c.dom() =~= Set::empty());
        assert(o.t.a.dom() =~= Set::empty());
        assert(o.t.s.dom() =~= Set::empty());
    }
}

/// If nothing counts as left, nothing is left, whatever was skipped.
pub proof fn law_empty_is_vacant(t: Trio, policy: Policy, depth: nat, skip: Set<Path>)
    requires
        laws::sound(t),
    ensures
        model::synced_but(t, policy, depth, skip) matches Some(o) ==> (o.empty ==> trees::vacant(
            o.t,
        )),
{
    if let Some(o) = model::synced_but(t, policy, depth, skip) {
        let w = model::walked(t, policy)->0;
        let subs = model::outcomes_but(w, (depth - 1) as nat, skip)->0;
        walk_laws::lemma_walk_empty(
            model::fresh(t),
            model::names(t),
            model::informed(t, policy),
        );
        assert(subs.dom() =~= w.follows.dom());
        lemma_gathered_vacant(w, subs);
    }
}

/// Where a directory that exists on one side only ends up with nothing in it, it
/// counts as empty, whatever was skipped.
pub proof fn law_vacant_is_empty(t: Trio, policy: Policy, depth: nat, skip: Set<Path>)
    requires
        laws::sound(t),
        t.c.dom().is_empty() || t.s.dom().is_empty(),
    ensures
        model::synced_but(t, policy, depth, skip) matches Some(o) ==> (trees::vacant(o.t)
            ==> o.empty),
{
    if let Some(o) = model::synced_but(t, policy, depth, skip) {
        if trees::vacant(o.t) {
            lemma_synced_but(t, policy, depth, skip);
            let w = laws::walked(t, policy);
            let q = model::informed(t, policy);
            let todo = model::names(t);
            assert(walk_laws::one_sided(t, todo)) by {
                if t.c.dom().is_empty() {
                    assert forall|n: Seq<u8>| #[trigger] todo.contains(n) implies model::at(
                        t.c,
                        n,
                    ) is None by {}
                } else {
                    assert forall|n: Seq<u8>| #[trigger] todo.contains(n) implies model::at(
                        t.s,
                        n,
                    ) is None by {}
                }
            }
            walk_laws::lemma_walk_one_sided(model::fresh(t), todo, q);
            walk_laws::lemma_walk_fresh::<laws::Anything>(t, q, Seq::empty());
            assert forall|n: Seq<u8>|
                #![trigger walk_laws::may_go(w, n)]
                #![trigger w.follows.dom().contains(n)]
                walk_laws::may_go(w, n) && (w.follows.dom().contains(n) ==> below(
                    t,
                    policy,
                    depth,
                    skip,
                    n,
                ).empty) by {
                assert(model::at(o.t.c, n) is None);
                assert(model::at(o.t.a, n) is None);
                assert(model::at(o.t.s, n) is None);
                assert(walk_laws::settled_at::<laws::Anything>(w, n, q, Seq::empty()));
            }
        }
    }
}

/// What a walk that leaves the client as it is leaves to be followed up.
struct Spared;

impl PerFile for Spared {
    open spec fn pending(
        policy: Policy,
        h: Seq<u8>,
        c: Option<Node>,
        a: Option<Node>,
        s: Option<Node>,
    ) -> bool {
        &&& laws::outbound_only(policy)
        &&& trees::sound_tree(c) && trees::sound_tree(a) && trees::sound_tree(s)
    }

    open spec fn settled(
        policy: Policy,
        h: Seq<u8>,
        c: Option<Node>,
        a: Option<Node>,
        s: Option<Node>,
        f: Option<Follow>,
    ) -> bool {
        &&& trees::sound_tree(c) && trees::sound_tree(a) && trees::sound_tree(s)
        &&& match f {
            None => true,
            Some(Follow::Enter) => c is Some,
            Some(Follow::Delete(side, _)) => side == ReconciliationSide::Server && c is None && s
                is Some,
        }
    }

    proof fn none_settled(policy: Policy, h: Seq<u8>, f: Option<Follow>) {
    }

    proof fn settles(
        policy: Policy,
        rule: Ruling,
        h: Seq<u8>,
        c: Option<Node>,
        a: Option<Node>,
        s: Option<Node>,
    ) {
        laws::lemma_nothing_is_sound();
        compute::law_client_untouched(
            model::seen(model::data(c), model::data(a), model::data(s), rule.trust),
            model::data(a),
            model::data(s),
            rule.mode,
        );
    }

    proof fn splits(
        policy: Policy,
        rule: Ruling,
        h: Seq<u8>,
        c: Option<Node>,
        a: Option<Node>,
        s: Option<Node>,
        side: ReconciliationSide,
        st: SplitAncestorState,
    ) {
    }
}

/// Where nothing is propagated to the client, a synchronisation never changes
/// it, whatever directories are skipped.
pub proof fn law_client_kept(t: Trio, policy: Policy, depth: nat, skip: Set<Path>)
    requires
        laws::sound(t),
        laws::outbound_only(policy),
    ensures
        model::synced_but(t, policy, depth, skip) matches Some(o) ==> o.t.c == t.c,
    decreases depth,
{
    if let Some(o) = model::synced_but(t, policy, depth, skip) {
        lemma_synced_but(t, policy, depth, skip);
        laws::lemma_per_file(t);
        laws::lemma_policies(t, policy);
        laws::lemma_nothing_is_sound();
        let w = laws::walked(t, policy);
        let q = model::informed(t, policy);
        let h: Seq<u8> = Seq::empty();
        walk_laws::lemma_walk_fresh::<Spared>(t, q, h);
        laws::lemma_walk_client(model::fresh(t), model::names(t), q);
        assert forall|n: Seq<u8>| #[trigger] model::at(o.t.c, n) == model::at(t.c, n) by {
            assert(walk_laws::settled_at::<Spared>(w, n, q, h));
            if w.follows.dom().contains(n) {
                law_client_kept(
                    model::under(w.t, n),
                    w.policies[n],
                    (depth - 1) as nat,
                    model::from_there(skip, n),
                );
                assert(below(t, policy, depth, skip, n).t.c == model::kids(model::at(t.c, n)));
            }
        }
        assert forall|n: Seq<u8>| o.t.c.dom().contains(n) == t.c.dom().contains(n) by {
            assert(model::at(o.t.c, n) == model::at(t.c, n));
        }
        assert forall|n: Seq<u8>| o.t.c.dom().contains(n) implies o.t.c[n] == t.c[n] by {
            assert(model::at(o.t.c, n) == model::at(t.c, n));
        }
        assert(o.t.c =~= t.c);
    }
}

} // verus!
