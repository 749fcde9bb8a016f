//! What becomes of the contents of files in a synchronisation that meets no
//! failure.

use vstd::prelude::*;

use crate::defs;
use crate::rules::{Policy, Ruling, SyncMode};

use super::compute;
use super::compute::{Reconciliation, ReconciliationSide, SplitAncestorState};
use super::laws;
use super::model;
use super::model::{Follow, Node, Trio, Walked};
use super::skipping;
use super::trees;
use super::trees::Path;
use super::walk_laws;
use super::walk_laws::PerFile;

verus! {

/// Whether a regular file with the content `h` is somewhere on the client or
/// on the server.
pub open spec fn lives(t: Trio, h: Seq<u8>) -> bool {
    trees::holds(t.c, h) || trees::holds(t.s, h)
}

/// Whether a file named `n` on the client or on the server has the content
/// `h`, or something under it has.
pub open spec fn lives_at(t: Trio, n: Seq<u8>, h: Seq<u8>) -> bool {
    trees::tree_holds(model::at(t.c, n), h) || trees::tree_holds(model::at(t.s, n), h)
}

proof fn lemma_lives(t: Trio, h: Seq<u8>)
    ensures
        lives(t, h) <==> exists|n: Seq<u8>| #[trigger] lives_at(t, n, h),
{
    trees::lemma_holds(t.c, h);
    trees::lemma_holds(t.s, h);
    if lives(t, h) {
        if trees::holds(t.c, h) {
            let n = choose|n: Seq<u8>| trees::tree_holds(#[trigger] model::at(t.c, n), h);
            assert(lives_at(t, n, h));
        } else {
            let n = choose|n: Seq<u8>| trees::tree_holds(#[trigger] model::at(t.s, n), h);
            assert(lives_at(t, n, h));
        }
    }
    if exists|n: Seq<u8>| #[trigger] lives_at(t, n, h) {
        let n = choose|n: Seq<u8>| #[trigger] lives_at(t, n, h);
        if trees::tree_holds(model::at(t.c, n), h) {
        } else {
            assert(trees::tree_holds(model::at(t.s, n), h));
        }
    }
}

/// Whether no change is forced, in either direction.
pub open spec fn unforced(mode: SyncMode) -> bool {
    &&& !mode.inbound.create.force() && !mode.inbound.update.force()
        && !mode.inbound.delete.force()
    &&& !mode.outbound.create.force() && !mode.outbound.update.force()
        && !mode.outbound.delete.force()
}

/// Whether no change to any file is forced.
pub open spec fn never_forced(policy: Policy) -> bool {
    forall|x: Ruling| #[trigger] policy.gives(x) ==> unforced(x.mode)
}

/// That a content which the ancestor does not have is kept by each step.
struct Kept;

impl PerFile for Kept {
    open spec fn pending(
        policy: Policy,
        h: Seq<u8>,
        c: Option<Node>,
        a: Option<Node>,
        s: Option<Node>,
    ) -> bool {
        &&& trees::sound_tree(c) && trees::sound_tree(a) && trees::sound_tree(s)
        &&& !trees::tree_holds(a, h)
    }

    open spec fn settled(
        policy: Policy,
        h: Seq<u8>,
        c: Option<Node>,
        a: Option<Node>,
        s: Option<Node>,
        f: Option<Follow>,
    ) -> bool {
        &&& trees::sound_tree(c) && trees::sound_tree(a) && trees::sound_tree(s)
        &&& match f {
            None => true,
            Some(Follow::Enter) => c is Some && s is Some && defs::opt_is_dir(model::data(c))
                && defs::opt_is_dir(model::data(s)) && !trees::holds(model::kids(a), h),
            Some(Follow::Delete(ReconciliationSide::Client, _)) => c is Some && s is None
                && defs::opt_is_dir(model::data(c)) && !trees::holds(model::kids(a), h),
            Some(Follow::Delete(ReconciliationSide::Server, _)) => s is Some && c is None
                && defs::opt_is_dir(model::data(s)) && !trees::holds(model::kids(a), h),
        }
    }

    proof fn none_settled(policy: Policy, h: Seq<u8>, f: Option<Follow>) {
    }

    proof fn settles(
        policy: Policy,
        rule: Ruling,
        h: Seq<u8>,
        c: Option<Node>,
        a: Option<Node>,
        s: Option<Node>,
    ) {
        laws::lemma_nothing_is_sound();
        trees::lemma_holds_nothing(Map::empty(), h);
        let r = walk_laws::choice(c, a, s, rule);
        assert(r is InSync && defs::opt_is_dir(model::data(c)) ==> defs::opt_is_dir(model::data(s)));
        compute::law_directories_not_overwritten(
            model::seen(model::data(c), model::data(a), model::data(s), rule.trust),
            model::data(a),
            model::data(s),
            rule.mode,
        );
    }

    proof fn splits(
        policy: Policy,
        rule: Ruling,
        h: Seq<u8>,
        c: Option<Node>,
        a: Option<Node>,
        s: Option<Node>,
        side: ReconciliationSide,
        st: SplitAncestorState,
    ) {
    }
}

/// In an unforced mode, a step keeps what the ancestor does not have.
proof fn lemma_settle_keeps(
    rule: Ruling,
    h: Seq<u8>,
    c: Option<Node>,
    a: Option<Node>,
    s: Option<Node>,
)
    requires
        unforced(rule.mode),
        trees::sound_tree(c) && trees::sound_tree(a) && trees::sound_tree(s),
        !trees::tree_holds(a, h),
        walk_laws::choice(c, a, s, rule) !is Split,
        trees::tree_holds(c, h) || trees::tree_holds(s, h),
    ensures
        ({
            let x = model::settle(c, a, s, rule.trust, walk_laws::choice(c, a, s, rule));
            trees::tree_holds(x.c, h) || trees::tree_holds(x.s, h)
        }),
{
    trees::lemma_holds_nothing(Map::empty(), h);
    let d = model::seen(model::data(c), model::data(a), model::data(s), rule.trust);
    compute::law_unforced_keeps_edits(d, model::data(a), model::data(s), rule.mode);
    compute::law_directories_not_overwritten(
        d,
        model::data(a),
        model::data(s),
        rule.mode,
    );
}

proof fn lemma_walk_keeps(w: Walked, todo: Set<Seq<u8>>, policy: Policy, h: Seq<u8>)
    requires
        todo.finite(),
        never_forced(policy),
        walk_laws::pending_all::<Kept>(w, todo, policy, h),
        walk_laws::settled_but::<Kept>(w, todo, policy, h),
        lives(w.t, h),
    ensures
        model::walk(w, todo, policy) matches Some(v) ==> lives(v.t, h),
    decreases model::weight(w.t, todo),
{
    if !todo.is_empty() {
        let n = model::least(todo);
        walk_laws::lemma_walk_step(w, todo, policy);
        if let Some(x) = walk_laws::stepped(w, todo, policy) {
            walk_laws::lemma_step::<Kept>(w, todo, policy, h);
            lemma_lives(w.t, h);
            lemma_lives(x.w.t, h);
            let m = choose|m: Seq<u8>| #[trigger] lives_at(w.t, m, h);
            assert(walk_laws::pending_at::<Kept>(w, n, policy, h));
            match model::choice(w.t, n, policy) {
                Reconciliation::Split(side, st) => {
                    let new = model::alternate_for(n, model::names(w.t))->0;
                    model::lemma_alternate_for(n, model::names(w.t));
                    if m == n {
                        assert(lives_at(x.w.t, n, h) || lives_at(x.w.t, new, h));
                    } else {
                        assert(m != new);
                        assert(lives_at(x.w.t, m, h));
                    }
                },
                _ => {
                    if m == n {
                        assert(policy.gives(model::ruling(w.t, n, policy)));
                        lemma_settle_keeps(
                            model::ruling(w.t, n, policy),
                            h,
                            model::at(w.t.c, n),
                            model::at(w.t.a, n),
                            model::at(w.t.s, n),
                        );
                    }
                    assert(lives_at(x.w.t, m, h));
                },
            }
            lemma_walk_keeps(x.w, x.todo, policy, h);
        }
    }
}

/// A synchronisation in modes without force loses no data: every content that
/// a file of the client or of the server has, and that is not among the
/// contents of the ancestor, is still there in the end, whatever directories
/// were skipped.
pub proof fn law_no_data_lost(t: Trio, policy: Policy, depth: nat, skip: Set<Path>, h: Seq<u8>)
    requires
        laws::sound(t),
        never_forced(policy),
        lives(t, h),
        !trees::holds(t.a, h),
    ensures
        model::synced_but(t, policy, depth, skip) matches Some(o) ==> lives(o.t, h),
    decreases depth,
{
    if let Some(o) = model::synced_but(t, policy, depth, skip) {
        skipping::lemma_synced_but(t, policy, depth, skip);
        laws::lemma_per_file(t);
        trees::lemma_holds(t.a, h);
        laws::lemma_policies(t, policy);
        let w = laws::walked(t, policy);
        let q = model::informed(t, policy);
        let todo = model::names(t);
        let f = model::fresh(t);
        assert forall|n: Seq<u8>| todo.contains(n) implies #[trigger] walk_laws::pending_at::<
            Kept,
        >(f, n, q, h) by {}
        walk_laws::lemma_walk::<Kept>(f, todo, q, h);
        lemma_walk_keeps(f, todo, q, h);
        lemma_lives(w.t, h);
        lemma_lives(o.t, h);
        let n = choose|n: Seq<u8>| #[trigger] lives_at(w.t, n, h);
        assert(walk_laws::settled_at::<Kept>(w, n, q, h));
        assert(lives_at(o.t, n, h)) by {
            if w.follows.dom().contains(n) {
                let u = model::under(w.t, n);
                let d = (depth - 1) as nat;
                laws::lemma_nothing_is_sound();
                trees::lemma_holds_nothing(Map::empty(), h);
                assert(lives(u, h));
                let there = model::from_there(skip, n);
                law_no_data_lost(u, w.policies[n], d, there, h);
                skipping::law_empty_is_vacant(u, w.policies[n], d, there);
                let b = skipping::below(t, policy, depth, skip, n);
                if b.t.c.dom().is_empty() {
                    trees::lemma_holds_nothing(b.t.c, h);
                }
                if b.t.s.dom().is_empty() {
                    trees::lemma_holds_nothing(b.t.s, h);
                }
            }
        }
    }
}

proof fn lemma_walk_invents_nothing(w: Walked, todo: Set<Seq<u8>>, policy: Policy, h: Seq<u8>)
    requires
        todo.finite(),
        !lives(w.t, h),
    ensures
        model::walk(w, todo, policy) matches Some(v) ==> !lives(v.t, h),
    decreases model::weight(w.t, todo),
{
    if !todo.is_empty() {
        let n = model::least(todo);
        walk_laws::lemma_walk_step(w, todo, policy);
        if let Some(x) = walk_laws::stepped(w, todo, policy) {
            lemma_lives(w.t, h);
            lemma_lives(x.w.t, h);
            trees::lemma_holds_nothing(Map::empty(), h);
            if lives(x.w.t, h) {
                let m = choose|m: Seq<u8>| #[trigger] lives_at(x.w.t, m, h);
                assert(!lives_at(w.t, n, h));
                assert(!lives_at(w.t, m, h));
            }
            lemma_walk_invents_nothing(x.w, x.todo, policy, h);
        }
    }
}

/// A synchronisation in any modes invents no data: every content that a file
/// has in the end, a file of the client or of the server had before, whatever
/// directories were skipped.
pub proof fn law_no_data_invented(
    t: Trio,
    policy: Policy,
    depth: nat,
    skip: Set<Path>,
    h: Seq<u8>,
)
    requires
        laws::sound(t),
        !lives(t, h),
    ensures
        model::synced_but(t, policy, depth, skip) matches Some(o) ==> !lives(o.t, h),
    decreases depth,
{
    if let Some(o) = model::synced_but(t, policy, depth, skip) {
        skipping::lemma_synced_but(t, policy, depth, skip);
        laws::lemma_per_file(t);
        laws::lemma_policies(t, policy);
        let w = laws::walked(t, policy);
        let q = model::informed(t, policy);
        lemma_walk_invents_nothing(model::fresh(t), model::names(t), q, h);
        walk_laws::lemma_walk_fresh::<laws::Whole>(t, q, h);
        lemma_lives(w.t, h);
        lemma_lives(o.t, h);
        if lives(o.t, h) {
            let n = choose|n: Seq<u8>| #[trigger] lives_at(o.t, n, h);
            assert(!lives_at(w.t, n, h));
            assert(walk_laws::settled_at::<laws::Whole>(w, n, q, h));
            if w.follows.dom().contains(n) {
                let u = model::under(w.t, n);
                laws::lemma_nothing_is_sound();
                trees::lemma_holds_nothing(Map::empty(), h);
                assert(!lives(u, h));
                law_no_data_invented(
                    u,
                    w.policies[n],
                    (depth - 1) as nat,
                    model::from_there(skip, n),
                    h,
                );
            }
        }
    }
}

} // verus!
