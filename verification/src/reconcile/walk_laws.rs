//! What holds of every file of a directory once the directory has been walked.

use vstd::prelude::*;

use crate::rules;
use crate::rules::{Policy, Ruling};

use super::compute;
use super::compute::{Reconciliation, ReconciliationSide, SplitAncestorState};
use super::model;
use super::model::{Follow, Kids, Node, Trio, Walked};

verus! {

/// What is to be done afterwards about the file named `n`.
pub open spec fn follow(w: Walked, n: Seq<u8>) -> Option<Follow> {
    if w.follows.dom().contains(n) {
        Some(w.follows[n])
    } else {
        None
    }
}

/// The reconciliation of a triple of files.
pub open spec fn choice(
    c: Option<Node>,
    a: Option<Node>,
    s: Option<Node>,
    rule: Ruling,
) -> Reconciliation {
    compute::chosen(
        model::seen(model::data(c), model::data(a), model::data(s), rule.trust),
        model::data(a),
        model::data(s),
        rule.mode,
    ).0
}

/// A property of single files that the walk of a directory establishes. It
/// may speak of a given content hash `h`.
pub trait PerFile {
    /// What is known of a file before it is processed.
    spec fn pending(
        policy: Policy,
        h: Seq<u8>,
        c: Option<Node>,
        a: Option<Node>,
        s: Option<Node>,
    ) -> bool;

    /// What holds of a file once it has been processed.
    spec fn settled(
        policy: Policy,
        h: Seq<u8>,
        c: Option<Node>,
        a: Option<Node>,
        s: Option<Node>,
        f: Option<Follow>,
    ) -> bool;

    /// The property holds of a name that nothing has, and there is nothing
    /// left to be done about such a name.
    proof fn none_settled(policy: Policy, h: Seq<u8>, f: Option<Follow>)
        ensures
            Self::settled(policy, h, None, None, None, f) <==> f is None,
    ;

    /// Processing a file establishes the property.
    proof fn settles(
        policy: Policy,
        rule: Ruling,
        h: Seq<u8>,
        c: Option<Node>,
        a: Option<Node>,
        s: Option<Node>,
    )
        requires
            policy.gives(rule),
            Self::pending(policy, h, c, a, s),
            choice(c, a, s, rule) !is Split,
        ensures
            ({
                let x = model::settle(c, a, s, rule.trust, choice(c, a, s, rule));
                Self::settled(policy, h, x.c, x.a, x.s, x.follow)
            }),
    ;

    /// Both files that a split gives rise to can be processed.
    proof fn splits(
        policy: Policy,
        rule: Ruling,
        h: Seq<u8>,
        c: Option<Node>,
        a: Option<Node>,
        s: Option<Node>,
        side: ReconciliationSide,
        st: SplitAncestorState,
    )
        requires
            policy.gives(rule),
            choice(c, a, s, rule) == Reconciliation::Split(side, st),
        ensures
            Self::pending(policy, h, c, a, s) ==> match side {
                ReconciliationSide::Client => Self::pending(
                    policy,
                    h,
                    None,
                    None,
                    s,
                ) && Self::pending(
                    policy,
                    h,
                    c,
                    if st == SplitAncestorState::Move {
                        a
                    } else {
                        None
                    },
                    None,
                ),
                ReconciliationSide::Server => Self::pending(
                    policy,
                    h,
                    c,
                    None,
                    None,
                ) && Self::pending(
                    policy,
                    h,
                    None,
                    if st == SplitAncestorState::Move {
                        a
                    } else {
                        None
                    },
                    s,
                ),
            },
    ;
}

/// The property holds of every name that is not to be processed any more.
pub open spec fn settled_but<L: PerFile>(
    w: Walked,
    todo: Set<Seq<u8>>,
    policy: Policy,
    h: Seq<u8>,
) -> bool {
    forall|n: Seq<u8>| !todo.contains(n) ==> #[trigger] settled_at::<L>(w, n, policy, h)
}

pub open spec fn settled_at<L: PerFile>(
    w: Walked,
    n: Seq<u8>,
    policy: Policy,
    h: Seq<u8>,
) -> bool {
    L::settled(
        policy,
        h,
        model::at(w.t.c, n),
        model::at(w.t.a, n),
        model::at(w.t.s, n),
        follow(w, n),
    )
}

/// What is known of files before they are processed holds of every name that
/// is to be processed.
pub open spec fn pending_all<L: PerFile>(
    w: Walked,
    todo: Set<Seq<u8>>,
    policy: Policy,
    h: Seq<u8>,
) -> bool {
    forall|n: Seq<u8>| todo.contains(n) ==> #[trigger] pending_at::<L>(w, n, policy, h)
}

pub open spec fn pending_at<L: PerFile>(
    w: Walked,
    n: Seq<u8>,
    policy: Policy,
    h: Seq<u8>,
) -> bool {
    L::pending(policy, h, model::at(w.t.c, n), model::at(w.t.a, n), model::at(w.t.s, n))
        && follow(w, n) is None
}

/// The state of a walk, and what is left to do.
pub struct Stepped {
    pub w: Walked,
    pub todo: Set<Seq<u8>>,
}

/// The state of a walk after one step.
pub open spec fn stepped(w: Walked, todo: Set<Seq<u8>>, policy: Policy) -> Option<Stepped> {
    let n = model::least(todo);
    match model::choice(w.t, n, policy) {
        Reconciliation::Split(side, st) => match model::alternate_for(n, model::names(w.t)) {
            Some(new) => Some(
                Stepped { w: model::split(w, n, new, side, st), todo: todo.insert(new) },
            ),
            None => None,
        },
        _ => Some(Stepped { w: model::processed(w, n, policy), todo: todo.remove(n) }),
    }
}

/// A walk is one step followed by a walk, and a step leaves less to do.
pub proof fn lemma_walk_step(w: Walked, todo: Set<Seq<u8>>, policy: Policy)
    requires
        todo.finite(),
        !todo.is_empty(),
    ensures
        todo.contains(model::least(todo)),
        model::walk(w, todo, policy) == match stepped(w, todo, policy) {
            Some(x) => model::walk(x.w, x.todo, policy),
            None => None,
        },
        stepped(w, todo, policy) matches Some(x) ==> x.todo.finite() && model::weight(
            x.w.t,
            x.todo,
        ) < model::weight(w.t, todo),
{
    let n = model::least(todo);
    model::lemma_least(todo);
    match model::choice(w.t, n, policy) {
        Reconciliation::Split(side, st) => {
            if let Some(new) = model::alternate_for(n, model::names(w.t)) {
                model::lemma_alternate_for(n, model::names(w.t));
                compute::law_split_needs_both(
                    model::seen_at(w.t, n, policy),
                    model::data(model::at(w.t.a, n)),
                    model::data(model::at(w.t.s, n)),
                    model::ruling(w.t, n, policy).mode,
                );
                model::lemma_weight_split(w, todo, n, new, side, st);
            }
        },
        _ => {
            model::lemma_weight_processed(w, todo, n, policy);
        },
    }
}

/// Walking a directory establishes the property for every name.
pub proof fn lemma_walk<L: PerFile>(w: Walked, todo: Set<Seq<u8>>, policy: Policy, h: Seq<u8>)
    requires
        todo.finite(),
        pending_all::<L>(w, todo, policy, h),
        settled_but::<L>(w, todo, policy, h),
    ensures
        model::walk(w, todo, policy) matches Some(v) ==> settled_but::<L>(v, Set::empty(), policy, h),
    decreases model::weight(w.t, todo),
{
    if todo.is_empty() {
        assert(todo =~= Set::empty());
    } else {
        let n = model::least(todo);
        lemma_walk_step(w, todo, policy);
        if let Some(x) = stepped(w, todo, policy) {
            lemma_step::<L>(w, todo, policy, h);
            lemma_walk::<L>(x.w, x.todo, policy, h);
        }
    }
}

pub proof fn lemma_step<L: PerFile>(w: Walked, todo: Set<Seq<u8>>, policy: Policy, h: Seq<u8>)
    requires
        todo.finite(),
        !todo.is_empty(),
        pending_all::<L>(w, todo, policy, h),
        settled_but::<L>(w, todo, policy, h),
        stepped(w, todo, policy) is Some,
    ensures
        stepped(w, todo, policy) matches Some(x) ==> pending_all::<L>(x.w, x.todo, policy, h),
        stepped(w, todo, policy) matches Some(x) ==> settled_but::<L>(x.w, x.todo, policy, h),
{
    let n = model::least(todo);
    model::lemma_least(todo);
    let w2 = stepped(w, todo, policy)->0.w;
    let todo2 = stepped(w, todo, policy)->0.todo;
    let (c, a, s) = (model::at(w.t.c, n), model::at(w.t.a, n), model::at(w.t.s, n));
    let rule = model::ruling(w.t, n, policy);
    assert(policy.gives(rule));
    assert(pending_at::<L>(w, n, policy, h));
    match model::choice(w.t, n, policy) {
        Reconciliation::Split(side, st) => {
            let new = model::alternate_for(n, model::names(w.t))->0;
            model::lemma_alternate_for(n, model::names(w.t));
            L::splits(policy, rule, h, c, a, s, side, st);
            compute::law_split_needs_both(
                model::seen_at(w.t, n, policy),
                model::data(a),
                model::data(s),
                rule.mode,
            );
            assert(model::names(w.t).contains(n));
            assert(follow(w, new) is None) by {
                if todo.contains(new) {
                    assert(pending_at::<L>(w, new, policy, h));
                } else {
                    assert(settled_at::<L>(w, new, policy, h));
                    L::none_settled(policy, h, follow(w, new));
                }
            }
            assert forall|m: Seq<u8>| todo2.contains(m) implies #[trigger] pending_at::<L>(
                w2,
                m,
                policy, h,
            ) by {
                if m != n && m != new {
                    assert(pending_at::<L>(w, m, policy, h));
                }
            }
            assert forall|m: Seq<u8>| !todo2.contains(m) implies #[trigger] settled_at::<L>(
                w2,
                m,
                policy, h,
            ) by {
                assert(settled_at::<L>(w, m, policy, h));
            }
        },
        _ => {
            L::settles(policy, rule, h, c, a, s);
            assert forall|m: Seq<u8>| todo2.contains(m) implies #[trigger] pending_at::<L>(
                w2,
                m,
                policy, h,
            ) by {
                assert(pending_at::<L>(w, m, policy, h));
            }
            assert forall|m: Seq<u8>| !todo2.contains(m) implies #[trigger] settled_at::<L>(
                w2,
                m,
                policy, h,
            ) by {
                if m != n {
                    assert(settled_at::<L>(w, m, policy, h));
                }
            }
        },
    }
}

/// Walking a fresh directory establishes the property for every name.
pub proof fn lemma_walk_fresh<L: PerFile>(t: Trio, policy: Policy, h: Seq<u8>)
    requires
        t.c.dom().finite() && t.a.dom().finite() && t.s.dom().finite(),
        forall|n: Seq<u8>|
            model::names(t).contains(n) ==> #[trigger] L::pending(
                policy,
                h,
                model::at(t.c, n),
                model::at(t.a, n),
                model::at(t.s, n),
            ),
    ensures
        model::walk(model::fresh(t), model::names(t), policy) matches Some(v) ==> settled_but::<L>(
            v,
            Set::empty(),
            policy, h,
        ),
{
    let w = model::fresh(t);
    assert forall|n: Seq<u8>| !model::names(t).contains(n) implies #[trigger] settled_at::<L>(
        w,
        n,
        policy, h,
    ) by {
        L::none_settled(policy, h, None);
    }
    assert forall|n: Seq<u8>| model::names(t).contains(n) implies #[trigger] pending_at::<L>(
        w,
        n,
        policy, h,
    ) by {
        assert(L::pending(
            policy,
            h,
            model::at(t.c, n),
            model::at(t.a, n),
            model::at(t.s, n),
        ));
    }
    lemma_walk::<L>(w, model::names(t), policy, h);
}

/// Whether nothing is left under the name `n`, or what is left may yet go.
pub open spec fn may_go(w: Walked, n: Seq<u8>) -> bool {
    match follow(w, n) {
        None => model::at(w.t.c, n) is None && model::at(w.t.a, n) is None && model::at(
            w.t.s,
            n,
        ) is None,
        Some(Follow::Enter) => false,
        Some(Follow::Delete(_, _)) => true,
    }
}

/// If a directory counts as empty after the walk, nothing is left in it but
/// what may yet go.
pub proof fn lemma_walk_empty(w: Walked, todo: Set<Seq<u8>>, policy: Policy)
    requires
        todo.finite(),
        forall|n: Seq<u8>| #[trigger] todo.contains(n) ==> follow(w, n) is None,
        w.empty ==> forall|n: Seq<u8>| !todo.contains(n) ==> #[trigger] may_go(w, n),
    ensures
        model::walk(w, todo, policy) matches Some(v) ==> (v.empty ==> forall|n: Seq<u8>| #[trigger]
            may_go(v, n)),
    decreases model::weight(w.t, todo),
{
    if !todo.is_empty() {
        let n = model::least(todo);
        lemma_walk_step(w, todo, policy);
        if let Some(x) = stepped(w, todo, policy) {
            if x.w.empty {
                assert(model::choice(w.t, n, policy) !is Split);
                assert forall|m: Seq<u8>| !x.todo.contains(m) implies #[trigger] may_go(
                    x.w,
                    m,
                ) by {
                    if m != n {
                        assert(may_go(w, m));
                    }
                }
                lemma_walk_empty(x.w, x.todo, policy);
            } else {
                lemma_never_empty_again(x.w, x.todo, policy);
            }
        }
    }
}

/// A directory that does not count as empty does not come to count as empty
/// by further walking.
pub proof fn lemma_never_empty_again(w: Walked, todo: Set<Seq<u8>>, policy: Policy)
    requires
        todo.finite(),
        !w.empty,
    ensures
        model::walk(w, todo, policy) matches Some(v) ==> !v.empty,
    decreases model::weight(w.t, todo),
{
    if !todo.is_empty() {
        lemma_walk_step(w, todo, policy);
        if let Some(x) = stepped(w, todo, policy) {
            lemma_never_empty_again(x.w, x.todo, policy);
        }
    }
}

/// Whether two states of a walk agree about the name `n`.
pub open spec fn agree(w: Walked, v: Walked, n: Seq<u8>) -> bool {
    &&& model::at(w.t.c, n) == model::at(v.t.c, n)
    &&& model::at(w.t.a, n) == model::at(v.t.a, n)
    &&& model::at(w.t.s, n) == model::at(v.t.s, n)
    &&& follow(w, n) == follow(v, n)
}

/// Whether one of the two sides has none of the files that are to be
/// processed.
pub open spec fn one_sided(t: Trio, todo: Set<Seq<u8>>) -> bool {
    ||| forall|n: Seq<u8>| #[trigger] todo.contains(n) ==> model::at(t.c, n) is None
    ||| forall|n: Seq<u8>| #[trigger] todo.contains(n) ==> model::at(t.s, n) is None
}

/// Where one side has none of the files, nothing is split: the walk touches
/// no other names, and the directory counts as empty exactly if nothing is
/// left of the files but what may yet go.
pub proof fn lemma_walk_one_sided(w: Walked, todo: Set<Seq<u8>>, policy: Policy)
    requires
        todo.finite(),
        one_sided(w.t, todo),
        forall|n: Seq<u8>| #[trigger] todo.contains(n) ==> follow(w, n) is None,
    ensures
        model::walk(w, todo, policy) matches Some(v) ==> {
            &&& forall|n: Seq<u8>| !todo.contains(n) ==> #[trigger] agree(w, v, n)
            &&& v.empty == (w.empty && forall|n: Seq<u8>|
                todo.contains(n) ==> #[trigger] may_go(v, n))
        },
    decreases model::weight(w.t, todo),
{
    if !todo.is_empty() {
        let n = model::least(todo);
        lemma_walk_step(w, todo, policy);
        compute::law_split_needs_both(
            model::seen_at(w.t, n, policy),
            model::data(model::at(w.t.a, n)),
            model::data(model::at(w.t.s, n)),
            model::ruling(w.t, n, policy).mode,
        );
        assert(model::at(w.t.c, n) is None || model::at(w.t.s, n) is None);
        let w2 = model::processed(w, n, policy);
        let todo2 = todo.remove(n);
        assert(one_sided(w2.t, todo2)) by {
            assert forall|m: Seq<u8>| #[trigger] todo2.contains(m) implies model::at(w2.t.c, m)
                == model::at(w.t.c, m) && model::at(w2.t.s, m) == model::at(w.t.s, m) by {}
            if forall|m: Seq<u8>| #[trigger] todo.contains(m) ==> model::at(w.t.c, m) is None {
                assert forall|m: Seq<u8>| #[trigger] todo2.contains(m) implies model::at(
                    w2.t.c,
                    m,
                ) is None by {
                    assert(todo.contains(m));
                }
            } else {
                assert forall|m: Seq<u8>| #[trigger] todo2.contains(m) implies model::at(
                    w2.t.s,
                    m,
                ) is None by {
                    assert(todo.contains(m));
                }
            }
        }
        lemma_walk_one_sided(w2, todo2, policy);
        if let Some(v) = model::walk(w, todo, policy) {
            assert forall|m: Seq<u8>| !todo.contains(m) implies #[trigger] agree(w, v, m) by {
                assert(agree(w2, v, m));
                assert(agree(w, w2, m));
            }
            assert(agree(w2, v, n));
            assert(may_go(v, n) == may_go(w2, n));
            assert(w2.empty == (w.empty && may_go(w2, n)));
            if forall|m: Seq<u8>| todo.contains(m) ==> #[trigger] may_go(v, m) {
                assert(may_go(v, n));
                assert forall|m: Seq<u8>| todo2.contains(m) implies #[trigger] may_go(v, m) by {}
            } else {
                let m = choose|m: Seq<u8>| todo.contains(m) && !#[trigger] may_go(v, m);
                if m != n {
                    assert(todo2.contains(m));
                }
            }
        }
    }
}

/// The walk adds no name to those that are to be followed up but names of
/// files that exist.
pub open spec fn follows_exist(w: Walked) -> bool {
    forall|n: Seq<u8>| #[trigger]
        w.follows.dom().contains(n) ==> model::names(w.t).contains(n)
}

/// The walk keeps everything finite.
pub open spec fn finite_walk(w: Walked) -> bool {
    &&& w.t.c.dom().finite()
    &&& w.t.a.dom().finite()
    &&& w.t.s.dom().finite()
    &&& w.follows.dom().finite()
}

pub proof fn lemma_walk_finite(w: Walked, todo: Set<Seq<u8>>, policy: Policy)
    requires
        todo.finite(),
        finite_walk(w),
    ensures
        model::walk(w, todo, policy) matches Some(v) ==> finite_walk(v),
    decreases model::weight(w.t, todo),
{
    if !todo.is_empty() {
        lemma_walk_step(w, todo, policy);
        if let Some(x) = stepped(w, todo, policy) {
            lemma_walk_finite(x.w, x.todo, policy);
        }
    }
}

/// The policies for what is to be followed up give the same modes as the policy
/// for the directory.
pub proof fn lemma_walk_policies(w: Walked, todo: Set<Seq<u8>>, policy: Policy)
    requires
        todo.finite(),
        forall|n: Seq<u8>| #[trigger]
            w.follows.dom().contains(n) ==> rules::kin(w.policies[n], policy),
    ensures
        model::walk(w, todo, policy) matches Some(v) ==> forall|n: Seq<u8>| #[trigger]
            v.follows.dom().contains(n) ==> rules::kin(v.policies[n], policy),
    decreases model::weight(w.t, todo),
{
    if !todo.is_empty() {
        lemma_walk_step(w, todo, policy);
        if let Some(x) = stepped(w, todo, policy) {
            assert forall|n: Seq<u8>| #[trigger] x.w.follows.dom().contains(n) implies rules::kin(
                x.w.policies[n],
                policy,
            ) by {
                if n != model::least(todo) {
                    assert(w.follows.dom().contains(n));
                }
            }
            lemma_walk_policies(x.w, x.todo, policy);
        }
    }
}

/// A walk that the client can be expected to go along with is one such step
/// followed by one such walk.
pub proof fn lemma_smooth_step(w: Walked, todo: Set<Seq<u8>>, policy: Policy)
    requires
        todo.finite(),
        !todo.is_empty(),
    ensures
        model::smooth(w, todo, policy) == (model::recognised_at(w.t, model::least(todo), policy)
            && (stepped(w, todo, policy) matches Some(x) ==> model::smooth(
            x.w,
            x.todo,
            policy,
        ))),
{
}

/// Where unix modes are trusted, the client can be expected to go along.
pub proof fn lemma_trusting_walk(w: Walked, todo: Set<Seq<u8>>, policy: Policy)
    requires
        todo.finite(),
        policy.trusting(),
    ensures
        model::smooth(w, todo, policy),
    decreases model::weight(w.t, todo),
{
    if !todo.is_empty() {
        let n = model::least(todo);
        assert(policy.gives(model::ruling(w.t, n, policy)));
        lemma_walk_step(w, todo, policy);
        lemma_smooth_step(w, todo, policy);
        if let Some(x) = stepped(w, todo, policy) {
            lemma_trusting_walk(x.w, x.todo, policy);
        }
    }
}

/// A replica into which finitely many outcomes are taken in stays finite.
pub proof fn lemma_gathered_finite(
    k: Kids,
    follows: Map<Seq<u8>, Follow>,
    subs: Map<Seq<u8>, (Kids, bool)>,
)
    requires
        k.dom().finite(),
        follows.dom().finite(),
    ensures
        model::gathered_one(k, follows, subs).dom().finite(),
{
    let g = model::gathered_one(k, follows, subs);
    assert(g.dom().subset_of(k.dom().union(follows.dom())));
    vstd::set_lib::lemma_set_subset_finite(k.dom().union(follows.dom()), g.dom());
}

} // verus!
