//! What a complete synchronisation does, as a function of the three trees.
//!
//! Everything here is specification: the trees of the client, the ancestor and
//! the server, what becomes of them when one directory after another is
//! reconciled, and nothing goes wrong on the way.

use vstd::prelude::*;

use crate::bytes;
use crate::defs;
use crate::defs::{FileMode, FileModel};
use crate::rules::{Policy, Ruling};

use super::compute;
use super::compute::{Reconciliation, ReconciliationSide, SplitAncestorState};
use super::trees::Path;

verus! {

/// A file with everything under it.
pub struct Node {
    pub data: FileModel,
    pub kids: Map<Seq<u8>, Node>,
}

/// The contents of a directory.
pub type Kids = Map<Seq<u8>, Node>;

/// One directory on the client, in the ancestor and on the server.
#[verifier::ext_equal]
pub struct Trio {
    pub c: Kids,
    pub a: Kids,
    pub s: Kids,
}

/// What is to be done after all files of a directory have been looked at.
pub enum Follow {
    /// Descend into the directory, which exists everywhere.
    Enter,
    /// Descend into the directory, which exists on the given side, and remove
    /// it if that empties it. Where it has to be created on the other side,
    /// it is given the mode.
    Delete(ReconciliationSide, FileMode),
}

/// The file named `n`, if there is one.
pub open spec fn at(k: Kids, n: Seq<u8>) -> Option<Node> {
    if k.dom().contains(n) {
        Some(k[n])
    } else {
        None
    }
}

/// `k` with `v` as the file named `n`.
pub open spec fn with(k: Kids, n: Seq<u8>, v: Option<Node>) -> Kids {
    match v {
        Some(x) => k.insert(n, x),
        None => k.remove(n),
    }
}

/// The data of a file, if there is one.
pub open spec fn data(v: Option<Node>) -> Option<FileModel> {
    match v {
        Some(x) => Some(x.data),
        None => None,
    }
}

/// What is under a file, if there is one.
pub open spec fn kids(v: Option<Node>) -> Kids {
    match v {
        Some(x) => x.kids,
        None => Map::empty(),
    }
}

/// What a file becomes when it is given the state `new`: a directory that
/// stays one keeps what is in it.
pub open spec fn replaced(v: Option<Node>, new: Option<FileModel>) -> Option<Node> {
    match new {
        None => None,
        Some(fd) => Some(
            Node {
                data: fd,
                kids: if fd.is_dir() && defs::opt_is_dir(data(v)) {
                    kids(v)
                } else {
                    Map::empty()
                },
            },
        ),
    }
}

/// What becomes of one file.
pub struct Settled {
    pub c: Option<Node>,
    pub a: Option<Node>,
    pub s: Option<Node>,
    pub follow: Option<Follow>,
}

/// The mode of a directory.
pub open spec fn dir_mode(fd: Option<FileModel>) -> FileMode {
    match fd {
        Some(FileModel::Directory(m)) => m,
        _ => 0,
    }
}

/// Descend into what has become a directory.
pub open spec fn enter_if_dir(fd: Option<FileModel>) -> Option<Follow> {
    if defs::opt_is_dir(fd) {
        Some(Follow::Enter)
    } else {
        None
    }
}

/// What a file of the client is taken for: if its unix mode is not to be
/// trusted, it is taken to have that of the server, or else of the ancestor.
pub open spec fn seen(
    c: Option<FileModel>,
    a: Option<FileModel>,
    s: Option<FileModel>,
    trust: bool,
) -> Option<FileModel> {
    match (c, s, a) {
        (Some(x), Some(y), _) if !trust => Some(x.transrich(y)),
        (Some(x), None, Some(y)) if !trust => Some(x.transrich(y)),
        _ => c,
    }
}

/// What becomes of a file that is not split.
pub open spec fn settle(
    c: Option<Node>,
    a: Option<Node>,
    s: Option<Node>,
    trust: bool,
    r: Reconciliation,
) -> Settled {
    settle_as(c, a, s, seen(data(c), data(a), data(s), trust), r)
}

/// What becomes of a file that is not split, where that of the client is taken
/// for `d`.
pub open spec fn settle_as(
    c: Option<Node>,
    a: Option<Node>,
    s: Option<Node>,
    d: Option<FileModel>,
    r: Reconciliation,
) -> Settled {
    match r {
        Reconciliation::InSync => Settled { c, a: replaced(a, d), s, follow: enter_if_dir(d) },
        Reconciliation::Use(ReconciliationSide::Client) => if s is Some && c is None
            && s->0.data.is_dir() {
            Settled {
                c,
                a: replaced(a, data(s)),
                s,
                follow: Some(Follow::Delete(ReconciliationSide::Server, dir_mode(data(s)))),
            }
        } else {
            Settled {
                c,
                a: replaced(a, d),
                s: replaced(s, d),
                follow: enter_if_dir(d),
            }
        },
        Reconciliation::Use(ReconciliationSide::Server) => if c is Some && s is None
            && c->0.data.is_dir() {
            Settled {
                c,
                a: replaced(a, d),
                s,
                follow: Some(Follow::Delete(ReconciliationSide::Client, dir_mode(d))),
            }
        } else {
            Settled {
                c: if d == data(s) {
                    c
                } else {
                    replaced(c, data(s))
                },
                a: replaced(a, data(s)),
                s,
                follow: enter_if_dir(data(s)),
            }
        },
        _ => Settled { c, a, s, follow: None },
    }
}

/// The names in use in any of the three.
pub open spec fn names(t: Trio) -> Set<Seq<u8>> {
    t.c.dom().union(t.a.dom()).union(t.s.dom())
}

/// Whether `k` is the suffix of the first alternate for `n` that is not in
/// `used`.
pub open spec fn is_first_free(n: Seq<u8>, used: Set<Seq<u8>>, k: u64) -> bool {
    &&& k >= 1
    &&& !used.contains(compute::alternate(n, k as nat))
    &&& forall|j: u64| 1 <= j < k ==> used.contains(#[trigger] compute::alternate(n, j as nat))
}

/// The alternate name that `n` is given where the names in `used` are taken.
pub open spec fn alternate_for(n: Seq<u8>, used: Set<Seq<u8>>) -> Option<Seq<u8>> {
    let r = compute::readable(n);
    if compute::plain_name(r) && exists|k: u64| is_first_free(r, used, k) {
        Some(compute::alternate(r, (choose|k: u64| is_first_free(r, used, k)) as nat))
    } else {
        None
    }
}

/// A directory in the midst of being processed: its contents, what is to be
/// done afterwards under which name, and whether everything looked at so far
/// is gone.
pub struct Walked {
    pub t: Trio,
    pub follows: Map<Seq<u8>, Follow>,
    /// The policies for what is to be followed up.
    pub policies: Map<Seq<u8>, Policy>,
    pub empty: bool,
}

/// The data by which the file named `n` is shown to the rules: those of the
/// client, or of the ancestor if the client does not have it, or else of the
/// server.
pub open spec fn shown(t: Trio, n: Seq<u8>) -> FileModel {
    match (at(t.c, n), at(t.a, n), at(t.s, n)) {
        (Some(x), _, _) => x.data,
        (None, Some(x), _) => x.data,
        (None, None, Some(x)) => x.data,
        (None, None, None) => FileModel::Special,
    }
}

/// How the file named `n` is to be synchronised.
pub open spec fn ruling(t: Trio, n: Seq<u8>, policy: Policy) -> Ruling {
    policy.ruling(n, shown(t, n))
}

/// What the file named `n` of the client is taken for.
pub open spec fn seen_at(t: Trio, n: Seq<u8>, policy: Policy) -> Option<FileModel> {
    seen(data(at(t.c, n)), data(at(t.a, n)), data(at(t.s, n)), ruling(t, n, policy).trust)
}

/// The reconciliation of the file named `n`.
pub open spec fn choice(t: Trio, n: Seq<u8>, policy: Policy) -> Reconciliation {
    compute::chosen(
        seen_at(t, n, policy),
        data(at(t.a, n)),
        data(at(t.s, n)),
        ruling(t, n, policy).mode,
    ).0
}

/// The directory after the file named `n`, which is not split, has been
/// processed.
pub open spec fn processed(w: Walked, n: Seq<u8>, policy: Policy) -> Walked {
    let x = settle(
        at(w.t.c, n),
        at(w.t.a, n),
        at(w.t.s, n),
        ruling(w.t, n, policy).trust,
        choice(w.t, n, policy),
    );
    Walked {
        t: Trio { c: with(w.t.c, n, x.c), a: with(w.t.a, n, x.a), s: with(w.t.s, n, x.s) },
        follows: match x.follow {
            Some(f) => w.follows.insert(n, f),
            None => w.follows,
        },
        policies: match x.follow {
            Some(_) => w.policies.insert(n, policy.below(n, shown(w.t, n))),
            None => w.policies,
        },
        empty: w.empty && match x.follow {
            Some(Follow::Enter) => false,
            Some(Follow::Delete(_, _)) => true,
            None => x.c is None && x.a is None && x.s is None,
        },
    }
}

/// `k` with the file named `n` renamed to `new`.
pub open spec fn renamed(k: Kids, n: Seq<u8>, new: Seq<u8>) -> Kids {
    if k.dom().contains(n) {
        k.remove(n).insert(new, k[n])
    } else {
        k
    }
}

/// The directory after the file named `n` on the side `side` has been renamed
/// to `new`.
pub open spec fn split(
    w: Walked,
    n: Seq<u8>,
    new: Seq<u8>,
    side: ReconciliationSide,
    st: SplitAncestorState,
) -> Walked {
    Walked {
        t: Trio {
            c: if side == ReconciliationSide::Client {
                renamed(w.t.c, n, new)
            } else {
                w.t.c
            },
            a: match st {
                SplitAncestorState::Delete => w.t.a.remove(n),
                SplitAncestorState::Move => renamed(w.t.a, n, new),
            },
            s: if side == ReconciliationSide::Server {
                renamed(w.t.s, n, new)
            } else {
                w.t.s
            },
        },
        follows: w.follows,
        policies: w.policies,
        empty: false,
    }
}

/// Whether `n` is the first name of `todo`.
pub open spec fn is_least(todo: Set<Seq<u8>>, n: Seq<u8>) -> bool {
    todo.contains(n) && forall|m: Seq<u8>| #[trigger]
        todo.contains(m) ==> m == n || bytes::before(n, m)
}

/// The first name of `todo`.
pub open spec fn least(todo: Set<Seq<u8>>) -> Seq<u8> {
    choose|n: Seq<u8>| is_least(todo, n)
}

/// How much is left to be done: each name counts once, and twice more if it
/// can still be split.
pub open spec fn weight(t: Trio, todo: Set<Seq<u8>>) -> nat {
    todo.len() + 2 * todo.intersect(t.c.dom()).intersect(t.s.dom()).len()
}

/// The directory after all names of `todo` have been processed in order, or
/// `None` if a file could not be given a new name.
pub open spec fn walk(w: Walked, todo: Set<Seq<u8>>, policy: Policy) -> Option<Walked>
    decreases weight(w.t, todo),
    when todo.finite()
{
    if todo.is_empty() {
        Some(w)
    } else {
        let n = least(todo);
        match choice(w.t, n, policy) {
            Reconciliation::Split(side, st) => match alternate_for(n, names(w.t)) {
                Some(new) => {
                    proof {
                        lemma_least(todo);
                        lemma_alternate_for(n, names(w.t));
                        compute::law_split_needs_both(
                            seen_at(w.t, n, policy),
                            data(at(w.t.a, n)),
                            data(at(w.t.s, n)),
                            ruling(w.t, n, policy).mode,
                        );
                        lemma_weight_split(w, todo, n, new, side, st);
                    }
                    walk(split(w, n, new, side, st), todo.insert(new), policy)
                },
                None => None,
            },
            _ => {
                proof {
                    lemma_least(todo);
                    lemma_weight_processed(w, todo, n, policy);
                }
                walk(processed(w, n, policy), todo.remove(n), policy)
            },
        }
    }
}

/// A set of names that is not empty has a first one.
pub proof fn lemma_least(todo: Set<Seq<u8>>)
    requires
        todo.finite(),
        !todo.is_empty(),
    ensures
        is_least(todo, least(todo)),
        forall|n: Seq<u8>| is_least(todo, n) ==> n == least(todo),
{
    lemma_least_exists(todo);
    let l = least(todo);
    assert forall|n: Seq<u8>| is_least(todo, n) implies n == l by {
        bytes::lemma_before_asym(n, l);
    }
}

proof fn lemma_least_exists(todo: Set<Seq<u8>>)
    requires
        todo.finite(),
        !todo.is_empty(),
    ensures
        exists|n: Seq<u8>| is_least(todo, n),
    decreases todo.len(),
{
    let x = todo.choose();
    let rest = todo.remove(x);
    if rest.is_empty() {
        assert(is_least(todo, x));
    } else {
        lemma_least_exists(rest);
        let y = choose|n: Seq<u8>| is_least(rest, n);
        bytes::lemma_before_total(x, y);
        if bytes::before(x, y) {
            assert forall|m: Seq<u8>| #[trigger] todo.contains(m) implies m == x
                || bytes::before(x, m) by {
                if m != x {
                    assert(rest.contains(m));
                    if m != y {
                        bytes::lemma_before_trans(x, y, m);
                    }
                }
            }
            assert(is_least(todo, x));
        } else {
            assert forall|m: Seq<u8>| #[trigger] todo.contains(m) implies m == y
                || bytes::before(y, m) by {
                if m != x {
                    assert(rest.contains(m));
                }
            }
            assert(is_least(todo, y));
        }
    }
}

/// An alternate name is not in use.
pub proof fn lemma_alternate_for(n: Seq<u8>, used: Set<Seq<u8>>)
    ensures
        alternate_for(n, used) matches Some(new) ==> !used.contains(new),
{
}

/// Processing a name leaves less to be done.
pub proof fn lemma_weight_processed(w: Walked, todo: Set<Seq<u8>>, n: Seq<u8>, policy: Policy)
    requires
        todo.finite(),
        todo.contains(n),
    ensures
        weight(processed(w, n, policy).t, todo.remove(n)) < weight(w.t, todo),
{
    let p = processed(w, n, policy);
    let x = todo.intersect(w.t.c.dom()).intersect(w.t.s.dom());
    let y = todo.remove(n).intersect(p.t.c.dom()).intersect(p.t.s.dom());
    assert(y.subset_of(x));
    vstd::set_lib::lemma_len_subset(y, x);
}

/// Splitting a file leaves less to be done, though it adds a name.
pub proof fn lemma_weight_split(
    w: Walked,
    todo: Set<Seq<u8>>,
    n: Seq<u8>,
    new: Seq<u8>,
    side: ReconciliationSide,
    st: SplitAncestorState,
)
    requires
        todo.finite(),
        todo.contains(n),
        w.t.c.dom().contains(n),
        w.t.s.dom().contains(n),
        !names(w.t).contains(new),
    ensures
        weight(split(w, n, new, side, st).t, todo.insert(new)) < weight(w.t, todo),
{
    let p = split(w, n, new, side, st);
    let x = todo.intersect(w.t.c.dom()).intersect(w.t.s.dom());
    let y = todo.insert(new).intersect(p.t.c.dom()).intersect(p.t.s.dom());
    assert(new != n);
    assert(x.contains(n));
    assert(y.subset_of(x.remove(n)));
    vstd::set_lib::lemma_len_subset(y, x.remove(n));
    assert(todo.insert(new).len() <= todo.len() + 1);
}

/// What is under the file named `n` on each side.
pub open spec fn under(t: Trio, n: Seq<u8>) -> Trio {
    Trio { c: kids(at(t.c, n)), a: kids(at(t.a, n)), s: kids(at(t.s, n)) }
}

/// What becomes of the file named `n` in one replica, where `done` is what is
/// under it in the end and `empty` says whether it is to go.
pub open spec fn finished(v: Option<Node>, f: Follow, done: Kids, empty: bool) -> Option<Node> {
    match (f, v) {
        (Follow::Enter, Some(x)) => Some(Node { data: x.data, kids: done }),
        (Follow::Enter, None) => None,
        (Follow::Delete(_, m), _) => if empty {
            None
        } else {
            match v {
                Some(x) => Some(Node { data: x.data, kids: done }),
                None => if done.dom().is_empty() {
                    None
                } else {
                    Some(Node { data: FileModel::Directory(m), kids: done })
                },
            }
        },
    }
}

/// The outcome for a subdirectory: its contents, and whether nothing is left.
pub struct Outcome {
    pub t: Trio,
    pub empty: bool,
}

/// The directory after the outcomes `subs` of its subdirectories have been
/// taken in.
pub open spec fn gathered(w: Walked, subs: Map<Seq<u8>, Outcome>) -> Outcome {
    Outcome {
        t: Trio {
            c: gathered_one(w.t.c, w.follows, subs.map_values(|o: Outcome| (o.t.c, o.empty))),
            a: gathered_one(w.t.a, w.follows, subs.map_values(|o: Outcome| (o.t.a, o.empty))),
            s: gathered_one(w.t.s, w.follows, subs.map_values(|o: Outcome| (o.t.s, o.empty))),
        },
        empty: w.empty && forall|n: Seq<u8>| #[trigger] subs.dom().contains(n) ==> subs[n].empty,
    }
}

/// One file of one replica after the outcomes have been taken in.
pub open spec fn gathered_at(
    k: Kids,
    follows: Map<Seq<u8>, Follow>,
    subs: Map<Seq<u8>, (Kids, bool)>,
    n: Seq<u8>,
) -> Option<Node> {
    if follows.dom().contains(n) {
        finished(at(k, n), follows[n], subs[n].0, subs[n].1)
    } else {
        at(k, n)
    }
}

/// One replica after the outcomes have been taken in.
pub open spec fn gathered_one(
    k: Kids,
    follows: Map<Seq<u8>, Follow>,
    subs: Map<Seq<u8>, (Kids, bool)>,
) -> Kids {
    Map::new(
        |n: Seq<u8>| gathered_at(k, follows, subs, n) is Some,
        |n: Seq<u8>| gathered_at(k, follows, subs, n)->0,
    )
}

/// A directory that nothing has been done to yet.
pub open spec fn fresh(t: Trio) -> Walked {
    Walked { t, follows: Map::empty(), policies: Map::empty(), empty: true }
}

/// The names and data of the files in a directory.
pub open spec fn files(k: Kids) -> Set<(Seq<u8>, FileModel)> {
    Set::new(|f: (Seq<u8>, FileModel)| k.dom().contains(f.0) && k[f.0].data == f.1)
}

/// The policy for the files of a directory: the rules are told what the client
/// and the server have in it.
pub open spec fn informed(t: Trio, policy: Policy) -> Policy {
    policy.told(files(t.c).union(files(t.s)))
}

/// A directory after all of its files have been processed.
pub open spec fn walked(t: Trio, policy: Policy) -> Option<Walked> {
    walk(fresh(t), names(t), informed(t, policy))
}

/// The outcome of synchronising a directory and everything under it, at most
/// `depth` levels deep; `None` if the tree is deeper, or if a file could not be
/// given a new name.
pub open spec fn synced(t: Trio, policy: Policy, depth: nat) -> Option<Outcome>
    decreases depth, 0int,
{
    if depth == 0 {
        None
    } else {
        match walked(t, policy) {
            None => None,
            Some(w) => match outcomes(w, (depth - 1) as nat) {
                None => None,
                Some(subs) => Some(gathered(w, subs)),
            },
        }
    }
}

/// The outcomes for the subdirectories that are to be followed up.
pub open spec fn outcomes(w: Walked, depth: nat) -> Option<Map<Seq<u8>, Outcome>>
    decreases depth, 1int,
{
    if forall|n: Seq<u8>| #[trigger]
        w.follows.dom().contains(n) ==> synced(under(w.t, n), w.policies[n], depth) is Some {
        Some(
            Map::new(
                |n: Seq<u8>| w.follows.dom().contains(n),
                |n: Seq<u8>| synced(under(w.t, n), w.policies[n], depth)->0,
            ),
        )
    } else {
        None
    }
}

/// Whether the client can be expected to go along: if its file is to be replaced,
/// it is what it is taken for, or what it would become.
pub open spec fn recognised(
    c: Option<FileModel>,
    d: Option<FileModel>,
    s: Option<FileModel>,
    r: Reconciliation,
) -> bool {
    r == Reconciliation::Use(ReconciliationSide::Server) ==> d == c || d == s || (defs::opt_is_dir(d)
        && s is None)
}

/// Whether the client can be expected to go along with what is done about the
/// file named `n`.
pub open spec fn recognised_at(t: Trio, n: Seq<u8>, policy: Policy) -> bool {
    recognised(
        data(at(t.c, n)),
        seen_at(t, n, policy),
        data(at(t.s, n)),
        choice(t, n, policy),
    )
}

/// Whether the client can be expected to go along with all of a walk.
pub open spec fn smooth(w: Walked, todo: Set<Seq<u8>>, policy: Policy) -> bool
    decreases weight(w.t, todo),
    when todo.finite()
{
    if todo.is_empty() {
        true
    } else {
        let n = least(todo);
        &&& recognised_at(w.t, n, policy)
        &&& match choice(w.t, n, policy) {
            Reconciliation::Split(side, st) => match alternate_for(n, names(w.t)) {
                Some(new) => {
                    proof {
                        lemma_least(todo);
                        lemma_alternate_for(n, names(w.t));
                        compute::law_split_needs_both(
                            seen_at(w.t, n, policy),
                            data(at(w.t.a, n)),
                            data(at(w.t.s, n)),
                            ruling(w.t, n, policy).mode,
                        );
                        lemma_weight_split(w, todo, n, new, side, st);
                    }
                    smooth(split(w, n, new, side, st), todo.insert(new), policy)
                },
                None => true,
            },
            _ => {
                proof {
                    lemma_least(todo);
                    lemma_weight_processed(w, todo, n, policy);
                }
                smooth(processed(w, n, policy), todo.remove(n), policy)
            },
        }
    }
}

/// Whether the client can be expected to go along with all that synchronising a
/// directory and everything under it takes.
pub open spec fn smooth_below(t: Trio, policy: Policy, depth: nat) -> bool
    decreases depth,
{
    depth > 0 ==> {
        &&& smooth(fresh(t), names(t), informed(t, policy))
        &&& walked(t, policy) matches Some(w) ==> forall|n: Seq<u8>| #[trigger]
            w.follows.dom().contains(n) ==> smooth_below(
                under(w.t, n),
                w.policies[n],
                (depth - 1) as nat,
            )
    }
}

/// Those of the directories `skip` that are the one named `n` or under it, as
/// seen from there.
pub open spec fn from_there(skip: Set<Path>, n: Seq<u8>) -> Set<Path> {
    Set::new(|q: Path| skip.contains(seq![n] + q))
}

/// The outcome of synchronising a directory and everything under it but the
/// directories `skip`, which are left as they are. Each of those is given by
/// the names that lead to it. One that is to be removed if that empties it is
/// not skipped.
pub open spec fn synced_but(t: Trio, policy: Policy, depth: nat, skip: Set<Path>) -> Option<Outcome>
    decreases depth, 0int,
{
    if depth == 0 {
        None
    } else {
        match walked(t, policy) {
            None => None,
            Some(w) => match outcomes_but(w, (depth - 1) as nat, skip) {
                None => None,
                Some(subs) => Some(gathered(w, subs)),
            },
        }
    }
}

/// The outcome for the subdirectory named `n`, where the directories `skip`, as
/// seen from it, are skipped.
pub open spec fn outcome_but(w: Walked, n: Seq<u8>, depth: nat, skip: Set<Path>) -> Option<Outcome>
    decreases depth, 1int,
{
    if w.follows[n] is Enter && skip.contains(Seq::empty()) {
        Some(Outcome { t: under(w.t, n), empty: false })
    } else {
        synced_but(under(w.t, n), w.policies[n], depth, skip)
    }
}

/// The outcomes for the subdirectories that are to be followed up, where the
/// directories `skip` are skipped.
pub open spec fn outcomes_but(w: Walked, depth: nat, skip: Set<Path>) -> Option<
    Map<Seq<u8>, Outcome>,
>
    decreases depth, 2int,
{
    if forall|n: Seq<u8>| #[trigger]
        w.follows.dom().contains(n) ==> outcome_but(w, n, depth, from_there(skip, n)) is Some {
        Some(
            Map::new(
                |n: Seq<u8>| w.follows.dom().contains(n),
                |n: Seq<u8>| outcome_but(w, n, depth, from_there(skip, n))->0,
            ),
        )
    } else {
        None
    }
}

} // verus!
