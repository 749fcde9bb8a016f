//! Applying what has been decided to the replicas.

use vstd::prelude::*;

use crate::bytes;
use crate::defs;
use crate::defs::{File, FileData, FileMode, FileModel};
use crate::errors;
use crate::errors::{Error, ErrorKind, Result};
use crate::log;
use crate::log::{ErrorOperation, Log, LogLevel, LogModel, Logger, OperationModel, ReplicaSide};
use crate::replica;
use crate::interrupt::Interrupt;
use crate::replica::{Condemn, NullTransfer, Replica, ReplicaDirectory};
use crate::table::NameMap;

use super::compute::{Reconciliation, ReconciliationSide, SplitAncestorState};
use super::context;
use super::context::{Context, DirContext};
use super::model;
use super::model::{Follow, Kids, Node, Trio};
use super::place;
use super::trees;
use super::trees::Path;

verus! {

/// Whether no path in the tree has more than `depth` names.
pub open spec fn within(k: Kids, depth: nat) -> bool {
    forall|p: Path| #[trigger] trees::node_at(k, p) is Some ==> p.len() <= depth
}

/// A directory in a tree is less deep than the tree.
pub proof fn lemma_within(k: Kids, depth: nat, n: Seq<u8>)
    requires
        within(k, depth),
        k.dom().contains(n),
    ensures
        depth >= 1,
        within(k[n].kids, (depth - 1) as nat),
{
    assert(trees::node_at(k, seq![n]) == Some(k[n]));
    assert forall|p: Path| #[trigger] trees::node_at(k[n].kids, p) is Some implies p.len() <= depth
        - 1 by {
        trees::lemma_descend(k, n, p);
        assert(trees::node_at(k, seq![n] + p) is Some);
    }
}

/// Whether nothing under a file is too deep for the file to be in a tree of
/// the given depth.
pub open spec fn within_at(v: Option<Node>, depth: nat) -> bool {
    v matches Some(x) ==> depth >= 1 && within(x.kids, (depth - 1) as nat)
}

/// A tree is within a depth if each of its files is.
pub proof fn lemma_within_all(k: Kids, depth: nat)
    ensures
        within(k, depth) ==> forall|n: Seq<u8>| within_at(#[trigger] model::at(k, n), depth),
        (forall|n: Seq<u8>| within_at(#[trigger] model::at(k, n), depth)) ==> within(k, depth),
{
    if within(k, depth) {
        assert forall|n: Seq<u8>| within_at(#[trigger] model::at(k, n), depth) by {
            if k.dom().contains(n) {
                lemma_within(k, depth, n);
            }
        }
    }
    if forall|n: Seq<u8>| within_at(#[trigger] model::at(k, n), depth) {
        assert forall|p: Path| #[trigger] trees::node_at(k, p) is Some implies p.len() <= depth by {
            trees::lemma_split_path(k, p);
            assert(within_at(model::at(k, p[0]), depth));
            if p.len() > 1 {
                let v = model::at(k, p[0]);
                if v is None {
                    trees::lemma_nothing(p.drop_first());
                }
                assert(trees::node_at(v->0.kids, p.drop_first()) is Some);
            }
        }
    }
}

/// Whether one of the first `i` files of `l` has the name `n`.
pub open spec fn among(l: Seq<(Vec<u8>, FileData)>, i: int, n: Seq<u8>) -> bool {
    exists|j: int| 0 <= j < i && #[trigger] l[j].0@ == n
}

/// The directory `k` without the first `i` files of `l`.
pub open spec fn left(k: Kids, l: Seq<(Vec<u8>, FileData)>, i: int) -> Kids {
    k.remove_keys(Set::new(|n: Seq<u8>| among(l, i, n)))
}

/// Whether a replica can be reasoned about: it is ideal and nothing in it is
/// condemned.
pub open spec fn sane<R: Replica>(r: &R) -> bool {
    r.ideal() && r.state().condemned.is_empty()
}

/// Whether a handle denotes an existing directory.
pub open spec fn standing<D: ReplicaDirectory>(d: &D, tree: Kids) -> bool {
    replica::usable(d, tree) && place::is_there(tree, d.path())
}

/// One file after the other leaves a directory, and in the end none is left.
pub proof fn lemma_left(k: Kids, l: Seq<(Vec<u8>, FileData)>, i: int)
    requires
        replica::listed(l, replica::listing(k)),
        0 <= i <= l.len(),
    ensures
        i < l.len() ==> left(k, l, i).dom().contains(l[i].0@) && left(k, l, i)[l[i].0@]
            == k[l[i].0@] && k.dom().contains(l[i].0@) && k[l[i].0@].data == l[i].1@,
        i < l.len() ==> left(k, l, i + 1) == left(k, l, i).remove(l[i].0@),
        i == l.len() ==> left(k, l, i) == Map::<Seq<u8>, Node>::empty(),
{
    if i < l.len() {
        let n = l[i].0@;
        assert(replica::listing(k).dom().contains(n));
        assert forall|j: int| 0 <= j < i implies l[j].0@ != n by {}
        assert(left(k, l, i + 1) =~= left(k, l, i).remove(n)) by {
            assert forall|x: Seq<u8>| #[trigger] among(l, i + 1, x) == (among(l, i, x) || x
                == n) by {
                if x == n {
                    assert(l[i].0@ == x);
                }
            }
        }
    } else {
        assert forall|n: Seq<u8>| k.dom().contains(n) implies #[trigger] among(l, i, n) by {
            assert(replica::listing(k).dom().contains(n));
        }
        assert(left(k, l, i) =~= Map::empty());
    }
}

/// Removes everything within the given directory.
fn remove_recursively<A: Replica>(rep: &mut A, dir: &mut A::Directory, depth: usize) -> (r: Result<
    (),
>)
    ensures
        replica::kept(old(rep), final(rep)),
        sane(old(rep)) && standing(old(dir), old(rep).state().tree) ==> {
            let p = old(dir).path();
            let tree = old(rep).state().tree;
            &&& sane(final(rep))
            &&& replica::same_handle(final(dir), old(dir))
            &&& replica::restructured(old(rep).state(), final(rep).state(), p)
            &&& r is Ok ==> final(rep).state().tree == place::graft(
                tree,
                p,
                old(dir).modes(),
                Map::empty(),
            )
            &&& old(rep).state().faultless && within(place::kids_of(tree, p), depth as nat) ==> r
                is Ok
        },
    decreases depth,
{
    let ghost good = sane(rep) && standing(dir, rep.state().tree);
    let ghost s0 = rep.state();
    let ghost handle = *dir;
    let ghost p = dir.path();
    let ghost m = dir.modes();
    let ghost k0 = place::kids_of(s0.tree, p);
    let listed = rep.list(dir);
    proof {
        if good {
            assert(rep.state().condemned =~= s0.condemned);
        }
    }
    let l: Vec<(Vec<u8>, FileData)> = match listed {
        Ok(l) => l,
        Err(e) => {
            return Err(e);
        },
    };
    proof {
        if good {
            replica::lemma_spared(k0, s0.condemned, p);
            assert(left(k0, l@, 0) =~= k0);
            place::lemma_graft_same(s0.tree, p, m);
            rep.lemma_sound();
            lemma_sound_kids_of(s0.tree, p);
        }
    }
    let mut i: usize = 0;
    while i < l.len()
        invariant
            i <= l.len(),
            good == (sane(old(rep)) && standing(old(dir), old(rep).state().tree)),
            s0 == old(rep).state(),
            handle == *old(dir),
            replica::kept(old(rep), rep),
            good ==> {
                &&& sane(rep)
                &&& replica::usable(&handle, s0.tree)
                &&& place::is_there(s0.tree, p)
                &&& replica::same_handle(dir, &handle)
                &&& p == handle.path() && m == handle.modes()
                &&& k0 == place::kids_of(s0.tree, p)
                &&& trees::sound(k0)
                &&& replica::restructured(s0, rep.state(), p)
                &&& replica::listed(l@, replica::listing(k0))
                &&& rep.state().tree == place::graft(s0.tree, p, m, left(k0, l@, i as int))
            },
        decreases l.len() - i,
    {
        let name: &Vec<u8> = &l[i].0;
        let fd: &FileData = &l[i].1;
        let ghost k = left(k0, l@, i as int);
        proof {
            if good {
                lemma_left(k0, l@, i as int);
                place::lemma_graft_get(s0.tree, p, m, k);
                place::lemma_graft_there(s0.tree, p, m, k);
                trees::lemma_sound(k0);
                assert(trees::sound_tree(model::at(k0, name@)));
                place::lemma_graft_child(rep.state().tree, p, m, name@, 0, Map::empty());
                if within(k0, depth as nat) {
                    lemma_within(k0, depth as nat, name@);
                }
            }
        }
        if fd.is_dir() {
            if depth == 0 {
                return Err(Error::new(ErrorKind::DirectoryTooDeep));
            }
            let mut sub: A::Directory = match rep.chdir(dir, name.as_slice()) {
                Ok(d) => d,
                Err(e) => {
                    return Err(e);
                },
            };
            let ghost t1 = rep.state().tree;
            let ghost m1 = sub.modes();
            let ghost n = name@;
            proof {
                if good {
                    lemma_standing(&sub, t1);
                }
            }
            match remove_recursively(rep, &mut sub, depth - 1) {
                Ok(_) => {},
                Err(e) => {
                    return Err(e);
                },
            }
            proof {
                if good {
                    place::lemma_graft_modes(t1, p.push(n), m1, m.push(0), Map::empty());
                    let k2 = place::grown(k, n, 0, Map::empty());
                    place::lemma_graft_twice(s0.tree, p, m, k, k2);
                    place::lemma_graft_get(s0.tree, p, m, k2);
                    place::lemma_graft_there(s0.tree, p, m, k2);
                    place::lemma_graft_twice(s0.tree, p, m, k2, k2.remove(n));
                    assert(k2.remove(n) =~= k.remove(n));
                }
            }
        } else {
            proof {
                if good {
                    place::lemma_graft_twice(s0.tree, p, m, k, k.remove(name@));
                }
            }
        }
        match rep.remove(dir, File(name.as_slice(), fd)) {
            Ok(_) => {},
            Err(e) => {
                return Err(e);
            },
        }
        i += 1;
    }
    proof {
        if good {
            lemma_left(k0, l@, i as int);
        }
    }
    Ok(())
}

/// A handle of a directory that exists at every level can be used.
pub proof fn lemma_standing<D: ReplicaDirectory>(d: &D, tree: Kids)
    requires
        d.modes().len() == d.path().len(),
        d.solid() <= d.path().len(),
        place::is_there(tree, d.path()),
    ensures
        standing(d, tree),
{
    lemma_there_makeable(tree, d.path());
    lemma_there_prefix(tree, d.path(), d.solid());
}

pub proof fn lemma_there_makeable(k: Kids, p: Path)
    requires
        place::is_there(k, p),
    ensures
        replica::makeable(k, p),
    decreases p.len(),
{
    if p.len() > 0 {
        lemma_there_makeable(k[p[0]].kids, p.drop_first());
    }
}

/// Every directory on the way to one that exists does, too.
pub proof fn lemma_there_prefix(k: Kids, p: Path, i: nat)
    requires
        place::is_there(k, p),
        i <= p.len(),
    ensures
        place::is_there(k, p.take(i as int)),
    decreases p.len(),
{
    if i > 0 {
        lemma_there_prefix(k[p[0]].kids, p.drop_first(), (i - 1) as nat);
        assert(p.take(i as int).drop_first() =~= p.drop_first().take(i - 1));
    }
}

/// What is in a directory of a sound tree is sound.
pub proof fn lemma_sound_kids_of(k: Kids, p: Path)
    requires
        trees::sound(k),
    ensures
        trees::sound(place::kids_of(k, p)),
    decreases p.len(),
{
    if p.len() > 0 {
        trees::lemma_sound(k);
        assert(trees::sound_tree(model::at(k, p[0])));
        super::laws::lemma_nothing_is_sound();
        lemma_sound_kids_of(model::kids(model::at(k, p[0])), p.drop_first());
    }
}

/// A directory in which there is something exists.
pub proof fn lemma_held_is_there(k: Kids, p: Path)
    requires
        trees::sound(k),
        place::kids_of(k, p) != Map::<Seq<u8>, Node>::empty(),
    ensures
        place::is_there(k, p),
    decreases p.len(),
{
    if p.len() > 0 {
        trees::lemma_sound(k);
        let v = model::at(k, p[0]);
        assert(trees::sound_tree(v));
        if v is None || !v->0.data.is_dir() {
            place::lemma_kids_of_nothing(p.drop_first());
            assert(model::kids(v) =~= Map::empty());
        }
        lemma_held_is_there(model::kids(v), p.drop_first());
    }
}

/// Giving a file the state that it has changes nothing.
pub proof fn lemma_replaced_same(k: Kids, n: Seq<u8>)
    requires
        trees::sound(k),
    ensures
        model::with(k, n, model::replaced(model::at(k, n), model::data(model::at(k, n)))) == k,
{
    trees::lemma_sound(k);
    assert(trees::sound_tree(model::at(k, n)));
    assert(model::with(k, n, model::replaced(model::at(k, n), model::data(model::at(k, n)))) =~= k);
}

/// Whether an ideal replica holds in the directory of a handle what a table
/// says.
pub open spec fn matching<R: Replica>(
    rep: &R,
    dir: &R::Directory,
    files: NameMap<FileData>,
) -> bool {
    &&& rep.ideal()
    &&& replica::usable(dir, rep.state().tree)
    &&& context::agreed(files, place::kids_of(rep.state().tree, dir.path()))
}

/// Whether a replica in which nothing is condemned holds in the directory of a
/// handle what a table says.
pub open spec fn in_step<R: Replica>(
    rep: &R,
    dir: &R::Directory,
    files: NameMap<FileData>,
) -> bool {
    matching(rep, dir, files) && sane(rep)
}

/// Whether the directory of a handle has come to hold `k`, and nothing else
/// has changed.
pub open spec fn came_to<R: Replica>(
    before: &R,
    after: &R,
    dir: &R::Directory,
    dir_after: &R::Directory,
    k: Kids,
) -> bool {
    &&& after.ideal()
    &&& replica::same_handle(dir_after, dir)
    &&& after.state().tree == place::graft(before.state().tree, dir.path(), dir.modes(), k)
}

/// Whether whatever became of the directory of a handle, the rest is as it
/// was.
pub open spec fn bounded<R: Replica>(
    before: &R,
    after: &R,
    dir: &R::Directory,
    dir_after: &R::Directory,
) -> bool {
    &&& after.ideal()
    &&& replica::same_handle(dir_after, dir)
    &&& replica::restructured(before.state(), after.state(), dir.path())
}

/// What is in the directory of a handle.
pub open spec fn held<R: Replica>(rep: &R, dir: &R::Directory) -> Kids {
    place::kids_of(rep.state().tree, dir.path())
}

/// `k` with the file named `n` given the state `new`.
pub open spec fn put(k: Kids, n: Seq<u8>, new: Option<FileModel>) -> Kids {
    model::with(k, n, model::replaced(model::at(k, n), new))
}

/// Updates the ancestor replica so that the file identified by `name` is
/// changed from the state `old` to the state `new`.
///
/// On success, `files` is updated accordingly.
///
/// This automatically handles issues like needing to recursively remove
/// directories if `old` is an existing directory and `new` is not.
pub fn replace_ancestor<A: Replica + NullTransfer>(
    rep: &mut A,
    in_dir: &mut A::Directory,
    files: &mut NameMap<FileData>,
    name: &[u8],
    old_fd: Option<&FileData>,
    new_fd: Option<&FileData>,
) -> (r: Result<()>)
    requires
        defs::opt_view(old_fd) == context::file_at(context::models(*old(files)), name@),
    ensures
        replica::kept(old(rep), final(rep)),
        defs::opt_view(old_fd) == defs::opt_view(new_fd) ==> r is Ok && *final(rep) == *old(rep)
            && *final(in_dir) == *old(in_dir),
        r is Ok ==> context::models(*final(files)) == context::with_file(
            context::models(*old(files)),
            name@,
            defs::opt_view(new_fd),
        ),
        r is Err ==> final(files)@ == old(files)@,
        in_step(old(rep), old(in_dir), *old(files)) ==> {
            let k = held(old(rep), old(in_dir));
            &&& bounded(old(rep), final(rep), old(in_dir), final(in_dir))
            &&& r is Ok ==> came_to(
                old(rep),
                final(rep),
                old(in_dir),
                final(in_dir),
                put(k, name@, defs::opt_view(new_fd)),
            )
            &&& old(rep).state().faultless && within(k, usize::MAX as nat) ==> r is Ok
        },
{
    let ghost good = in_step(rep, in_dir, *files);
    let ghost t0 = rep.state().tree;
    let ghost p = in_dir.path();
    let ghost m = in_dir.modes();
    let ghost k = held(rep, in_dir);
    let ghost n = name@;
    let ghost new = defs::opt_view(new_fd);
    let ghost files0 = context::models(*files);
    proof {
        if good {
            rep.lemma_sound();
            lemma_sound_kids_of(t0, p);
            place::lemma_graft_same(t0, p, m);
            assert(context::file_at(files0, n) == model::data(model::at(k, n)));
            trees::lemma_sound(k);
            assert(trees::sound_tree(model::at(k, n)));
        }
    }
    if defs::opt_same(old_fd, new_fd) {
        proof {
            assert(context::with_file(files0, n, new) =~= files0);
            if good {
                lemma_replaced_same(k, n);
            }
        }
        return Ok(());
    }
    // If old is a directory and new isn't, recursively remove old
    if defs::is_dir(old_fd) && !defs::is_dir(new_fd) {
        proof {
            if good {
                lemma_held_is_there(t0, p);
                place::lemma_graft_child(t0, p, m, n, 0, Map::empty());
                if within(k, usize::MAX as nat) {
                    lemma_within(k, usize::MAX as nat, n);
                    assert(within(k[n].kids, usize::MAX as nat));
                }
            }
        }
        let mut sub: A::Directory = match rep.chdir(in_dir, name) {
            Ok(d) => d,
            Err(e) => {
                return Err(e);
            },
        };
        proof {
            if good {
                lemma_standing(&sub, t0);
            }
        }
        let ghost m1 = sub.modes();
        match remove_recursively(rep, &mut sub, usize::MAX) {
            Ok(_) => {},
            Err(e) => {
                return Err(e);
            },
        }
        proof {
            if good {
                place::lemma_graft_modes(t0, p.push(n), m1, m.push(0), Map::empty());
                let k2 = place::grown(k, n, 0, Map::empty());
                place::lemma_graft_get(t0, p, m, k2);
                place::lemma_graft_there(t0, p, m, k2);
                place::lemma_graft_twice(t0, p, m, k2, put(k2, n, new));
                assert(put(k2, n, new) =~= put(k, n, new));
            }
        }
    }
    match (old_fd, new_fd) {
        (None, None) => {},
        (Some(oldfd), None) => {
            proof {
                if good {
                    lemma_held_is_there(t0, p);
                    assert(put(k, n, new) =~= k.remove(n));
                }
            }
            match rep.remove(in_dir, File(name, oldfd)) {
                Ok(_) => {},
                Err(e) => {
                    return Err(e);
                },
            }
            let _ = files.remove(name);
        },
        (None, Some(newfd)) => {
            match rep.create(in_dir, File(name, newfd), A::null_transfer(newfd)) {
                Ok(_) => {},
                Err(e) => {
                    return Err(e);
                },
            }
            let _ = files.insert(bytes::copy(name), newfd.clone());
        },
        (Some(oldfd), Some(newfd)) => {
            proof {
                if good {
                    lemma_held_is_there(t0, p);
                }
            }
            match rep.update(in_dir, name, oldfd, newfd, A::null_transfer(newfd)) {
                Ok(_) => {},
                Err(e) => {
                    return Err(e);
                },
            }
            let _ = files.insert(bytes::copy(name), newfd.clone());
        },
    }
    assert(context::models(*files) =~= context::with_file(files0, n, new));
    Ok(())
}

/// Whether `l` is `before` with the report of a failure added.
pub open spec fn reported(
    before: Seq<(LogLevel, LogModel)>,
    l: Seq<(LogLevel, LogModel)>,
    side: ReplicaSide,
    dir_name: Seq<u8>,
    op: OperationModel,
    e: Error,
) -> bool {
    l == before.push((e.level, LogModel::Error(side, dir_name, op, e)))
}

/// Like `replace_ancestor()`, but handles errors by sending them to the
/// logger.
///
/// Returns whether successful.
pub fn try_replace_ancestor<A: Replica + NullTransfer, LOG: Logger>(
    rep: &mut A,
    in_dir: &mut A::Directory,
    files: &mut NameMap<FileData>,
    dir_name: &[u8],
    name: &[u8],
    old_fd: Option<&FileData>,
    new_fd: Option<&FileData>,
    logger: &mut LOG,
) -> (r: bool)
    requires
        defs::opt_view(old_fd) == context::file_at(context::models(*old(files)), name@),
    ensures
        replica::kept(old(rep), final(rep)),
        defs::opt_view(old_fd) == defs::opt_view(new_fd) ==> r && *final(rep) == *old(rep)
            && *final(in_dir) == *old(in_dir),
        r ==> context::models(*final(files)) == context::with_file(
            context::models(*old(files)),
            name@,
            defs::opt_view(new_fd),
        ) && final(logger).logged() == old(logger).logged(),
        !r ==> final(files)@ == old(files)@ && exists|e: Error| #[trigger]
            reported(
                old(logger).logged(),
                final(logger).logged(),
                ReplicaSide::Ancestor,
                dir_name@,
                OperationModel::Update(name@),
                e,
            ),
        in_step(old(rep), old(in_dir), *old(files)) ==> {
            let k = held(old(rep), old(in_dir));
            &&& bounded(old(rep), final(rep), old(in_dir), final(in_dir))
            &&& r ==> came_to(
                old(rep),
                final(rep),
                old(in_dir),
                final(in_dir),
                put(k, name@, defs::opt_view(new_fd)),
            )
            &&& old(rep).state().faultless && within(k, usize::MAX as nat) ==> r
        },
{
    match replace_ancestor(rep, in_dir, files, name, old_fd, new_fd) {
        Ok(_) => true,
        Err(error) => {
            logger.log(
                error.level(),
                &Log::Error(
                    ReplicaSide::Ancestor,
                    dir_name,
                    ErrorOperation::Update(name),
                    &error,
                ),
            );
            assert(reported(
                old(logger).logged(),
                logger.logged(),
                ReplicaSide::Ancestor,
                dir_name@,
                OperationModel::Update(name@),
                error,
            ));
            false
        },
    }
}

/// Whether `l` is `before` with one more entry, for an edit, and the report of its
/// failure if it failed.
pub open spec fn attempted(
    before: Seq<(LogLevel, LogModel)>,
    l: Seq<(LogLevel, LogModel)>,
    what: LogModel,
    side: ReplicaSide,
    dir_name: Seq<u8>,
    op: OperationModel,
    failure: Option<Error>,
) -> bool {
    let started = before.push((log::EDIT, what));
    l == match failure {
        Some(e) => started.push((e.level, LogModel::Error(side, dir_name, op, e))),
        None => started,
    }
}

/// What is logged about the change of a file from one state to another.
pub open spec fn change(
    side: ReplicaSide,
    dir_name: Seq<u8>,
    name: Seq<u8>,
    before: Option<FileModel>,
    after: Option<FileModel>,
) -> (LogModel, OperationModel) {
    match (before, after) {
        (Some(x), None) => (
            LogModel::Remove(side, dir_name, name, x),
            OperationModel::Remove(name),
        ),
        (Some(x), Some(y)) => (
            LogModel::Update(side, dir_name, name, x, y),
            OperationModel::Update(name),
        ),
        (None, Some(y)) => (
            LogModel::Create(side, dir_name, name, y),
            OperationModel::Create(name),
        ),
        (None, None) => (LogModel::Rmdir(side, dir_name), OperationModel::Rmdir),
    }
}

/// Whether two files are the same but for their unix modes, or there is none.
pub open spec fn similar(x: Option<FileModel>, y: Option<FileModel>) -> bool {
    match (x, y) {
        (Some(a), Some(b)) => a.matches_content(b),
        (None, None) => true,
        _ => false,
    }
}

/// `k` after the file named `n`, which is taken to be in the state `old_fd`, has
/// been given the state `new`.
pub open spec fn turned(
    k: Kids,
    n: Seq<u8>,
    old_fd: Option<FileModel>,
    new: Option<FileModel>,
) -> Kids {
    if old_fd == new {
        k
    } else {
        put(k, n, new)
    }
}

/// Updates an end replica as necessary.
///
/// The state of the file identified by `name` within `dst_dir` will be
/// transitioned from state `old` to `new`, transferring from the same file in
/// `src_dir` in `src` if needed.
///
/// Logs about activities and errors are recorded, reporting `side` as the
/// replica being mutated.
///
/// On success, `dst_files` is updated according to the update.
///
/// Note that this does not handle removal or replacement of non-empty
/// directories itself; such operations will simply fail.
///
/// Returns the actual new state of the file on success.
pub fn replace_replica<DST: Replica, SRC: Replica<TransferOut = DST::TransferIn>, LOG: Logger>(
    dst: &mut DST,
    dst_dir: &mut DST::Directory,
    dst_files: &mut NameMap<FileData>,
    src: &mut SRC,
    src_dir: &SRC::Directory,
    dir_name: &[u8],
    name: &[u8],
    old_fd: Option<&FileData>,
    new_fd: Option<&FileData>,
    logger: &mut LOG,
    side: ReplicaSide,
) -> (r: Result<Option<FileData>>)
    requires
        old_fd is Some <==> old(dst_files)@.dom().contains(name@),
    ensures
        replica::kept(old(dst), final(dst)),
        replica::kept(old(src), final(src)),
        defs::opt_view(old_fd) == defs::opt_view(new_fd) ==> r is Ok && defs::opt_model(r->Ok_0)
            == defs::opt_view(old_fd) && final(dst_files)@ == old(dst_files)@
            && final(logger).logged() == old(logger).logged() && *final(dst) == *old(dst)
            && *final(dst_dir) == *old(dst_dir),
        defs::opt_view(old_fd) != defs::opt_view(new_fd) ==> {
            let (what, op) = change(
                side,
                dir_name@,
                name@,
                defs::opt_view(old_fd),
                defs::opt_view(new_fd),
            );
            &&& r matches Ok(fd) ==> (fd is Some <==> new_fd is Some) && context::models(
                *final(dst_files),
            ) == context::with_file(
                context::models(*old(dst_files)),
                name@,
                defs::opt_model(fd),
            )
            &&& r is Err ==> final(dst_files)@ == old(dst_files)@
            &&& attempted(
                old(logger).logged(),
                final(logger).logged(),
                what,
                side,
                dir_name@,
                op,
                errors::failure(r),
            )
        },
        sane(old(src)) ==> final(src).ideal() && final(src).state() == old(src).state(),
        in_step(old(dst), old(dst_dir), *old(dst_files)) ==> bounded(
            old(dst),
            final(dst),
            old(dst_dir),
            final(dst_dir),
        ),
        in_step(old(dst), old(dst_dir), *old(dst_files)) && defs::opt_view(old_fd) == model::data(
            model::at(held(old(dst), old(dst_dir)), name@),
        ) ==> (r matches Ok(fd) ==> came_to(
            old(dst),
            final(dst),
            old(dst_dir),
            final(dst_dir),
            put(held(old(dst), old(dst_dir)), name@, defs::opt_model(fd)),
        )),
        in_step(old(dst), old(dst_dir), *old(dst_files)) && sane(old(src)) && similar(
            defs::opt_view(old_fd),
            model::data(model::at(held(old(dst), old(dst_dir)), name@)),
        ) && (new_fd is Some ==> similar(
            defs::opt_view(new_fd),
            model::data(model::at(held(old(src), src_dir), name@)),
        )) ==> {
            let k = held(old(dst), old(dst_dir));
            &&& r matches Ok(fd) ==> defs::opt_model(fd) == defs::opt_view(new_fd) && came_to(
                old(dst),
                final(dst),
                old(dst_dir),
                final(dst_dir),
                turned(k, name@, defs::opt_view(old_fd), defs::opt_view(new_fd)),
            )
            &&& defs::opt_view(old_fd) == model::data(model::at(k, name@))
                && old(dst).state().faultless && old(src).state().faultless && (defs::opt_is_dir(
                defs::opt_view(old_fd),
            ) && !defs::opt_is_dir(defs::opt_view(new_fd)) ==> model::kids(model::at(k, name@))
                == Map::<Seq<u8>, Node>::empty()) ==> r is Ok
        },
{
    let ghost t0 = dst.state().tree;
    let ghost p = dst_dir.path();
    let ghost m = dst_dir.modes();
    let ghost k = held(dst, dst_dir);
    let ghost n = name@;
    let ghost new = defs::opt_view(new_fd);
    let ghost old_view = defs::opt_view(old_fd);
    let ghost files0 = context::models(*dst_files);
    let ghost l0 = logger.logged();
    let ghost good = in_step(dst, dst_dir, *dst_files);
    proof {
        if good {
            dst.lemma_sound();
            lemma_sound_kids_of(t0, p);
            place::lemma_graft_same(t0, p, m);
            trees::lemma_sound(k);
            assert(trees::sound_tree(model::at(k, n)));
            if similar(old_view, model::data(model::at(k, n))) && old_fd is Some {
                lemma_held_is_there(t0, p);
            }
        }
        if sane(src) {
            src.lemma_sound();
            if new_fd is Some && similar(new, model::data(model::at(held(src, src_dir), n))) {
                lemma_held_is_there(src.state().tree, src_dir.path());
            }
        }
    }
    if defs::opt_same(old_fd, new_fd) {
        proof {
            if good && old_view == model::data(model::at(k, n)) {
                lemma_replaced_same(k, n);
            }
        }
        return Ok(defs::opt_copy(old_fd));
    }
    match (old_fd, new_fd) {
        (None, None) => Ok(None),
        (Some(oldfd), None) => {
            // Deletion.
            logger.log(log::EDIT, &Log::Remove(side, dir_name, name, oldfd));
            match dst.remove(dst_dir, File(name, oldfd)) {
                Ok(_) => {
                    let _ = dst_files.remove(name);
                    assert(context::models(*dst_files) =~= context::with_file(files0, n, None));
                    assert(put(k, n, None) =~= k.remove(n));
                    Ok(None)
                },
                Err(error) => {
                    logger.log(
                        error.level(),
                        &Log::Error(side, dir_name, ErrorOperation::Remove(name), &error),
                    );
                    Err(error)
                },
            }
        },
        (Some(oldfd), Some(newfd)) => {
            // Update.
            logger.log(log::EDIT, &Log::Update(side, dir_name, name, oldfd, newfd));
            let xfer = match src.transfer(src_dir, File(name, newfd)) {
                Ok(xfer) => xfer,
                Err(error) => {
                    logger.log(
                        error.level(),
                        &Log::Error(side, dir_name, ErrorOperation::Update(name), &error),
                    );
                    return Err(error);
                },
            };
            match dst.update(dst_dir, name, oldfd, newfd, xfer) {
                Ok(r) => {
                    // We need to insert r, not newfd, because newfd may be
                    // out-of-date.
                    let _ = dst_files.insert(bytes::copy(name), r.clone());
                    assert(context::models(*dst_files) =~= context::with_file(
                        files0,
                        n,
                        Some(r@),
                    ));
                    Ok(Some(r))
                },
                Err(error) => {
                    logger.log(
                        error.level(),
                        &Log::Error(side, dir_name, ErrorOperation::Update(name), &error),
                    );
                    Err(error)
                },
            }
        },
        (None, Some(newfd)) => {
            // Insertion.
            logger.log(log::EDIT, &Log::Create(side, dir_name, name, newfd));
            let xfer = match src.transfer(src_dir, File(name, newfd)) {
                Ok(xfer) => xfer,
                Err(error) => {
                    logger.log(
                        error.level(),
                        &Log::Error(side, dir_name, ErrorOperation::Create(name), &error),
                    );
                    return Err(error);
                },
            };
            match dst.create(dst_dir, File(name, newfd), xfer) {
                Ok(r) => {
                    // We need to insert r, not newfd, because newfd may be
                    // out-of-date.
                    let _ = dst_files.insert(bytes::copy(name), r.clone());
                    assert(context::models(*dst_files) =~= context::with_file(
                        files0,
                        n,
                        Some(r@),
                    ));
                    Ok(Some(r))
                },
                Err(error) => {
                    logger.log(
                        error.level(),
                        &Log::Error(side, dir_name, ErrorOperation::Create(name), &error),
                    );
                    Err(error)
                },
            }
        },
    }
}

/// Renames a file on a replica.
///
/// The file identified by `old_name` is renamed to `new_name` within `dir` in
/// `rep`. When successful, `files` is updated accordingly.
///
/// Information and errors are sent to the logger using the given `side`.
///
/// Returns whether successful.
pub fn try_rename_replica<A: Replica, LOG: Logger>(
    rep: &mut A,
    dir: &mut A::Directory,
    files: &mut NameMap<FileData>,
    dir_name: &[u8],
    old_name: &[u8],
    new_name: &[u8],
    logger: &mut LOG,
    side: ReplicaSide,
) -> (r: bool)
    requires
        old(files)@.dom().contains(old_name@),
    ensures
        replica::kept(old(rep), final(rep)),
        r ==> final(files)@ == old(files)@.remove(old_name@).insert(
            new_name@,
            old(files)@[old_name@],
        ) && final(logger).logged() == old(logger).logged().push(
            (log::EDIT, LogModel::Rename(side, dir_name@, old_name@, new_name@)),
        ),
        !r ==> final(files)@ == old(files)@ && exists|e: Error| #[trigger]
            attempted(
                old(logger).logged(),
                final(logger).logged(),
                LogModel::Rename(side, dir_name@, old_name@, new_name@),
                side,
                dir_name@,
                OperationModel::Rename(old_name@),
                Some(e),
            ),
        matching(old(rep), old(dir), *old(files)) ==> {
            let k = held(old(rep), old(dir));
            &&& bounded(old(rep), final(rep), old(dir), final(dir))
            &&& r ==> came_to(
                old(rep),
                final(rep),
                old(dir),
                final(dir),
                model::renamed(k, old_name@, new_name@),
            )
            &&& old(rep).state().faultless && !k.dom().contains(new_name@) ==> r
        },
{
    proof {
        if matching(rep, dir, *files) {
            rep.lemma_sound();
            assert(replica::listing(held(rep, dir)).dom().contains(old_name@));
            lemma_held_is_there(rep.state().tree, dir.path());
        }
    }
    logger.log(log::EDIT, &Log::Rename(side, dir_name, old_name, new_name));
    match rep.rename(dir, old_name, new_name) {
        Ok(_) => {
            if let Some(removed) = files.remove(old_name) {
                let _ = files.insert(bytes::copy(new_name), removed);
            }
            true
        },
        Err(error) => {
            logger.log(
                error.level(),
                &Log::Error(side, dir_name, ErrorOperation::Rename(old_name), &error),
            );
            assert(attempted(
                old(logger).logged(),
                logger.logged(),
                LogModel::Rename(side, dir_name@, old_name@, new_name@),
                side,
                dir_name@,
                OperationModel::Rename(old_name@),
                Some(error),
            ));
            false
        },
    }
}

/// Return type from `apply_reconciliation()`.
#[derive(Clone, Copy, Debug, PartialEq, Eq, Structural)]
pub enum ApplyResult {
    /// Any changes needed have been applied. The field indicates whether the
    /// final file is a directory and should be entered recursively.
    Clean(bool),
    /// Changes have failed. Do not mark parent directories clean.
    Fail,
    /// A directory on the identified side is being (probably) recursively
    /// deleted. Recurse, creating a synthetic directory on the opposite end
    /// replica. After recursion, if the directories are empty, remove them in
    /// the ancestor and this end replica.
    ///
    /// Should synthetic directories be created, they shall use the mode
    /// indicated.
    RecursiveDelete(ReconciliationSide, FileMode),
}

/// Whether using the source's version means deleting a directory.
pub open spec fn deletes_dir(dst: Option<FileModel>, src: Option<FileModel>) -> bool {
    defs::opt_is_dir(dst) && src is None
}

/// The log after a file of an end replica has been given the state that it has
/// on the other.
pub open spec fn used_log(
    before: Seq<(LogLevel, LogModel)>,
    side: ReplicaSide,
    dir_name: Seq<u8>,
    name: Seq<u8>,
    dst: Option<FileModel>,
    src: Option<FileModel>,
) -> Seq<(LogLevel, LogModel)> {
    if deletes_dir(dst, src) || dst == src {
        before
    } else {
        before.push((log::EDIT, change(side, dir_name, name, dst, src).0))
    }
}

/// The log after a file has been given the alternate name `new`; `anc` says
/// whether the ancestor has been renamed, too.
pub open spec fn split_log(
    before: Seq<(LogLevel, LogModel)>,
    side: ReplicaSide,
    dir_name: Seq<u8>,
    name: Seq<u8>,
    new: Seq<u8>,
    anc: bool,
) -> Seq<(LogLevel, LogModel)> {
    let l = before.push((log::EDIT, LogModel::Rename(side, dir_name, name, new)));
    if anc {
        l.push((log::EDIT, LogModel::Rename(ReplicaSide::Ancestor, dir_name, name, new)))
    } else {
        l
    }
}

/// The log after a reconciliation has been applied to a file, which has the
/// states `cli` and `srv`, and which the ancestor has if `anc` is set. Where it
/// is split, its new name is `new`.
pub open spec fn applied_log(
    before: Seq<(LogLevel, LogModel)>,
    dir_name: Seq<u8>,
    name: Seq<u8>,
    recon: Reconciliation,
    cli: Option<FileModel>,
    srv: Option<FileModel>,
    anc: bool,
    new: Seq<u8>,
) -> Seq<(LogLevel, LogModel)> {
    match recon {
        Reconciliation::Use(ReconciliationSide::Client) => used_log(
            before,
            ReplicaSide::Server,
            dir_name,
            name,
            srv,
            cli,
        ),
        Reconciliation::Use(ReconciliationSide::Server) => used_log(
            before,
            ReplicaSide::Client,
            dir_name,
            name,
            cli,
            srv,
        ),
        Reconciliation::Split(side, st) => split_log(
            before,
            side.replica(),
            dir_name,
            name,
            new,
            anc && st == SplitAncestorState::Move,
        ),
        _ => before,
    }
}

/// Nothing that is logged where a reconciliation has been applied is an error.
pub proof fn lemma_applied_log(
    before: Seq<(LogLevel, LogModel)>,
    dir_name: Seq<u8>,
    name: Seq<u8>,
    recon: Reconciliation,
    cli: Option<FileModel>,
    srv: Option<FileModel>,
    anc: bool,
    new: Seq<u8>,
)
    ensures
        log::flawless(
            before,
            applied_log(before, dir_name, name, recon, cli, srv, anc, new),
        ),
{
    reveal(log::flawless);
}

/// Gives the file of one end replica the state that it has on the other.
///
/// Returns the new state, or what `apply_reconciliation()` is to return.
fn apply_use<
    DST: Replica,
    ANC: Replica + NullTransfer,
    SRC: Replica<TransferOut = DST::TransferIn>,
    LOG: Logger,
>(
    dst: &mut DST,
    dst_dir: &mut DST::Directory,
    dst_files: &mut NameMap<FileData>,
    anc: &mut ANC,
    anc_dir: &mut ANC::Directory,
    anc_files: &mut NameMap<FileData>,
    src: &mut SRC,
    src_dir: &SRC::Directory,
    dir_name: &[u8],
    name: &[u8],
    old_dst: Option<&FileData>,
    old_src: Option<&FileData>,
    logger: &mut LOG,
    side: ReconciliationSide,
) -> (r: std::result::Result<Option<FileData>, ApplyResult>)
    requires
        old_dst is Some <==> old(dst_files)@.dom().contains(name@),
        defs::opt_is_dir(defs::opt_view(old_dst)) ==> old_src is None || defs::opt_is_dir(
            defs::opt_view(old_src),
        ),
    ensures
        replica::kept(old(dst), final(dst)),
        replica::kept(old(anc), final(anc)),
        replica::kept(old(src), final(src)),
        deletes_dir(defs::opt_view(old_dst), defs::opt_view(old_src)) ==> {
            &&& *final(dst) == *old(dst)
            &&& *final(dst_dir) == *old(dst_dir)
            &&& *final(dst_files) == *old(dst_files)
            &&& *final(src) == *old(src)
            &&& r == Err::<Option<FileData>, ApplyResult>(ApplyResult::Fail) || r == Err::<
                Option<FileData>,
                ApplyResult,
            >(ApplyResult::RecursiveDelete(side, model::dir_mode(defs::opt_view(old_dst))))
            &&& r->Err_0 != ApplyResult::Fail ==> context::models(*final(anc_files))
                == context::with_file(
                context::models(*old(anc_files)),
                name@,
                defs::opt_view(old_dst),
            )
            &&& r->Err_0 == ApplyResult::Fail ==> final(anc_files)@ == old(anc_files)@
            &&& in_step(old(anc), old(anc_dir), *old(anc_files)) ==> {
                let k = held(old(anc), old(anc_dir));
                &&& bounded(old(anc), final(anc), old(anc_dir), final(anc_dir))
                &&& r->Err_0 != ApplyResult::Fail ==> came_to(
                    old(anc),
                    final(anc),
                    old(anc_dir),
                    final(anc_dir),
                    put(k, name@, defs::opt_view(old_dst)),
                )
                &&& old(anc).state().faultless && within(k, usize::MAX as nat) ==> r->Err_0
                    != ApplyResult::Fail
            }
        },
        !deletes_dir(defs::opt_view(old_dst), defs::opt_view(old_src)) ==> {
            &&& *final(anc) == *old(anc)
            &&& *final(anc_dir) == *old(anc_dir)
            &&& *final(anc_files) == *old(anc_files)
            &&& r is Err ==> r->Err_0 == ApplyResult::Fail && final(dst_files)@ == old(dst_files)@
            &&& defs::opt_view(old_dst) == defs::opt_view(old_src) ==> r is Ok && defs::opt_model(
                r->Ok_0,
            ) == defs::opt_view(old_dst) && final(dst_files)@ == old(dst_files)@
            &&& defs::opt_view(old_dst) != defs::opt_view(old_src) ==> (r matches Ok(fd) ==> (fd
                is Some <==> old_src is Some) && context::models(*final(dst_files))
                == context::with_file(
                context::models(*old(dst_files)),
                name@,
                defs::opt_model(fd),
            ))
            &&& in_step(old(dst), old(dst_dir), *old(dst_files)) ==> bounded(
                old(dst),
                final(dst),
                old(dst_dir),
                final(dst_dir),
            )
            &&& in_step(old(dst), old(dst_dir), *old(dst_files)) && sane(old(src)) && similar(
                defs::opt_view(old_dst),
                model::data(model::at(held(old(dst), old(dst_dir)), name@)),
            ) && (old_src is Some ==> similar(
                defs::opt_view(old_src),
                model::data(model::at(held(old(src), src_dir), name@)),
            )) ==> {
                let k = held(old(dst), old(dst_dir));
                &&& r matches Ok(fd) ==> defs::opt_model(fd) == defs::opt_view(old_src) && came_to(
                    old(dst),
                    final(dst),
                    old(dst_dir),
                    final(dst_dir),
                    turned(k, name@, defs::opt_view(old_dst), defs::opt_view(old_src)),
                )
                &&& defs::opt_view(old_dst) == model::data(model::at(k, name@))
                    && old(dst).state().faultless && old(src).state().faultless ==> r is Ok
            }
        },
        sane(old(src)) ==> final(src).ideal() && final(src).state() == old(src).state(),
        log::acted(old(logger).logged(), final(logger).logged()),
        !(r matches Err(ApplyResult::Fail)) ==> final(logger).logged() == used_log(
            old(logger).logged(),
            side.replica(),
            dir_name@,
            name@,
            defs::opt_view(old_dst),
            defs::opt_view(old_src),
        ),
{
    proof {
        reveal(log::acted);
    }
    // If we're deleting a directory, we need to recurse first and let
    // reconciliation empty it naturally.
    if let (Some(FileData::Directory(mode)), None) = (old_dst, old_src) {
        // Ensure the ancestor is a directory matching the side we're going to
        // delete, so (a) we can chdir into it; (b) should we end up
        // propagating files out of the recursive "delete", there's something
        // to hold them.
        let old_anc = match anc_files.get(name) {
            Some(fd) => Some(fd.clone()),
            None => None,
        };
        if try_replace_ancestor(
            anc,
            anc_dir,
            anc_files,
            dir_name,
            name,
            defs::opt_ref(&old_anc),
            old_dst,
            logger,
        ) {
            Err(ApplyResult::RecursiveDelete(side, *mode))
        } else {
            Err(ApplyResult::Fail)
        }
    } else {
        // Do the actual replacement.
        match replace_replica(
            dst,
            dst_dir,
            dst_files,
            src,
            src_dir,
            dir_name,
            name,
            old_dst,
            old_src,
            logger,
            ReplicaSide::from(side),
        ) {
            Ok(r) => Ok(r),
            Err(_) => Err(ApplyResult::Fail),
        }
    }
}

/// What the three replicas hold in the directory of a context.
pub open spec fn trio<CLI: Replica, ANC: Replica, SRV: Replica, LOG, INT, R>(
    ctx: &Context<CLI, ANC, SRV, LOG, INT>,
    dir: &DirContext<CLI::Directory, ANC::Directory, SRV::Directory, R>,
) -> Trio {
    Trio {
        c: held(&ctx.cli, &dir.cli.dir),
        a: held(&ctx.anc, &dir.anc.dir),
        s: held(&ctx.srv, &dir.srv.dir),
    }
}

/// Whether the three replicas hold in the directory of a context what its
/// tables say.
pub open spec fn all_in_step<CLI: Replica, ANC: Replica, SRV: Replica, LOG, INT, R>(
    ctx: &Context<CLI, ANC, SRV, LOG, INT>,
    dir: &DirContext<CLI::Directory, ANC::Directory, SRV::Directory, R>,
) -> bool {
    &&& in_step(&ctx.cli, &dir.cli.dir, dir.cli.files)
    &&& in_step(&ctx.anc, &dir.anc.dir, dir.anc.files)
    &&& in_step(&ctx.srv, &dir.srv.dir, dir.srv.files)
}

/// Whether a replica has come to hold `k` in the directory of a handle, its
/// table says so, and the rest is as it was.
pub open spec fn advanced_one<R: Replica>(
    before: &R,
    after: &R,
    dir: &R::Directory,
    dir_after: &R::Directory,
    files_after: NameMap<FileData>,
    k: Kids,
) -> bool {
    &&& bounded(before, after, dir, dir_after)
    &&& came_to(before, after, dir, dir_after, k)
    &&& in_step(after, dir_after, files_after)
    &&& held(after, dir_after) == k
}

/// Whether the three replicas have come to hold `t` in the directory of a
/// context, the tables say so, and the rest is as it was.
pub open spec fn advanced<CLI: Replica, ANC: Replica, SRV: Replica, LOG, INT, R>(
    ctx: &Context<CLI, ANC, SRV, LOG, INT>,
    after: &Context<CLI, ANC, SRV, LOG, INT>,
    dir: &DirContext<CLI::Directory, ANC::Directory, SRV::Directory, R>,
    dir_after: &DirContext<CLI::Directory, ANC::Directory, SRV::Directory, R>,
    t: Trio,
) -> bool {
    &&& advanced_one(
        &ctx.cli,
        &after.cli,
        &dir.cli.dir,
        &dir_after.cli.dir,
        dir_after.cli.files,
        t.c,
    )
    &&& advanced_one(
        &ctx.anc,
        &after.anc,
        &dir.anc.dir,
        &dir_after.anc.dir,
        dir_after.anc.files,
        t.a,
    )
    &&& advanced_one(
        &ctx.srv,
        &after.srv,
        &dir.srv.dir,
        &dir_after.srv.dir,
        dir_after.srv.files,
        t.s,
    )
}

/// A handle that can be used can be used after something has been put into its
/// directory.
pub proof fn lemma_usable_after<D: ReplicaDirectory>(d: &D, tree: Kids, new: Kids)
    requires
        replica::usable(d, tree),
    ensures
        replica::usable(d, place::graft(tree, d.path(), d.modes(), new)),
{
    place::lemma_graft_prefix(
        tree,
        d.path(),
        d.modes(),
        new,
        d.path().take(d.solid() as int),
    );
    lemma_makeable_after(tree, d.path(), d.modes(), new);
}

proof fn lemma_makeable_after(k: Kids, p: Path, modes: Seq<FileMode>, new: Kids)
    requires
        replica::makeable(k, p),
    ensures
        replica::makeable(place::graft(k, p, modes, new), p),
    decreases p.len(),
{
    if p.len() > 0 {
        let sub = model::kids(model::at(k, p[0]));
        if !k.dom().contains(p[0]) {
            lemma_makeable_nothing(p.drop_first());
        }
        lemma_makeable_after(sub, p.drop_first(), modes.drop_first(), new);
    }
}

proof fn lemma_makeable_nothing(p: Path)
    ensures
        replica::makeable(Map::empty(), p),
{
}

/// The listing of a directory in which one file has been given a new state.
pub proof fn lemma_listing_put(k: Kids, n: Seq<u8>, v: Option<Node>)
    ensures
        replica::listing(model::with(k, n, v)) == context::with_file(
            replica::listing(k),
            n,
            model::data(v),
        ),
{
    assert(replica::listing(model::with(k, n, v)) =~= context::with_file(
        replica::listing(k),
        n,
        model::data(v),
    ));
}

/// A replica whose directory has come to hold `k`, as its table says, has
/// advanced to it.
proof fn lemma_advanced_one<R: Replica>(
    before: &R,
    after: &R,
    dir: &R::Directory,
    dir_after: &R::Directory,
    files_after: NameMap<FileData>,
    k: Kids,
)
    requires
        replica::usable(dir, before.state().tree),
        sane(before),
        bounded(before, after, dir, dir_after),
        came_to(before, after, dir, dir_after, k),
        context::models(files_after) == replica::listing(k),
    ensures
        advanced_one(before, after, dir, dir_after, files_after, k),
{
    place::lemma_graft_get(before.state().tree, dir.path(), dir.modes(), k);
    lemma_usable_after(dir, before.state().tree, k);
}

/// A replica to which nothing has happened has advanced to what it held.
proof fn lemma_not_advanced<R: Replica>(
    rep: &R,
    after: &R,
    dir: &R::Directory,
    files: NameMap<FileData>,
)
    requires
        in_step(rep, dir, files),
        after.ideal(),
        after.state() == rep.state(),
    ensures
        advanced_one(rep, after, dir, dir, files, held(rep, dir)),
{
    place::lemma_graft_same(rep.state().tree, dir.path(), dir.modes());
}

/// A replica in which a file has been given a new state, as its table says,
/// has advanced to that.
proof fn lemma_put_advanced<R: Replica>(
    before: &R,
    after: &R,
    dir: &R::Directory,
    dir_after: &R::Directory,
    files: NameMap<FileData>,
    files_after: NameMap<FileData>,
    n: Seq<u8>,
    new: Option<FileModel>,
)
    requires
        in_step(before, dir, files),
        bounded(before, after, dir, dir_after),
        came_to(before, after, dir, dir_after, put(held(before, dir), n, new)),
        context::models(files_after) == context::with_file(context::models(files), n, new) || (
        files_after@ == files@ && context::file_at(context::models(files), n) == new),
    ensures
        advanced_one(
            before,
            after,
            dir,
            dir_after,
            files_after,
            put(held(before, dir), n, new),
        ),
{
    let k = held(before, dir);
    lemma_listing_put(k, n, model::replaced(model::at(k, n), new));
    if files_after@ == files@ {
        assert(context::models(files_after) =~= context::models(files));
        if context::file_at(context::models(files), n) == new {
            assert(context::with_file(context::models(files), n, new) =~= context::models(files));
        }
    }
    lemma_advanced_one(before, after, dir, dir_after, files_after, put(k, n, new));
}

/// A replica in which a file has been turned from one state into another, as
/// its table says, has advanced to that.
proof fn lemma_turned_advanced<R: Replica>(
    before: &R,
    after: &R,
    dir: &R::Directory,
    dir_after: &R::Directory,
    files: NameMap<FileData>,
    files_after: NameMap<FileData>,
    n: Seq<u8>,
    old_fd: Option<FileModel>,
    new: Option<FileModel>,
)
    requires
        in_step(before, dir, files),
        bounded(before, after, dir, dir_after),
        came_to(before, after, dir, dir_after, turned(held(before, dir), n, old_fd, new)),
        old_fd == new ==> files_after@ == files@,
        old_fd != new ==> context::models(files_after) == context::with_file(
            context::models(files),
            n,
            new,
        ),
    ensures
        advanced_one(
            before,
            after,
            dir,
            dir_after,
            files_after,
            turned(held(before, dir), n, old_fd, new),
        ),
{
    if old_fd == new {
        assert(context::models(files_after) =~= context::models(files));
        lemma_advanced_one(before, after, dir, dir_after, files_after, held(before, dir));
    } else {
        lemma_put_advanced(before, after, dir, dir_after, files, files_after, n, new);
    }
}

/// A table after one of its files has been renamed.
pub open spec fn renamed_files(
    m: Map<Seq<u8>, FileData>,
    n: Seq<u8>,
    new: Seq<u8>,
) -> Map<Seq<u8>, FileData> {
    if m.dom().contains(n) {
        m.remove(n).insert(new, m[n])
    } else {
        m
    }
}

/// The listing of a directory in which a file has been renamed.
proof fn lemma_listing_renamed(
    files: NameMap<FileData>,
    after: NameMap<FileData>,
    k: Kids,
    n: Seq<u8>,
    new: Seq<u8>,
)
    requires
        context::agreed(files, k),
        after@ == renamed_files(files@, n, new),
    ensures
        context::agreed(after, model::renamed(k, n, new)),
{
    assert(context::models(files).dom() =~= files@.dom());
    assert(replica::listing(k).dom() =~= k.dom());
    assert forall|m: Seq<u8>| files@.dom().contains(m) implies files@[m]@ == k[m].data by {
        assert(context::models(files)[m] == replica::listing(k)[m]);
    }
    assert(context::models(after) =~= replica::listing(model::renamed(k, n, new)));
}

/// Whether the ancestor does not say anything about the file named `n`, or will
/// not once its directory is listed again; or else neither of the end replicas
/// has been touched.
pub open spec fn disowned<CLI: Replica, ANC: Replica, SRV: Replica, LOG, INT, R>(
    ctx: &Context<CLI, ANC, SRV, LOG, INT>,
    after: &Context<CLI, ANC, SRV, LOG, INT>,
    dir: &DirContext<CLI::Directory, ANC::Directory, SRV::Directory, R>,
    dir_after: &DirContext<CLI::Directory, ANC::Directory, SRV::Directory, R>,
    n: Seq<u8>,
) -> bool {
    ||| after.cli == ctx.cli && after.srv == ctx.srv && dir_after.cli == dir.cli && dir_after.srv
        == dir.srv
    ||| !replica::spared(
        held(&after.anc, &dir.anc.dir),
        after.anc.state().condemned,
        dir.anc.dir.path(),
    ).dom().contains(n)
}

impl<
    CLI: Replica,
    ANC: Replica + NullTransfer + Condemn,
    SRV: Replica<TransferIn = CLI::TransferOut, TransferOut = CLI::TransferIn>,
    LOG: Logger,
    INT: Interrupt,
> Context<CLI, ANC, SRV, LOG, INT> {
    /// Renames the file on the given side to an alternate name, and treats the
    /// ancestor as indicated.
    ///
    /// If something fails after the end replicas have been touched, the ancestor
    /// is no longer associated with the old name, so that nothing is mistaken for
    /// having been deleted.
    ///
    /// Returns the new name if everything worked out.
    fn split_file<R>(
        &mut self,
        dir: &mut DirContext<CLI::Directory, ANC::Directory, SRV::Directory, R>,
        dir_name: &[u8],
        name: &[u8],
        side: ReconciliationSide,
        anc_state: SplitAncestorState,
    ) -> (r: Option<Vec<u8>>)
        requires
            side == ReconciliationSide::Client ==> old(dir).cli.files@.dom().contains(name@),
            side == ReconciliationSide::Server ==> old(dir).srv.files@.dom().contains(name@),
        ensures
            old(self).keeps(*final(self)),
            final(dir).todo == old(dir).todo,
            final(dir).rules == old(dir).rules,
            side == ReconciliationSide::Server ==> final(self).cli == old(self).cli
                && final(dir).cli == old(dir).cli,
            side == ReconciliationSide::Client ==> final(self).srv == old(self).srv
                && final(dir).srv == old(dir).srv,
            final(self).interrupt == old(self).interrupt,
            log::acted(old(self).log.logged(), final(self).log.logged()),
            r matches Some(new) ==> final(self).log.logged() == split_log(
                old(self).log.logged(),
                side.replica(),
                dir_name@,
                name@,
                new@,
                anc_state == SplitAncestorState::Move && old(dir).anc.files@.dom().contains(name@),
            ),
            r matches Some(new) ==> {
                &&& model::alternate_for(name@, old(dir).names()) == Some(new@)
                &&& !old(dir).names().contains(new@)
                &&& side == ReconciliationSide::Client ==> final(dir).cli.files@ == renamed_files(
                    old(dir).cli.files@,
                    name@,
                    new@,
                )
                &&& side == ReconciliationSide::Server ==> final(dir).srv.files@ == renamed_files(
                    old(dir).srv.files@,
                    name@,
                    new@,
                )
            },
            forall|m: Seq<u8>|
                m != name@ && #[trigger] old(dir).names().contains(m) ==> {
                    &&& final(dir).cli.files@.dom().contains(m) == old(dir).cli.files@.dom().contains(m)
                    &&& final(dir).anc.files@.dom().contains(m) == old(dir).anc.files@.dom().contains(m)
                    &&& final(dir).srv.files@.dom().contains(m) == old(dir).srv.files@.dom().contains(m)
                },
            all_in_step(old(self), old(dir)) ==> {
                let t = trio(old(self), old(dir));
                &&& r is None ==> disowned(old(self), final(self), old(dir), final(dir), name@)
                &&& r matches Some(new) ==> advanced(
                    old(self),
                    final(self),
                    old(dir),
                    final(dir),
                    model::split(model::fresh(t), name@, new@, side, anc_state).t,
                )
                &&& old(self).untroubled() && within(t.a, usize::MAX as nat)
                    && place::is_there(old(self).anc.state().tree, old(dir).anc.dir.path())
                    && model::alternate_for(name@, model::names(t)) is Some ==> r is Some
            },
    {
        proof {
            reveal(log::acted);
        }
        let ghost self0 = *self;
        let ghost dir0 = *dir;
        let ghost good = all_in_step(self, dir);
        let ghost t = trio(self, dir);
        let ghost n = name@;
        let ghost p = dir.anc.dir.path();
        proof {
            lemma_models_dom(dir.anc.files);
            if good {
                lemma_agreed_dom(dir.cli.files, t.c);
                lemma_agreed_dom(dir.anc.files, t.a);
                lemma_agreed_dom(dir.srv.files, t.s);
                assert(model::names(t) =~= dir.names());
                self.anc.lemma_sound();
                self.cli.lemma_sound();
                self.srv.lemma_sound();
                if t.a.dom().contains(n) {
                    lemma_held_is_there(self.anc.state().tree, p);
                }
            }
        }
        let new_name = match dir.alternate_name(name) {
            Some(new_name) => new_name,
            None => {
                return None;
            },
        };
        let ghost new = new_name@;
        // Instead of renaming the ancestor, effectively remove it, then rename
        // the end replica, and then recreate the ancestor if it was to be
        // renamed.
        //
        // For the "renaming the ancestor" case, we actually condemn the old
        // name, rename the end replica, then rename the ancestor and uncondemn
        // the old name; thus, effectively, the ancestor will cease to exist if
        // we crash in this process.
        //
        // This guarantees that at no point will the ancestor be associated
        // with a lone file in a way that could result in deleting an unrelated
        // file.
        let old_ancestor = match dir.anc.files.get(name) {
            Some(fd) => Some(fd.clone()),
            None => None,
        };
        let prepared = match anc_state {
            SplitAncestorState::Delete => try_replace_ancestor(
                &mut self.anc,
                &mut dir.anc.dir,
                &mut dir.anc.files,
                dir_name,
                name,
                defs::opt_ref(&old_ancestor),
                None,
                &mut self.log,
            ),
            SplitAncestorState::Move => match self.anc.condemn(&mut dir.anc.dir, name) {
                Ok(_) => true,
                Err(error) => {
                    self.log.log(
                        error.level(),
                        &Log::Error(
                            ReplicaSide::Ancestor,
                            dir_name,
                            ErrorOperation::Access(name),
                            &error,
                        ),
                    );
                    false
                },
            },
        };
        proof {
            lemma_models_dom(dir.anc.files);
        }
        if !prepared {
            return None;
        }
        let renamed = match side {
            ReconciliationSide::Client => try_rename_replica(
                &mut self.cli,
                &mut dir.cli.dir,
                &mut dir.cli.files,
                dir_name,
                name,
                new_name.as_slice(),
                &mut self.log,
                ReplicaSide::Client,
            ),
            ReconciliationSide::Server => try_rename_replica(
                &mut self.srv,
                &mut dir.srv.dir,
                &mut dir.srv.files,
                dir_name,
                name,
                new_name.as_slice(),
                &mut self.log,
                ReplicaSide::Server,
            ),
        };
        if !renamed {
            proof {
                if good && anc_state == SplitAncestorState::Delete {
                    place::lemma_graft_get(
                        self0.anc.state().tree,
                        p,
                        dir0.anc.dir.modes(),
                        put(t.a, n, None),
                    );
                }
            }
            return None;
        }
        if let SplitAncestorState::Move = anc_state {
            if dir.anc.files.contains_key(name) {
                if !try_rename_replica(
                    &mut self.anc,
                    &mut dir.anc.dir,
                    &mut dir.anc.files,
                    dir_name,
                    name,
                    new_name.as_slice(),
                    &mut self.log,
                    ReplicaSide::Ancestor,
                ) {
                    return None;
                }
            }
            proof {
                if good {
                    let k2 = model::renamed(t.a, n, new);
                    place::lemma_graft_get(
                        self0.anc.state().tree,
                        p,
                        dir0.anc.dir.modes(),
                        k2,
                    );
                    place::lemma_graft_same(self0.anc.state().tree, p, dir0.anc.dir.modes());
                    if place::is_there(self0.anc.state().tree, p) {
                        place::lemma_graft_there(
                            self0.anc.state().tree,
                            p,
                            dir0.anc.dir.modes(),
                            k2,
                        );
                    }
                }
            }
            match self.anc.uncondemn(&mut dir.anc.dir, name) {
                Ok(_) => {},
                Err(error) => {
                    self.log.log(
                        error.level(),
                        &Log::Error(
                            ReplicaSide::Ancestor,
                            dir_name,
                            ErrorOperation::Access(name),
                            &error,
                        ),
                    );
                    return None;
                },
            }
        }
        proof {
            if good {
                match side {
                    ReconciliationSide::Client => {
                        lemma_listing_renamed(dir0.cli.files, dir.cli.files, t.c, n, new);
                        lemma_advanced_one(
                            &self0.cli,
                            &self.cli,
                            &dir0.cli.dir,
                            &dir.cli.dir,
                            dir.cli.files,
                            model::renamed(t.c, n, new),
                        );
                        lemma_not_advanced(&self0.srv, &self.srv, &dir0.srv.dir, dir0.srv.files);
                    },
                    ReconciliationSide::Server => {
                        lemma_listing_renamed(dir0.srv.files, dir.srv.files, t.s, n, new);
                        lemma_advanced_one(
                            &self0.srv,
                            &self.srv,
                            &dir0.srv.dir,
                            &dir.srv.dir,
                            dir.srv.files,
                            model::renamed(t.s, n, new),
                        );
                        lemma_not_advanced(&self0.cli, &self.cli, &dir0.cli.dir, dir0.cli.files);
                    },
                }
                match anc_state {
                    SplitAncestorState::Delete => {
                        lemma_listing_put(t.a, n, None);
                        assert(put(t.a, n, None) =~= t.a.remove(n));
                        lemma_advanced_one(
                            &self0.anc,
                            &self.anc,
                            &dir0.anc.dir,
                            &dir.anc.dir,
                            dir.anc.files,
                            t.a.remove(n),
                        );
                    },
                    SplitAncestorState::Move => {
                        assert(self.anc.state().condemned =~= self0.anc.state().condemned);
                        lemma_listing_renamed(dir0.anc.files, dir.anc.files, t.a, n, new);
                        lemma_advanced_one(
                            &self0.anc,
                            &self.anc,
                            &dir0.anc.dir,
                            &dir.anc.dir,
                            dir.anc.files,
                            model::renamed(t.a, n, new),
                        );
                    },
                }
            }
        }
        Some(new_name)
    }
}

/// Whether applying a reconciliation can change the client.
pub open spec fn touches_client(recon: Reconciliation) -> bool {
    recon == Reconciliation::Use(ReconciliationSide::Server) || (recon matches Reconciliation::Split(
        side,
        _,
    ) && side == ReconciliationSide::Client)
}

/// What `apply_reconciliation()` returns where what is to be done afterwards is
/// `f`.
pub open spec fn result_for(f: Option<Follow>) -> ApplyResult {
    match f {
        None => ApplyResult::Clean(false),
        Some(Follow::Enter) => ApplyResult::Clean(true),
        Some(Follow::Delete(side, m)) => ApplyResult::RecursiveDelete(side, m),
    }
}

/// What the three replicas hold after a reconciliation has been applied, where
/// the file of the client is taken for `d`.
pub open spec fn applied(
    t: Trio,
    n: Seq<u8>,
    d: Option<FileModel>,
    recon: Reconciliation,
) -> Trio {
    match recon {
        Reconciliation::Split(side, st) => model::split(
            model::fresh(t),
            n,
            model::alternate_for(n, model::names(t))->0,
            side,
            st,
        ).t,
        _ => {
            let x = model::settle_as(
                model::at(t.c, n),
                model::at(t.a, n),
                model::at(t.s, n),
                d,
                recon,
            );
            Trio {
                c: model::with(t.c, n, x.c),
                a: model::with(t.a, n, x.a),
                s: model::with(t.s, n, x.s),
            }
        },
    }
}

impl<
    CLI: Replica,
    ANC: Replica + NullTransfer + Condemn,
    SRV: Replica<TransferIn = CLI::TransferOut, TransferOut = CLI::TransferIn>,
    LOG: Logger,
    INT: Interrupt,
> Context<CLI, ANC, SRV, LOG, INT> {
    /// Applies the determined reconciliation for one file.
    ///
    /// Returns whether recursion is necessary to process this file, and if so,
    /// what should happen afterwards.
    ///
    /// Errors are passed down the context's logger.
    pub fn apply_reconciliation<R>(
        &mut self,
        dir: &mut DirContext<CLI::Directory, ANC::Directory, SRV::Directory, R>,
        dir_name: &[u8],
        name: &[u8],
        recon: Reconciliation,
        old_cli: Option<&FileData>,
        old_srv: Option<&FileData>,
    ) -> (r: ApplyResult)
        requires
            old_cli is Some <==> old(dir).cli.files@.dom().contains(name@),
            old_srv is Some <==> old(dir).srv.files@.dom().contains(name@),
            recon matches Reconciliation::Split(side, _) ==> old_cli is Some && old_srv is Some,
            recon == Reconciliation::Use(ReconciliationSide::Client) && defs::opt_is_dir(
                defs::opt_view(old_srv),
            ) ==> old_cli is None || defs::opt_is_dir(defs::opt_view(old_cli)),
            recon == Reconciliation::Use(ReconciliationSide::Server) && defs::opt_is_dir(
                defs::opt_view(old_cli),
            ) ==> old_srv is None || defs::opt_is_dir(defs::opt_view(old_srv)),
        ensures
            old(self).keeps(*final(self)),
            final(dir).rules == old(dir).rules,
            final(self).interrupt == old(self).interrupt,
            log::acted(old(self).log.logged(), final(self).log.logged()),
            r != ApplyResult::Fail ==> final(self).log.logged() == applied_log(
                old(self).log.logged(),
                dir_name@,
                name@,
                recon,
                defs::opt_view(old_cli),
                defs::opt_view(old_srv),
                old(dir).anc.files@.dom().contains(name@),
                model::alternate_for(name@, old(dir).names())->0,
            ),
            recon !is Split || r == ApplyResult::Fail ==> final(dir).todo@ == old(dir).todo@,
            recon is Split && r != ApplyResult::Fail ==> r == ApplyResult::Clean(false) && (
            model::alternate_for(name@, old(dir).names()) matches Some(new) && final(dir).todo@
                == old(dir).todo@.insert(name@).insert(new) && !old(dir).names().contains(new)
                && !(final(dir).cli.files@.dom().contains(name@)
                && final(dir).srv.files@.dom().contains(name@)) && final(dir).names().contains(
                name@,
            ) && !(final(dir).cli.files@.dom().contains(new)
                && final(dir).srv.files@.dom().contains(new)) && final(dir).names().contains(new)),
            r matches ApplyResult::RecursiveDelete(side, m) ==> recon == Reconciliation::Use(
                side.other(),
            ) && match side {
                ReconciliationSide::Client => old_srv is None && defs::opt_view(old_cli) == Some(
                    FileModel::Directory(m),
                ),
                ReconciliationSide::Server => old_cli is None && defs::opt_view(old_srv) == Some(
                    FileModel::Directory(m),
                ),
            },
            r == ApplyResult::Fail && recon !is Split ==> final(dir).anc.files@
                == old(dir).anc.files@,
            recon is Split && r == ApplyResult::Fail && all_in_step(old(self), old(dir))
                ==> disowned(old(self), final(self), old(dir), final(dir), name@),
            recon is Unsync || recon is Irreconcilable ==> *final(dir) == *old(dir) && (r
                == ApplyResult::Clean(false) || r == ApplyResult::Fail),
            recon is InSync ==> final(dir).cli == old(dir).cli && final(dir).srv == old(dir).srv
                && match r {
                ApplyResult::Clean(enter) => enter == defs::opt_is_dir(defs::opt_view(old_cli))
                    && context::models(final(dir).anc.files) == context::with_file(
                    context::models(old(dir).anc.files),
                    name@,
                    defs::opt_view(old_cli),
                ),
                ApplyResult::Fail => final(dir).anc.files@ == old(dir).anc.files@,
                ApplyResult::RecursiveDelete(_, _) => false,
            },
            forall|m: Seq<u8>|
                m != name@ && #[trigger] old(dir).names().contains(m) ==> {
                    &&& final(dir).cli.files@.dom().contains(m)
                        == old(dir).cli.files@.dom().contains(m)
                    &&& final(dir).anc.files@.dom().contains(m)
                        == old(dir).anc.files@.dom().contains(m)
                    &&& final(dir).srv.files@.dom().contains(m)
                        == old(dir).srv.files@.dom().contains(m)
                },
            !touches_client(recon) ==> final(dir).cli == old(dir).cli,
            !touches_client(recon) && sane(&old(self).cli) ==> final(self).cli.ideal()
                && final(self).cli.state() == old(self).cli.state(),
            all_in_step(old(self), old(dir)) && similar(
                defs::opt_view(old_cli),
                model::data(model::at(trio(old(self), old(dir)).c, name@)),
            ) && defs::opt_view(old_srv) == model::data(
                model::at(trio(old(self), old(dir)).s, name@),
            ) ==> {
                let t = trio(old(self), old(dir));
                let x = model::settle_as(
                    model::at(t.c, name@),
                    model::at(t.a, name@),
                    model::at(t.s, name@),
                    defs::opt_view(old_cli),
                    recon,
                );
                &&& r != ApplyResult::Fail ==> advanced(
                    old(self),
                    final(self),
                    old(dir),
                    final(dir),
                    applied(t, name@, defs::opt_view(old_cli), recon),
                ) && (recon !is Split ==> r == result_for(x.follow)) && (recon is Split ==>
                model::alternate_for(name@, model::names(t)) is Some)
                &&& old(self).untroubled() && within(t.a, usize::MAX as nat) && place::is_there(
                    old(self).anc.state().tree,
                    old(dir).anc.dir.path(),
                ) && (recon is Split ==> model::alternate_for(name@, model::names(t)) is Some)
                    && model::recognised(
                    model::data(model::at(t.c, name@)),
                    defs::opt_view(old_cli),
                    defs::opt_view(old_srv),
                    recon,
                ) ==> r != ApplyResult::Fail
            },
    {
        proof {
            reveal(log::acted);
        }
        let ghost self0 = *self;
        let ghost dir0 = *dir;
        let ghost n = name@;
        let ghost t = trio(self, dir);
        let ghost good = all_in_step(self, dir) && similar(
            defs::opt_view(old_cli),
            model::data(model::at(t.c, n)),
        ) && defs::opt_view(old_srv) == model::data(model::at(t.s, n));
        proof {
            lemma_models_dom(dir.cli.files);
            lemma_models_dom(dir.anc.files);
            lemma_models_dom(dir.srv.files);
            if good {
                lemma_agreed_dom(dir.cli.files, t.c);
                lemma_agreed_dom(dir.anc.files, t.a);
                lemma_agreed_dom(dir.srv.files, t.s);
                assert(model::names(t) =~= dir.names());
                lemma_not_advanced(&self0.cli, &self.cli, &dir0.cli.dir, dir0.cli.files);
                lemma_not_advanced(&self0.anc, &self.anc, &dir0.anc.dir, dir0.anc.files);
                lemma_not_advanced(&self0.srv, &self.srv, &dir0.srv.dir, dir0.srv.files);
                assert(model::with(t.c, n, model::at(t.c, n)) =~= t.c);
                assert(model::with(t.a, n, model::at(t.a, n)) =~= t.a);
                assert(model::with(t.s, n, model::at(t.s, n)) =~= t.s);
            }
        }
        if self.should_stop() {
            return ApplyResult::Fail;
        }
        // Mutate the replicas as appropriate and determine what the new state
        // of the ancestor should be.
        //
        // There are several reasons we need to do the end replicas first:
        //
        // - This is the only way we can learn the *actual* files we sync; the
        //   hashes on the files we hold right now may be out of date.
        //
        // - If we crash after mutating the end replica but before the
        //   ancestor, we simply have out-of-date information in the ancestor,
        //   which at worst leads to spurious conflicts or resurrections. On
        //   the other hand, writing the ancestor first would result in
        //   *reversing* the reconciliation on the next run if mutating the end
        //   replica failed.
        let new_ancestor: Option<FileData> = match recon {
            // If already in-sync, we just need to ensure the ancestor matches.
            // Whether we choose old_cli or old_srv is mostly moot.
            Reconciliation::InSync => defs::opt_copy(old_cli),
            // For Unsync and Irreconcilable, the end replicas do not agree and
            // will not agree, so it doesn't make sense to change the ancestor
            // at all or to recurse.
            Reconciliation::Unsync => {
                return ApplyResult::Clean(false);
            },
            Reconciliation::Irreconcilable => {
                return ApplyResult::Clean(false);
            },
            // For the Use(x) cases, we propagate the change, and use the
            // resulting FileData for the ancestor.
            Reconciliation::Use(ReconciliationSide::Client) => {
                let used = apply_use(
                    &mut self.srv,
                    &mut dir.srv.dir,
                    &mut dir.srv.files,
                    &mut self.anc,
                    &mut dir.anc.dir,
                    &mut dir.anc.files,
                    &mut self.cli,
                    &dir.cli.dir,
                    dir_name,
                    name,
                    old_srv,
                    old_cli,
                    &mut self.log,
                    ReconciliationSide::Server,
                );
                proof {
                    lemma_models_dom(dir.srv.files);
                    lemma_models_dom(dir.anc.files);
                    if good {
                        if deletes_dir(defs::opt_view(old_srv), defs::opt_view(old_cli)) {
                            if used->Err_0 != ApplyResult::Fail {
                                lemma_put_advanced(
                                    &self0.anc,
                                    &self.anc,
                                    &dir0.anc.dir,
                                    &dir.anc.dir,
                                    dir0.anc.files,
                                    dir.anc.files,
                                    n,
                                    defs::opt_view(old_srv),
                                );
                                lemma_not_advanced(
                                    &self0.cli,
                                    &self.cli,
                                    &dir0.cli.dir,
                                    dir0.cli.files,
                                );
                            }
                        } else if used is Ok {
                            lemma_turned_advanced(
                                &self0.srv,
                                &self.srv,
                                &dir0.srv.dir,
                                &dir.srv.dir,
                                dir0.srv.files,
                                dir.srv.files,
                                n,
                                defs::opt_view(old_srv),
                                defs::opt_view(old_cli),
                            );
                            self0.srv.lemma_sound();
                            lemma_sound_kids_of(self0.srv.state().tree, dir0.srv.dir.path());
                            lemma_replaced_same(t.s, n);
                            lemma_not_advanced(
                                &self0.cli,
                                &self.cli,
                                &dir0.cli.dir,
                                dir0.cli.files,
                            );
                        }
                    }
                }
                match used {
                    Ok(r) => r,
                    Err(r) => {
                        return r;
                    },
                }
            },
            Reconciliation::Use(ReconciliationSide::Server) => {
                let used = apply_use(
                    &mut self.cli,
                    &mut dir.cli.dir,
                    &mut dir.cli.files,
                    &mut self.anc,
                    &mut dir.anc.dir,
                    &mut dir.anc.files,
                    &mut self.srv,
                    &dir.srv.dir,
                    dir_name,
                    name,
                    old_cli,
                    old_srv,
                    &mut self.log,
                    ReconciliationSide::Client,
                );
                proof {
                    lemma_models_dom(dir.cli.files);
                    lemma_models_dom(dir.anc.files);
                    if good {
                        if deletes_dir(defs::opt_view(old_cli), defs::opt_view(old_srv)) {
                            if used->Err_0 != ApplyResult::Fail {
                                lemma_put_advanced(
                                    &self0.anc,
                                    &self.anc,
                                    &dir0.anc.dir,
                                    &dir.anc.dir,
                                    dir0.anc.files,
                                    dir.anc.files,
                                    n,
                                    defs::opt_view(old_cli),
                                );
                                lemma_not_advanced(
                                    &self0.srv,
                                    &self.srv,
                                    &dir0.srv.dir,
                                    dir0.srv.files,
                                );
                            }
                        } else if used is Ok {
                            lemma_turned_advanced(
                                &self0.cli,
                                &self.cli,
                                &dir0.cli.dir,
                                &dir.cli.dir,
                                dir0.cli.files,
                                dir.cli.files,
                                n,
                                defs::opt_view(old_cli),
                                defs::opt_view(old_srv),
                            );
                            lemma_not_advanced(
                                &self0.srv,
                                &self.srv,
                                &dir0.srv.dir,
                                dir0.srv.files,
                            );
                        }
                    }
                }
                match used {
                    Ok(r) => r,
                    Err(r) => {
                        return r;
                    },
                }
            },
            // The special Split case.
            //
            // We never write an ancestor external to this branch, because this
            // reconciliation doesn't actually reconcile anything. Rather, if
            // the renaming succeeds, it requeues both sides of the split for
            // another pass through reconciliation.
            Reconciliation::Split(side, anc_state) => {
                return match self.split_file(dir, dir_name, name, side, anc_state) {
                    Some(new_name) => {
                        dir.todo.push(bytes::copy(name));
                        dir.todo.push(new_name);
                        ApplyResult::Clean(false)
                    },
                    None => ApplyResult::Fail,
                };
            },
        };
        let old_ancestor = match dir.anc.files.get(name) {
            Some(fd) => Some(fd.clone()),
            None => None,
        };
        // Try to update the ancestor.
        let ok = try_replace_ancestor(
            &mut self.anc,
            &mut dir.anc.dir,
            &mut dir.anc.files,
            dir_name,
            name,
            defs::opt_ref(&old_ancestor),
            defs::opt_ref(&new_ancestor),
            &mut self.log,
        );
        proof {
            lemma_models_dom(dir.anc.files);
            if good && ok {
                lemma_put_advanced(
                    &self0.anc,
                    &self.anc,
                    &dir0.anc.dir,
                    &dir.anc.dir,
                    dir0.anc.files,
                    dir.anc.files,
                    n,
                    defs::opt_model(new_ancestor),
                );
            }
        }
        // Only recurse if writing the ancestor succeeded and the ancestor is a
        // directory. Testing the ancestor is sufficient to know that all three
        // branches are directories, since we only write the ancestor if it
        // agrees with the client and server replicas.
        if !ok {
            ApplyResult::Fail
        } else {
            ApplyResult::Clean(defs::is_dir(defs::opt_ref(&new_ancestor)))
        }
    }
}

/// A table and its model have the same names.
pub proof fn lemma_models_dom(files: NameMap<FileData>)
    ensures
        context::models(files).dom() == files@.dom(),
{
    assert(context::models(files).dom() =~= files@.dom());
}

/// A table and the directory that it agrees with have the same names.
pub proof fn lemma_agreed_dom(files: NameMap<FileData>, k: Kids)
    requires
        context::agreed(files, k),
    ensures
        files@.dom() == k.dom(),
        forall|n: Seq<u8>| #[trigger] files@.dom().contains(n) ==> files@[n]@ == k[n].data,
{
    assert(context::models(files).dom() =~= files@.dom());
    assert(replica::listing(k).dom() =~= k.dom());
    assert forall|n: Seq<u8>| #[trigger] files@.dom().contains(n) implies files@[n]@ == k[n].data by {
        assert(context::models(files)[n] == replica::listing(k)[n]);
    }
}

} // verus!
