//! Directories within a tree, and what replacing their contents does to the
//! tree.

use vstd::prelude::*;

use crate::defs::{FileMode, FileModel};

use super::model;
use super::model::{Kids, Node};
use super::trees::Path;

verus! {

/// Whether there is a directory at the path `p`.
pub open spec fn is_there(k: Kids, p: Path) -> bool
    decreases p.len(),
{
    p.len() == 0 || (k.dom().contains(p[0]) && k[p[0]].data.is_dir() && is_there(
        k[p[0]].kids,
        p.drop_first(),
    ))
}

/// What is in the directory at the path `p`; nothing if there is none.
pub open spec fn kids_of(k: Kids, p: Path) -> Kids
    decreases p.len(),
{
    if p.len() == 0 {
        k
    } else {
        kids_of(model::kids(model::at(k, p[0])), p.drop_first())
    }
}

/// The tree `k` with `new` as what is in the directory at the path `p`.
/// Directories that are missing on the way come into being, with the modes
/// given by `modes`, if there is something to be put into them.
pub open spec fn graft(k: Kids, p: Path, modes: Seq<FileMode>, new: Kids) -> Kids
    decreases p.len(),
{
    if p.len() == 0 {
        new
    } else {
        let n = p[0];
        let below = graft(
            model::kids(model::at(k, n)),
            p.drop_first(),
            modes.drop_first(),
            new,
        );
        grown(k, n, modes[0], below)
    }
}

/// `k` with `below` as what is in the subdirectory `n`, which comes into being
/// with the mode `mode` if it has to.
pub open spec fn grown(k: Kids, n: Seq<u8>, mode: FileMode, below: Kids) -> Kids {
    if k.dom().contains(n) {
        k.insert(n, Node { data: k[n].data, kids: below })
    } else if below == Map::<Seq<u8>, Node>::empty() {
        k
    } else {
        k.insert(n, Node { data: FileModel::Directory(mode), kids: below })
    }
}

/// What has been put into a directory is in it.
pub proof fn lemma_graft_get(k: Kids, p: Path, modes: Seq<FileMode>, new: Kids)
    ensures
        kids_of(graft(k, p, modes, new), p) == new,
    decreases p.len(),
{
    if p.len() > 0 {
        let n = p[0];
        let x = model::kids(model::at(k, n));
        lemma_graft_get(x, p.drop_first(), modes.drop_first(), new);
        if !k.dom().contains(n) && graft(x, p.drop_first(), modes.drop_first(), new)
            == Map::<Seq<u8>, Node>::empty() {
            lemma_kids_of_nothing(p.drop_first());
        }
    }
}

/// There is nothing in any directory of an empty tree.
pub proof fn lemma_kids_of_nothing(p: Path)
    ensures
        kids_of(Map::empty(), p) == Map::<Seq<u8>, Node>::empty(),
    decreases p.len(),
{
    if p.len() > 0 {
        lemma_kids_of_nothing(p.drop_first());
    }
}

/// Putting into a directory what is in it changes nothing.
pub proof fn lemma_graft_same(k: Kids, p: Path, modes: Seq<FileMode>)
    ensures
        graft(k, p, modes, kids_of(k, p)) == k,
    decreases p.len(),
{
    if p.len() > 0 {
        let n = p[0];
        let x = model::kids(model::at(k, n));
        lemma_graft_same(x, p.drop_first(), modes.drop_first());
        assert(graft(k, p, modes, kids_of(k, p)) =~= k);
    }
}

/// A directory into which nothing is put, and in which there was nothing,
/// leaves the tree as it is.
pub proof fn lemma_graft_nothing(k: Kids, p: Path, modes: Seq<FileMode>)
    requires
        kids_of(k, p) == Map::<Seq<u8>, Node>::empty(),
    ensures
        graft(k, p, modes, Map::empty()) == k,
{
    lemma_graft_same(k, p, modes);
}

/// What is put into a directory last is what counts, unless the directory came
/// into being for something that is not there any more.
pub proof fn lemma_graft_twice(k: Kids, p: Path, modes: Seq<FileMode>, x: Kids, y: Kids)
    requires
        is_there(k, p) || x == Map::<Seq<u8>, Node>::empty() && kids_of(k, p) == x || y
            != Map::<Seq<u8>, Node>::empty(),
    ensures
        graft(graft(k, p, modes, x), p, modes, y) == graft(k, p, modes, y),
    decreases p.len(),
{
    if p.len() > 0 {
        if x == Map::<Seq<u8>, Node>::empty() && kids_of(k, p) == x {
            lemma_graft_nothing(k, p, modes);
        } else {
            let n = p[0];
            let q = p.drop_first();
            let m = modes.drop_first();
            let sub = model::kids(model::at(k, n));
            let g = graft(k, p, modes, x);
            lemma_graft_twice(sub, q, m, x, y);
            let gx = graft(sub, q, m, x);
            let gy = graft(sub, q, m, y);
            if model::kids(model::at(g, n)) == gx {
                if !k.dom().contains(n) {
                    lemma_graft_not_empty(sub, q, m, y);
                }
                assert(graft(g, p, modes, y) =~= graft(k, p, modes, y));
            } else {
                assert(g == k);
                assert(gx == Map::<Seq<u8>, Node>::empty());
                assert(sub =~= Map::empty());
            }
        }
    }
}

/// A tree into which something has been put is not empty.
pub proof fn lemma_graft_not_empty(k: Kids, p: Path, modes: Seq<FileMode>, new: Kids)
    requires
        new != Map::<Seq<u8>, Node>::empty(),
    ensures
        graft(k, p, modes, new) != Map::<Seq<u8>, Node>::empty(),
    decreases p.len(),
{
    if p.len() > 0 {
        let n = p[0];
        let sub = model::kids(model::at(k, n));
        lemma_graft_not_empty(sub, p.drop_first(), modes.drop_first(), new);
        assert(graft(k, p, modes, new).dom().contains(n));
    }
}

/// Putting something into a subdirectory is putting the directory with the
/// changed subdirectory in its place.
pub proof fn lemma_graft_child(
    k: Kids,
    p: Path,
    modes: Seq<FileMode>,
    n: Seq<u8>,
    mode: FileMode,
    new: Kids,
)
    requires
        modes.len() == p.len(),
    ensures
        graft(k, p.push(n), modes.push(mode), new) == graft(
            k,
            p,
            modes,
            grown(kids_of(k, p), n, mode, new),
        ),
        kids_of(k, p.push(n)) == model::kids(model::at(kids_of(k, p), n)),
        is_there(k, p.push(n)) == (is_there(k, p) && model::at(kids_of(k, p), n) is Some
            && model::at(kids_of(k, p), n)->0.data.is_dir()),
    decreases p.len(),
{
    let q = p.push(n);
    let ms = modes.push(mode);
    if p.len() == 0 {
        assert(q.drop_first() =~= Seq::<Seq<u8>>::empty());
        assert(q[0] == n);
        assert(ms[0] == mode);
        reveal_with_fuel(graft, 2);
        reveal_with_fuel(kids_of, 2);
        reveal_with_fuel(is_there, 2);
    } else {
        assert(q.drop_first() =~= p.drop_first().push(n));
        assert(ms.drop_first() =~= modes.drop_first().push(mode));
        assert(q[0] == p[0]);
        assert(ms[0] == modes[0]);
        let sub = model::kids(model::at(k, p[0]));
        lemma_graft_child(sub, p.drop_first(), modes.drop_first(), n, mode, new);
    }
}

/// A directory into which something has been put exists.
pub proof fn lemma_graft_there(k: Kids, p: Path, modes: Seq<FileMode>, new: Kids)
    requires
        is_there(k, p),
    ensures
        is_there(graft(k, p, modes, new), p),
    decreases p.len(),
{
    if p.len() > 0 {
        let sub = model::kids(model::at(k, p[0]));
        lemma_graft_there(sub, p.drop_first(), modes.drop_first(), new);
    }
}

/// A directory that exists is not lost by putting something into it, and one
/// whose parent exists comes into being there.
pub proof fn lemma_graft_prefix(
    k: Kids,
    p: Path,
    modes: Seq<FileMode>,
    new: Kids,
    q: Path,
)
    requires
        is_there(k, q),
        q.len() <= p.len(),
        q == p.take(q.len() as int),
    ensures
        is_there(graft(k, p, modes, new), q),
    decreases p.len(),
{
    if q.len() > 0 {
        let sub = model::kids(model::at(k, p[0]));
        assert(q[0] == p[0]);
        assert(q.drop_first() =~= p.drop_first().take(q.drop_first().len() as int));
        lemma_graft_prefix(sub, p.drop_first(), modes.drop_first(), new, q.drop_first());
    }
}

/// Where the directory exists, no mode is needed to put something into it.
pub proof fn lemma_graft_modes(
    k: Kids,
    p: Path,
    modes: Seq<FileMode>,
    other: Seq<FileMode>,
    new: Kids,
)
    requires
        is_there(k, p),
    ensures
        graft(k, p, modes, new) == graft(k, p, other, new),
    decreases p.len(),
{
    if p.len() > 0 {
        lemma_graft_modes(
            k[p[0]].kids,
            p.drop_first(),
            modes.drop_first(),
            other.drop_first(),
            new,
        );
    }
}

/// What a tree becomes when the subdirectory `n` of the directory at `p`, which
/// is to be followed up by `f`, ends up with `done` in it, or gone.
pub open spec fn concluded(
    k: Kids,
    p: Path,
    modes: Seq<FileMode>,
    n: Seq<u8>,
    f: model::Follow,
    done: Kids,
    gone: bool,
) -> Kids {
    let d = kids_of(k, p);
    graft(k, p, modes, model::with(d, n, model::finished(model::at(d, n), f, done, gone)))
}

/// Putting the outcome into a subdirectory that is to stay concludes it.
pub proof fn lemma_conclude(
    k: Kids,
    p: Path,
    modes: Seq<FileMode>,
    n: Seq<u8>,
    mode: FileMode,
    f: model::Follow,
    done: Kids,
)
    requires
        modes.len() == p.len(),
        f is Enter ==> model::at(kids_of(k, p), n) is Some,
        model::at(kids_of(k, p), n) is None ==> (f matches model::Follow::Delete(_, m) ==> m == mode),
    ensures
        graft(k, p.push(n), modes.push(mode), done) == concluded(k, p, modes, n, f, done, false),
{
    let d = kids_of(k, p);
    lemma_graft_child(k, p, modes, n, mode, done);
    let e = model::with(d, n, model::finished(model::at(d, n), f, done, false));
    if model::at(d, n) is None {
        if done.dom().is_empty() {
            assert(done =~= Map::empty());
        } else {
            assert(done != Map::<Seq<u8>, Node>::empty());
        }
    }
    assert(grown(d, n, mode, done) =~= e);
}

/// Removing a subdirectory that has ended up empty concludes it.
pub proof fn lemma_conclude_gone(
    k: Kids,
    p: Path,
    modes: Seq<FileMode>,
    n: Seq<u8>,
    mode: FileMode,
    f: model::Follow,
)
    requires
        modes.len() == p.len(),
        f is Delete,
        model::at(kids_of(k, p), n) is Some ==> is_there(k, p) && model::at(
            kids_of(k, p),
            n,
        )->0.data.is_dir(),
    ensures
        ({
            let emptied = graft(k, p.push(n), modes.push(mode), Map::empty());
            &&& kids_of(emptied, p.push(n)) == Map::<Seq<u8>, Node>::empty()
            &&& is_there(emptied, p.push(n)) == (model::at(kids_of(k, p), n) is Some)
            &&& is_there(emptied, p.push(n)) ==> graft(
                emptied,
                p,
                modes,
                kids_of(emptied, p).remove(n),
            ) == concluded(k, p, modes, n, f, Map::empty(), true)
            &&& !is_there(emptied, p.push(n)) ==> emptied == concluded(
                k,
                p,
                modes,
                n,
                f,
                Map::empty(),
                true,
            )
        }),
{
    let d = kids_of(k, p);
    let emptied = graft(k, p.push(n), modes.push(mode), Map::empty());
    lemma_graft_get(k, p.push(n), modes.push(mode), Map::empty());
    lemma_graft_child(k, p, modes, n, mode, Map::empty());
    let g = grown(d, n, mode, Map::empty());
    lemma_graft_get(k, p, modes, g);
    lemma_graft_child(emptied, p, modes, n, mode, Map::empty());
    if model::at(d, n) is Some {
        lemma_graft_there(k, p, modes, g);
        lemma_graft_twice(k, p, modes, g, g.remove(n));
        assert(g.remove(n) =~= d.remove(n));
    } else {
        assert(d.remove(n) =~= d);
        assert(g == d);
    }
}

/// A conclusion does not depend on modes where the directory exists.
pub proof fn lemma_concluded_modes(
    k: Kids,
    p: Path,
    modes: Seq<FileMode>,
    other: Seq<FileMode>,
    n: Seq<u8>,
    f: model::Follow,
    done: Kids,
    gone: bool,
)
    requires
        is_there(k, p) || modes == other,
    ensures
        concluded(k, p, modes, n, f, done, gone) == concluded(k, p, other, n, f, done, gone),
{
    let d = kids_of(k, p);
    if is_there(k, p) {
        lemma_graft_modes(
            k,
            p,
            modes,
            other,
            model::with(d, n, model::finished(model::at(d, n), f, done, gone)),
        );
    }
}

} // verus!
