//! Trees of files, and ways of comparing them.

use vstd::prelude::*;

use crate::defs::FileModel;

use super::model;
use super::model::{Kids, Node, Trio};

verus! {

/// A path below a directory: one name per level.
pub type Path = Seq<Seq<u8>>;

/// The file at the path `p`.
pub open spec fn node_at(k: Kids, p: Path) -> Option<Node>
    decreases p.len(),
{
    if p.len() == 0 {
        None
    } else {
        match model::at(k, p[0]) {
            None => None,
            Some(x) => if p.len() == 1 {
                Some(x)
            } else {
                node_at(x.kids, p.drop_first())
            },
        }
    }
}

/// The data of the file at the path `p`.
pub open spec fn lookup(k: Kids, p: Path) -> Option<FileModel> {
    model::data(node_at(k, p))
}

/// Whether a directory holds finitely many files and only directories have
/// anything under them.
pub open spec fn sound(k: Kids) -> bool {
    k.dom().finite() && forall|p: Path| sound_node(#[trigger] node_at(k, p))
}

/// Whether what is directly under a file can be there.
pub open spec fn sound_node(v: Option<Node>) -> bool {
    v matches Some(x) ==> x.kids.dom().finite() && (!x.data.is_dir() ==> x.kids
        == Map::<Seq<u8>, Node>::empty())
}

/// Whether a file and everything under it is sound.
pub open spec fn sound_tree(v: Option<Node>) -> bool {
    v matches Some(x) ==> sound_node(v) && sound(x.kids)
}

/// Whether there are no special files in a tree.
pub open spec fn ordinary(k: Kids) -> bool {
    forall|p: Path| #[trigger] lookup(k, p) != Some(FileModel::Special)
}

/// Whether a file and everything under it is not special.
pub open spec fn ordinary_tree(v: Option<Node>) -> bool {
    v matches Some(x) ==> x.data != FileModel::Special && ordinary(x.kids)
}

/// Whether two files, if they exist, match, and exist in both places or
/// neither.
pub open spec fn alike_data(x: Option<FileModel>, y: Option<FileModel>) -> bool {
    match (x, y) {
        (None, None) => true,
        (Some(x), Some(y)) => x.matches(y),
        _ => false,
    }
}

/// Whether two trees hold matching files under the same paths.
pub open spec fn alike(k1: Kids, k2: Kids) -> bool {
    forall|p: Path| alike_data(#[trigger] lookup(k1, p), lookup(k2, p))
}

/// Whether two files, if they exist, match together with what is under them.
pub open spec fn alike_tree(v1: Option<Node>, v2: Option<Node>) -> bool {
    alike_data(model::data(v1), model::data(v2)) && alike(model::kids(v1), model::kids(v2))
}

/// Whether a regular file with the content `h` is somewhere in the tree.
pub open spec fn holds(k: Kids, h: Seq<u8>) -> bool {
    exists|p: Path| has_hash(#[trigger] lookup(k, p), h)
}

pub open spec fn has_hash(fd: Option<FileModel>, h: Seq<u8>) -> bool {
    fd matches Some(FileModel::Regular(_, _, _, x)) && x == h
}

/// Whether a file has the content `h` or something under it has.
pub open spec fn tree_holds(v: Option<Node>, h: Seq<u8>) -> bool {
    v matches Some(x) && (has_hash(Some(x.data), h) || holds(x.kids, h))
}

/// What is under a file is found by its path below the file.
pub proof fn lemma_descend(k: Kids, n: Seq<u8>, p: Path)
    requires
        p.len() > 0,
    ensures
        node_at(k, seq![n] + p) == node_at(model::kids(model::at(k, n)), p),
        node_at(k, seq![n]) == model::at(k, n),
{
    let q = seq![n] + p;
    assert(q[0] == n);
    assert(q.drop_first() =~= p);
    if model::at(k, n) is None {
        lemma_nothing(p);
    }
}

/// There is nothing in an empty directory.
pub proof fn lemma_nothing(p: Path)
    ensures
        node_at(Map::empty(), p) is None,
{
}

/// A path is a name followed by a shorter path.
pub proof fn lemma_split_path(k: Kids, p: Path)
    requires
        p.len() > 0,
    ensures
        p.len() == 1 ==> node_at(k, p) == model::at(k, p[0]),
        p.len() > 1 ==> node_at(k, p) == node_at(
            model::kids(model::at(k, p[0])),
            p.drop_first(),
        ),
{
    if p.len() > 1 && model::at(k, p[0]) is None {
        lemma_nothing(p.drop_first());
    }
}

/// Soundness is soundness of each file.
pub proof fn lemma_sound(k: Kids)
    ensures
        sound(k) ==> forall|n: Seq<u8>| sound_tree(#[trigger] model::at(k, n)),
        k.dom().finite() && (forall|n: Seq<u8>| sound_tree(#[trigger] model::at(k, n))) ==> sound(
            k,
        ),
{
    if sound(k) {
        assert forall|n: Seq<u8>| sound_tree(#[trigger] model::at(k, n)) by {
            if let Some(x) = model::at(k, n) {
                assert(node_at(k, seq![n]) == Some(x));
                assert(sound_node(node_at(k, seq![n])));
                assert forall|p: Path| sound_node(#[trigger] node_at(x.kids, p)) by {
                    if p.len() > 0 {
                        lemma_descend(k, n, p);
                        assert(sound_node(node_at(k, seq![n] + p)));
                    }
                }
            }
        }
    }
    if k.dom().finite() && (forall|n: Seq<u8>| sound_tree(#[trigger] model::at(k, n))) {
        assert forall|p: Path| sound_node(#[trigger] node_at(k, p)) by {
            if p.len() > 0 {
                lemma_split_path(k, p);
                assert(sound_tree(model::at(k, p[0])));
                if let Some(x) = model::at(k, p[0]) {
                    if p.len() > 1 {
                        assert(sound_node(node_at(x.kids, p.drop_first())));
                    }
                }
            }
        }
    }
}

/// A tree without special files is one each file of which is ordinary.
pub proof fn lemma_ordinary(k: Kids)
    ensures
        ordinary(k) ==> forall|n: Seq<u8>| ordinary_tree(#[trigger] model::at(k, n)),
        (forall|n: Seq<u8>| ordinary_tree(#[trigger] model::at(k, n))) ==> ordinary(k),
{
    if ordinary(k) {
        assert forall|n: Seq<u8>| ordinary_tree(#[trigger] model::at(k, n)) by {
            if let Some(x) = model::at(k, n) {
                assert(node_at(k, seq![n]) == Some(x));
                assert(lookup(k, seq![n]) == Some(x.data));
                assert forall|p: Path| #[trigger]
                    lookup(x.kids, p) != Some(FileModel::Special) by {
                    if p.len() > 0 {
                        lemma_descend(k, n, p);
                        assert(lookup(k, seq![n] + p) == lookup(x.kids, p));
                    }
                }
            }
        }
    }
    if forall|n: Seq<u8>| ordinary_tree(#[trigger] model::at(k, n)) {
        assert forall|p: Path| #[trigger] lookup(k, p) != Some(FileModel::Special) by {
            if p.len() > 0 {
                lemma_split_path(k, p);
                assert(ordinary_tree(model::at(k, p[0])));
                if let Some(x) = model::at(k, p[0]) {
                    if p.len() > 1 {
                        assert(lookup(k, p) == lookup(x.kids, p.drop_first()));
                    }
                }
            }
        }
    }
}

/// Two trees are alike if each file of one and the file of that name in the
/// other are.
pub proof fn lemma_alike(k1: Kids, k2: Kids)
    requires
        forall|n: Seq<u8>| alike_tree(#[trigger] model::at(k1, n), model::at(k2, n)),
    ensures
        alike(k1, k2),
{
    assert forall|p: Path| alike_data(#[trigger] lookup(k1, p), lookup(k2, p)) by {
        if p.len() > 0 {
            lemma_split_path(k1, p);
            lemma_split_path(k2, p);
            assert(alike_tree(model::at(k1, p[0]), model::at(k2, p[0])));
            let x = model::kids(model::at(k1, p[0]));
            let y = model::kids(model::at(k2, p[0]));
            if p.len() > 1 {
                assert(lookup(k1, p) == lookup(x, p.drop_first()));
                assert(lookup(k2, p) == lookup(y, p.drop_first()));
            }
        }
    }
}

/// Of two trees that are alike, one is empty if the other is.
pub proof fn lemma_alike_empty(k1: Kids, k2: Kids)
    requires
        alike(k1, k2),
    ensures
        k1.dom().is_empty() == k2.dom().is_empty(),
{
    if !k1.dom().is_empty() {
        let n = k1.dom().choose();
        assert(node_at(k1, seq![n]) == model::at(k1, n));
        assert(alike_data(lookup(k1, seq![n]), lookup(k2, seq![n])));
        assert(node_at(k2, seq![n]) == model::at(k2, n));
        assert(k2.dom().contains(n));
    }
    if !k2.dom().is_empty() {
        let n = k2.dom().choose();
        assert(node_at(k2, seq![n]) == model::at(k2, n));
        assert(alike_data(lookup(k1, seq![n]), lookup(k2, seq![n])));
        assert(node_at(k1, seq![n]) == model::at(k1, n));
        assert(k1.dom().contains(n));
    }
}

/// A tree holds a content if one of its files does or has it under it.
pub proof fn lemma_holds(k: Kids, h: Seq<u8>)
    ensures
        holds(k, h) <==> exists|n: Seq<u8>| tree_holds(#[trigger] model::at(k, n), h),
{
    if holds(k, h) {
        let p = choose|p: Path| has_hash(#[trigger] lookup(k, p), h);
        lemma_split_path(k, p);
        let v = model::at(k, p[0]);
        if p.len() > 1 {
            assert(has_hash(lookup(model::kids(v), p.drop_first()), h));
            if v is None {
                lemma_nothing(p.drop_first());
            }
        }
        assert(tree_holds(model::at(k, p[0]), h));
    }
    if exists|n: Seq<u8>| tree_holds(#[trigger] model::at(k, n), h) {
        let n = choose|n: Seq<u8>| tree_holds(#[trigger] model::at(k, n), h);
        let x = model::at(k, n)->0;
        if has_hash(Some(x.data), h) {
            assert(node_at(k, seq![n]) == Some(x));
            assert(has_hash(lookup(k, seq![n]), h));
        } else {
            let p = choose|p: Path| has_hash(#[trigger] lookup(x.kids, p), h);
            lemma_descend(k, n, p);
            assert(has_hash(lookup(k, seq![n] + p), h));
        }
    }
}

/// Nothing holds nothing.
pub proof fn lemma_holds_nothing(k: Kids, h: Seq<u8>)
    requires
        k.dom().is_empty(),
    ensures
        !holds(k, h),
{
    lemma_holds(k, h);
    if holds(k, h) {
        let n = choose|n: Seq<u8>| tree_holds(#[trigger] model::at(k, n), h);
        assert(k.dom().contains(n));
    }
}

/// Whether nothing is left on any side.
pub open spec fn vacant(t: Trio) -> bool {
    t.c.dom().is_empty() && t.a.dom().is_empty() && t.s.dom().is_empty()
}

} // verus!
