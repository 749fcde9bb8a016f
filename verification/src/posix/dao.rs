//! What is stored in the database of the replica.

use vstd::prelude::*;

use crate::bytes;
use crate::bytes::Name;
use crate::defs::{FileInode, FileSize, FileTime, HashId};
use crate::errors::{Error, ErrorKind, Result};
use crate::path;

verus! {

/// The subset of the status of a file that we actually care about here.
#[derive(Clone, Copy, Debug, PartialEq, Eq, Structural)]
pub struct InodeStatus {
    pub ino: FileInode,
    pub mtime: FileTime,
    pub size: FileSize,
}

/// Returns a hash that has been read from the database.
pub fn to_hashid(v: Vec<u8>) -> (r: Result<HashId>)
    ensures
        v@.len() == 32 ==> (r matches Ok(h) && h@ == v@),
        v@.len() != 32 ==> (r matches Err(e) && e.kind == ErrorKind::InvalidHash),
{
    if v.len() == 32 {
        let mut h: HashId = super::dir::INIT_HASH;
        let mut i: usize = 0;
        while i < 32
            invariant
                i <= 32,
                v@.len() == 32,
                h@.len() == 32,
                forall|j: int| 0 <= j < i ==> h@[j] == v@[j],
            decreases 32 - i,
        {
            h[i] = v[i];
            i += 1;
        }
        assert(h@ =~= v@);
        Ok(h)
    } else {
        Err(Error::new(ErrorKind::InvalidHash))
    }
}

/// The directory `p`, which ends in a separator, and all directories that it is
/// in, from the inside out.
pub open spec fn upwards(p: Seq<u8>) -> Seq<Seq<u8>>
    decreases p.len(),
{
    if p.len() == 0 {
        Seq::empty()
    } else {
        proof {
            lemma_last_separator(p, p.len() - 1);
        }
        let i = path::last_separator(p, p.len() - 1);
        if i < 0 {
            seq![p]
        } else {
            seq![p] + upwards(p.take(i + 1))
        }
    }
}

/// Where the last separator is.
pub proof fn lemma_last_separator(p: Seq<u8>, i: int)
    requires
        i <= p.len(),
    ensures
        -1 <= path::last_separator(p, i) < i || i <= 0,
        path::last_separator(p, i) >= 0 ==> path::last_separator(p, i) < i && p[path::last_separator(
            p,
            i,
        )] == path::SEPARATOR,
        forall|j: int| path::last_separator(p, i) < j < i ==> p[j] != path::SEPARATOR || j < 0,
    decreases i,
{
    if i > 0 && p[i - 1] != path::SEPARATOR {
        lemma_last_separator(p, i - 1);
    }
}

/// Returns a directory, which ends in a separator, and all directories that it
/// is in, from the inside out. These are the records to be deleted if the
/// directory becomes dirty, and those that say it is clean.
pub fn enclosing_dirs(p: &[u8]) -> (r: Vec<Name>)
    ensures
        path::names_of(r@) == upwards(p@),
{
    let mut r: Vec<Name> = Vec::new();
    let mut len: usize = p.len();
    assert(p@.take(len as int) =~= p@);
    assert(path::names_of(r@) + upwards(p@.take(len as int)) =~= upwards(p@));
    while len > 0
        invariant
            len <= p@.len(),
            path::names_of(r@) + upwards(p@.take(len as int)) == upwards(p@),
        decreases len,
    {
        let ghost q = p@.take(len as int);
        let dir: Name = prefix(p, len);
        let mut i: usize = len - 1;
        while i > 0 && p[i - 1] != path::SEPARATOR
            invariant
                i < len <= p@.len(),
                q == p@.take(len as int),
                path::last_separator(q, i as int) == path::last_separator(q, len - 1),
            decreases i,
        {
            i -= 1;
        }
        proof {
            assert(path::names_of(r@.push(dir)) =~= path::names_of(r@).push(q));
            assert(i > 0 ==> q[i - 1] == p@[i - 1]);
            assert(q.take(i as int) =~= p@.take(i as int));
            if i == 0 {
                assert(upwards(q) =~= seq![q]);
                assert(upwards(p@.take(0)) =~= Seq::empty());
            }
            assert(path::names_of(r@).push(q) + upwards(p@.take(i as int)) =~= path::names_of(r@)
                + upwards(q));
        }
        r.push(dir);
        len = i;
    }
    assert(upwards(p@.take(0)) =~= Seq::empty());
    assert(path::names_of(r@) =~= path::names_of(r@) + upwards(p@.take(0)));
    r
}

fn prefix(p: &[u8], len: usize) -> (r: Name)
    requires
        len <= p@.len(),
    ensures
        r@ == p@.take(len as int),
{
    let mut r: Name = Vec::new();
    let mut i: usize = 0;
    while i < len
        invariant
            i <= len <= p@.len(),
            r@ == p@.take(i as int),
        decreases len - i,
    {
        r.push(p[i]);
        i += 1;
        assert(r@ =~= p@.take(i as int));
    }
    r
}

/// Whether `q` is `p` or a directory that `p` is in.
pub open spec fn encloses(q: Seq<u8>, p: Seq<u8>) -> bool {
    0 < q.len() <= p.len() && p.take(q.len() as int) == q && q.last() == path::SEPARATOR
}

/// The enclosing directories of a directory are those that its path begins
/// with.
pub proof fn law_enclosing(p: Seq<u8>, q: Seq<u8>)
    requires
        p.len() > 0,
        p.last() == path::SEPARATOR,
    ensures
        upwards(p).contains(q) <==> encloses(q, p),
    decreases p.len(),
{
    lemma_last_separator(p, p.len() - 1);
    let i = path::last_separator(p, p.len() - 1);
    assert(p.take(p.len() as int) =~= p);
    if i < 0 {
        assert(upwards(p) =~= seq![p]);
        assert(upwards(p)[0] == p);
        if encloses(q, p) && q != p {
            assert(p[q.len() - 1] == path::SEPARATOR);
        }
    } else {
        let r = p.take(i + 1);
        law_enclosing(r, q);
        let u = seq![p] + upwards(r);
        assert(upwards(p) == u);
        if u.contains(q) {
            let j = choose|j: int| 0 <= j < u.len() && u[j] == q;
            if j > 0 {
                assert(upwards(r)[j - 1] == q);
                assert(p.take(q.len() as int) =~= r.take(q.len() as int));
            }
        }
        if encloses(q, p) {
            if q.len() == p.len() {
                assert(u[0] == q);
            } else {
                assert(p[q.len() - 1] == path::SEPARATOR);
                assert(q.len() - 1 <= i);
                assert(r.take(q.len() as int) =~= p.take(q.len() as int));
                let j = choose|j: int| 0 <= j < upwards(r).len() && upwards(r)[j] == q;
                assert(u[j + 1] == q);
            }
        }
    }
}

/// What is still marked clean once the directory `p` has become dirty.
pub open spec fn dirtied(clean: Set<Seq<u8>>, p: Seq<u8>) -> Set<Seq<u8>> {
    clean.filter(|q: Seq<u8>| !upwards(p).contains(q))
}

/// Whether the directory `p` is clean: it, or one that it is in, is marked so.
pub open spec fn is_clean(clean: Set<Seq<u8>>, p: Seq<u8>) -> bool {
    exists|q: Seq<u8>| #[trigger] clean.contains(q) && upwards(p).contains(q)
}

/// A directory that has become dirty is not clean, and neither is one that it
/// is in; what has been marked clean is; and directories that are not on the
/// way stay as they were.
pub proof fn law_dirty_dirs(clean: Set<Seq<u8>>, p: Seq<u8>, q: Seq<u8>)
    requires
        p.len() > 0 && p.last() == path::SEPARATOR,
        q.len() > 0 && q.last() == path::SEPARATOR,
    ensures
        encloses(q, p) ==> !is_clean(dirtied(clean, p), q),
        is_clean(clean.insert(p), p),
        !encloses(q, p) && clean.contains(q) ==> dirtied(clean, p).contains(q),
{
    law_enclosing(p, q);
    law_enclosing(p, p);
    assert(p.take(p.len() as int) =~= p);
    assert(clean.insert(p).contains(p));
    if encloses(q, p) {
        assert forall|x: Seq<u8>| dirtied(clean, p).contains(x) implies !upwards(q).contains(x) by {
            law_enclosing(q, x);
            law_enclosing(p, x);
            if encloses(x, q) {
                assert(p.take(x.len() as int) =~= q.take(x.len() as int));
            }
        }
    }
}

/// What the paths of all files under a directory begin with.
pub open spec fn prune_from(root: Seq<u8>) -> Seq<u8> {
    super::dir::with_trailing_slash(root)
}

/// What comes after the paths of all files under a directory.
pub open spec fn prune_to(root: Seq<u8>) -> Seq<u8> {
    let lower = prune_from(root);
    lower.update(lower.len() - 1, (path::SEPARATOR + 1) as u8)
}

/// Returns between what the paths of all files under a directory are: the first
/// is the least that it can be, the second is greater.
pub fn prune_bounds(root: &[u8]) -> (r: (Name, Name))
    ensures
        r.0@ == prune_from(root@),
        r.1@ == prune_to(root@),
{
    let mut lower: Name = bytes::copy(root);
    if lower.len() == 0 || lower[lower.len() - 1] != path::SEPARATOR {
        lower.push(path::SEPARATOR);
    }
    let mut upper: Name = bytes::copy(lower.as_slice());
    let last: usize = upper.len() - 1;
    upper.set(last, path::SEPARATOR + 1);
    (lower, upper)
}

/// The paths between the bounds are exactly those of the files under the
/// directory.
pub proof fn law_prune_bounds(root: Seq<u8>, p: Seq<u8>)
    ensures
        (!bytes::before(p, prune_from(root)) && bytes::before(p, prune_to(root))) <==> (p.len()
            >= prune_from(root).len() && p.take(prune_from(root).len() as int) == prune_from(root)),
{
    lemma_between(prune_from(root), p);
}

proof fn lemma_between(lower: Seq<u8>, p: Seq<u8>)
    requires
        lower.len() > 0,
        lower.last() == path::SEPARATOR,
    ensures
        (!bytes::before(p, lower) && bytes::before(
            p,
            lower.update(lower.len() - 1, (path::SEPARATOR + 1) as u8),
        )) <==> (p.len() >= lower.len() && p.take(lower.len() as int) == lower),
    decreases lower.len(),
{
    let upper = lower.update(lower.len() - 1, (path::SEPARATOR + 1) as u8);
    if p.len() > 0 {
        if lower.len() == 1 {
            assert(upper[0] == path::SEPARATOR + 1);
            assert(p.len() >= 1 && p.take(1) == lower ==> p.take(1)[0] == lower[0]);
            assert(p[0] == lower[0] ==> p.take(1) =~= lower);
            reveal_with_fuel(bytes::before, 2);
        } else {
            assert(upper[0] == lower[0]);
            lemma_between(lower.drop_first(), p.drop_first());
            assert(upper.drop_first() =~= lower.drop_first().update(
                lower.drop_first().len() - 1,
                (path::SEPARATOR + 1) as u8,
            ));
            let l = lower.len() as int;
            if p.len() >= l && p.take(l) == lower {
                assert(p[0] == p.take(l)[0]);
                assert(p.drop_first().take(l - 1) =~= p.take(l).drop_first());
            }
            if p[0] == lower[0] && p.drop_first().len() >= l - 1 && p.drop_first().take(l - 1)
                == lower.drop_first() {
                assert(p.take(l) =~= seq![p[0]] + p.drop_first().take(l - 1));
                assert(lower =~= seq![lower[0]] + lower.drop_first());
            }
        }
    }
}

/// Returns where a block begins in its file, if it can be there at all.
pub fn block_start(offset: i64, block_size: i64) -> (r: Option<u64>)
    ensures
        match r {
            Some(n) => n == offset * block_size,
            None => offset < 0 || block_size < 0 || offset * block_size > u64::MAX,
        },
{
    if offset < 0 || block_size < 0 {
        return None;
    }
    (offset as u64).checked_mul(block_size as u64)
}

} // verus!
