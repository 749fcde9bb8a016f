//! File names and paths as byte strings.
//!
//! A file name is whatever sequence of bytes the operating system holds; it
//! need not be valid UTF-8. Names are ordered as byte strings.

use vstd::prelude::*;

verus! {

/// The name of one file within its directory.
pub type Name = Vec<u8>;

/// Whether `a` comes strictly before `b` in lexicographic order.
pub open spec fn before(a: Seq<u8>, b: Seq<u8>) -> bool
    decreases a.len(),
{
    if b.len() == 0 {
        false
    } else if a.len() == 0 {
        true
    } else if a[0] != b[0] {
        a[0] < b[0]
    } else {
        before(a.drop_first(), b.drop_first())
    }
}

/// The order of byte strings is total: of two different strings, one comes
/// first.
pub proof fn lemma_before_total(a: Seq<u8>, b: Seq<u8>)
    ensures
        before(a, b) || before(b, a) || a == b,
    decreases a.len(),
{
    if a.len() > 0 && b.len() > 0 {
        if a[0] == b[0] {
            lemma_before_total(a.drop_first(), b.drop_first());
            if a.drop_first() == b.drop_first() {
                assert(a =~= seq![a[0]] + a.drop_first());
                assert(b =~= seq![b[0]] + b.drop_first());
            }
        }
    } else if a.len() == 0 && b.len() == 0 {
        assert(a =~= b);
    }
}

/// No byte string comes before itself, and no two come before one another.
pub proof fn lemma_before_asym(a: Seq<u8>, b: Seq<u8>)
    ensures
        !(before(a, b) && before(b, a)),
        !before(a, a),
    decreases a.len(),
{
    if a.len() > 0 {
        lemma_before_asym(a.drop_first(), a.drop_first());
        if b.len() > 0 && a[0] == b[0] {
            lemma_before_asym(a.drop_first(), b.drop_first());
        }
    }
}

/// The order of byte strings is transitive.
pub proof fn lemma_before_trans(a: Seq<u8>, b: Seq<u8>, c: Seq<u8>)
    requires
        before(a, b),
        before(b, c),
    ensures
        before(a, c),
    decreases a.len(),
{
    if a.len() > 0 && a[0] == b[0] && b[0] == c[0] {
        lemma_before_trans(a.drop_first(), b.drop_first(), c.drop_first());
    }
}

/// `before` decided from a common prefix of length `i` and what follows it.
proof fn lemma_before_at(a: Seq<u8>, b: Seq<u8>, i: int)
    requires
        0 <= i <= a.len(),
        i <= b.len(),
        forall|j: int| 0 <= j < i ==> a[j] == b[j],
    ensures
        i == b.len() ==> !before(a, b),
        i == a.len() && i < b.len() ==> before(a, b),
        i < a.len() && i < b.len() && a[i] != b[i] ==> before(a, b) == (a[i] < b[i]),
    decreases i,
{
    if i > 0 {
        assert(a[0] == b[0]);
        assert forall|j: int| 0 <= j < i - 1 implies a.drop_first()[j] == b.drop_first()[j] by {
            assert(a[j + 1] == b[j + 1]);
        }
        lemma_before_at(a.drop_first(), b.drop_first(), i - 1);
    }
}

/// Returns whether two byte strings are the same.
pub fn same(a: &[u8], b: &[u8]) -> (r: bool)
    ensures
        r == (a@ == b@),
{
    if a.len() != b.len() {
        return false;
    }
    let mut i: usize = 0;
    while i < a.len()
        invariant
            i <= a.len(),
            a.len() == b.len(),
            forall|j: int| 0 <= j < i ==> a@[j] == b@[j],
        decreases a.len() - i,
    {
        if a[i] != b[i] {
            return false;
        }
        i += 1;
    }
    assert(a@ =~= b@);
    true
}

/// Returns whether `a` comes strictly before `b`.
pub fn is_before(a: &[u8], b: &[u8]) -> (r: bool)
    ensures
        r == before(a@, b@),
{
    let mut i: usize = 0;
    while i < a.len() && i < b.len()
        invariant
            i <= a.len(),
            i <= b.len(),
            forall|j: int| 0 <= j < i ==> a@[j] == b@[j],
        decreases a.len() - i,
    {
        if a[i] != b[i] {
            proof {
                lemma_before_at(a@, b@, i as int);
            }
            return a[i] < b[i];
        }
        i += 1;
    }
    proof {
        lemma_before_at(a@, b@, i as int);
    }
    i < b.len()
}

/// Returns a copy of a byte string.
pub fn copy(a: &[u8]) -> (r: Vec<u8>)
    ensures
        r@ == a@,
{
    let mut r: Vec<u8> = Vec::new();
    append(&mut r, a);
    assert(r@ =~= a@);
    r
}

/// Appends a byte string to a buffer.
pub fn append(buf: &mut Vec<u8>, a: &[u8])
    ensures
        final(buf)@ == old(buf)@ + a@,
{
    let ghost start = buf@;
    let mut i: usize = 0;
    while i < a.len()
        invariant
            i <= a.len(),
            buf@ == start + a@.take(i as int),
        decreases a.len() - i,
    {
        assert(a@.take(i as int + 1) =~= a@.take(i as int).push(a@[i as int]));
        buf.push(a[i]);
        assert(buf@ =~= start + a@.take(i as int + 1));
        i += 1;
    }
    assert(a@.take(i as int) =~= a@);
}

/// Whether a byte string begins with another.
pub open spec fn begins_with(a: Seq<u8>, b: Seq<u8>) -> bool {
    a.len() >= b.len() && a.take(b.len() as int) == b
}

/// Returns whether a byte string begins with another.
pub fn starts_with(a: &[u8], b: &[u8]) -> (r: bool)
    ensures
        r == begins_with(a@, b@),
{
    if a.len() < b.len() {
        return false;
    }
    let mut i: usize = 0;
    while i < b.len()
        invariant
            i <= b@.len() <= a@.len(),
            forall|j: int| 0 <= j < i ==> a@[j] == b@[j],
        decreases b@.len() - i,
    {
        if a[i] != b[i] {
            assert(a@.take(b@.len() as int)[i as int] != b@[i as int]);
            return false;
        }
        i += 1;
    }
    assert(a@.take(b@.len() as int) =~= b@);
    true
}

/// Of two byte strings that begin alike, the one that ends there comes first, or
/// else the one that goes on with the smaller byte.
pub proof fn law_before(start: Seq<u8>, a: Seq<u8>, b: Seq<u8>)
    ensures
        b.len() > 0 ==> before(start, start + b),
        !before(start + b, start),
        a.len() > 0 && b.len() > 0 && a[0] != b[0] ==> (before(start + a, start + b) <==> a[0]
            < b[0]),
        before(start + a, start + b) == before(a, b),
    decreases start.len(),
{
    lemma_before_at(start, start + b, start.len() as int);
    lemma_before_at(start + b, start, start.len() as int);
    if a.len() > 0 && b.len() > 0 && a[0] != b[0] {
        lemma_before_at(start + a, start + b, start.len() as int);
    }
    if start.len() > 0 {
        law_before(start.drop_first(), a, b);
        assert((start + a).drop_first() =~= start.drop_first() + a);
        assert((start + b).drop_first() =~= start.drop_first() + b);
    } else {
        assert(start + a =~= a);
        assert(start + b =~= b);
    }
}

} // verus!
