//! Tables and queues of file names.

use vstd::prelude::*;

use crate::bytes;
use crate::bytes::Name;

verus! {

/// Whether the names are in strictly ascending order.
spec fn ascending(s: Seq<Seq<u8>>) -> bool {
    forall|i: int, j: int| 0 <= i < j < s.len() ==> bytes::before(#[trigger] s[i], #[trigger] s[j])
}

/// Where `n` stands, or would have to be inserted.
proof fn lemma_place(s: Seq<Seq<u8>>, n: Seq<u8>, i: int)
    requires
        ascending(s),
        0 <= i <= s.len(),
        i > 0 ==> bytes::before(s[i - 1], n),
        i < s.len() ==> bytes::before(n, s[i]),
    ensures
        forall|j: int| 0 <= j < s.len() ==> s[j] != n,
        ascending(s.insert(i, n)),
{
    assert forall|j: int| 0 <= j < i implies bytes::before(#[trigger] s[j], n) by {
        if j < i - 1 {
            bytes::lemma_before_trans(s[j], s[i - 1], n);
        }
    }
    assert forall|j: int| i <= j < s.len() implies bytes::before(n, #[trigger] s[j]) by {
        if j > i {
            bytes::lemma_before_trans(n, s[i], s[j]);
        }
    }
    assert forall|j: int| 0 <= j < s.len() implies s[j] != n by {
        bytes::lemma_before_asym(n, n);
    }
    let t = s.insert(i, n);
    assert forall|x: int, y: int| 0 <= x < y < t.len() implies bytes::before(
        #[trigger] t[x],
        #[trigger] t[y],
    ) by {
        let x2 = if x < i {
            x
        } else {
            x - 1
        };
        let y2 = if y < i {
            y
        } else {
            y - 1
        };
        if x != i && y != i {
            assert(t[x] == s[x2]);
            assert(t[y] == s[y2]);
        } else if x == i {
            assert(t[y] == s[y2]);
        } else {
            assert(t[x] == s[x2]);
        }
    }
}

/// Removing a name keeps the order.
proof fn lemma_removed(s: Seq<Seq<u8>>, i: int)
    requires
        ascending(s),
        0 <= i < s.len(),
    ensures
        ascending(s.remove(i)),
        forall|j: int| 0 <= j < s.len() && j != i ==> s[j] != s[i],
{
    let t = s.remove(i);
    assert forall|x: int, y: int| 0 <= x < y < t.len() implies bytes::before(
        #[trigger] t[x],
        #[trigger] t[y],
    ) by {
        let x2 = if x < i {
            x
        } else {
            x + 1
        };
        let y2 = if y < i {
            y
        } else {
            y + 1
        };
        assert(t[x] == s[x2]);
        assert(t[y] == s[y2]);
    }
    assert forall|j: int| 0 <= j < s.len() && j != i implies s[j] != s[i] by {
        bytes::lemma_before_asym(s[i], s[i]);
        if j < i {
            assert(bytes::before(s[j], s[i]));
        } else {
            assert(bytes::before(s[i], s[j]));
        }
    }
}

/// A map from file names to values, kept in the order of the names.
pub struct NameMap<V> {
    names: Vec<Name>,
    values: Vec<V>,
}

impl<V> NameMap<V> {
    spec fn keys(self) -> Seq<Seq<u8>> {
        self.names@.map_values(|n: Name| n@)
    }

    spec fn has(self, n: Seq<u8>, i: int) -> bool {
        0 <= i < self.names@.len() && i < self.values@.len() && self.names@[i]@ == n
    }

    spec fn index_of(self, n: Seq<u8>) -> int {
        choose|i: int| self.has(n, i)
    }

    #[verifier::type_invariant]
    spec fn inv(self) -> bool {
        self.names@.len() == self.values@.len() && ascending(self.keys())
    }

    closed spec fn contents(self) -> Map<Seq<u8>, V> {
        Map::new(
            |n: Seq<u8>| exists|i: int| self.has(n, i),
            |n: Seq<u8>| self.values@[self.index_of(n)],
        )
    }

    proof fn lemma_at(self, i: int)
        requires
            self.inv(),
            0 <= i < self.names@.len(),
        ensures
            self.contents().dom().contains(self.names@[i]@),
            self.contents()[self.names@[i]@] == self.values@[i],
            self.index_of(self.names@[i]@) == i,
    {
        let n = self.names@[i]@;
        assert(self.has(n, i));
        let j = self.index_of(n);
        assert(self.has(n, j));
        if i != j {
            bytes::lemma_before_asym(n, n);
            assert(self.keys()[i] == n);
            assert(self.keys()[j] == n);
        }
    }

    /// Returns an empty map.
    pub fn new() -> (r: Self)
        ensures
            r@ == Map::<Seq<u8>, V>::empty(),
    {
        let r = NameMap { names: Vec::new(), values: Vec::new() };
        assert(r@ =~= Map::<Seq<u8>, V>::empty());
        r
    }

    /// The place of `n`, or the place where it would have to be inserted.
    fn find(&self, n: &[u8]) -> (r: (usize, bool))
        ensures
            r.0 <= self.names@.len(),
            r.1 ==> self.has(n@, r.0 as int),
            !r.1 ==> !self@.dom().contains(n@),
            !r.1 && r.0 > 0 ==> bytes::before(self.names@[r.0 - 1]@, n@),
            !r.1 && r.0 < self.names@.len() ==> bytes::before(n@, self.names@[r.0 as int]@),
    {
        proof {
            use_type_invariant(self);
        }
        let mut lo: usize = 0;
        let mut hi: usize = self.names.len();
        while lo < hi
            invariant
                self.inv(),
                lo <= hi <= self.names@.len(),
                lo > 0 ==> bytes::before(self.names@[lo - 1]@, n@),
                hi < self.names@.len() ==> bytes::before(n@, self.names@[hi as int]@),
            decreases hi - lo,
        {
            let mid: usize = lo + (hi - lo) / 2;
            if bytes::same(self.names[mid].as_slice(), n) {
                return (mid, true);
            }
            if bytes::is_before(self.names[mid].as_slice(), n) {
                lo = mid + 1;
            } else {
                proof {
                    bytes::lemma_before_total(self.names@[mid as int]@, n@);
                }
                hi = mid;
            }
        }
        proof {
            let k = self.keys();
            if lo > 0 {
                assert(k[lo - 1] == self.names@[lo - 1]@);
            }
            if lo < k.len() {
                assert(k[lo as int] == self.names@[lo as int]@);
            }
            lemma_place(k, n@, lo as int);
            assert forall|i: int| !self.has(n@, i) by {
                if 0 <= i < self.names@.len() {
                    assert(k[i] == self.names@[i]@);
                }
            }
        }
        (lo, false)
    }

    /// Returns the value for `n`.
    pub fn get(&self, n: &[u8]) -> (r: Option<&V>)
        ensures
            match r {
                Some(v) => self@.dom().contains(n@) && *v == self@[n@],
                None => !self@.dom().contains(n@),
            },
    {
        let (i, found) = self.find(n);
        if found {
            proof {
                use_type_invariant(self);
                self.lemma_at(i as int);
            }
            Some(&self.values[i])
        } else {
            None
        }
    }

    /// Returns whether there is a value for `n`.
    pub fn contains_key(&self, n: &[u8]) -> (r: bool)
        ensures
            r == self@.dom().contains(n@),
    {
        let (i, found) = self.find(n);
        proof {
            use_type_invariant(self);
            if found {
                self.lemma_at(i as int);
            }
        }
        found
    }

    /// Sets the value for `n`, returning the value that there was.
    pub fn insert(&mut self, n: Name, v: V) -> (r: Option<V>)
        ensures
            final(self)@ == old(self)@.insert(n@, v),
            match r {
                Some(x) => old(self)@.dom().contains(n@) && x == old(self)@[n@],
                None => !old(self)@.dom().contains(n@),
            },
    {
        let (i, found) = self.find(n.as_slice());
        proof {
            use_type_invariant(&*self);
        }
        let ghost before = *self;
        let mut whole = NameMap { names: Vec::new(), values: Vec::new() };
        std::mem::swap(&mut whole, self);
        let NameMap { names: mut names, values: mut values } = whole;
        if found {
            proof {
                before.lemma_at(i as int);
            }
            let mut x: V = v;
            std::mem::swap(&mut x, &mut values[i]);
            *self = NameMap { names, values };
            proof {
                let after = *self;
                assert forall|m: Seq<u8>| after@.dom().contains(m) == before@.insert(
                    n@,
                    v,
                ).dom().contains(m) by {
                    assert forall|k: int| after.has(m, k) == before.has(m, k) by {}
                }
                assert forall|m: Seq<u8>| after@.dom().contains(m) implies after@[m]
                    == before@.insert(n@, v)[m] by {
                    let k = after.index_of(m);
                    assert(after.has(m, k));
                    after.lemma_at(k);
                    before.lemma_at(k);
                }
                assert(after@ =~= before@.insert(n@, v));
            }
            Some(x)
        } else {
            let ghost key = n@;
            proof {
                let k = before.keys();
                if i > 0 {
                    assert(k[i - 1] == before.names@[i - 1]@);
                }
                if i < k.len() {
                    assert(k[i as int] == before.names@[i as int]@);
                }
                lemma_place(k, key, i as int);
            }
            names.insert(i, n);
            values.insert(i, v);
            proof {
                assert(names@.map_values(|n: Name| n@) =~= before.keys().insert(i as int, key));
            }
            *self = NameMap { names, values };
            proof {
                let after = *self;
                after.lemma_at(i as int);
                assert forall|m: Seq<u8>| after@.dom().contains(m) == before@.insert(
                    key,
                    v,
                ).dom().contains(m) by {
                    if before@.dom().contains(m) {
                        let k = before.index_of(m);
                        assert(before.has(m, k));
                        let k2 = if k < i {
                            k
                        } else {
                            k + 1
                        };
                        assert(after.has(m, k2));
                    }
                    if after@.dom().contains(m) {
                        let k = after.index_of(m);
                        assert(after.has(m, k));
                        if k != i {
                            let k2 = if k < i {
                                k
                            } else {
                                k - 1
                            };
                            assert(before.has(m, k2));
                        }
                    }
                }
                assert forall|m: Seq<u8>| after@.dom().contains(m) implies after@[m]
                    == before@.insert(key, v)[m] by {
                    let k = after.index_of(m);
                    assert(after.has(m, k));
                    after.lemma_at(k);
                    if k != i {
                        let k2 = if k < i {
                            k
                        } else {
                            k - 1
                        };
                        assert(before.names@[k2]@ == m);
                        before.lemma_at(k2);
                    }
                }
                assert(after@ =~= before@.insert(key, v));
            }
            None
        }
    }

    /// Removes the value for `n` and returns it.
    pub fn remove(&mut self, n: &[u8]) -> (r: Option<V>)
        ensures
            final(self)@ == old(self)@.remove(n@),
            match r {
                Some(x) => old(self)@.dom().contains(n@) && x == old(self)@[n@],
                None => !old(self)@.dom().contains(n@),
            },
    {
        let (i, found) = self.find(n);
        proof {
            use_type_invariant(&*self);
        }
        let ghost before = *self;
        if !found {
            assert(before@.remove(n@) =~= before@);
            return None;
        }
        let mut whole = NameMap { names: Vec::new(), values: Vec::new() };
        std::mem::swap(&mut whole, self);
        let NameMap { names: mut names, values: mut values } = whole;
        proof {
            before.lemma_at(i as int);
            lemma_removed(before.keys(), i as int);
        }
        let _ = names.remove(i);
        let x: V = values.remove(i);
        proof {
            assert(names@.map_values(|n: Name| n@) =~= before.keys().remove(i as int));
        }
        *self = NameMap { names, values };
        proof {
            let after = *self;
            assert forall|m: Seq<u8>| after@.dom().contains(m) == before@.remove(
                n@,
            ).dom().contains(m) by {
                if before@.dom().contains(m) && m != n@ {
                    let k = before.index_of(m);
                    assert(before.has(m, k));
                    let k2 = if k < i {
                        k
                    } else {
                        k - 1
                    };
                    assert(after.has(m, k2));
                }
                if after@.dom().contains(m) {
                    let k = after.index_of(m);
                    assert(after.has(m, k));
                    let k2 = if k < i {
                        k
                    } else {
                        k + 1
                    };
                    assert(before.has(m, k2));
                    assert(before.keys()[k2] == m);
                    assert(before.keys()[i as int] == n@);
                }
            }
            assert forall|m: Seq<u8>| after@.dom().contains(m) implies after@[m] == before@.remove(
                n@,
            )[m] by {
                let k = after.index_of(m);
                assert(after.has(m, k));
                after.lemma_at(k);
                let k2 = if k < i {
                    k
                } else {
                    k + 1
                };
                assert(before.names@[k2]@ == m);
                before.lemma_at(k2);
            }
            assert(after@ =~= before@.remove(n@));
        }
        Some(x)
    }

    /// The names of the map, in ascending order.
    pub closed spec fn order(self) -> Seq<Seq<u8>> {
        Seq::new(
            if self.names@.len() < self.values@.len() {
                self.names@.len()
            } else {
                self.values@.len()
            },
            |i: int| self.names@[i]@,
        )
    }

    /// Returns the number of names.
    pub fn len(&self) -> (r: usize)
        ensures
            r == self.order().len(),
            r == 0 <==> self@.dom().is_empty(),
            forall|n: Seq<u8>| self.order().contains(n) <==> #[trigger] self@.dom().contains(n),
            forall|i: int, j: int|
                0 <= i < j < self.order().len() ==> bytes::before(
                    #[trigger] self.order()[i],
                    #[trigger] self.order()[j],
                ),
            self@.dom().finite(),
    {
        proof {
            use_type_invariant(self);
            assert(self.order() =~= self.keys());
            self.lemma_order();
            if self@.dom().is_empty() && self.names@.len() > 0 {
                self.lemma_at(0);
            }
        }
        self.names.len()
    }

    /// The values of a map are smaller than the map.
    pub proof fn lemma_smaller(self, n: Seq<u8>)
        requires
            self@.dom().contains(n),
        ensures
            decreases_to!(self => self@[n]),
    {
        let i = self.index_of(n);
        assert(self.has(n, i));
        assert(decreases_to!(self => self.values));
        assert(decreases_to!(self.values => self.values@));
        assert(decreases_to!(self.values@ => self.values@[i]));
    }

    /// A map holds finitely many names, and they are those of `order`.
    pub proof fn lemma_order(self)
        ensures
            forall|n: Seq<u8>| self.order().contains(n) <==> #[trigger] self@.dom().contains(n),
            self@.dom().finite(),
    {
        assert forall|n: Seq<u8>| self.order().contains(n) == #[trigger] self@.dom().contains(
            n,
        ) by {
            if self@.dom().contains(n) {
                let i = self.index_of(n);
                assert(self.has(n, i));
                assert(self.order()[i] == n);
            }
            if self.order().contains(n) {
                let i = choose|i: int| 0 <= i < self.order().len() && self.order()[i] == n;
                assert(self.has(n, i));
            }
        }
        assert(self@.dom() =~= self.order().to_set());
        vstd::seq_lib::seq_to_set_is_finite(self.order());
    }

    /// Returns the `i`th name in ascending order.
    pub fn name_at(&self, i: usize) -> (r: &Name)
        requires
            i < self.order().len(),
        ensures
            r@ == self.order()[i as int],
            self@.dom().contains(r@),
    {
        proof {
            use_type_invariant(self);
            self.lemma_at(i as int);
        }
        &self.names[i]
    }

    /// Returns the value for the `i`th name in ascending order.
    pub fn value_at(&self, i: usize) -> (r: &V)
        requires
            i < self.order().len(),
        ensures
            *r == self@[self.order()[i as int]],
    {
        proof {
            use_type_invariant(self);
            self.lemma_at(i as int);
        }
        &self.values[i]
    }
}

impl<V> View for NameMap<V> {
    type V = Map<Seq<u8>, V>;

    closed spec fn view(&self) -> Map<Seq<u8>, V> {
        self.contents()
    }
}

/// A queue of file names, which are taken out in ascending order. A name is in
/// the queue at most once.
pub struct NameQueue {
    /// The names in descending order.
    names: Vec<Name>,
}

impl NameQueue {
    /// The names in ascending order.
    spec fn keys(self) -> Seq<Seq<u8>> {
        Seq::new(self.names@.len(), |i: int| self.names@[self.names@.len() - 1 - i]@)
    }

    #[verifier::type_invariant]
    spec fn inv(self) -> bool {
        ascending(self.keys())
    }

    /// Returns an empty queue.
    pub fn new() -> (r: Self)
        ensures
            r@ == Set::<Seq<u8>>::empty(),
    {
        let r = NameQueue { names: Vec::new() };
        assert(r@ =~= Set::<Seq<u8>>::empty());
        r
    }

    /// Adds a name.
    pub fn push(&mut self, n: Name)
        ensures
            final(self)@ == old(self)@.insert(n@),
    {
        proof {
            use_type_invariant(&*self);
        }
        let ghost before = *self;
        let ghost key = n@;
        let mut whole = NameQueue { names: Vec::new() };
        std::mem::swap(&mut whole, self);
        let NameQueue { names: mut names } = whole;
        let len: usize = names.len();
        // The names from `i` on are those before `n`.
        let mut i: usize = len;
        while i > 0 && bytes::is_before(names[i - 1].as_slice(), n.as_slice())
            invariant
                i <= len,
                len == names@.len(),
                names@ == before.names@,
                i < len ==> bytes::before(names@[i as int]@, n@),
            decreases i,
        {
            i -= 1;
        }
        if i > 0 && bytes::same(names[i - 1].as_slice(), n.as_slice()) {
            *self = NameQueue { names };
            proof {
                assert(before.keys()[len - i] == key);
                assert(self.keys() =~= before.keys());
                assert(before@.contains(key));
                assert(before@.insert(key) =~= before@);
            }
            return ;
        }
        proof {
            let k = before.keys();
            if i > 0 {
                bytes::lemma_before_total(names@[i - 1]@, key);
                assert(k[len - i] == names@[i - 1]@);
            }
            if i < len {
                assert(k[len - i - 1] == names@[i as int]@);
            }
            lemma_place(k, key, len - i);
        }
        names.insert(i, n);
        proof {
            let x = NameQueue { names };
            assert(x.keys() =~= before.keys().insert(len - i, key));
        }
        *self = NameQueue { names };
        proof {
            let k = before.keys();
            let k2 = self.keys();
            assert(k2 == k.insert(len - i, key));
            assert forall|m: Seq<u8>| self@.contains(m) == before@.insert(key).contains(m) by {
                if self@.contains(m) {
                    let j = choose|j: int| 0 <= j < k2.len() && k2[j] == m;
                    if j < len - i {
                        assert(k[j] == m);
                    } else if j > len - i {
                        assert(k[j - 1] == m);
                    }
                }
                if before@.contains(m) {
                    let j = choose|j: int| 0 <= j < k.len() && k[j] == m;
                    if j < len - i {
                        assert(k2[j] == m);
                    } else {
                        assert(k2[j + 1] == m);
                    }
                }
                assert(k2[len - i] == key);
            }
            assert(self@ =~= before@.insert(key));
        }
    }

    /// Takes out the first name.
    pub fn pop(&mut self) -> (r: Option<Name>)
        ensures
            match r {
                Some(n) => {
                    &&& old(self)@.contains(n@)
                    &&& forall|m: Seq<u8>| #[trigger]
                        old(self)@.contains(m) ==> m == n@ || bytes::before(n@, m)
                    &&& final(self)@ == old(self)@.remove(n@)
                },
                None => old(self)@.is_empty() && final(self)@ == old(self)@,
            },
    {
        proof {
            use_type_invariant(&*self);
        }
        let ghost before = *self;
        let mut whole = NameQueue { names: Vec::new() };
        std::mem::swap(&mut whole, self);
        let NameQueue { names: mut names } = whole;
        let r: Option<Name> = names.pop();
        let ghost popped = r;
        proof {
            let x = NameQueue { names };
            if before.keys().len() > 0 {
                assert(x.keys() =~= before.keys().remove(0));
                lemma_removed(before.keys(), 0);
            } else {
                assert(x.keys() =~= before.keys());
            }
        }
        *self = NameQueue { names };
        proof {
            let k = before.keys();
            let k2 = self.keys();
            match popped {
                Some(n) => {
                    assert(k[0] == n@);
                    assert forall|m: Seq<u8>| self@.contains(m) == before@.remove(n@).contains(
                        m,
                    ) by {
                        if self@.contains(m) {
                            let j = choose|j: int| 0 <= j < k2.len() && k2[j] == m;
                            assert(k[j + 1] == m);
                        }
                        if before@.contains(m) && m != n@ {
                            let j = choose|j: int| 0 <= j < k.len() && k[j] == m;
                            assert(k2[j - 1] == m);
                        }
                    }
                    assert(self@ =~= before@.remove(n@));
                    assert forall|m: Seq<u8>| #[trigger] before@.contains(m) implies m == n@
                        || bytes::before(n@, m) by {
                        let j = choose|j: int| 0 <= j < k.len() && k[j] == m;
                        if j > 0 {
                            assert(bytes::before(k[0], k[j]));
                        }
                    }
                },
                None => {
                    assert(before@ =~= Set::empty());
                    assert(self@ =~= before@);
                },
            }
        }
        r
    }

    /// A queue holds finitely many names.
    pub proof fn lemma_finite(self)
        ensures
            self@.finite(),
    {
        vstd::seq_lib::seq_to_set_is_finite(self.keys());
    }
}

impl View for NameQueue {
    type V = Set<Seq<u8>>;

    closed spec fn view(&self) -> Set<Seq<u8>> {
        self.keys().to_set()
    }
}

} // verus!
