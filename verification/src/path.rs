//! File paths as byte strings.

use vstd::prelude::*;

use crate::bytes;
use crate::bytes::Name;
use crate::text;

verus! {

/// What separates the components of a path.
pub const SEPARATOR: u8 = 0x2f;

/// The path `b`, taken from the directory `a` if it is relative.
pub open spec fn joined(a: Seq<u8>, b: Seq<u8>) -> Seq<u8> {
    if b.len() > 0 && b[0] == SEPARATOR {
        b
    } else if a.len() == 0 || a.last() == SEPARATOR {
        a + b
    } else {
        a.push(SEPARATOR) + b
    }
}

/// Returns the path `b`, taken from the directory `a` if it is relative.
pub fn join(a: &[u8], b: &[u8]) -> (r: Name)
    ensures
        r@ == joined(a@, b@),
{
    if b.len() > 0 && b[0] == SEPARATOR {
        return bytes::copy(b);
    }
    let mut r: Name = bytes::copy(a);
    if a.len() > 0 && a[a.len() - 1] != SEPARATOR {
        r.push(SEPARATOR);
    }
    bytes::append(&mut r, b);
    r
}

/// `p` without the separators at its end.
pub open spec fn trimmed(p: Seq<u8>) -> Seq<u8>
    decreases p.len(),
{
    if p.len() > 0 && p.last() == SEPARATOR {
        trimmed(p.drop_last())
    } else {
        p
    }
}

/// `p` without the separators at its beginning.
pub open spec fn stripped(p: Seq<u8>) -> Seq<u8>
    decreases p.len(),
{
    if p.len() > 0 && p[0] == SEPARATOR {
        stripped(p.drop_first())
    } else {
        p
    }
}

/// The path `p` as seen from the directory `root`, if it is in there.
pub open spec fn relative(root: Seq<u8>, p: Seq<u8>) -> Option<Seq<u8>> {
    let r = trimmed(root);
    let l = r.len() as int;
    if root.len() == 0 {
        Some(p)
    } else if p.len() >= l && p.take(l) == r && (p.len() == l || p[l] == SEPARATOR) {
        Some(stripped(p.skip(l)))
    } else {
        None
    }
}

/// Returns the number of bytes before the separators at the end.
fn trimmed_len(p: &[u8]) -> (r: usize)
    ensures
        r <= p@.len(),
        p@.take(r as int) == trimmed(p@),
{
    let mut i: usize = p.len();
    proof {
        assert(p@.take(i as int) =~= p@);
    }
    while i > 0 && p[i - 1] == SEPARATOR
        invariant
            i <= p@.len(),
            trimmed(p@.take(i as int)) == trimmed(p@),
        decreases i,
    {
        assert(p@.take(i as int).drop_last() =~= p@.take(i - 1));
        i -= 1;
    }
    assert(i > 0 ==> p@.take(i as int).last() == p@[i - 1]);
    i
}

/// Returns the path `p` as seen from the directory `root`, if it is in there.
pub fn strip_root(root: &[u8], p: &[u8]) -> (r: Option<Name>)
    ensures
        match r {
            Some(x) => relative(root@, p@) == Some(x@),
            None => relative(root@, p@) is None,
        },
{
    if root.len() == 0 {
        return Some(bytes::copy(p));
    }
    let l: usize = trimmed_len(root);
    if p.len() < l {
        return None;
    }
    let mut i: usize = 0;
    while i < l
        invariant
            i <= l <= p@.len(),
            0 < root@.len(),
            l <= root@.len(),
            root@.take(l as int) == trimmed(root@),
            forall|j: int| 0 <= j < i ==> p@[j] == root@[j],
        decreases l - i,
    {
        if p[i] != root[i] {
            assert(p@.take(l as int)[i as int] != root@.take(l as int)[i as int]);
            return None;
        }
        i += 1;
    }
    assert(p@.take(l as int) =~= root@.take(l as int));
    if p.len() > l && p[l] != SEPARATOR {
        return None;
    }
    let mut start: usize = l;
    while start < p.len() && p[start] == SEPARATOR
        invariant
            l <= start <= p@.len(),
            stripped(p@.skip(start as int)) == stripped(p@.skip(l as int)),
        decreases p@.len() - start,
    {
        assert(p@.skip(start as int).drop_first() =~= p@.skip(start + 1));
        start += 1;
    }
    let mut x: Name = Vec::new();
    let mut j: usize = start;
    while j < p.len()
        invariant
            start <= j <= p@.len(),
            x@ == p@.subrange(start as int, j as int),
        decreases p@.len() - j,
    {
        x.push(p[j]);
        j += 1;
        assert(x@ =~= p@.subrange(start as int, j as int));
    }
    proof {
        assert(x@ =~= p@.skip(start as int));
        if start < p@.len() {
            assert(p@.skip(start as int)[0] == p@[start as int]);
        }
    }
    Some(x)
}

/// The place of the last separator before the `i`th byte.
pub open spec fn last_separator(p: Seq<u8>, i: int) -> int
    decreases i,
{
    if i <= 0 {
        -1
    } else if p[i - 1] == SEPARATOR {
        i - 1
    } else {
        last_separator(p, i - 1)
    }
}

/// Where the component that begins at `i` ends.
pub open spec fn end_of(p: Seq<u8>, i: int) -> int
    decreases p.len() - i,
{
    if i < p.len() && p[i] != SEPARATOR {
        end_of(p, i + 1)
    } else {
        i
    }
}

/// Where the components of a path begin and end, from the place `i` on. The
/// component "." only counts at the beginning of a path.
pub open spec fn spans(p: Seq<u8>, i: int) -> Seq<(int, int)>
    decreases p.len() - i,
{
    if i >= p.len() {
        Seq::empty()
    } else if p[i] == SEPARATOR {
        spans(p, i + 1)
    } else {
        proof {
            lemma_end_of(p, i + 1);
        }
        let e = end_of(p, i + 1);
        if i > 0 && p.subrange(i, e) == seq![DOT] {
            spans(p, e)
        } else {
            seq![(i, e)] + spans(p, e)
        }
    }
}

/// What "." consists of.
pub const DOT: u8 = 0x2e;

/// The names that a path is made of.
pub open spec fn components(p: Seq<u8>) -> Seq<Seq<u8>> {
    spans(p, 0).map_values(|s: (int, int)| p.subrange(s.0, s.1))
}

/// Whether a path starts from the physical root.
pub open spec fn absolute(p: Seq<u8>) -> bool {
    p.len() > 0 && p[0] == SEPARATOR
}

/// The name of the file that a path leads to: its last component, unless that
/// does not name a file in the directory before it.
pub open spec fn file_name_of(p: Seq<u8>) -> Option<Seq<u8>> {
    let c = components(p);
    if c.len() == 0 || c.last() == seq![DOT] || c.last() == seq![DOT, DOT] {
        None
    } else {
        Some(c.last())
    }
}

/// The path without its last component; empty if there is none.
pub open spec fn directory_of(p: Seq<u8>) -> Seq<u8> {
    let s = spans(p, 0);
    if s.len() == 0 {
        Seq::empty()
    } else if s.len() > 1 {
        p.take(s[s.len() - 2].1)
    } else if absolute(p) {
        seq![SEPARATOR]
    } else {
        Seq::empty()
    }
}

/// The directory that a path is in, unless it has no components.
pub open spec fn parent_of(p: Seq<u8>) -> Option<Seq<u8>> {
    if components(p).len() == 0 {
        None
    } else {
        Some(directory_of(p))
    }
}

/// A component ends within the path.
pub proof fn lemma_end_of(p: Seq<u8>, i: int)
    ensures
        i <= end_of(p, i),
        i <= p.len() ==> end_of(p, i) <= p.len(),
    decreases p.len() - i,
{
    if i < p.len() && p[i] != SEPARATOR {
        lemma_end_of(p, i + 1);
    }
}

fn find_end(p: &[u8], start: usize) -> (r: usize)
    requires
        start <= p@.len(),
    ensures
        r == end_of(p@, start as int),
        start <= r <= p@.len(),
{
    let mut i: usize = start;
    while i < p.len() && p[i] != SEPARATOR
        invariant
            start <= i <= p@.len(),
            end_of(p@, i as int) == end_of(p@, start as int),
        decreases p@.len() - i,
    {
        i += 1;
    }
    i
}

/// Returns the bytes from one place of a path to another.
fn between(p: &[u8], start: usize, end: usize) -> (r: Name)
    requires
        start <= end <= p@.len(),
    ensures
        r@ == p@.subrange(start as int, end as int),
{
    let mut x: Name = Vec::new();
    let mut i: usize = start;
    while i < end
        invariant
            start <= i <= end <= p@.len(),
            x@ == p@.subrange(start as int, i as int),
        decreases end - i,
    {
        x.push(p[i]);
        i += 1;
        assert(x@ =~= p@.subrange(start as int, i as int));
    }
    x
}

/// A path taken apart.
pub struct Components {
    /// The names that the path is made of.
    pub names: Vec<Name>,
    /// The path without its last component.
    pub directory: Name,
}

/// The names of a list.
pub open spec fn names_of(v: Seq<Name>) -> Seq<Seq<u8>> {
    v.map_values(|n: Name| n@)
}

/// Takes a path apart.
pub fn split(p: &[u8]) -> (r: Components)
    ensures
        names_of(r.names@) == components(p@),
        r.directory@ == directory_of(p@),
{
    let mut names: Vec<Name> = Vec::new();
    let mut before_last: usize = 0;
    let mut last: usize = 0;
    let mut i: usize = 0;
    let ghost mut done: Seq<(int, int)> = Seq::empty();
    assert(done + spans(p@, 0) =~= spans(p@, 0));
    assert(names_of(names@) =~= done.map_values(|s: (int, int)| p@.subrange(s.0, s.1)));
    while i < p.len()
        invariant
            i <= p@.len(),
            done + spans(p@, i as int) == spans(p@, 0),
            names_of(names@) == done.map_values(|s: (int, int)| p@.subrange(s.0, s.1)),
            done.len() > 0 ==> last == done.last().1,
            done.len() > 1 ==> before_last == done[done.len() - 2].1,
            before_last <= p@.len(),
            last <= p@.len(),
        decreases p@.len() - i,
    {
        if p[i] == SEPARATOR {
            i += 1;
        } else {
            let end: usize = find_end(p, i + 1);
            let name: Name = between(p, i, end);
            if i > 0 && name.len() == 1 && name[0] == DOT {
                assert(name@ =~= seq![DOT]);
            } else {
                proof {
                    if i > 0 && name@ == seq![DOT] {
                        assert(name@[0] == DOT);
                    }
                    let s = (i as int, end as int);
                    assert(done.push(s) + spans(p@, end as int) =~= done + spans(p@, i as int));
                    assert(names_of(names@.push(name)) =~= names_of(names@).push(name@));
                    assert(done.push(s).map_values(|s: (int, int)| p@.subrange(s.0, s.1))
                        =~= done.map_values(|s: (int, int)| p@.subrange(s.0, s.1)).push(name@));
                    done = done.push(s);
                }
                names.push(name);
                before_last = last;
                last = end;
            }
            i = end;
        }
    }
    assert(done + spans(p@, i as int) =~= done);
    let directory: Name = if names.len() > 1 {
        between(p, 0, before_last)
    } else if names.len() == 1 && p[0] == SEPARATOR {
        let mut d: Name = Vec::new();
        d.push(SEPARATOR);
        d
    } else {
        Vec::new()
    };
    proof {
        assert(names_of(names@).len() == done.len());
        assert(directory@ =~= directory_of(p@));
    }
    Components { names, directory }
}

/// Returns the directory that a path is in.
pub fn parent(p: &[u8]) -> (r: Option<Name>)
    ensures
        match r {
            Some(x) => parent_of(p@) == Some(x@),
            None => parent_of(p@) is None,
        },
{
    let c: Components = split(p);
    assert(names_of(c.names@).len() == c.names@.len());
    if c.names.len() == 0 {
        None
    } else {
        Some(c.directory)
    }
}

/// Returns whether a path starts from the physical root.
pub fn is_absolute(p: &[u8]) -> (r: bool)
    ensures
        r == absolute(p@),
{
    p.len() > 0 && p[0] == SEPARATOR
}

/// Returns the name of the file that a path leads to.
pub fn file_name(p: &[u8]) -> (r: Option<Name>)
    ensures
        match r {
            Some(n) => file_name_of(p@) == Some(n@),
            None => file_name_of(p@) is None,
        },
{
    let mut c: Components = split(p);
    let ghost all = names_of(c.names@);
    match c.names.pop() {
        Some(n) => {
            assert(n@ == all.last());
            if n.len() == 1 && n[0] == DOT {
                assert(n@ =~= seq![DOT]);
                return None;
            }
            if n.len() == 2 && n[0] == DOT && n[1] == DOT {
                assert(n@ =~= seq![DOT, DOT]);
                return None;
            }
            proof {
                if n@ == seq![DOT] {
                    assert(n@[0] == DOT);
                }
                if n@ == seq![DOT, DOT] {
                    assert(n@[0] == DOT && n@[1] == DOT);
                }
            }
            Some(n)
        },
        None => None,
    }
}

/// How the file `name` in the directory `dir` is shown to someone who knows
/// the directory `root`. A path elsewhere is shown in full.
pub open spec fn shown(root: Seq<u8>, dir: Seq<u8>, name: Option<Seq<u8>>) -> Seq<char> {
    let d = match relative(root, dir) {
        Some(x) => x,
        None => dir,
    };
    match name {
        None => text::utf8_lossy(d),
        Some(n) => if d.len() == 0 {
            text::utf8_lossy(n)
        } else {
            text::utf8_lossy(d).push('/') + text::utf8_lossy(n)
        },
    }
}

/// Returns how the file `name` in the directory `dir` is shown.
pub fn display(root: &[u8], dir: &[u8], name: Option<&[u8]>) -> (r: String)
    ensures
        r@ == shown(
            root@,
            dir@,
            match name {
                Some(n) => Some(n@),
                None => None,
            },
        ),
{
    let d: Name = match strip_root(root, dir) {
        Some(x) => x,
        None => bytes::copy(dir),
    };
    let mut s: String = String::new();
    match name {
        None => {
            s.append(text::from_utf8_lossy(d.as_slice()).as_str());
        },
        Some(n) => {
            if d.len() > 0 {
                s.append(text::from_utf8_lossy(d.as_slice()).as_str());
                s.push('/');
            }
            s.append(text::from_utf8_lossy(n).as_str());
        },
    }
    assert(s@ =~= shown(
        root@,
        dir@,
        match name {
            Some(n) => Some(n@),
            None => None,
        },
    ));
    s
}

/// A path is seen from its directory as its own name.
pub proof fn law_join_strip(root: Seq<u8>, name: Seq<u8>)
    requires
        root.len() > 0,
        name.len() > 0,
        name[0] != SEPARATOR,
    ensures
        relative(root, joined(root, name)) == Some(name),
{
    let r = trimmed(root);
    lemma_trimmed(root);
    let p = joined(root, name);
    let l = r.len() as int;
    assert(p.take(l) =~= r);
    if root.last() == SEPARATOR {
        assert(p[l] == SEPARATOR) by {
            assert(root[l] == SEPARATOR);
        }
        lemma_stripped(root.skip(l), name);
        assert(p.skip(l) =~= root.skip(l) + name);
    } else {
        assert(r == root);
        assert(p.skip(l) =~= seq![SEPARATOR] + name);
        lemma_stripped(seq![SEPARATOR], name);
    }
}

/// What is trimmed from the end are separators.
proof fn lemma_trimmed(p: Seq<u8>)
    ensures
        trimmed(p).len() <= p.len(),
        p.take(trimmed(p).len() as int) == trimmed(p),
        forall|i: int| trimmed(p).len() <= i < p.len() ==> p[i] == SEPARATOR,
        p.len() > 0 && p.last() == SEPARATOR ==> trimmed(p).len() < p.len(),
    decreases p.len(),
{
    if p.len() > 0 && p.last() == SEPARATOR {
        lemma_trimmed(p.drop_last());
        assert(p.take(trimmed(p).len() as int) =~= p.drop_last().take(trimmed(p).len() as int));
        assert forall|i: int| trimmed(p).len() <= i < p.len() implies p[i] == SEPARATOR by {
            if i < p.len() - 1 {
                assert(p.drop_last()[i] == SEPARATOR);
            }
        }
    } else {
        assert(p.take(p.len() as int) =~= p);
    }
}

/// Separators before a relative path are stripped.
proof fn lemma_stripped(seps: Seq<u8>, name: Seq<u8>)
    requires
        forall|i: int| 0 <= i < seps.len() ==> seps[i] == SEPARATOR,
        name.len() > 0,
        name[0] != SEPARATOR,
    ensures
        stripped(seps + name) == name,
    decreases seps.len(),
{
    if seps.len() == 0 {
        assert(seps + name =~= name);
    } else {
        assert((seps + name).drop_first() =~= seps.drop_first() + name);
        lemma_stripped(seps.drop_first(), name);
    }
}

/// A component ends before the next separator.
proof fn lemma_end_before(p: Seq<u8>, i: int, j: int)
    requires
        0 <= i <= j < p.len(),
        p[j] == SEPARATOR,
    ensures
        end_of(p, i) <= j,
    decreases j - i,
{
    if i < j && p[i] != SEPARATOR {
        lemma_end_before(p, i + 1, j);
    }
}

/// A component ends at the same place behind a directory.
proof fn lemma_end_behind(a: Seq<u8>, b: Seq<u8>, i: int)
    requires
        0 <= i,
    ensures
        end_of(a + b, a.len() + i) == a.len() + end_of(b, i),
    decreases b.len() - i,
{
    if i < b.len() && b[i] != SEPARATOR {
        lemma_end_behind(a, b, i + 1);
    }
}

/// What comes after a component is made of the same components behind a
/// directory.
proof fn lemma_spans_behind(a: Seq<u8>, b: Seq<u8>, i: int)
    requires
        0 < i,
    ensures
        spans(a + b, a.len() + i) == spans(b, i).map_values(
            |s: (int, int)| (s.0 + a.len(), s.1 + a.len()),
        ),
    decreases b.len() - i,
{
    let p = a + b;
    let f = |s: (int, int)| (s.0 + a.len(), s.1 + a.len());
    if i >= b.len() {
        assert(spans(b, i).map_values(f) =~= Seq::empty());
    } else if b[i] == SEPARATOR {
        lemma_spans_behind(a, b, i + 1);
    } else {
        let e = end_of(b, i + 1);
        lemma_end_of(b, i + 1);
        lemma_end_behind(a, b, i + 1);
        lemma_spans_behind(a, b, e);
        assert(p.subrange(a.len() + i, a.len() + e) =~= b.subrange(i, e));
        if b.subrange(i, e) != seq![DOT] {
            assert((seq![(i, e)] + spans(b, e)).map_values(f) =~= seq![f((i, e))] + spans(
                b,
                e,
            ).map_values(f));
        }
    }
}

/// The components of a directory come before those of what is in it.
proof fn lemma_spans_before(a: Seq<u8>, b: Seq<u8>, i: int)
    requires
        0 <= i <= a.len(),
        a.len() == 0 || a.last() == SEPARATOR,
    ensures
        spans(a + b, a.len() as int).len() > 0 ==> spans(a + b, i).len() > 0 && spans(
            a + b,
            i,
        ).last() == spans(a + b, a.len() as int).last(),
    decreases a.len() - i,
{
    let p = a + b;
    if i < a.len() {
        if p[i] == SEPARATOR {
            lemma_spans_before(a, b, i + 1);
        } else {
            let e = end_of(p, i + 1);
            lemma_end_of(p, i + 1);
            lemma_end_before(p, i + 1, a.len() - 1);
            lemma_spans_before(a, b, e);
        }
    }
}

/// A path leads to a file of the same name behind a directory.
pub proof fn law_file_name_behind(a: Seq<u8>, b: Seq<u8>)
    requires
        a.len() == 0 || a.last() == SEPARATOR,
        file_name_of(b) is Some,
    ensures
        file_name_of(a + b) == file_name_of(b),
{
    let p = a + b;
    let l = a.len() as int;
    let f = |s: (int, int)| (s.0 + a.len(), s.1 + a.len());
    let n = file_name_of(b)->0;
    if l == 0 {
        assert(p =~= b);
    } else {
        lemma_first_spans(a, b);
        let x = spans(b, 0).last();
        lemma_spans_before(a, b, 0);
        assert(components(b).last() == b.subrange(x.0, x.1));
        lemma_spans_within(b, 0);
        assert(p.subrange(x.0 + l, x.1 + l) =~= b.subrange(x.0, x.1));
        assert(components(p).last() == p.subrange(x.0 + l, x.1 + l));
    }
}

/// Components are within the path.
proof fn lemma_spans_within(p: Seq<u8>, i: int)
    requires
        0 <= i,
    ensures
        forall|j: int|
            0 <= j < spans(p, i).len() ==> i <= (#[trigger] spans(p, i)[j]).0 < spans(p, i)[j].1
                <= p.len(),
    decreases p.len() - i,
{
    if i < p.len() {
        if p[i] == SEPARATOR {
            lemma_spans_within(p, i + 1);
            assert forall|j: int| 0 <= j < spans(p, i).len() implies i <= (#[trigger] spans(
                p,
                i,
            )[j]).0 < spans(p, i)[j].1 <= p.len() by {
                assert(spans(p, i)[j] == spans(p, i + 1)[j]);
            }
        } else {
            let e = end_of(p, i + 1);
            lemma_end_of(p, i + 1);
            lemma_spans_within(p, e);
            let rest = spans(p, e);
            assert forall|j: int| 0 <= j < spans(p, i).len() implies i <= (#[trigger] spans(
                p,
                i,
            )[j]).0 < spans(p, i)[j].1 <= p.len() by {
                if spans(p, i).len() == rest.len() {
                    assert(spans(p, i)[j] == rest[j]);
                } else if j > 0 {
                    assert(spans(p, i)[j] == rest[j - 1]);
                }
            }
        }
    }
}

/// Behind a directory, a path ends with the same component, if that is a name.
proof fn lemma_first_spans(a: Seq<u8>, b: Seq<u8>)
    requires
        file_name_of(b) is Some,
    ensures
        spans(a + b, a.len() as int).len() > 0,
        spans(a + b, a.len() as int).last() == (
            spans(b, 0).last().0 + a.len(),
            spans(b, 0).last().1 + a.len(),
        ),
{
    let p = a + b;
    let l = a.len() as int;
    let f = |s: (int, int)| (s.0 + a.len(), s.1 + a.len());
    assert(components(b).len() == spans(b, 0).len());
    assert(b.len() > 0);
    if b[0] == SEPARATOR {
        lemma_spans_behind(a, b, 1);
        assert(spans(b, 1).map_values(f).last() == f(spans(b, 1).last()));
    } else {
        let e = end_of(b, 1);
        lemma_end_of(b, 1);
        lemma_end_behind(a, b, 1);
        lemma_spans_behind(a, b, e);
        let rest = spans(b, e);
        assert(spans(b, 0) == seq![(0int, e)] + rest);
        assert(p.subrange(l, l + e) =~= b.subrange(0, e));
        if rest.len() > 0 {
            assert(spans(b, 0).last() == rest.last());
            assert(rest.map_values(f).last() == f(rest.last()));
        } else {
            assert(spans(b, 0).last() == (0int, e));
            assert(components(b).last() == b.subrange(0, e));
        }
    }
}

/// A component without a separator after it ends with the path.
proof fn lemma_end_last(p: Seq<u8>, i: int)
    requires
        0 <= i <= p.len(),
        forall|j: int| i <= j < p.len() ==> p[j] != SEPARATOR,
    ensures
        end_of(p, i) == p.len(),
    decreases p.len() - i,
{
    if i < p.len() {
        lemma_end_last(p, i + 1);
    }
}

/// A name alone leads to the file of that name.
pub proof fn law_file_name(n: Seq<u8>)
    requires
        n.len() > 0,
        forall|j: int| 0 <= j < n.len() ==> n[j] != SEPARATOR,
        n != seq![DOT],
        n != seq![DOT, DOT],
    ensures
        file_name_of(n) == Some(n),
{
    lemma_end_last(n, 1);
    let e = end_of(n, 1);
    assert(spans(n, e) =~= Seq::empty());
    assert(spans(n, 0) =~= seq![(0int, e)]);
    assert(components(n).last() == n.subrange(0, e));
    assert(n.subrange(0, e) =~= n);
}

/// A path that is neither empty nor absolute is made of at least one name.
pub proof fn lemma_relative_components(p: Seq<u8>)
    ensures
        p.len() > 0 && !absolute(p) ==> components(p).len() > 0,
{
    if p.len() > 0 && !absolute(p) {
        assert(spans(p, 0).len() > 0);
    }
}

/// A path, taken apart into the directory and the name of what it leads to.
pub struct Place {
    /// The directory, as a path; empty if there is none.
    pub parent: Name,
    /// The names that the directory is made of.
    pub names: Vec<Name>,
    /// The name of the file, if the path names one.
    pub name: Option<Name>,
}

/// Returns the directory and the name of what a path leads to.
pub fn place_of(p: &[u8]) -> (r: Place)
    ensures
        r.parent@ == (match parent_of(p@) {
            Some(d) => d,
            None => Seq::empty(),
        }),
        names_of(r.names@) == components(r.parent@),
        match r.name {
            Some(n) => file_name_of(p@) == Some(n@),
            None => file_name_of(p@) is None,
        },
{
    let parent: Name = match parent(p) {
        Some(d) => d,
        None => {
            let nowhere: Name = Vec::new();
            assert(nowhere@ =~= Seq::empty());
            nowhere
        },
    };
    let c = split(parent.as_slice());
    Place { parent, names: c.names, name: file_name(p) }
}

/// Names with separators between them.
pub open spec fn chained(names: Seq<Seq<u8>>) -> Seq<u8>
    decreases names.len(),
{
    if names.len() == 0 {
        Seq::empty()
    } else if names.len() == 1 {
        names[0]
    } else {
        chained(names.drop_last()).push(SEPARATOR) + names.last()
    }
}

/// The path made of the same names as `p`, without anything that makes no
/// difference.
pub open spec fn normal(p: Seq<u8>) -> Seq<u8> {
    if absolute(p) {
        seq![SEPARATOR] + chained(components(p))
    } else {
        chained(components(p))
    }
}

/// Whether two paths are made of the same names.
pub open spec fn same_path(p: Seq<u8>, q: Seq<u8>) -> bool {
    absolute(p) == absolute(q) && components(p) == components(q)
}

/// Returns the path made of the same names, without anything that makes no
/// difference.
pub fn normalise(p: &[u8]) -> (r: Name)
    ensures
        r@ == normal(p@),
{
    let c = split(p);
    let ghost all = names_of(c.names@);
    let mut r: Name = Vec::new();
    if is_absolute(p) {
        r.push(SEPARATOR);
    }
    let ghost start = r@;
    let mut i: usize = 0;
    assert(r@ =~= start + chained(all.take(0)));
    while i < c.names.len()
        invariant
            i <= c.names@.len(),
            all == names_of(c.names@),
            r@ == start + chained(all.take(i as int)),
        decreases c.names@.len() - i,
    {
        let ghost before = r@;
        if i > 0 {
            r.push(SEPARATOR);
        }
        bytes::append(&mut r, c.names[i].as_slice());
        proof {
            let t = all.take(i + 1);
            assert(t.drop_last() =~= all.take(i as int));
            assert(t.last() == c.names@[i as int]@);
            if i == 0 {
                assert(t[0] == t.last());
            }
            assert(r@ =~= start + chained(t));
        }
        i += 1;
    }
    assert(all.take(i as int) =~= all);
    assert(r@ =~= normal(p@));
    r
}

/// Whether something is a name: it is not empty and holds no separator.
spec fn is_name(n: Seq<u8>) -> bool {
    n.len() > 0 && forall|j: int| 0 <= j < n.len() ==> n[j] != SEPARATOR
}

/// Before the end of a component, there is no separator.
proof fn lemma_end_free(p: Seq<u8>, i: int)
    requires
        0 <= i,
    ensures
        forall|j: int| i <= j < end_of(p, i) ==> p[j] != SEPARATOR,
    decreases p.len() - i,
{
    if i < p.len() && p[i] != SEPARATOR {
        lemma_end_free(p, i + 1);
    }
}

/// Components are made of names.
proof fn lemma_spans_free(p: Seq<u8>, i: int)
    requires
        0 <= i,
    ensures
        forall|k: int|
            0 <= k < spans(p, i).len() ==> is_name(
                p.subrange((#[trigger] spans(p, i)[k]).0, spans(p, i)[k].1),
            ),
    decreases p.len() - i,
{
    if i < p.len() {
        if p[i] == SEPARATOR {
            lemma_spans_free(p, i + 1);
            assert forall|k: int| 0 <= k < spans(p, i).len() implies is_name(
                p.subrange((#[trigger] spans(p, i)[k]).0, spans(p, i)[k].1),
            ) by {
                assert(spans(p, i)[k] == spans(p, i + 1)[k]);
            }
        } else {
            let e = end_of(p, i + 1);
            lemma_end_of(p, i + 1);
            lemma_end_free(p, i + 1);
            lemma_spans_free(p, e);
            let rest = spans(p, e);
            assert(is_name(p.subrange(i, e)));
            assert forall|k: int| 0 <= k < spans(p, i).len() implies is_name(
                p.subrange((#[trigger] spans(p, i)[k]).0, spans(p, i)[k].1),
            ) by {
                if spans(p, i).len() == rest.len() {
                    assert(spans(p, i)[k] == rest[k]);
                } else if k > 0 {
                    assert(spans(p, i)[k] == rest[k - 1]);
                }
            }
        }
    }
}

proof fn lemma_components(p: Seq<u8>)
    ensures
        forall|k: int| 0 <= k < components(p).len() ==> is_name(#[trigger] components(p)[k]),
{
    lemma_spans_free(p, 0);
    assert forall|k: int| 0 <= k < components(p).len() implies is_name(
        #[trigger] components(p)[k],
    ) by {
        let x = spans(p, 0)[k];
        assert(components(p)[k] == p.subrange(x.0, x.1));
    }
}

/// What names are chained is known from the chain.
proof fn lemma_chained(a: Seq<Seq<u8>>, b: Seq<Seq<u8>>)
    requires
        forall|k: int| 0 <= k < a.len() ==> is_name(#[trigger] a[k]),
        forall|k: int| 0 <= k < b.len() ==> is_name(#[trigger] b[k]),
        chained(a) == chained(b),
    ensures
        a == b,
    decreases a.len(),
{
    lemma_chain_starts(a);
    lemma_chain_starts(b);
    let (x, y) = (chained(a), chained(b));
    if a.len() <= 1 || b.len() <= 1 {
        if a.len() > 1 {
            assert(x[chained(a.drop_last()).len() as int] == SEPARATOR);
        }
        if b.len() > 1 {
            assert(y[chained(b.drop_last()).len() as int] == SEPARATOR);
        }
        assert(a =~= b);
    } else {
        let (i, j) = (chained(a.drop_last()).len() as int, chained(b.drop_last()).len() as int);
        assert(is_name(a[a.len() - 1]) && is_name(b[b.len() - 1]));
        assert(x[i] == SEPARATOR && y[j] == SEPARATOR);
        if i < j {
            assert(x[j] == a.last()[j - i - 1]);
        }
        if j < i {
            assert(y[i] == b.last()[i - j - 1]);
        }
        assert(x.take(i) =~= chained(a.drop_last()));
        assert(y.take(j) =~= chained(b.drop_last()));
        assert(x.skip(i + 1) =~= a.last());
        assert(y.skip(j + 1) =~= b.last());
        assert forall|k: int| 0 <= k < a.drop_last().len() implies is_name(
            #[trigger] a.drop_last()[k],
        ) by {
            assert(is_name(a[k]));
        }
        assert forall|k: int| 0 <= k < b.drop_last().len() implies is_name(
            #[trigger] b.drop_last()[k],
        ) by {
            assert(is_name(b[k]));
        }
        lemma_chained(a.drop_last(), b.drop_last());
        assert(a =~= a.drop_last().push(a.last()));
        assert(b =~= b.drop_last().push(b.last()));
    }
}

/// A chain of names does not begin with a separator.
proof fn lemma_chain_starts(a: Seq<Seq<u8>>)
    requires
        forall|k: int| 0 <= k < a.len() ==> is_name(#[trigger] a[k]),
    ensures
        a.len() > 0 ==> chained(a).len() > 0 && chained(a)[0] != SEPARATOR,
    decreases a.len(),
{
    if a.len() == 1 {
        assert(is_name(a[0]));
    } else if a.len() > 1 {
        let b = a.drop_last();
        assert forall|k: int| 0 <= k < b.len() implies is_name(#[trigger] b[k]) by {
            assert(is_name(a[k]));
        }
        lemma_chain_starts(b);
        assert(chained(a)[0] == chained(b)[0]);
    }
}

/// Paths are made of the same names exactly if their normal forms are the same.
pub proof fn law_normal(p: Seq<u8>, q: Seq<u8>)
    ensures
        same_path(p, q) <==> normal(p) == normal(q),
{
    lemma_components(p);
    lemma_components(q);
    lemma_chain_starts(components(p));
    lemma_chain_starts(components(q));
    if normal(p) == normal(q) {
        if absolute(p) {
            assert(normal(p)[0] == SEPARATOR);
        }
        if absolute(q) {
            assert(normal(q)[0] == SEPARATOR);
        }
        if absolute(p) {
            assert(normal(p).skip(1) =~= chained(components(p)));
            assert(normal(q).skip(1) =~= chained(components(q)));
        }
        lemma_chained(components(p), components(q));
    }
}

/// A path leads to the file of its own name exactly if it is a name alone.
pub proof fn law_own_name(n: Seq<u8>)
    ensures
        file_name_of(n) == Some(n) <==> n.len() > 0 && n != seq![DOT] && n != seq![DOT, DOT] && (
        forall|i: int| 0 <= i < n.len() ==> n[i] != SEPARATOR),
{
    if file_name_of(n) == Some(n) {
        lemma_components(n);
        assert(is_name(components(n)[components(n).len() - 1]));
    }
    if n.len() > 0 && n != seq![DOT] && n != seq![DOT, DOT] && (forall|i: int|
        0 <= i < n.len() ==> n[i] != SEPARATOR) {
        law_file_name(n);
    }
}

/// An absolute path stays as it is in any directory. Any other comes behind the
/// directory, with one separator between the two if there is a directory.
pub proof fn law_joined(a: Seq<u8>, b: Seq<u8>)
    ensures
        absolute(b) ==> joined(a, b) == b,
        a.len() == 0 ==> joined(a, b) == b,
        !absolute(b) ==> {
            let p = joined(a, b);
            &&& p.take(a.len() as int) == a && p.skip(p.len() - b.len()) == b
            &&& p.len() <= a.len() + 1 + b.len()
            &&& a.len() > 0 ==> p[p.len() - b.len() - 1] == SEPARATOR
            &&& p.len() == a.len() + b.len() <==> a.len() == 0 || a.last() == SEPARATOR
        },
{
    let p = joined(a, b);
    if a.len() == 0 {
        assert(a + b =~= b);
    }
    if !absolute(b) {
        assert(p.take(a.len() as int) =~= a);
        assert(p.skip(p.len() - b.len()) =~= b);
    }
}

/// Where a component ends is known before the next one begins.
proof fn lemma_end_taken(p: Seq<u8>, i: int, e: int)
    requires
        0 <= i <= e <= p.len(),
        end_of(p, i) <= e,
    ensures
        end_of(p.take(e), i) == end_of(p, i),
    decreases p.len() - i,
{
    lemma_end_of(p, i);
    if i < p.len() && p[i] != SEPARATOR {
        lemma_end_of(p, i + 1);
        lemma_end_taken(p, i + 1, e);
    }
}

/// Up to the end of a component, a path is made of the components up to there.
proof fn lemma_spans_taken(p: Seq<u8>, i: int, k: int)
    requires
        0 <= i <= p.len(),
        0 <= k < spans(p, i).len(),
    ensures
        spans(p.take(spans(p, i)[k].1), i) == spans(p, i).take(k + 1),
    decreases p.len() - i,
{
    let s = spans(p, i);
    let e = s[k].1;
    lemma_spans_within(p, i);
    let q = p.take(e);
    assert(i < e <= p.len());
    assert(q[i] == p[i]);
    if p[i] == SEPARATOR {
        lemma_spans_taken(p, i + 1, k);
    } else {
        let f = end_of(p, i + 1);
        lemma_end_of(p, i + 1);
        let rest = spans(p, f);
        lemma_spans_within(p, f);
        if i > 0 && p.subrange(i, f) == seq![DOT] {
            assert(s[k] == rest[k]);
            lemma_end_taken(p, i + 1, e);
            assert(q.subrange(i, f) =~= p.subrange(i, f));
            lemma_spans_taken(p, f, k);
        } else {
            if k == 0 {
                assert(e == f);
                lemma_end_taken(p, i + 1, e);
                assert(q.subrange(i, f) =~= p.subrange(i, f));
                assert(spans(q, f) =~= Seq::empty());
                assert(spans(q, i) =~= s.take(1));
            } else {
                assert(s[k] == rest[k - 1]);
                lemma_end_taken(p, i + 1, e);
                assert(q.subrange(i, f) =~= p.subrange(i, f));
                lemma_spans_taken(p, f, k - 1);
                assert(s.take(k + 1) =~= seq![(i, f)] + rest.take(k));
            }
        }
    }
}

/// A separator at the end makes no difference to where the components are.
proof fn lemma_end_pushed(p: Seq<u8>, i: int)
    requires
        0 <= i <= p.len(),
    ensures
        end_of(p.push(SEPARATOR), i) == end_of(p, i),
    decreases p.len() - i,
{
    if i < p.len() && p[i] != SEPARATOR {
        lemma_end_pushed(p, i + 1);
    }
}

proof fn lemma_spans_pushed(p: Seq<u8>, i: int)
    requires
        0 <= i <= p.len(),
    ensures
        spans(p.push(SEPARATOR), i) == spans(p, i),
    decreases p.len() - i,
{
    let q = p.push(SEPARATOR);
    if i == p.len() {
        assert(q[i] == SEPARATOR);
        assert(spans(q, i + 1) =~= Seq::empty());
    } else if p[i] == SEPARATOR {
        lemma_spans_pushed(p, i + 1);
    } else {
        let e = end_of(p, i + 1);
        lemma_end_of(p, i + 1);
        lemma_end_pushed(p, i + 1);
        lemma_spans_pushed(p, e);
        assert(q.subrange(i, e) =~= p.subrange(i, e));
    }
}

/// Where a component of a directory ends does not depend on what comes behind it.
proof fn lemma_end_ahead(a: Seq<u8>, b: Seq<u8>, i: int)
    requires
        0 <= i < a.len(),
        a.last() == SEPARATOR,
    ensures
        end_of(a + b, i) == end_of(a, i),
        end_of(a, i) < a.len(),
    decreases a.len() - i,
{
    if a[i] != SEPARATOR {
        lemma_end_ahead(a, b, i + 1);
    }
}

/// The components behind a directory come after those of the directory.
proof fn lemma_spans_joined(a: Seq<u8>, b: Seq<u8>, i: int)
    requires
        0 <= i <= a.len(),
        a.len() > 0,
        a.last() == SEPARATOR,
    ensures
        spans(a + b, i) == spans(a, i) + spans(a + b, a.len() as int),
    decreases a.len() - i,
{
    let p = a + b;
    if i == a.len() {
        assert(spans(a, i) + spans(p, i) =~= spans(p, i));
    } else if a[i] == SEPARATOR {
        lemma_spans_joined(a, b, i + 1);
    } else {
        let e = end_of(a, i + 1);
        lemma_end_of(a, i + 1);
        lemma_end_ahead(a, b, i + 1);
        lemma_spans_joined(a, b, e);
        assert(p.subrange(i, e) =~= a.subrange(i, e));
        assert(spans(p, i) =~= spans(a, i) + spans(p, a.len() as int));
    }
}

/// A path that is made of a directory and a name in it is made of the names of the
/// directory and of that name.
pub proof fn law_joined_name(a: Seq<u8>, n: Seq<u8>)
    requires
        n.len() > 0,
        forall|j: int| 0 <= j < n.len() ==> n[j] != SEPARATOR,
        n != seq![DOT],
    ensures
        components(joined(a, n)) == components(a).push(n),
        absolute(joined(a, n)) == absolute(a),
{
    let p = joined(a, n);
    let f = |s: (int, int)| p.subrange(s.0, s.1);
    let g = |s: (int, int)| a.subrange(s.0, s.1);
    lemma_end_last(n, 1);
    if a.len() == 0 {
        assert(p =~= n);
        assert(spans(n, n.len() as int) =~= Seq::empty());
        assert(spans(p, 0) =~= seq![(0int, n.len() as int)]);
        assert(n.subrange(0, n.len() as int) =~= n);
        assert(components(a) =~= Seq::empty());
        assert(components(p) =~= components(a).push(n));
    } else {
        let d = if a.last() == SEPARATOR {
            a
        } else {
            a.push(SEPARATOR)
        };
        let l = d.len() as int;
        assert(p == d + n);
        lemma_spans_pushed(a, 0);
        assert(spans(d, 0) == spans(a, 0));
        lemma_spans_joined(d, n, 0);
        lemma_end_behind(d, n, 1);
        assert(p[l] == n[0]);
        assert(p.subrange(l, l + n.len()) =~= n);
        assert(spans(p, l + n.len()) =~= Seq::empty());
        assert(spans(p, l) =~= seq![(l, l + n.len())]);
        let s = spans(a, 0);
        assert(spans(p, 0) == s + seq![(l, l + n.len())]);
        lemma_spans_within(a, 0);
        assert(components(p).len() == s.len() + 1);
        assert forall|k: int| 0 <= k < components(p).len() implies components(p)[k] == components(
            a,
        ).push(n)[k] by {
            if k < s.len() {
                assert(spans(p, 0)[k] == s[k]);
                assert(p.subrange(s[k].0, s[k].1) =~= a.subrange(s[k].0, s[k].1));
            }
        }
        assert(components(p) =~= components(a).push(n));
    }
}

/// The directory that a path is in is made of all names but the last, and is
/// absolute if the path is.
pub proof fn law_parent(p: Seq<u8>)
    ensures
        parent_of(p) is Some <==> components(p).len() > 0,
        parent_of(p) matches Some(d) ==> components(d) == components(p).drop_last() && absolute(d)
            == absolute(p),
{
    if components(p).len() > 0 {
        let s = spans(p, 0);
        let d = directory_of(p);
        lemma_spans_within(p, 0);
        if s.len() > 1 {
            let k = s.len() - 2;
            lemma_spans_taken(p, 0, k);
            let e = s[k].1;
            assert(spans(d, 0) == s.take(k + 1));
            assert forall|j: int| 0 <= j < k + 1 implies components(d)[j] == components(p)[j] by {
                assert(spans(d, 0)[j] == s[j]);
                lemma_spans_within(d, 0);
                assert(d.subrange(s[j].0, s[j].1) =~= p.subrange(s[j].0, s[j].1));
            }
            assert(components(d) =~= components(p).drop_last());
            assert(d[0] == p[0]);
        } else if absolute(p) {
            assert(d[0] == SEPARATOR);
            assert(spans(d, 1) =~= Seq::empty());
            assert(components(d) =~= components(p).drop_last());
        } else {
            assert(components(d) =~= components(p).drop_last());
        }
    }
}

/// The name of a file in the directory that it is in leads to that file.
pub proof fn law_place(p: Seq<u8>)
    requires
        file_name_of(p) is Some,
    ensures
        parent_of(p) is Some,
        same_path(joined(parent_of(p)->0, file_name_of(p)->0), p),
{
    law_parent(p);
    lemma_components(p);
    let c = components(p);
    let n = file_name_of(p)->0;
    assert(is_name(c[c.len() - 1]));
    law_joined_name(parent_of(p)->0, n);
    assert(c.drop_last().push(n) =~= c);
}

/// Behind the beginning of a path, no component is ".".
proof fn lemma_no_dots(p: Seq<u8>, i: int)
    requires
        0 < i,
    ensures
        forall|k: int|
            0 <= k < spans(p, i).len() ==> p.subrange(
                (#[trigger] spans(p, i)[k]).0,
                spans(p, i)[k].1,
            ) != seq![DOT],
    decreases p.len() - i,
{
    if i < p.len() {
        if p[i] == SEPARATOR {
            lemma_no_dots(p, i + 1);
            assert forall|k: int| 0 <= k < spans(p, i).len() implies p.subrange(
                (#[trigger] spans(p, i)[k]).0,
                spans(p, i)[k].1,
            ) != seq![DOT] by {
                assert(spans(p, i)[k] == spans(p, i + 1)[k]);
            }
        } else {
            let e = end_of(p, i + 1);
            lemma_end_of(p, i + 1);
            lemma_no_dots(p, e);
            let rest = spans(p, e);
            assert forall|k: int| 0 <= k < spans(p, i).len() implies p.subrange(
                (#[trigger] spans(p, i)[k]).0,
                spans(p, i)[k].1,
            ) != seq![DOT] by {
                if p.subrange(i, e) == seq![DOT] {
                    assert(spans(p, i)[k] == rest[k]);
                } else if k > 0 {
                    assert(spans(p, i)[k] == rest[k - 1]);
                }
            }
        }
    }
}

proof fn lemma_dot_first(p: Seq<u8>, k: int)
    requires
        0 <= k < components(p).len(),
        components(p)[k] == seq![DOT],
    ensures
        k == 0,
        !absolute(p),
{
    let x = spans(p, 0)[k];
    assert(components(p)[k] == p.subrange(x.0, x.1));
    if absolute(p) {
        lemma_no_dots(p, 1);
        assert(spans(p, 1)[k] == x);
    } else {
        let e = end_of(p, 1);
        lemma_end_of(p, 1);
        lemma_no_dots(p, e);
        if k > 0 {
            assert(spans(p, e)[k - 1] == x);
        }
    }
}

/// Names that are chained make up a path of those names.
proof fn lemma_chain_components(names: Seq<Seq<u8>>, lead: Seq<u8>)
    requires
        lead.len() == 0 || lead == seq![SEPARATOR],
        forall|k: int| 0 <= k < names.len() ==> is_name(#[trigger] names[k]),
        forall|k: int|
            0 <= k < names.len() && (k > 0 || lead.len() > 0) ==> #[trigger] names[k] != seq![DOT],
    ensures
        components(lead + chained(names)) == names,
        absolute(lead + chained(names)) == (lead.len() > 0),
        names.len() > 0 ==> (lead + chained(names)).last() != SEPARATOR,
    decreases names.len(),
{
    let p = lead + chained(names);
    if names.len() == 0 {
        assert(p =~= lead);
        if lead.len() > 0 {
            assert(lead[0] == SEPARATOR);
            assert(spans(lead, 1) =~= Seq::empty());
        }
        assert(components(p) =~= names);
    } else if names.len() == 1 {
        let n = names[0];
        assert(is_name(n));
        assert(p.last() == n.last());
        if lead.len() > 0 {
            assert(p =~= joined(lead, n));
            law_joined_name(lead, n);
            lemma_chain_components(Seq::empty(), lead);
            assert(lead + chained(Seq::empty()) =~= lead);
            assert(components(p) =~= names);
        } else {
            assert(p =~= n);
            lemma_end_last(n, 1);
            assert(spans(n, n.len() as int) =~= Seq::empty());
            assert(spans(n, 0) =~= seq![(0int, n.len() as int)]);
            assert(n.subrange(0, n.len() as int) =~= n);
            assert(components(p) =~= names);
        }
    } else {
        let most = names.drop_last();
        let n = names.last();
        assert(is_name(names[names.len() - 1]));
        assert forall|k: int| 0 <= k < most.len() implies is_name(#[trigger] most[k]) by {
            assert(is_name(names[k]));
        }
        assert forall|k: int|
            0 <= k < most.len() && (k > 0 || lead.len() > 0) implies #[trigger] most[k] != seq![
            DOT,
        ] by {
            assert(names[k] != seq![DOT]);
        }
        lemma_chain_components(most, lead);
        assert(names[names.len() - 1] != seq![DOT]);
        let q = lead + chained(most);
        assert(q.len() > 0) by {
            if q.len() == 0 {
                assert(components(q) =~= Seq::empty());
            }
        }
        assert(p =~= joined(q, n));
        law_joined_name(q, n);
        assert(most.push(n) =~= names);
        assert(p.last() == n.last());
    }
}

/// The normal form of a path is a path made of the same names, and is its own
/// normal form.
pub proof fn law_normal_same(p: Seq<u8>)
    ensures
        same_path(normal(p), p),
        normal(normal(p)) == normal(p),
{
    lemma_components(p);
    let c = components(p);
    let lead = if absolute(p) {
        seq![SEPARATOR]
    } else {
        Seq::empty()
    };
    assert forall|k: int| 0 <= k < c.len() && (k > 0 || lead.len() > 0) implies #[trigger] c[k]
        != seq![DOT] by {
        if c[k] == seq![DOT] {
            lemma_dot_first(p, k);
        }
    }
    lemma_chain_components(c, lead);
    assert(normal(p) =~= lead + chained(c));
    law_normal(normal(p), p);
}

/// A path is in a directory exactly if it begins with the directory, without the
/// separators at the end of that, and goes on with a separator if at all. What is
/// left of it does not begin with a separator, and leads from the directory to the
/// same place.
pub proof fn law_relative(root: Seq<u8>, p: Seq<u8>)
    requires
        root.len() > 0,
    ensures
        relative(root, root) == Some(Seq::<u8>::empty()),
        relative(root, p) matches Some(x) ==> {
            &&& !absolute(x)
            &&& p.len() >= x.len() && p.skip(p.len() - x.len()) == x
            &&& forall|i: int|
                0 <= i < p.len() - x.len() ==> (i < root.len() && p[i] == root[i]) || p[i]
                    == SEPARATOR
            &&& x.len() > 0 ==> relative(root, joined(root, x)) == Some(x)
        },
{
    let r = trimmed(root);
    let l = r.len() as int;
    lemma_trimmed(root);
    assert(root.take(l) == r);
    let seps = root.skip(l);
    assert forall|i: int| 0 <= i < seps.len() implies seps[i] == SEPARATOR by {
        assert(root[l + i] == SEPARATOR);
    }
    lemma_all_stripped(seps);
    if let Some(x) = relative(root, p) {
        lemma_stripped_end(p.skip(l));
        let t = p.skip(l);
        assert(p.skip(p.len() - x.len()) =~= t.skip(t.len() - x.len()));
        assert forall|i: int| 0 <= i < p.len() - x.len() implies (i < root.len() && p[i]
            == root[i]) || p[i] == SEPARATOR by {
            if i < l {
                assert(p.take(l)[i] == root.take(l)[i]);
            } else {
                assert(t[i - l] == SEPARATOR);
            }
        }
        if x.len() > 0 {
            law_join_strip(root, x);
        }
    }
}

proof fn lemma_all_stripped(s: Seq<u8>)
    requires
        forall|i: int| 0 <= i < s.len() ==> s[i] == SEPARATOR,
    ensures
        stripped(s) == Seq::<u8>::empty(),
    decreases s.len(),
{
    if s.len() > 0 {
        lemma_all_stripped(s.drop_first());
    } else {
        assert(s =~= Seq::empty());
    }
}

proof fn lemma_stripped_end(s: Seq<u8>)
    ensures
        ({
            let x = stripped(s);
            &&& x.len() <= s.len() && s.skip(s.len() - x.len()) == x
            &&& x.len() > 0 ==> x[0] != SEPARATOR
            &&& forall|i: int| 0 <= i < s.len() - x.len() ==> s[i] == SEPARATOR
        }),
    decreases s.len(),
{
    if s.len() > 0 && s[0] == SEPARATOR {
        lemma_stripped_end(s.drop_first());
        let x = stripped(s);
        let t = s.drop_first();
        assert(s.skip(s.len() - x.len()) =~= t.skip(t.len() - x.len()));
        assert forall|i: int| 0 <= i < s.len() - x.len() implies s[i] == SEPARATOR by {
            if i > 0 {
                assert(t[i - 1] == s[i]);
            }
        }
    } else {
        assert(s.skip(0) =~= s);
    }
}

/// A path is not in a directory only if it begins otherwise, or goes on within a
/// name.
pub proof fn law_elsewhere(root: Seq<u8>, rest: Seq<u8>)
    requires
        root.len() > 0,
        root.last() != SEPARATOR,
    ensures
        relative(root, root + rest) is Some <==> rest.len() == 0 || absolute(rest),
        forall|p: Seq<u8>|
            p.len() < root.len() || p.take(root.len() as int) != root ==> #[trigger] relative(
                root,
                p,
            ) is None,
{
    assert(trimmed(root) == root);
    assert((root + rest).take(root.len() as int) =~= root);
}

/// How a file is shown: a directory that is known is left out, and so is the
/// separator behind it; a file elsewhere is shown with its whole path.
pub proof fn law_shown(root: Seq<u8>, dir: Seq<u8>, name: Seq<u8>)
    ensures
        root.len() > 0 ==> shown(root, root, Some(name)) == text::utf8_lossy(name),
        root.len() > 0 && dir.len() > 0 && !absolute(dir) ==> {
            &&& shown(root, joined(root, dir), None) == text::utf8_lossy(dir)
            &&& shown(root, joined(root, dir), Some(name)) == text::utf8_lossy(dir) + seq!['/']
                + text::utf8_lossy(name)
        },
        relative(root, dir) is None && dir.len() > 0 ==> {
            &&& shown(root, dir, None) == text::utf8_lossy(dir)
            &&& shown(root, dir, Some(name)) == text::utf8_lossy(dir) + seq!['/']
                + text::utf8_lossy(name)
        },
        shown(Seq::empty(), Seq::empty(), Some(name)) == text::utf8_lossy(name),
{
    if root.len() > 0 {
        law_relative(root, root);
        if dir.len() > 0 && !absolute(dir) {
            law_join_strip(root, dir);
        }
    }
    let d = text::utf8_lossy(dir);
    assert(d.push('/') + text::utf8_lossy(name) =~= d + seq!['/'] + text::utf8_lossy(name));
}

/// The name of a file holds no separator and is not ".".
pub proof fn lemma_file_name_plain(p: Seq<u8>)
    ensures
        file_name_of(p) matches Some(n) ==> n.len() > 0 && n != seq![DOT] && n != seq![DOT, DOT]
            && forall|j: int| 0 <= j < n.len() ==> n[j] != SEPARATOR,
{
    lemma_components(p);
    if file_name_of(p) is Some {
        assert(is_name(components(p)[components(p).len() - 1]));
    }
}

/// Separators at the end of a path make no difference, and neither does how many
/// there are between two names.
pub proof fn law_more_separators(p: Seq<u8>, n: Seq<u8>)
    requires
        p.len() > 0,
        n.len() > 0,
        forall|j: int| 0 <= j < n.len() ==> n[j] != SEPARATOR,
        n != seq![DOT],
    ensures
        same_path(p.push(SEPARATOR), p),
        same_path(joined(p.push(SEPARATOR), n), joined(p, n)),
        same_path(joined(p.push(SEPARATOR).push(SEPARATOR), n), joined(p, n)),
{
    lemma_pushed_components(p);
    lemma_pushed_components(p.push(SEPARATOR));
    law_joined_name(p, n);
    law_joined_name(p.push(SEPARATOR), n);
    law_joined_name(p.push(SEPARATOR).push(SEPARATOR), n);
}

proof fn lemma_pushed_components(p: Seq<u8>)
    requires
        p.len() > 0,
    ensures
        components(p.push(SEPARATOR)) == components(p),
        absolute(p.push(SEPARATOR)) == absolute(p),
{
    let q = p.push(SEPARATOR);
    lemma_spans_pushed(p, 0);
    lemma_spans_within(p, 0);
    assert forall|k: int| 0 <= k < components(p).len() implies components(q)[k] == components(
        p,
    )[k] by {
        let x = spans(p, 0)[k];
        assert(q.subrange(x.0, x.1) =~= p.subrange(x.0, x.1));
    }
    assert(components(q) =~= components(p));
}

} // verus!
