//! Basic types shared by every part of the library.

use vstd::prelude::*;

use crate::bytes;
use crate::bytes::Name;
use crate::text;

verus! {

/// Type for content hashes of regular files and for blob identifiers on the
/// server.
///
/// In practise, this is a 256-bit SHA-3 sum.
pub type HashId = [u8; 32];

/// The sentinel hash value indicating an uncomputed hash.
///
/// One does not compare hashes against this, since the hashes on files can be
/// out-of-date anyway and must be computed when the file is uploaded in any
/// case.
pub const UNKNOWN_HASH: HashId = [
    0, 0, 0, 0, 0, 0, 0, 0, 0, 0, 0, 0, 0, 0, 0, 0, 0, 0, 0, 0, 0, 0, 0, 0, 0, 0, 0, 0, 0, 0, 0, 0,
];

/// The name of the directory which is a sibling to the configuration and which
/// is the root of the program's private data.
pub const PRIVATE_DIR_NAME: &'static str = "internal.ensync";

/// Prefix of invasive temporary files (i.e., those created implicitly by the
/// sync process).
pub const INVASIVE_TMP_PREFIX: &'static str = "ensync_tmp_";

pub type FileMode = u32;

pub type FileSize = u64;

pub type FileTime = i64;

pub type FileInode = u64;

/// Shallow data about a file in the sync process, excluding its name.
#[derive(Debug, PartialEq, Eq)]
pub enum FileData {
    /// A directory. The only immediate data is its mode.
    Directory(FileMode),
    /// A regular file. Data is mode, size in bytes, last modified, content
    /// hash. Note that the content hash may be incorrect, and always will be
    /// for files freshly listed off the client filesystem.
    Regular(FileMode, FileSize, FileTime, HashId),
    /// A symbolic link. The only data is its actual content.
    Symlink(Name),
    /// Any other type of non-regular file.
    Special,
}

/// What a `FileData` says, over mathematical values.
#[verifier::ext_equal]
pub enum FileModel {
    Directory(FileMode),
    Regular(FileMode, FileSize, FileTime, Seq<u8>),
    Symlink(Seq<u8>),
    Special,
}

impl View for FileData {
    type V = FileModel;

    open spec fn view(&self) -> FileModel {
        match *self {
            FileData::Directory(mode) => FileModel::Directory(mode),
            FileData::Regular(mode, size, time, hash) => FileModel::Regular(
                mode,
                size,
                time,
                hash@,
            ),
            FileData::Symlink(target) => FileModel::Symlink(target@),
            FileData::Special => FileModel::Special,
        }
    }
}

impl FileModel {
    pub open spec fn is_dir(self) -> bool {
        self is Directory
    }

    /// The same file: everything but the size agrees.
    pub open spec fn matches(self, that: FileModel) -> bool {
        match (self, that) {
            (FileModel::Regular(m1, _, t1, h1), FileModel::Regular(m2, _, t2, h2)) => {
                m1 == m2 && t1 == t2 && h1 == h2
            },
            _ => self == that,
        }
    }

    /// The same file but for its modification time (and size).
    pub open spec fn matches_data(self, that: FileModel) -> bool {
        match (self, that) {
            (FileModel::Regular(m1, _, _, h1), FileModel::Regular(m2, _, _, h2)) => {
                m1 == m2 && h1 == h2
            },
            _ => self == that,
        }
    }

    /// The same content and type of file, whatever its mode.
    pub open spec fn matches_content(self, that: FileModel) -> bool {
        match (self, that) {
            (FileModel::Directory(_), FileModel::Directory(_)) => true,
            (FileModel::Regular(_, _, _, h1), FileModel::Regular(_, _, _, h2)) => h1 == h2,
            _ => self == that,
        }
    }

    pub open spec fn newer_than(self, that: FileModel) -> bool {
        match (self, that) {
            (FileModel::Regular(_, _, t1, _), FileModel::Regular(_, _, t2, _)) => t1 > t2,
            _ => false,
        }
    }

    /// `self` with the mode of `that`, where both have a mode.
    pub open spec fn transrich(self, that: FileModel) -> FileModel {
        match (self, that.mode()) {
            (FileModel::Directory(_), Some(m)) => FileModel::Directory(m),
            (FileModel::Regular(_, s, t, h), Some(m)) => FileModel::Regular(m, s, t, h),
            _ => self,
        }
    }

    pub open spec fn mode(self) -> Option<FileMode> {
        match self {
            FileModel::Directory(m) => Some(m),
            FileModel::Regular(m, _, _, _) => Some(m),
            _ => None,
        }
    }
}

/// The view of an optional file.
pub open spec fn opt_view(fd: Option<&FileData>) -> Option<FileModel> {
    match fd {
        Some(f) => Some(f@),
        None => None,
    }
}

/// The view of an optional file, owned.
pub open spec fn opt_model(fd: Option<FileData>) -> Option<FileModel> {
    match fd {
        Some(f) => Some(f@),
        None => None,
    }
}

/// Whether there is a file and it is a directory.
pub open spec fn opt_is_dir(fd: Option<FileModel>) -> bool {
    fd matches Some(f) && f.is_dir()
}

/// Returns whether two hashes are equal.
pub fn same_hash(a: &HashId, b: &HashId) -> (r: bool)
    ensures
        r == (a@ == b@),
{
    let mut i: usize = 0;
    while i < 32
        invariant
            i <= 32,
            forall|j: int| 0 <= j < i ==> a@[j] == b@[j],
        decreases 32 - i,
    {
        if a[i] != b[i] {
            return false;
        }
        i += 1;
    }
    assert(a@ =~= b@);
    true
}

impl Clone for FileData {
    fn clone(&self) -> (r: FileData)
        ensures
            r@ == self@,
    {
        match self {
            FileData::Directory(m) => FileData::Directory(*m),
            FileData::Regular(m, s, t, h) => FileData::Regular(*m, *s, *t, *h),
            FileData::Symlink(t) => FileData::Symlink(bytes::copy(t.as_slice())),
            FileData::Special => FileData::Special,
        }
    }
}

impl FileData {
    /// If both `self` and `other` have a `FileMode`, set `self`'s mode to
    /// `other`'s.
    pub fn transrich_unix_mode(&mut self, other: &FileData)
        ensures
            final(self)@ == old(self)@.transrich(other@),
    {
        let src: FileMode = match other {
            FileData::Directory(m) => *m,
            FileData::Regular(m, _, _, _) => *m,
            _ => {
                return;
            },
        };
        match self {
            FileData::Directory(dst) => {
                *dst = src;
            },
            FileData::Regular(dst, _, _, _) => {
                *dst = src;
            },
            _ => {},
        }
    }

    /// Returns whether this `FileData` is a directory.
    pub fn is_dir(&self) -> (r: bool)
        ensures
            r == self@.is_dir(),
    {
        match self {
            FileData::Directory(_) => true,
            _ => false,
        }
    }

    /// Returns whether both `self` and `other` are regular files and `self`'s
    /// modification time is greater than `other`'s.
    pub fn newer_than(&self, other: &Self) -> (r: bool)
        ensures
            r == self@.newer_than(other@),
    {
        match (self, other) {
            (FileData::Regular(_, _, t1, _), FileData::Regular(_, _, t2, _)) => *t1 > *t2,
            _ => false,
        }
    }

    /// Returns whether this file object and another one represent the same
    /// content.
    ///
    /// This is slightly less strict than a full equality test, ignoring some
    /// of the fields for regular files.
    pub fn matches(&self, that: &FileData) -> (r: bool)
        ensures
            r == self@.matches(that@),
    {
        match (self, that) {
            (FileData::Directory(m1), FileData::Directory(m2)) => *m1 == *m2,
            (FileData::Regular(m1, _, t1, h1), FileData::Regular(m2, _, t2, h2)) => {
                *m1 == *m2 && *t1 == *t2 && same_hash(h1, h2)
            },
            (FileData::Symlink(t1), FileData::Symlink(t2)) => bytes::same(
                t1.as_slice(),
                t2.as_slice(),
            ),
            (FileData::Special, FileData::Special) => true,
            _ => false,
        }
    }

    /// Returns whether non-metadata about this file and another one match.
    pub fn matches_data(&self, that: &FileData) -> (r: bool)
        ensures
            r == self@.matches_data(that@),
    {
        match (self, that) {
            (FileData::Directory(m1), FileData::Directory(m2)) => *m1 == *m2,
            (FileData::Regular(m1, _, _, h1), FileData::Regular(m2, _, _, h2)) => {
                *m1 == *m2 && same_hash(h1, h2)
            },
            (FileData::Symlink(t1), FileData::Symlink(t2)) => bytes::same(
                t1.as_slice(),
                t2.as_slice(),
            ),
            (FileData::Special, FileData::Special) => true,
            _ => false,
        }
    }

    /// Returns whether this file object and another one have the same content
    /// except for file mode.
    pub fn matches_content(&self, that: &FileData) -> (r: bool)
        ensures
            r == self@.matches_content(that@),
    {
        match (self, that) {
            (FileData::Directory(_), FileData::Directory(_)) => true,
            (FileData::Regular(_, _, _, h1), FileData::Regular(_, _, _, h2)) => same_hash(h1, h2),
            (FileData::Symlink(t1), FileData::Symlink(t2)) => bytes::same(
                t1.as_slice(),
                t2.as_slice(),
            ),
            (FileData::Special, FileData::Special) => true,
            _ => false,
        }
    }

    /// Returns whether every field of the two agrees.
    pub fn same(&self, that: &FileData) -> (r: bool)
        ensures
            r == (self@ == that@),
    {
        match (self, that) {
            (FileData::Regular(_, s1, _, _), FileData::Regular(_, s2, _, _)) => *s1 == *s2
                && self.matches(that),
            _ => self.matches(that),
        }
    }
}

/// Convenience for passing a file name and data together.
#[derive(Clone, Copy, Debug, PartialEq, Eq)]
pub struct File<'a>(pub &'a [u8], pub &'a FileData);

/// Returns whether there is a file and it is a directory.
pub fn is_dir(fd: Option<&FileData>) -> (r: bool)
    ensures
        r == opt_is_dir(opt_view(fd)),
{
    match fd {
        Some(f) => f.is_dir(),
        None => false,
    }
}

/// Returns whether two optional files are the same.
pub fn opt_same(a: Option<&FileData>, b: Option<&FileData>) -> (r: bool)
    ensures
        r == (opt_view(a) == opt_view(b)),
{
    match (a, b) {
        (None, None) => true,
        (Some(a), Some(b)) => a.same(b),
        _ => false,
    }
}

/// Returns a copy of an optional file.
pub fn opt_copy(a: Option<&FileData>) -> (r: Option<FileData>)
    ensures
        opt_model(r) == opt_view(a),
{
    match a {
        Some(a) => Some(a.clone()),
        None => None,
    }
}

/// Borrows an optional file.
pub fn opt_ref(a: &Option<FileData>) -> (r: Option<&FileData>)
    ensures
        opt_view(r) == opt_model(*a),
{
    match a {
        Some(a) => Some(a),
        None => None,
    }
}

/// The three ways of comparing files are nested, and each is reflexive and
/// symmetric.
pub proof fn law_matching(a: FileModel, b: FileModel)
    ensures
        a.matches(b) ==> a.matches_data(b),
        a.matches_data(b) ==> a.matches_content(b),
        a.matches(a) && a.matches_data(a) && a.matches_content(a),
        a.matches(b) == b.matches(a),
        a.matches_data(b) == b.matches_data(a),
        a.matches_content(b) == b.matches_content(a),
        a.matches_content(b) ==> (a.is_dir() == b.is_dir()),
{
}

/// Each of the three ways of comparing files is transitive.
pub proof fn law_matching_transitive(a: FileModel, b: FileModel, c: FileModel)
    ensures
        a.matches(b) && b.matches(c) ==> a.matches(c),
        a.matches_data(b) && b.matches_data(c) ==> a.matches_data(c),
        a.matches_content(b) && b.matches_content(c) ==> a.matches_content(c),
{
}

/// A file is never newer than itself, and of two files at most one is newer.
pub proof fn law_newer_than(a: FileModel, b: FileModel)
    ensures
        !a.newer_than(a),
        a.newer_than(b) ==> !b.newer_than(a),
{
}

/// Taking over a mode changes nothing else: the content and the type of the
/// file stay as they were, and doing it again changes nothing.
pub proof fn law_transrich(a: FileModel, b: FileModel)
    ensures
        a.transrich(b).matches_content(a),
        a.transrich(b).transrich(b) == a.transrich(b),
        a.mode() is Some && b.mode() is Some ==> a.transrich(b).mode() == b.mode(),
{
}

/// Wraps a `HashId` to display it in hexadecimal format.
#[derive(Clone, Copy)]
pub struct DisplayHash(pub HashId);

/// The bytes of a hash as pairs of hexadecimal digits.
pub open spec fn hash_text(h: Seq<u8>) -> Seq<char>
    decreases h.len(),
{
    if h.len() == 0 {
        Seq::empty()
    } else {
        hash_text(h.drop_last()) + text::padded(text::digits(h.last() as nat, 16), 2, '0')
    }
}

impl DisplayHash {
    /// Returns the hash in hexadecimal format.
    pub fn to_hex(&self) -> (r: String)
        ensures
            r@ == hash_text(self.0@),
    {
        let mut s: String = String::new();
        let mut i: usize = 0;
        let hash: HashId = self.0;
        proof {
            assert(hash@.take(0) =~= Seq::empty());
        }
        while i < 32
            invariant
                i <= 32,
                s@ == hash_text(hash@.take(i as int)),
            decreases 32 - i,
        {
            text::push_padded_digits(&mut s, hash[i] as u64, 16, 2, '0');
            proof {
                let h = hash@.take(i + 1);
                assert(h.drop_last() =~= hash@.take(i as int));
                assert(h.last() == hash@[i as int]);
            }
            i += 1;
        }
        assert(hash@.take(32) =~= hash@);
        s
    }
}

/// What each way of comparing regular files goes by: none by the size, only
/// `matches` by the modification time, only `matches_content` not by the mode, and
/// all by the content.
pub proof fn law_matching_regular(
    m: FileMode,
    s: FileSize,
    t: FileTime,
    h: Seq<u8>,
    mode: FileMode,
    size: FileSize,
    time: FileTime,
    hash: Seq<u8>,
)
    ensures
        ({
            let a = FileModel::Regular(m, s, t, h);
            &&& FileModel::Regular(m, size, t, h).matches(a)
            &&& FileModel::Regular(m, s, time, h).matches(a) <==> time == t
            &&& FileModel::Regular(mode, s, t, h).matches(a) <==> mode == m
            &&& FileModel::Regular(m, s, t, hash).matches(a) <==> hash == h
            &&& FileModel::Regular(m, size, time, h).matches_data(a)
            &&& FileModel::Regular(mode, s, t, h).matches_data(a) <==> mode == m
            &&& FileModel::Regular(m, s, t, hash).matches_data(a) <==> hash == h
            &&& FileModel::Regular(mode, size, time, h).matches_content(a)
            &&& FileModel::Regular(m, s, t, hash).matches_content(a) <==> hash == h
        }),
{
}

/// Files of different types match in no way. Directories are compared by their
/// modes, except by `matches_content`; symbolic links by their targets.
pub proof fn law_matching_types(a: FileModel, b: FileModel)
    ensures
        a.matches_content(b) ==> (a is Directory <==> b is Directory) && (a is Regular <==> b
            is Regular) && (a is Symlink <==> b is Symlink) && (a is Special <==> b is Special),
        a is Directory && b is Directory ==> a.matches_content(b) && (a.matches(b) <==> a.mode()
            == b.mode()) && (a.matches_data(b) <==> a.mode() == b.mode()),
        a is Symlink || a is Special ==> (a.matches(b) <==> a == b) && (a.matches_data(b) <==> a
            == b) && (a.matches_content(b) <==> a == b),
        a is Regular || a is Directory <==> a.mode() is Some,
        a.is_dir() <==> a is Directory,
{
}

/// Of two regular files the one with the greater modification time is newer.
/// Nothing else is newer than anything.
pub proof fn law_newer_regular(a: FileModel, b: FileModel)
    ensures
        a is Regular && b is Regular ==> (a.newer_than(b) || b.newer_than(a) <==> a->Regular_2
            != b->Regular_2),
        a.newer_than(b) ==> a is Regular && b is Regular && a->Regular_2 > b->Regular_2,
{
}

/// A file takes over the mode of another only if both have one, and keeps all
/// else.
pub proof fn law_transrich_rest(a: FileModel, b: FileModel)
    ensures
        a.mode() is None || b.mode() is None ==> a.transrich(b) == a,
        a.mode() == b.mode() ==> a.transrich(b) == a,
        a is Regular ==> a.transrich(b) is Regular && a.transrich(b)->Regular_1 == a->Regular_1
            && a.transrich(b)->Regular_2 == a->Regular_2 && a.transrich(b)->Regular_3
            == a->Regular_3,
        a is Directory ==> a.transrich(b) is Directory,
{
}

/// A hash is shown in two hexadecimal digits for each byte, in their order.
pub proof fn law_hash_text(h: Seq<u8>, i: int)
    requires
        0 <= i < h.len(),
    ensures
        hash_text(h).len() == 2 * h.len(),
        text::number(hash_text(h).subrange(2 * i, 2 * i + 2), 16) == h[i],
    decreases h.len(),
{
    let d = text::digits(h.last() as nat, 16);
    let p = text::padded(d, 2, '0');
    let n = h.last() as nat;
    text::law_digits(n, 16);
    text::law_padded(d, 2, '0');
    assert(d.len() <= 2) by {
        if n >= 16 {
            assert(n / 16 < 16);
            assert(text::digits(n / 16, 16).len() == 1);
        }
    }
    assert(p.len() == 2);
    lemma_padded_number(d, 2 - d.len());
    let most = h.drop_last();
    if most.len() > 0 {
        law_hash_text(most, 0);
    }
    assert(hash_text(most).len() == 2 * most.len());
    if i == h.len() - 1 {
        assert(hash_text(h).subrange(2 * i, 2 * i + 2) =~= p);
        assert(p =~= Seq::new((2 - d.len()) as nat, |k: int| '0') + d);
    } else {
        law_hash_text(most, i);
        assert(hash_text(h).subrange(2 * i, 2 * i + 2) =~= hash_text(most).subrange(
            2 * i,
            2 * i + 2,
        ));
    }
}

/// Zeros in front make no difference to a number.
proof fn lemma_padded_number(d: Seq<char>, zeros: int)
    requires
        zeros >= 0,
    ensures
        text::number(Seq::new(zeros as nat, |k: int| '0') + d, 16) == text::number(d, 16),
    decreases d.len() + zeros,
{
    let z = Seq::new(zeros as nat, |k: int| '0');
    if d.len() > 0 {
        lemma_padded_number(d.drop_last(), zeros);
        assert((z + d).drop_last() =~= z + d.drop_last());
    } else if zeros > 0 {
        lemma_padded_number(d, zeros - 1);
        assert((z + d).drop_last() =~= Seq::new((zeros - 1) as nat, |k: int| '0') + d);
        assert((z + d).last() == '0');
    } else {
        assert(z + d =~= d);
    }
}

} // verus!
