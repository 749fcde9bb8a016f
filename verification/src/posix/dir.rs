//! The state of a directory in memory.

use vstd::prelude::*;

use crate::bytes;
use crate::bytes::Name;
use crate::defs::{File, FileData, FileMode, FileModel, HashId};
use crate::digest;
use crate::path;

verus! {

/// The hash of an empty directory.
pub const INIT_HASH: HashId = [
    0, 0, 0, 0, 0, 0, 0, 0, 0, 0, 0, 0, 0, 0, 0, 0, 0, 0, 0, 0, 0, 0, 0, 0, 0, 0, 0, 0, 0, 0, 0, 0,
];

/// A mode as four bytes, the least significant one first.
pub open spec fn mode_bytes(mode: FileMode) -> Seq<u8> {
    seq![
        (mode % 256) as u8,
        (mode / 256 % 256) as u8,
        (mode / 65536 % 256) as u8,
        (mode / 16777216 % 256) as u8,
    ]
}

/// What a file contributes to the hash of its directory, before hashing: its
/// name, its type and what is characteristic of that.
pub open spec fn file_bytes(name: Seq<u8>, fd: FileModel) -> Seq<u8> {
    name.push(0) + match fd {
        FileModel::Regular(mode, _, _, hash) => seq![0u8] + mode_bytes(mode) + hash,
        FileModel::Directory(mode) => seq![1u8] + mode_bytes(mode),
        FileModel::Symlink(target) => seq![2u8] + target.push(0),
        FileModel::Special => seq![3u8],
    }
}

/// The bytewise exclusive or.
pub open spec fn xor(a: Seq<u8>, b: Seq<u8>) -> Seq<u8> {
    Seq::new(a.len(), |i: int| a[i] ^ b[i])
}

/// The hash of a directory after a file has come into it, or left it.
pub open spec fn toggled(hash: Seq<u8>, name: Seq<u8>, fd: FileModel) -> Seq<u8> {
    xor(hash, digest::sha3(file_bytes(name, fd)))
}

/// The hash of a directory with the given files.
pub open spec fn dir_hash(files: Seq<(Seq<u8>, FileModel)>) -> Seq<u8>
    decreases files.len(),
{
    if files.len() == 0 {
        INIT_HASH@
    } else {
        toggled(dir_hash(files.drop_last()), files.last().0, files.last().1)
    }
}

/// A file that comes and goes leaves no trace in the hash of its directory.
pub proof fn law_toggle_twice(hash: Seq<u8>, name: Seq<u8>, fd: FileModel)
    ensures
        toggled(toggled(hash, name, fd), name, fd) == hash,
{
    let f = digest::sha3(file_bytes(name, fd));
    assert forall|i: int| 0 <= i < hash.len() implies (hash[i] ^ f[i]) ^ f[i] == hash[i] by {
        let x = hash[i];
        let y = f[i];
        assert((x ^ y) ^ y == x) by (bit_vector);
    }
    assert(toggled(toggled(hash, name, fd), name, fd) =~= hash);
}

/// The order in which files come and go does not matter to the hash of their
/// directory.
pub proof fn law_toggle_order(
    hash: Seq<u8>,
    name1: Seq<u8>,
    fd1: FileModel,
    name2: Seq<u8>,
    fd2: FileModel,
)
    ensures
        toggled(toggled(hash, name1, fd1), name2, fd2) == toggled(
            toggled(hash, name2, fd2),
            name1,
            fd1,
        ),
{
    let f = digest::sha3(file_bytes(name1, fd1));
    let g = digest::sha3(file_bytes(name2, fd2));
    assert forall|i: int| 0 <= i < hash.len() implies (hash[i] ^ f[i]) ^ g[i] == (hash[i] ^ g[i])
        ^ f[i] by {
        let x = hash[i];
        let y = f[i];
        let z = g[i];
        assert((x ^ y) ^ z == (x ^ z) ^ y) by (bit_vector);
    }
    assert(toggled(toggled(hash, name1, fd1), name2, fd2) =~= toggled(
        toggled(hash, name2, fd2),
        name1,
        fd1,
    ));
}

/// Whether nothing in a byte string is null.
pub open spec fn no_nul(s: Seq<u8>) -> bool {
    forall|i: int| 0 <= i < s.len() ==> s[i] != 0
}

/// Two files differ in what they contribute to the hash of their directory,
/// unless they have the same name and differ in nothing but size and time.
pub proof fn law_file_bytes(name1: Seq<u8>, fd1: FileModel, name2: Seq<u8>, fd2: FileModel)
    requires
        no_nul(name1) && no_nul(name2),
        file_bytes(name1, fd1) == file_bytes(name2, fd2),
    ensures
        name1 == name2,
        match (fd1, fd2) {
            (FileModel::Regular(m1, _, _, h1), FileModel::Regular(m2, _, _, h2)) => m1 == m2 && h1
                == h2,
            _ => fd1 == fd2,
        },
{
    let a = file_bytes(name1, fd1);
    let b = file_bytes(name2, fd2);
    if name1.len() < name2.len() {
        assert(a[name1.len() as int] == 0);
        assert(b[name1.len() as int] == name2[name1.len() as int]);
    }
    if name2.len() < name1.len() {
        assert(b[name2.len() as int] == 0);
        assert(a[name2.len() as int] == name1[name2.len() as int]);
    }
    let l = name1.len() as int;
    assert(a.take(l) =~= name1);
    assert(b.take(l) =~= name2);
    let x = a.skip(l + 1);
    let y = b.skip(l + 1);
    assert(a[l + 1] == b[l + 1]);
    match (fd1, fd2) {
        (FileModel::Regular(m1, _, _, h1), FileModel::Regular(m2, _, _, h2)) => {
            assert(x.skip(1).take(4) =~= mode_bytes(m1));
            assert(y.skip(1).take(4) =~= mode_bytes(m2));
            lemma_same_mode(m1, m2);
            assert(x.skip(5) =~= h1);
            assert(y.skip(5) =~= h2);
        },
        (FileModel::Directory(m1), FileModel::Directory(m2)) => {
            assert(x.skip(1) =~= mode_bytes(m1));
            assert(y.skip(1) =~= mode_bytes(m2));
            lemma_same_mode(m1, m2);
        },
        (FileModel::Symlink(t1), FileModel::Symlink(t2)) => {
            assert(x.skip(1) =~= t1.push(0));
            assert(y.skip(1) =~= t2.push(0));
            assert(t1 =~= t1.push(0).drop_last());
            assert(t2 =~= t2.push(0).drop_last());
        },
        _ => {},
    }
}

proof fn lemma_same_mode(m1: FileMode, m2: FileMode)
    requires
        mode_bytes(m1) == mode_bytes(m2),
    ensures
        m1 == m2,
{
    assert(mode_bytes(m1)[0] == mode_bytes(m2)[0]);
    assert(mode_bytes(m1)[1] == mode_bytes(m2)[1]);
    assert(mode_bytes(m1)[2] == mode_bytes(m2)[2]);
    assert(mode_bytes(m1)[3] == mode_bytes(m2)[3]);
}

/// Returns what a file contributes to the hash of its directory.
fn bytes_of(file: &File) -> (r: Vec<u8>)
    ensures
        r@ == file_bytes(file.0@, file.1@),
{
    let mut b: Vec<u8> = bytes::copy(file.0);
    b.push(0);
    let ghost head = b@;
    match file.1 {
        FileData::Regular(mode, _, _, hash) => {
            b.push(0);
            push_mode(&mut b, *mode);
            bytes::append(&mut b, hash.as_slice());
        },
        FileData::Directory(mode) => {
            b.push(1);
            push_mode(&mut b, *mode);
        },
        FileData::Symlink(target) => {
            b.push(2);
            bytes::append(&mut b, target.as_slice());
            b.push(0);
        },
        FileData::Special => {
            b.push(3);
        },
    }
    assert(b@ =~= file_bytes(file.0@, file.1@));
    b
}

fn push_mode(b: &mut Vec<u8>, mode: FileMode)
    ensures
        final(b)@ == old(b)@ + mode_bytes(mode),
{
    let ghost start = b@;
    b.push((mode % 256) as u8);
    b.push((mode / 256 % 256) as u8);
    b.push((mode / 65536 % 256) as u8);
    b.push((mode / 16777216 % 256) as u8);
    assert(b@ =~= start + mode_bytes(mode));
}

/// What is known of a directory.
///
/// Note that this does not involve an actual native file descriptor or other
/// kernel handle.
pub struct DirHandle {
    /// The fully-qualified path to this directory.
    path: Name,
    /// The name of this directory within its parent.
    name: Name,
    /// The device that this directory is on.
    dev: u64,
    /// If present, this is an as-yet-uncreated synthetic directory which should
    /// be created when needed with the given mode.
    synth_mode: Option<FileMode>,
    /// The cumulative hash of this directory's contents.
    ///
    /// This is the XOR of the SHA-3 of each file in the directory. This
    /// particular design means that we do not need to worry about ordering or
    /// remember the exact state of every file.
    ///
    /// Note that there is no requirement for this to be cryptographically
    /// secure, since it's only used to determine whether a directory needs to
    /// be reexamined.
    hash: HashId,
}

/// A `DirHandle`, over mathematical values.
#[verifier::ext_equal]
pub struct DirModel {
    pub path: Seq<u8>,
    pub name: Seq<u8>,
    pub dev: u64,
    pub synth_mode: Option<FileMode>,
    pub hash: Seq<u8>,
}

impl View for DirHandle {
    type V = DirModel;

    closed spec fn view(&self) -> DirModel {
        DirModel {
            path: self.path@,
            name: self.name@,
            dev: self.dev,
            synth_mode: self.synth_mode,
            hash: self.hash@,
        }
    }
}

/// A path that ends in a separator.
pub open spec fn with_trailing_slash(p: Seq<u8>) -> Seq<u8> {
    if p.len() > 0 && p.last() == path::SEPARATOR {
        p
    } else {
        p.push(path::SEPARATOR)
    }
}

impl DirHandle {
    /// Returns the handle for a root directory.
    pub fn root(path: Name, dev: u64) -> (r: Self)
        ensures
            r@ == (DirModel {
                path: path@,
                name: Seq::empty(),
                dev,
                synth_mode: None,
                hash: INIT_HASH@,
            }),
    {
        let r = DirHandle { path, name: Vec::new(), dev, synth_mode: None, hash: INIT_HASH };
        assert(r@.name =~= Seq::empty());
        r
    }

    /// Returns the handle for a subdirectory, which is synthetic if a mode is
    /// given for it.
    pub fn subdir(&self, name: &[u8], synth: Option<FileMode>, dev: u64) -> (r: Self)
        ensures
            r@ == (DirModel {
                path: path::joined(self@.path, name@),
                name: name@,
                dev,
                synth_mode: synth,
                hash: INIT_HASH@,
            }),
    {
        DirHandle {
            path: self.child(name),
            name: bytes::copy(name),
            dev,
            synth_mode: synth,
            hash: INIT_HASH,
        }
    }

    /// Returns the path of this directory.
    pub fn path(&self) -> (r: &[u8])
        ensures
            r@ == self@.path,
    {
        self.path.as_slice()
    }

    /// Returns the name of this directory within its parent.
    pub fn name(&self) -> (r: &[u8])
        ensures
            r@ == self@.name,
    {
        self.name.as_slice()
    }

    /// Returns the device that this directory is on.
    pub fn dev(&self) -> (r: u64)
        ensures
            r == self@.dev,
    {
        self.dev
    }

    /// Returns the hash of this directory's contents.
    pub fn hash(&self) -> (r: HashId)
        ensures
            r@ == self@.hash,
    {
        self.hash
    }

    /// Resets the hash of this directory to the hash of the empty directory.
    pub fn reset_hash(&mut self)
        ensures
            final(self)@ == (DirModel { hash: INIT_HASH@, ..old(self)@ }),
    {
        self.hash = INIT_HASH;
    }

    /// Returns the path of the file `name` in this directory.
    pub fn child(&self, name: &[u8]) -> (r: Name)
        ensures
            r@ == path::joined(self@.path, name@),
    {
        path::join(self.path.as_slice(), name)
    }

    /// Returns whether this directory is synthetic and not created yet.
    pub fn is_synth(&self) -> (r: bool)
        ensures
            r == (self@.synth_mode is Some),
    {
        self.synth_mode.is_some()
    }

    /// If this directory is synthetic and not created yet, returns the mode to
    /// create it with.
    pub fn synth_mode(&self) -> (r: Option<FileMode>)
        ensures
            r == self@.synth_mode,
    {
        self.synth_mode
    }

    /// Takes note that this directory has been created.
    pub fn set_created(&mut self)
        ensures
            final(self)@ == (DirModel { synth_mode: None, ..old(self)@ }),
    {
        self.synth_mode = None;
    }

    /// Returns the path of this directory, with a separator at the end.
    pub fn full_path_with_trailing_slash(&self) -> (r: Name)
        ensures
            r@ == with_trailing_slash(self@.path),
    {
        let mut s: Name = bytes::copy(self.path.as_slice());
        if s.len() == 0 || s[s.len() - 1] != path::SEPARATOR {
            s.push(path::SEPARATOR);
        }
        s
    }

    /// Updates the hash of this directory to account for the presence or
    /// absence of the given file.
    ///
    /// If `file` has not yet been accumulated to the hash, the hash is updated
    /// to reflect a directory containing `file`. Otherwise, the hash is updated
    /// to reflect a directory not containing `file`.
    pub fn toggle_file(&mut self, file: File)
        ensures
            final(self)@ == (DirModel {
                hash: toggled(old(self)@.hash, file.0@, file.1@),
                ..old(self)@
            }),
    {
        let f: HashId = digest::sha3_256(bytes_of(&file).as_slice());
        let ghost h0 = self.hash@;
        let mut i: usize = 0;
        while i < 32
            invariant
                i <= 32,
                h0.len() == 32,
                f@.len() == 32,
                self.hash@.len() == 32,
                forall|j: int| 0 <= j < i ==> self.hash@[j] == h0[j] ^ f@[j],
                forall|j: int| i <= j < 32 ==> self.hash@[j] == h0[j],
                self@ == (DirModel { hash: self@.hash, ..old(self)@ }),
            decreases 32 - i,
        {
            self.hash[i] = self.hash[i] ^ f[i];
            i += 1;
        }
        assert(self.hash@ =~= xor(h0, f@));
    }
}

/// The size and the modification time of a file do not matter to the hash of its
/// directory; its name, type, mode and content do (see `law_file_bytes`).
pub proof fn law_same_contribution(hash: Seq<u8>, name: Seq<u8>, fd1: FileModel, fd2: FileModel)
    requires
        fd1.matches_data(fd2),
    ensures
        toggled(hash, name, fd1) == toggled(hash, name, fd2),
{
}

/// What a file contributes to the hash of its directory begins with its name and
/// a null byte, goes on with its type and the mode if it has one, and ends with the content of a regular file, or with the target of
/// a symbolic link and a null byte.
pub proof fn law_contribution(name: Seq<u8>, fd: FileModel)
    ensures
        ({
            let b = file_bytes(name, fd);
            let l = name.len() as int;
            &&& b.len() > l && b.take(l) == name && b[l] == 0
            &&& fd matches FileModel::Regular(_, _, _, hash) ==> b.len() == l + 6 + hash.len()
                && b.skip(l + 6) == hash
            &&& fd matches FileModel::Symlink(target) ==> b.len() == l + 3 + target.len()
                && b.skip(l + 2) == target.push(0)
            &&& fd is Directory ==> b.len() == l + 6
            &&& fd is Special ==> b.len() == l + 2
            &&& fd.mode() matches Some(mode) ==> b.subrange(l + 2, l + 6) == mode_bytes(mode)
            &&& b[l + 1] == (match fd {
                FileModel::Regular(_, _, _, _) => 0u8,
                FileModel::Directory(_) => 1u8,
                FileModel::Symlink(_) => 2u8,
                FileModel::Special => 3u8,
            })
        }),
{
    let b = file_bytes(name, fd);
    let l = name.len() as int;
    assert(b.take(l) =~= name);
    match fd {
        FileModel::Regular(mode, _, _, hash) => {
            assert(b.skip(l + 6) =~= hash);
            assert(b.subrange(l + 2, l + 6) =~= mode_bytes(mode));
        },
        FileModel::Directory(mode) => {
            assert(b.subrange(l + 2, l + 6) =~= mode_bytes(mode));
        },
        FileModel::Symlink(target) => {
            assert(b.skip(l + 2) =~= target.push(0));
        },
        _ => {},
    }
}

/// The bytes of a mode add up to it, each being worth as much as all before it.
pub proof fn law_mode_bytes(mode: FileMode)
    ensures
        mode_bytes(mode).len() == 4,
        mode == mode_bytes(mode)[0] + 256 * mode_bytes(mode)[1] + 65536 * mode_bytes(mode)[2]
            + 16777216 * mode_bytes(mode)[3],
{
}

/// A path with a separator at its end is the shortest that begins with it.
pub proof fn law_trailing_slash(p: Seq<u8>)
    ensures
        ({
            let q = with_trailing_slash(p);
            &&& q.len() > 0 && q.last() == path::SEPARATOR
            &&& q == p || q == p.push(path::SEPARATOR)
            &&& with_trailing_slash(q) == q
            &&& forall|name: Seq<u8>|
                name.len() > 0 && name[0] != path::SEPARATOR ==> path::joined(q, name) == q + name
                    && (p.len() > 0 ==> path::joined(p, name) == #[trigger] (q + name))
        }),
{
    let q = with_trailing_slash(p);
    assert(q.last() == path::SEPARATOR);
}

/// The hash of a directory does not depend on the order in which its files come, and
/// a file that comes last can be taken out of it.
pub proof fn law_dir_hash(files: Seq<(Seq<u8>, FileModel)>, i: int)
    requires
        0 <= i < files.len(),
    ensures
        dir_hash(files) == toggled(dir_hash(files.remove(i)), files[i].0, files[i].1),
        dir_hash(files) == dir_hash(files.remove(i).push(files[i])),
    decreases files.len(),
{
    let f = files[i];
    let rest = files.remove(i);
    assert(rest.push(f).drop_last() =~= rest);
    if i == files.len() - 1 {
        assert(rest =~= files.drop_last());
    } else {
        let most = files.drop_last();
        let last = files.last();
        law_dir_hash(most, i);
        assert(rest.drop_last() =~= most.remove(i));
        assert(rest.last() == last);
        law_toggle_order(dir_hash(most.remove(i)), f.0, f.1, last.0, last.1);
    }
}

/// Every file leaves its own trace in the hash of its directory: what changes in the
/// hash when it comes is the hash of what it contributes. That of an empty directory
/// is null.
pub proof fn law_trace(hash: Seq<u8>, name: Seq<u8>, fd: FileModel)
    ensures
        toggled(hash, name, fd).len() == hash.len(),
        forall|i: int|
            0 <= i < hash.len() ==> #[trigger] toggled(hash, name, fd)[i] ^ hash[i] == digest::sha3(
                file_bytes(name, fd),
            )[i],
        dir_hash(Seq::empty()).len() == 32,
        forall|i: int| 0 <= i < 32 ==> #[trigger] dir_hash(Seq::empty())[i] == 0,
{
    let f = digest::sha3(file_bytes(name, fd));
    assert forall|i: int| 0 <= i < hash.len() implies #[trigger] toggled(hash, name, fd)[i]
        ^ hash[i] == f[i] by {
        let x = hash[i];
        let y = f[i];
        assert((x ^ y) ^ x == y) by (bit_vector);
    }
}

} // verus!
