//! Looking at and changing the files on a server by hand.

use vstd::arithmetic::power::pow;
use vstd::prelude::*;

use crate::bytes;
use crate::bytes::Name;
use crate::defs;
use crate::defs::{File, FileData, FileMode, FileModel, FileSize, FileTime};
use crate::errors::{Error, ErrorKind, Result};
use crate::path;
use crate::reconcile::context;
use crate::reconcile::model;
use crate::reconcile::model::{Kids, Node};
use crate::reconcile::mutate;
use crate::reconcile::place;
use crate::reconcile::trees;
use crate::reconcile::trees::Path;
use crate::replica;
use crate::replica::{Replica, ReplicaDirectory, Transfer};
use crate::table::NameMap;
use crate::text;

use super::format_date;
use super::setup;
use super::sync_log;

verus! {

/// How a file in a directory is shown.
pub open spec fn path_text(dir: Seq<u8>, name: Seq<u8>) -> Seq<char> {
    text::utf8_lossy(dir) + "/"@ + text::utf8_lossy(name)
}

/// Returns how a file in a directory is shown, between two other texts.
fn about(before: &str, dir: &[u8], name: &[u8], after: &str) -> (r: String)
    ensures
        r@ == before@ + path_text(dir@, name@) + after@,
{
    let mut s: String = String::new();
    s.append(before);
    s.append(text::from_utf8_lossy(dir).as_str());
    s.append("/");
    s.append(text::from_utf8_lossy(name).as_str());
    s.append(after);
    assert(s@ =~= before@ + path_text(dir@, name@) + after@);
    s
}

/// Returns how a path is shown, between two other texts.
fn about_path(before: &str, p: &[u8], after: &str) -> (r: String)
    ensures
        r@ == before@ + text::utf8_lossy(p@) + after@,
{
    let mut s: String = String::new();
    s.append(before);
    s.append(text::from_utf8_lossy(p).as_str());
    s.append(after);
    assert(s@ =~= before@ + text::utf8_lossy(p@) + after@);
    s
}

/// How the directory is displayed that `names` lead to from a directory that is
/// displayed as `start`.
pub open spec fn shown_along(start: Seq<u8>, names: Seq<Seq<u8>>) -> Seq<u8>
    decreases names.len(),
{
    if names.len() == 0 {
        start
    } else {
        replica::shown_in(shown_along(start, names.drop_last()), names.last())
    }
}

/// What is said if the way along `names` from a directory that is displayed as
/// `start` ends before the `i`th name. `tail` says whether that is only because the
/// way leads on from there, where there is no directory.
pub open spec fn stopped_text(
    start: Seq<u8>,
    names: Seq<Seq<u8>>,
    i: int,
    tail: bool,
) -> Seq<char> {
    let place = path_text(shown_along(start, names.take(i)), names[i]);
    if tail {
        "Path '"@ + place + "' is not a directory"@
    } else {
        "Failed to enter '"@ + place + "'"@
    }
}

/// Whether the way along `names` from the directory `start` of the tree leads to
/// existing directories before the `i`th name, but not with it.
pub open spec fn leads_to(tree: Kids, start: Path, names: Seq<Seq<u8>>, i: int) -> bool {
    &&& 0 <= i < names.len()
    &&& place::is_there(tree, start + names.take(i))
    &&& !place::is_there(tree, start + names.take(i + 1))
}

/// Whether `words` say that the way along `names` from the directory at `start`,
/// which is displayed as `shown`, ended before the `i`th name.
pub open spec fn stopped_at(
    tree: Kids,
    start: Path,
    shown: Seq<u8>,
    names: Seq<Seq<u8>>,
    i: int,
    allow_tail: bool,
    words: Seq<char>,
) -> bool {
    &&& 0 <= i < names.len()
    &&& place::is_there(tree, start + names.take(i))
    &&& {
        ||| allow_tail && i + 1 < names.len() && words == stopped_text(shown, names, i, true)
        ||| words == stopped_text(shown, names, i, false)
    }
}

/// Follows `names` from the directory `start` on.
///
/// If `allow_tail` is true, the last name need not be that of a directory; if
/// it is not, it is returned with the directory that it is to be looked for in.
pub fn navigate<A: Replica>(
    rep: &mut A,
    start: A::Directory,
    names: &Vec<Name>,
    allow_tail: bool,
) -> (r: Result<(A::Directory, Option<Name>)>)
    ensures
        old(rep).ideal() ==> final(rep).ideal() && final(rep).state() == old(rep).state(),
        old(rep).ideal() && mutate::standing(&start, old(rep).state().tree) ==> {
            let tree = old(rep).state().tree;
            let way = path::names_of(names@);
            let full = start.path() + way;
            &&& match r {
                Ok((d, None)) => d.path() == full && mutate::standing(&d, tree) && d.shown()
                    == shown_along(start.shown(), way),
                Ok((d, Some(n))) => allow_tail && way.len() > 0 && n@ == way.last() && d.path()
                    == start.path() + way.drop_last() && mutate::standing(&d, tree) && d.shown()
                    == shown_along(start.shown(), way.drop_last()),
                Err(e) => e.kind is Other && exists|i: int| #[trigger]
                    stopped_at(
                        tree,
                        start.path(),
                        start.shown(),
                        way,
                        i,
                        allow_tail,
                        e.kind->Other_0@,
                    ),
            }
            &&& old(rep).state().faultless ==> match r {
                Ok((_, None)) => place::is_there(tree, full),
                Ok((_, Some(_))) => !place::is_there(tree, full),
                Err(e) => {
                    &&& !place::is_there(tree, full)
                    &&& !(allow_tail && place::is_there(tree, start.path() + way.drop_last()))
                    &&& exists|i: int| #[trigger]
                        leads_to(tree, start.path(), way, i) && e.kind->Other_0@ == stopped_text(
                            start.shown(),
                            way,
                            i,
                            allow_tail,
                        )
                },
            }
        },
{
    let ghost base = start.path();
    let ghost tree = rep.state().tree;
    let ghost good = rep.ideal() && mutate::standing(&start, tree);
    let ghost way = path::names_of(names@);
    let mut dir: A::Directory = start;
    let mut i: usize = 0;
    assert(base + way.take(0) =~= base);
    while i < names.len()
        invariant
            i <= names@.len(),
            way == path::names_of(names@),
            base == start.path(),
            good == (old(rep).ideal() && mutate::standing(&start, old(rep).state().tree)),
            old(rep).ideal() ==> rep.ideal() && rep.state() == old(rep).state(),
            good ==> old(rep).ideal() && tree == old(rep).state().tree && mutate::standing(
                &dir,
                tree,
            ) && dir.path() == base + way.take(i as int) && dir.shown() == shown_along(
                start.shown(),
                way.take(i as int),
            ),
        decreases names@.len() - i,
    {
        proof {
            assert(way.take(i + 1).drop_last() =~= way.take(i as int));
            assert(way[i as int] == names@[i as int]@);
            assert((base + way.take(i as int)).push(way[i as int]) =~= base + way.take(i + 1));
            let full = base + way;
            if good && place::is_there(tree, full) {
                mutate::lemma_there_prefix(tree, full, (base.len() + i + 1) as nat);
                assert(full.take(base.len() + i + 1) =~= base + way.take(i + 1));
            }
            let most = base + way.drop_last();
            if good && place::is_there(tree, most) && i + 1 < way.len() {
                mutate::lemma_there_prefix(tree, most, (base.len() + i + 1) as nat);
                assert(most.take(base.len() + i + 1) =~= base + way.take(i + 1));
            }
            assert(way.take(way.len() - 1) =~= way.drop_last());
            assert(i + 1 == way.len() ==> way.take(i + 1) =~= way);
        }
        match rep.chdir(&dir, names[i].as_slice()) {
            Ok(sub) => {
                proof {
                    if good {
                        mutate::lemma_standing(&sub, tree);
                    }
                }
                dir = sub;
            },
            Err(e) => {
                let missing = match &e.kind {
                    ErrorKind::NotADirectory => true,
                    ErrorKind::NotFound => true,
                    _ => false,
                };
                if allow_tail && missing {
                    if i + 1 < names.len() {
                        let words = about(
                            "Path '",
                            dir.full_path(),
                            names[i].as_slice(),
                            "' is not a directory",
                        );
                        let failure = Error::say(words);
                        proof {
                            if good {
                                assert(stopped_at(
                                    tree,
                                    base,
                                    start.shown(),
                                    way,
                                    i as int,
                                    allow_tail,
                                    failure.kind->Other_0@,
                                ));
                                assert(rep.state().faultless ==> leads_to(
                                    tree,
                                    base,
                                    way,
                                    i as int,
                                ));
                            }
                        }
                        return Err(failure);
                    }
                    return Ok((dir, Some(bytes::copy(names[i].as_slice()))));
                }
                let words = about("Failed to enter '", dir.full_path(), names[i].as_slice(), "'");
                let failure = Error::because(words, e);
                proof {
                    if good {
                        assert(stopped_at(
                            tree,
                            base,
                            start.shown(),
                            way,
                            i as int,
                            allow_tail,
                            failure.kind->Other_0@,
                        ));
                        assert(rep.state().faultless ==> leads_to(tree, base, way, i as int));
                    }
                }
                return Err(failure);
            },
        }
        i += 1;
    }
    assert(way.take(i as int) =~= way);
    Ok((dir, None))
}

/// Reads a directory into a table.
///
/// If that fails, the error says so in the given words.
fn map_of<A: Replica>(rep: &mut A, dir: &mut A::Directory, words: &str) -> (r: Result<
    NameMap<FileData>,
>)
    ensures
        r is Err ==> setup::fails_with(
            r,
            words@ + text::utf8_lossy(final(dir).shown()) + "'"@,
        ),
        mutate::sane(old(rep)) ==> {
            &&& mutate::sane(final(rep))
            &&& replica::same_handle(final(dir), old(dir))
            &&& final(rep).state().tree == old(rep).state().tree
            &&& final(rep).state().faultless == old(rep).state().faultless
            &&& r matches Ok(files) ==> context::agreed(files, mutate::held(old(rep), old(dir)))
            &&& old(rep).state().faultless && replica::usable(old(dir), old(rep).state().tree) ==> r
                is Ok
        },
{
    match load(rep, dir) {
        Ok(files) => Ok(files),
        Err(e) => Err(Error::because(about_path(words, dir.full_path(), "'"), e)),
    }
}

/// Reads a directory into a table.
fn load<A: Replica>(rep: &mut A, dir: &mut A::Directory) -> (r: Result<NameMap<FileData>>)
    ensures
        mutate::sane(old(rep)) ==> {
            &&& mutate::sane(final(rep))
            &&& replica::same_handle(final(dir), old(dir))
            &&& final(rep).state().tree == old(rep).state().tree
            &&& final(rep).state().faultless == old(rep).state().faultless
            &&& r matches Ok(files) ==> context::agreed(files, mutate::held(old(rep), old(dir)))
            &&& old(rep).state().faultless && replica::usable(old(dir), old(rep).state().tree) ==> r
                is Ok
        },
{
    let ghost good = mutate::sane(rep);
    let ghost k = mutate::held(rep, dir);
    proof {
        if good {
            replica::lemma_spared(k, rep.state().condemned, dir.path());
        }
    }
    let list: Vec<(Vec<u8>, FileData)> = match rep.list(dir) {
        Ok(list) => list,
        Err(e) => {
            assert(good ==> rep.state().condemned =~= old(rep).state().condemned);
            return Err(e);
        },
    };
    assert(good ==> rep.state().condemned =~= old(rep).state().condemned);
    let mut files: NameMap<FileData> = NameMap::new();
    let mut i: usize = 0;
    while i < list.len()
        invariant
            i <= list.len(),
            good ==> replica::listed(list@, replica::listing(k)),
            good ==> forall|n: Seq<u8>|
                files@.dom().contains(n) <==> exists|j: int|
                    0 <= j < i && #[trigger] list@[j].0@ == n,
            good ==> forall|n: Seq<u8>| #[trigger]
                files@.dom().contains(n) ==> files@[n]@ == replica::listing(k)[n],
        decreases list.len() - i,
    {
        let ghost before = files@;
        let name: &Vec<u8> = &list[i].0;
        let _ = files.insert(bytes::copy(name.as_slice()), list[i].1.clone());
        proof {
            if good {
                assert(list@[i as int].0@ == name@);
                assert forall|n: Seq<u8>|
                    files@.dom().contains(n) <==> exists|j: int|
                        0 <= j < i + 1 && #[trigger] list@[j].0@ == n by {
                    if n == name@ {
                        assert(list@[i as int].0@ == n);
                    } else if before.dom().contains(n) {
                        let j = choose|j: int| 0 <= j < i && #[trigger] list@[j].0@ == n;
                        assert(0 <= j < i + 1 && list@[j].0@ == n);
                    }
                }
            }
        }
        i += 1;
    }
    proof {
        if good {
            let m = replica::listing(k);
            assert forall|n: Seq<u8>| files@.dom().contains(n) == m.dom().contains(n) by {
                if m.dom().contains(n) {
                    let j = choose|j: int| 0 <= j < list@.len() && #[trigger] list@[j].0@ == n;
                    assert(0 <= j < i && list@[j].0@ == n);
                }
            }
            assert(context::models(files) =~= m);
        }
    }
    Ok(files)
}

/// How one permission is shown.
pub open spec fn bit(mode: FileMode, bit: FileMode, ch: char) -> char {
    if mode & bit == bit {
        ch
    } else {
        '-'
    }
}

/// How two permissions are shown in one place.
pub open spec fn twobit(
    mode: FileMode,
    bit1: FileMode,
    bit2: FileMode,
    ch1: char,
    ch2: char,
    ch3: char,
) -> char {
    match (mode & bit1 != 0, mode & bit2 != 0) {
        (false, false) => '-',
        (true, false) => ch1,
        (false, true) => ch2,
        (true, true) => ch3,
    }
}

/// How permissions are shown.
pub open spec fn permissions(mode: FileMode) -> Seq<char> {
    seq![
        bit(mode, 0o400, 'r'),
        bit(mode, 0o200, 'w'),
        twobit(mode, 0o100, 0o4000, 'x', 'S', 's'),
        bit(mode, 0o40, 'r'),
        bit(mode, 0o20, 'w'),
        twobit(mode, 0o10, 0o2000, 'x', 'S', 's'),
        bit(mode, 0o4, 'r'),
        bit(mode, 0o2, 'w'),
        twobit(mode, 0o1, 0o1000, 'x', 'T', 't'),
    ]
}

fn bit_char(mode: FileMode, b: FileMode, ch: char) -> (r: char)
    ensures
        r == bit(mode, b, ch),
{
    if mode & b == b {
        ch
    } else {
        '-'
    }
}

fn twobit_char(mode: FileMode, bit1: FileMode, bit2: FileMode, ch1: char, ch2: char, ch3: char) -> (r:
    char)
    ensures
        r == twobit(mode, bit1, bit2, ch1, ch2, ch3),
{
    match (mode & bit1 != 0, mode & bit2 != 0) {
        (false, false) => '-',
        (true, false) => ch1,
        (false, true) => ch2,
        (true, true) => ch3,
    }
}

fn push_permissions(s: &mut String, mode: FileMode)
    ensures
        final(s)@ == old(s)@ + permissions(mode),
{
    let ghost start = s@;
    s.push(bit_char(mode, 0o400, 'r'));
    s.push(bit_char(mode, 0o200, 'w'));
    s.push(twobit_char(mode, 0o100, 0o4000, 'x', 'S', 's'));
    s.push(bit_char(mode, 0o40, 'r'));
    s.push(bit_char(mode, 0o20, 'w'));
    s.push(twobit_char(mode, 0o10, 0o2000, 'x', 'S', 's'));
    s.push(bit_char(mode, 0o4, 'r'));
    s.push(bit_char(mode, 0o2, 'w'));
    s.push(twobit_char(mode, 0o1, 0o1000, 'x', 'T', 't'));
    assert(s@ =~= start + permissions(mode));
}

/// A size below ten thousand of the unit that it is shown in, and the number
/// of that unit.
pub open spec fn scaled(size: nat) -> (nat, nat)
    decreases size,
{
    if size >= 10000 {
        let (n, unit) = scaled(size / 1024);
        (n, unit + 1)
    } else {
        (size, 0)
    }
}

/// The units of sizes, each 1024 times the one before.
pub open spec fn unit_text(unit: nat) -> char {
    if unit == 0 {
        'B'
    } else if unit == 1 {
        'k'
    } else if unit == 2 {
        'M'
    } else if unit == 3 {
        'G'
    } else if unit == 4 {
        'T'
    } else if unit == 5 {
        'P'
    } else if unit == 6 {
        'E'
    } else {
        'Z'
    }
}

/// How a size is shown: in bytes, or such that it is easily read.
pub open spec fn ls_size(size: nat, human_readable: bool) -> Seq<char> {
    if human_readable {
        text::padded(text::digits(scaled(size).0, 10), 4, ' ').push(unit_text(scaled(size).1))
    } else {
        text::padded(text::digits(size, 10), 12, ' ')
    }
}

fn scale(size: u64) -> (r: (u64, u64))
    ensures
        (r.0 as nat, r.1 as nat) == scaled(size as nat),
        r.1 <= size,
    decreases size,
{
    if size >= 10000 {
        let (n, unit) = scale(size / 1024);
        (n, unit + 1)
    } else {
        (size, 0)
    }
}

fn unit_char(unit: u64) -> (r: char)
    ensures
        r == unit_text(unit as nat),
{
    if unit == 0 {
        'B'
    } else if unit == 1 {
        'k'
    } else if unit == 2 {
        'M'
    } else if unit == 3 {
        'G'
    } else if unit == 4 {
        'T'
    } else if unit == 5 {
        'P'
    } else if unit == 6 {
        'E'
    } else {
        'Z'
    }
}

fn push_ls_size(s: &mut String, size: u64, human_readable: bool)
    ensures
        final(s)@ == old(s)@ + ls_size(size as nat, human_readable),
{
    let ghost start = s@;
    if human_readable {
        let (n, unit) = scale(size);
        text::push_padded_digits(s, n, 10, 4, ' ');
        s.push(unit_char(unit));
    } else {
        text::push_padded_digits(s, size, 10, 12, ' ');
    }
    assert(s@ =~= start + ls_size(size as nat, human_readable));
}

/// A size is shown in at most five characters for people.
pub proof fn law_readable_size(size: nat)
    ensures
        scaled(size).0 < 10000,
        size >= 10000 ==> scaled(size).0 >= 9,
        scaled(size).1 == 0 <==> size < 10000,
    decreases size,
{
    if size >= 10000 {
        law_readable_size(size / 1024);
    }
}

/// When a file was modified, as it is listed.
pub open spec fn ls_time(time: FileTime) -> Seq<char> {
    if time > 0 {
        sync_log::time_text(time)
    } else {
        format_date::EMPTY@
    }
}

/// What is listed of a file.
pub struct LineModel {
    pub typ: char,
    pub mode: FileMode,
    pub size: nat,
    pub time: FileTime,
    pub target: Option<Seq<char>>,
}

/// What is listed of a file.
pub open spec fn line_of(fd: FileModel) -> LineModel {
    match fd {
        FileModel::Regular(mode, size, time, _) => LineModel {
            typ: '-',
            mode,
            size: size as nat,
            time,
            target: None,
        },
        FileModel::Directory(mode) => LineModel { typ: 'd', mode, size: 0, time: 0, target: None },
        FileModel::Symlink(target) => LineModel {
            typ: 'l',
            mode: 0o7777,
            size: vstd::utf8::encode_utf8(text::utf8_lossy(target)).len(),
            time: 0,
            target: Some(text::utf8_lossy(target)),
        },
        FileModel::Special => LineModel { typ: 'c', mode: 0, size: 0, time: 0, target: None },
    }
}

/// The beginning of a line, up to the size.
pub open spec fn line_start(l: LineModel, human_readable: bool) -> Seq<char> {
    seq![l.typ] + permissions(l.mode) + "  "@ + ls_size(l.size, human_readable)
}

/// The end of a line, from the time on.
pub open spec fn line_end(l: LineModel, name: Seq<u8>) -> Seq<char> {
    "  "@ + ls_time(l.time) + "  "@ + text::utf8_lossy(name) + match l.target {
        Some(target) => " -> "@ + target,
        None => Seq::empty(),
    } + "\n"@
}

/// How a file is listed.
pub open spec fn ls_line(name: Seq<u8>, fd: FileModel, human_readable: bool) -> Seq<char> {
    line_start(line_of(fd), human_readable) + line_end(line_of(fd), name)
}

fn push_line_end(s: &mut String, time: FileTime, name: &[u8], target: &Option<String>)
    ensures
        forall|l: LineModel|
            l.time == time && l.target == (match *target {
                Some(t) => Some(t@),
                None => None,
            }) ==> final(s)@ == old(s)@ + #[trigger] line_end(l, name@),
{
    let ghost start = s@;
    s.append("  ");
    if time > 0 {
        match format_date::format_timestamp(time) {
            Some(date) => {
                s.append(date.as_str());
            },
            None => {
                text::push_signed(s, time);
            },
        }
    } else {
        s.append(format_date::EMPTY);
    }
    assert(s@ =~= start + ("  "@ + ls_time(time)));
    s.append("  ");
    s.append(text::from_utf8_lossy(name).as_str());
    assert(s@ =~= start + ("  "@ + ls_time(time) + "  "@ + text::utf8_lossy(name@)));
    match target {
        Some(target) => {
            s.append(" -> ");
            s.append(target.as_str());
        },
        None => {},
    }
    s.append("\n");
    assert forall|l: LineModel|
        l.time == time && l.target == (match *target {
            Some(t) => Some(t@),
            None => None,
        }) implies s@ == start + #[trigger] line_end(l, name@) by {
        assert(s@ =~= start + line_end(l, name@));
    }
}

fn push_ls_line(s: &mut String, name: &[u8], fd: &FileData, human_readable: bool)
    ensures
        final(s)@ == old(s)@ + ls_line(name@, fd@, human_readable),
{
    let ghost start = s@;
    let ghost l = line_of(fd@);
    let (typ, mode, size, time, target): (char, u32, u64, i64, Option<String>) = match fd {
        FileData::Regular(mode, size, time, _) => ('-', *mode, *size, *time, None),
        FileData::Directory(mode) => ('d', *mode, 0, 0, None),
        FileData::Symlink(target) => {
            let target = text::from_utf8_lossy(target.as_slice());
            let size: usize = target.as_str().as_bytes().len();
            ('l', 0o7777, size as u64, 0, Some(target))
        },
        FileData::Special => ('c', 0, 0, 0, None),
    };
    s.push(typ);
    push_permissions(s, mode);
    assert(s@ =~= start + (seq![l.typ] + permissions(l.mode)));
    s.append("  ");
    push_ls_size(s, size, human_readable);
    assert(s@ =~= start + line_start(l, human_readable));
    push_line_end(s, time, name, &target);
    assert(s@ == start + line_start(l, human_readable) + line_end(l, name@));
    assert(s@ =~= start + ls_line(name@, fd@, human_readable));
}

/// How the files of the given names are listed.
pub open spec fn ls_text(
    names: Seq<Seq<u8>>,
    files: Map<Seq<u8>, FileModel>,
    human_readable: bool,
) -> Seq<char>
    decreases names.len(),
{
    if names.len() == 0 {
        Seq::empty()
    } else {
        ls_text(names.drop_last(), files, human_readable) + ls_line(
            names.last(),
            files[names.last()],
            human_readable,
        )
    }
}

/// Whether `names` are the names of a directory in ascending order.
pub open spec fn in_order(names: Seq<Seq<u8>>, files: Map<Seq<u8>, FileModel>) -> bool {
    &&& forall|n: Seq<u8>| names.contains(n) <==> #[trigger] files.dom().contains(n)
    &&& forall|i: int, j: int|
        0 <= i < j < names.len() ==> bytes::before(#[trigger] names[i], #[trigger] names[j])
}

/// Whether `s` lists a directory.
pub open spec fn lists(s: Seq<char>, files: Map<Seq<u8>, FileModel>, human_readable: bool) -> bool {
    exists|names: Seq<Seq<u8>>|
        in_order(names, files) && s == #[trigger] ls_text(names, files, human_readable)
}

/// Returns the files of a table as they are listed.
pub fn list_files(files: &NameMap<FileData>, human_readable: bool) -> (r: String)
    ensures
        lists(r@, context::models(*files), human_readable),
{
    let ghost m = context::models(*files);
    let ghost names = files.order();
    let mut s: String = String::new();
    let len: usize = files.len();
    let mut i: usize = 0;
    assert(names.take(0) =~= Seq::empty());
    assert(s@ =~= ls_text(names.take(0), m, human_readable));
    while i < len
        invariant
            i <= len,
            len == names.len(),
            names == files.order(),
            m == context::models(*files),
            s@ == ls_text(names.take(i as int), m, human_readable),
        decreases len - i,
    {
        push_ls_line(&mut s, files.name_at(i).as_slice(), files.value_at(i), human_readable);
        i += 1;
        proof {
            assert(names.take(i as int).drop_last() =~= names.take(i - 1));
        }
    }
    proof {
        assert(names.take(i as int) =~= names);
        assert forall|n: Seq<u8>| names.contains(n) <==> #[trigger] m.dom().contains(n) by {
            assert(m.dom().contains(n) == files@.dom().contains(n));
        }
        assert(in_order(names, m));
    }
    s
}

/// What is said if a path does not lead to a file.
pub open spec fn nameless_text(p: Seq<u8>) -> Seq<char> {
    "'"@ + text::utf8_lossy(p) + "' does not name a file"@
}

/// Returns what `ls` shows of the file or directory that `names` lead to from
/// the directory `start` on. `shown_path` is how the user wrote that.
pub fn ls_one<A: Replica>(
    rep: &mut A,
    start: A::Directory,
    names: &Vec<Name>,
    shown_path: &[u8],
    human_readable: bool,
) -> (r: Result<String>)
    ensures
        mutate::sane(old(rep)) && mutate::standing(&start, old(rep).state().tree) ==> {
            let tree = old(rep).state().tree;
            let way = path::names_of(names@);
            let full = start.path() + way;
            let parent = start.path() + way.drop_last();
            let k = place::kids_of(tree, parent);
            &&& mutate::sane(final(rep)) && final(rep).state().tree == tree
            &&& r matches Ok(s) ==> {
                ||| place::is_there(tree, full) && lists(
                    s@,
                    replica::listing(place::kids_of(tree, full)),
                    human_readable,
                )
                ||| way.len() > 0 && k.dom().contains(way.last()) && s@ == ls_line(
                    way.last(),
                    k[way.last()].data,
                    human_readable,
                )
            }
            &&& old(rep).state().faultless ==> {
                if place::is_there(tree, full) {
                    r matches Ok(s) && lists(
                        s@,
                        replica::listing(place::kids_of(tree, full)),
                        human_readable,
                    )
                } else if place::is_there(tree, parent) && k.dom().contains(way.last()) {
                    r matches Ok(s) && s@ == ls_line(
                        way.last(),
                        k[way.last()].data,
                        human_readable,
                    )
                } else if place::is_there(tree, parent) {
                    setup::fails_with(r, text::utf8_lossy(shown_path@) + ": File not found"@)
                } else {
                    r is Err
                }
            }
        },
{
    let ghost way = path::names_of(names@);
    let (mut dir, single): (A::Directory, Option<Name>) = match navigate(rep, start, names, true) {
        Ok(place) => place,
        Err(e) => {
            return Err(e);
        },
    };
    let files: NameMap<FileData> = match map_of(rep, &mut dir, "Failed to list '") {
        Ok(files) => files,
        Err(e) => {
            return Err(e);
        },
    };
    match single {
        None => Ok(list_files(&files, human_readable)),
        Some(name) => {
            assert(context::models(files).dom().contains(name@) == files@.dom().contains(name@));
            match files.get(name.as_slice()) {
                Some(fd) => {
                    let mut s: String = String::new();
                    push_ls_line(&mut s, name.as_slice(), fd, human_readable);
                    assert(context::models(files)[name@] == fd@);
                    assert(s@ =~= ls_line(name@, fd@, human_readable));
                    Ok(s)
                },
                None => {
                    let words = about_path("", shown_path, ": File not found");
                    proof {
                        reveal_strlit("");
                        assert(words@ =~= text::utf8_lossy(shown_path@) + ": File not found"@);
                    }
                    Err(Error::say(words))
                },
            }
        },
    }
}

/// The tree `k` without the file `n` in the directory at `p`.
pub open spec fn without(k: Kids, p: Path, n: Seq<u8>) -> Kids {
    place::graft(k, p, Seq::empty(), place::kids_of(k, p).remove(n))
}

/// Creates the directory named `name` in the one that `names` lead to from the
/// directory `start` on. `name` is absent if the path does not name a file.
pub fn mkdir_one<A: Replica>(
    rep: &mut A,
    start: A::Directory,
    names: &Vec<Name>,
    name: Option<&[u8]>,
    shown_path: &[u8],
    mode: FileMode,
    xfer: A::TransferIn,
) -> (r: Result<()>)
    ensures
        mutate::sane(old(rep)) && mutate::standing(&start, old(rep).state().tree) && xfer.carries(
            FileModel::Directory(mode),
        ) ==> {
            let tree = old(rep).state().tree;
            let p = start.path() + path::names_of(names@);
            let k = place::kids_of(tree, p);
            &&& final(rep).ideal()
            &&& r is Ok ==> name is Some && place::is_there(tree, p) && !k.dom().contains(name->0@)
                && final(rep).state().tree == place::graft(
                tree,
                p,
                Seq::empty(),
                k.insert(
                    name->0@,
                    Node { data: FileModel::Directory(mode), kids: Map::empty() },
                ),
            )
            &&& old(rep).state().faultless && place::is_there(tree, p) ==> match name {
                None => setup::fails_with(r, nameless_text(shown_path@)),
                Some(n) => if k.dom().contains(n@) {
                    setup::fails_with(
                        r,
                        "Failed to create '"@ + text::utf8_lossy(shown_path@) + "'"@,
                    )
                } else {
                    r is Ok
                },
            }
        },
{
    let ghost tree = rep.state().tree;
    let ghost base = start.path();
    let (mut dir, _): (A::Directory, Option<Name>) = match navigate(rep, start, names, false) {
        Ok(place) => place,
        Err(e) => {
            return Err(e);
        },
    };
    match name {
        None => Err(Error::say(about_path("'", shown_path, "' does not name a file"))),
        Some(n) => {
            let fd = FileData::Directory(mode);
            let ghost m = dir.modes();
            match rep.create(&mut dir, File(n, &fd), xfer) {
                Ok(_) => {
                    proof {
                        let p = base + path::names_of(names@);
                        if place::is_there(tree, p) {
                            let k = place::kids_of(tree, p);
                            place::lemma_graft_modes(
                                tree,
                                p,
                                m,
                                Seq::empty(),
                                k.insert(n@, Node { data: fd@, kids: Map::empty() }),
                            );
                        }
                    }
                    Ok(())
                },
                Err(e) => Err(Error::because(about_path("Failed to create '", shown_path, "'"), e)),
            }
        },
    }
}

/// Removes the empty directory that `names` lead to from the directory `start`
/// on.
pub fn rmdir_one<A: Replica>(
    rep: &mut A,
    start: A::Directory,
    names: &Vec<Name>,
    shown_path: &[u8],
) -> (r: Result<()>)
    ensures
        mutate::sane(old(rep)) && mutate::standing(&start, old(rep).state().tree) ==> {
            let tree = old(rep).state().tree;
            let p = start.path() + path::names_of(names@);
            &&& final(rep).ideal()
            &&& r is Ok ==> p.len() > 0 && place::is_there(tree, p) && place::kids_of(tree, p)
                == Map::<Seq<u8>, Node>::empty() && final(rep).state().tree == without(
                tree,
                p.drop_last(),
                p.last(),
            )
            &&& r is Err ==> final(rep).state().tree == tree
            &&& old(rep).state().faultless && place::is_there(tree, p) && p.len() > 0 ==> {
                if place::kids_of(tree, p) == Map::<Seq<u8>, Node>::empty() {
                    r is Ok
                } else {
                    setup::fails_with(
                        r,
                        "Failed to remove '"@ + text::utf8_lossy(shown_path@) + "'"@,
                    )
                }
            }
        },
{
    let ghost tree = rep.state().tree;
    let ghost base = start.path();
    let (mut dir, _): (A::Directory, Option<Name>) = match navigate(rep, start, names, false) {
        Ok(place) => place,
        Err(e) => {
            return Err(e);
        },
    };
    let ghost m = dir.modes();
    match rep.rmdir(&mut dir) {
        Ok(_) => {
            proof {
                let p = base + path::names_of(names@);
                if p.len() > 0 && place::is_there(tree, p) {
                    mutate::lemma_there_prefix(tree, p, (p.len() - 1) as nat);
                    assert(p.take(p.len() - 1) =~= p.drop_last());
                    place::lemma_graft_modes(
                        tree,
                        p.drop_last(),
                        m.drop_last(),
                        Seq::empty(),
                        place::kids_of(tree, p.drop_last()).remove(p.last()),
                    );
                }
            }
            Ok(())
        },
        Err(e) => Err(Error::because(about_path("Failed to remove '", shown_path, "'"), e)),
    }
}

/// Finds the regular file named `name` in the directory that `names` lead to
/// from the directory `start` on, and returns what its content can be fetched
/// with. `parent` is how that directory is written.
pub fn cat_one<A: Replica>(
    rep: &mut A,
    start: A::Directory,
    names: &Vec<Name>,
    name: Option<&[u8]>,
    shown_path: &[u8],
    parent: &[u8],
) -> (r: Result<A::TransferOut>)
    ensures
        mutate::sane(old(rep)) && mutate::standing(&start, old(rep).state().tree) ==> {
            let tree = old(rep).state().tree;
            let p = start.path() + path::names_of(names@);
            let k = place::kids_of(tree, p);
            &&& mutate::sane(final(rep)) && final(rep).state().tree == tree
            &&& r matches Ok(x) ==> name is Some && k.dom().contains(name->0@)
                && k[name->0@].data is Regular && x.carries(k[name->0@].data)
            &&& old(rep).state().faultless && place::is_there(tree, p) ==> match name {
                None => setup::fails_with(r, nameless_text(shown_path@)),
                Some(n) => if !k.dom().contains(n@) {
                    setup::fails_with(r, "'"@ + text::utf8_lossy(shown_path@) + "' does not exist"@)
                } else if !(k[n@].data is Regular) {
                    setup::fails_with(
                        r,
                        "'"@ + text::utf8_lossy(shown_path@) + "' is not a regular file"@,
                    )
                } else {
                    r is Ok
                },
            }
        },
{
    let ghost tree = rep.state().tree;
    let ghost base = start.path();
    let (mut dir, _): (A::Directory, Option<Name>) = match navigate(rep, start, names, false) {
        Ok(place) => place,
        Err(e) => {
            return Err(e);
        },
    };
    let n: &[u8] = match name {
        None => {
            return Err(Error::say(about_path("'", shown_path, "' does not name a file")));
        },
        Some(n) => n,
    };
    let files: NameMap<FileData> = match load(rep, &mut dir) {
        Ok(files) => files,
        Err(e) => {
            return Err(Error::because(about_path("Error listing '", parent, "'"), e));
        },
    };
    assert(context::models(files).dom().contains(n@) == files@.dom().contains(n@));
    match files.get(n) {
        None => Err(Error::say(about_path("'", shown_path, "' does not exist"))),
        Some(fd) => {
            assert(context::models(files)[n@] == fd@);
            match rep.transfer(&dir, File(n, fd)) {
                Err(e) => Err(Error::because(about_path("Error fetching '", shown_path, "'"), e)),
                Ok(x) => match fd {
                    FileData::Regular(_, _, _, _) => Ok(x),
                    _ => Err(Error::say(about_path("'", shown_path, "' is not a regular file"))),
                },
            }
        },
    }
}

/// Something that `get` fetches.
pub struct GetStep {
    pub name: Name,
    pub data: FileData,
    /// Where it comes from, and where it goes, as is shown to the user.
    pub source: Name,
    pub target: Name,
    /// Where a temporary file for it is created.
    pub temp_dir: Name,
}

/// Something that `get` fetches, over mathematical values.
#[verifier::ext_equal]
pub struct StepModel {
    pub name: Seq<u8>,
    pub data: FileModel,
    pub source: Seq<u8>,
    pub target: Seq<u8>,
    pub temp_dir: Seq<u8>,
}

impl View for GetStep {
    type V = StepModel;

    open spec fn view(&self) -> StepModel {
        StepModel {
            name: self.name@,
            data: self.data@,
            source: self.source@,
            target: self.target@,
            temp_dir: self.temp_dir@,
        }
    }
}

/// How a file in the directory shown as `dir` is fetched to `dst`: as that
/// itself if it is the only one, else into that directory.
pub open spec fn step_for(
    dir: Seq<u8>,
    name: Seq<u8>,
    data: FileModel,
    single: bool,
    dst: Seq<u8>,
) -> StepModel {
    StepModel {
        name,
        data,
        source: path::joined(dir, name),
        target: if single {
            dst
        } else {
            path::joined(dst, name)
        },
        temp_dir: if !single {
            dst
        } else if path::spans(dst, 0).len() == 0 {
            seq![path::DOT]
        } else {
            path::directory_of(dst)
        },
    }
}

/// How the files of a list are fetched: all, or only the one of the given name.
pub open spec fn get_steps(
    dir: Seq<u8>,
    list: Seq<(Name, FileData)>,
    single: Option<Seq<u8>>,
    dst: Seq<u8>,
) -> Seq<StepModel>
    decreases list.len(),
{
    if list.len() == 0 {
        Seq::empty()
    } else {
        let before = get_steps(dir, list.drop_last(), single, dst);
        let (name, data) = list.last();
        if single is Some && single->0 != name@ {
            before
        } else {
            before.push(step_for(dir, name@, data@, single is Some, dst))
        }
    }
}

/// The steps of a list.
pub open spec fn step_models(v: Seq<GetStep>) -> Seq<StepModel> {
    v.map_values(|s: GetStep| s@)
}

/// Returns how the files of the list of the directory shown as `dir` are
/// fetched: all of them, or only the one of the given name, which must be
/// there.
pub fn plan_get(
    dir: &[u8],
    list: Vec<(Name, FileData)>,
    single: Option<&[u8]>,
    dst: &[u8],
) -> (r: Result<Vec<GetStep>>)
    ensures
        ({
            let only = match single {
                Some(n) => Some(n@),
                None => None,
            };
            let steps = get_steps(dir@, list@, only, dst@);
            match r {
                Ok(v) => step_models(v@) == steps && (single is Some ==> steps.len() > 0),
                Err(e) => steps.len() == 0 && single is Some && setup::fails_with(
                    r,
                    path_text(dir@, single->0@) + ": File not found"@,
                ),
            }
        }),
{
    let ghost only = match single {
        Some(n) => Some(n@),
        None => None,
    };
    let mut steps: Vec<GetStep> = Vec::new();
    let mut i: usize = 0;
    assert(list@.take(0) =~= Seq::empty());
    assert(step_models(steps@) =~= get_steps(dir@, list@.take(0), only, dst@));
    while i < list.len()
        invariant
            i <= list@.len(),
            only == (match single {
                Some(n) => Some(n@),
                None => None,
            }),
            step_models(steps@) == get_steps(dir@, list@.take(i as int), only, dst@),
        decreases list@.len() - i,
    {
        let name: &Name = &list[i].0;
        let skip = match single {
            Some(n) => !bytes::same(n, name.as_slice()),
            None => false,
        };
        assert(list@.take(i + 1).drop_last() =~= list@.take(i as int));
        assert(list@.take(i + 1).last() == list@[i as int]);
        if !skip {
            let source = path::join(dir, name.as_slice());
            let (target, temp_dir): (Name, Name) = if single.is_some() {
                let c = path::split(dst);
                assert(path::names_of(c.names@).len() == path::spans(dst@, 0).len());
                let temp_dir: Name = if c.names.len() == 0 {
                    let mut d: Name = Vec::new();
                    d.push(path::DOT);
                    assert(d@ =~= seq![path::DOT]);
                    d
                } else {
                    c.directory
                };
                (bytes::copy(dst), temp_dir)
            } else {
                (path::join(dst, name.as_slice()), bytes::copy(dst))
            };
            let step = GetStep {
                name: bytes::copy(name.as_slice()),
                data: list[i].1.clone(),
                source,
                target,
                temp_dir,
            };
            proof {
                assert(step@ =~= step_for(dir@, name@, list@[i as int].1@, only is Some, dst@));
                assert(step_models(steps@.push(step)) =~= step_models(steps@).push(step@));
            }
            steps.push(step);
        }
        i += 1;
    }
    assert(list@.take(i as int) =~= list@);
    assert(step_models(steps@).len() == steps@.len());
    match single {
        Some(n) => {
            if steps.len() == 0 {
                let words = about("", dir, n, ": File not found");
                proof {
                    reveal_strlit("");
                    assert(words@ =~= path_text(dir@, n@) + ": File not found"@);
                }
                return Err(Error::say(words));
            }
        },
        None => {},
    }
    Ok(steps)
}

/// Where what the path `src` leads to is put if it is to be put to `dst`.
pub open spec fn fetched_to(src: Seq<u8>, dst: Seq<u8>, dst_is_dir: bool) -> Seq<u8> {
    if dst_is_dir && path::file_name_of(src) is Some {
        path::joined(dst, path::file_name_of(src)->0)
    } else {
        dst
    }
}

/// Where `get` puts what the path `src` leads to if told to put it to `dst`:
/// into that if it is a directory, unless it has no name.
pub fn get_target(src: &[u8], dst: &[u8], dst_is_dir: bool) -> (r: Name)
    ensures
        r@ == match path::file_name_of(src@) {
            Some(n) => if dst_is_dir {
                path::joined(dst@, n)
            } else {
                dst@
            },
            None => dst@,
        },
        r@ == fetched_to(src@, dst@, dst_is_dir),
{
    if dst_is_dir {
        match path::file_name(src) {
            Some(n) => path::join(dst, n.as_slice()),
            None => bytes::copy(dst),
        }
    } else {
        bytes::copy(dst)
    }
}

/// What is said if a file is not overwritten.
pub open spec fn not_overwriting_text(p: Seq<u8>) -> Seq<char> {
    "Not overwriting '"@ + text::utf8_lossy(p) + "': Already exists"@
}

/// Fails if something else than a directory is there that must not be
/// overwritten.
pub fn check_overwrite(
    target: &[u8],
    existing: Option<&FileData>,
    allow_overwrite: bool,
) -> (r: Result<()>)
    ensures
        match existing {
            Some(fd) => if !fd@.is_dir() && !allow_overwrite {
                setup::fails_with(r, not_overwriting_text(target@))
            } else {
                r is Ok
            },
            None => r is Ok,
        },
{
    match existing {
        Some(fd) => {
            if !fd.is_dir() && !allow_overwrite {
                return Err(
                    Error::say(about_path("Not overwriting '", target, "': Already exists")),
                );
            }
            Ok(())
        },
        None => Ok(()),
    }
}

/// What is done locally to fetch a file.
pub enum GetAction {
    /// Its content is written to a temporary file with the given mode and
    /// modification time, which then takes the place of the target. What is
    /// there is overwritten only if the flag is set.
    Write(FileMode, FileTime, bool),
    /// The target is made a directory with the given mode, unless it is one, and
    /// what is in the directory is fetched.
    Descend(FileMode),
    /// The target is made a symlink to the given path. What is there is removed
    /// first if the flag is set.
    Link(Name, bool),
    /// Nothing is done but to say so.
    Ignore,
}

/// What is done locally to fetch a file, over mathematical values.
pub enum ActionModel {
    Write(FileMode, FileTime, bool),
    Descend(FileMode),
    Link(Seq<u8>, bool),
    Ignore,
}

impl View for GetAction {
    type V = ActionModel;

    open spec fn view(&self) -> ActionModel {
        match *self {
            GetAction::Write(mode, time, overwrite) => ActionModel::Write(mode, time, overwrite),
            GetAction::Descend(mode) => ActionModel::Descend(mode),
            GetAction::Link(to, replace) => ActionModel::Link(to@, replace),
            GetAction::Ignore => ActionModel::Ignore,
        }
    }
}

/// What is done locally to fetch a file, unless it must not be.
pub open spec fn fetching(data: FileModel, exists: bool, allow_overwrite: bool) -> Option<
    ActionModel,
> {
    match data {
        FileModel::Regular(mode, _, time, _) => Some(
            ActionModel::Write(mode, time, allow_overwrite),
        ),
        FileModel::Directory(mode) => Some(ActionModel::Descend(mode)),
        FileModel::Symlink(to) => if allow_overwrite || !exists {
            Some(ActionModel::Link(to, exists))
        } else {
            None
        },
        FileModel::Special => Some(ActionModel::Ignore),
    }
}

/// Decides what is done locally to fetch a file, where `exists` says whether
/// there is something in its place. Whether there is in that of a regular file is
/// found out in the moment that it is put there.
pub fn get_action(target: &[u8], data: &FileData, exists: bool, allow_overwrite: bool) -> (r:
    Result<GetAction>)
    ensures
        match data@ {
            FileModel::Regular(mode, _, time, _) => r matches Ok(x) && x@ == ActionModel::Write(
                mode,
                time,
                allow_overwrite,
            ),
            FileModel::Directory(mode) => r matches Ok(x) && x@ == ActionModel::Descend(mode),
            FileModel::Symlink(to) => if exists && !allow_overwrite {
                setup::fails_with(r, not_overwriting_text(target@))
            } else {
                r matches Ok(x) && x@ == ActionModel::Link(to, exists)
            },
            FileModel::Special => r matches Ok(x) && x@ == ActionModel::Ignore,
        },
        match r {
            Ok(x) => fetching(data@, exists, allow_overwrite) == Some(x@),
            Err(_) => fetching(data@, exists, allow_overwrite) is None,
        },
{
    match data {
        FileData::Regular(mode, _, time, _) => Ok(
            GetAction::Write(*mode, *time, allow_overwrite),
        ),
        FileData::Directory(mode) => Ok(GetAction::Descend(*mode)),
        FileData::Symlink(to) => {
            if exists && !allow_overwrite {
                Err(Error::say(about_path("Not overwriting '", target, "': Already exists")))
            } else {
                Ok(GetAction::Link(bytes::copy(to.as_slice()), exists))
            }
        },
        FileData::Special => Ok(GetAction::Ignore),
    }
}

/// What is known of a local file.
pub enum LocalFile {
    Directory(FileMode),
    Regular(FileMode, FileSize, FileTime),
    Symlink(Name),
    Special,
}

/// What a local file becomes on the server, if it can be stored there.
pub open spec fn stored(local: LocalFile) -> Option<FileModel> {
    match local {
        LocalFile::Directory(mode) => Some(FileModel::Directory(mode)),
        LocalFile::Regular(mode, size, time) => Some(
            FileModel::Regular(mode, size, time, defs::UNKNOWN_HASH@),
        ),
        LocalFile::Symlink(target) => Some(FileModel::Symlink(target@)),
        LocalFile::Special => None,
    }
}

/// Returns what a local file becomes on the server, if it can be stored there.
/// The hash of its content is not known yet.
pub fn stored_as(local: LocalFile) -> (r: Option<FileData>)
    ensures
        defs::opt_model(r) == match local {
            LocalFile::Directory(mode) => Some(FileModel::Directory(mode)),
            LocalFile::Regular(mode, size, time) => Some(
                FileModel::Regular(mode, size, time, defs::UNKNOWN_HASH@),
            ),
            LocalFile::Symlink(target) => Some(FileModel::Symlink(target@)),
            LocalFile::Special => None,
        },
        defs::opt_model(r) == stored(local),
{
    match local {
        LocalFile::Directory(mode) => Some(FileData::Directory(mode)),
        LocalFile::Regular(mode, size, time) => Some(
            FileData::Regular(mode, size, time, defs::UNKNOWN_HASH),
        ),
        LocalFile::Symlink(target) => Some(FileData::Symlink(target)),
        LocalFile::Special => None,
    }
}

/// Returns the name that `put` stores the file `src` under: the one given for
/// it, or its own.
pub fn put_name(src: &[u8], given: Option<Name>) -> (r: Result<Name>)
    ensures
        match given {
            Some(n) => r == Ok::<Name, Error>(n),
            None => match path::file_name_of(src@) {
                Some(n) => r matches Ok(x) && x@ == n,
                None => setup::fails_with(r, nameless_text(src@)),
            },
        },
{
    match given {
        Some(n) => Ok(n),
        None => match path::file_name(src) {
            Some(n) => Ok(n),
            None => Err(Error::say(about_path("'", src, "' does not name a file"))),
        },
    }
}

/// Stores a file under the given name in a directory, in place of what was
/// listed there. `target` is how it is shown to the user.
pub fn put_one<A: Replica>(
    rep: &mut A,
    dir: &mut A::Directory,
    name: &[u8],
    existing: Option<&FileData>,
    new_fd: &FileData,
    xfer: A::TransferIn,
    target: &[u8],
) -> (r: Result<()>)
    ensures
        r is Err ==> setup::fails_with(
            r,
            "Failed to create/update '"@ + text::utf8_lossy(target@) + "'"@,
        ),
        old(rep).ideal() && mutate::standing(old(dir), old(rep).state().tree) ==> {
            let tree = old(rep).state().tree;
            let p = old(dir).path();
            let k = place::kids_of(tree, p);
            &&& final(rep).ideal()
            &&& replica::same_handle(final(dir), old(dir))
            &&& replica::restructured(old(rep).state(), final(rep).state(), p)
            &&& r is Ok && xfer.carries(new_fd@) ==> final(rep).state().tree == place::graft(
                tree,
                p,
                old(dir).modes(),
                model::with(k, name@, model::replaced(model::at(k, name@), Some(new_fd@))),
            )
            &&& old(rep).state().faultless && xfer.carries(new_fd@) && model::data(
                model::at(k, name@),
            ) == defs::opt_view(existing) && (k.dom().contains(name@) && k[name@].data.is_dir()
                && !new_fd@.is_dir() ==> k[name@].kids == Map::<Seq<u8>, Node>::empty()) ==> r is Ok
        },
{
    let ghost k = mutate::held(rep, dir);
    let done = match existing {
        Some(fd) => rep.update(dir, name, fd, new_fd, xfer),
        None => rep.create(dir, File(name, new_fd), xfer),
    };
    proof {
        if existing is None {
            assert(model::with(k, name@, model::replaced(None, Some(new_fd@))) =~= k.insert(
                name@,
                Node { data: new_fd@, kids: Map::empty() },
            ));
        }
    }
    match done {
        Ok(_) => Ok(()),
        Err(e) => Err(Error::because(about_path("Failed to create/update '", target, "'"), e)),
    }
}

/// Lines of text, over mathematical values.
pub open spec fn texts(l: Seq<String>) -> Seq<Seq<char>> {
    l.map_values(|s: String| s@)
}

/// What is shown of the removal of a directory: what is shown of each file in
/// it, in some order.
#[verifier::ext_equal]
pub struct Shown {
    pub order: Seq<Seq<u8>>,
    pub parts: Seq<Seq<Seq<char>>>,
}

/// One part after the other.
pub open spec fn flat(parts: Seq<Seq<Seq<char>>>) -> Seq<Seq<char>>
    decreases parts.len(),
{
    if parts.len() == 0 {
        Seq::empty()
    } else {
        flat(parts.drop_last()) + parts.last()
    }
}

impl Shown {
    /// The lines: what is in the directory comes before the directory itself.
    pub open spec fn lines(self, dir: Seq<u8>) -> Seq<Seq<char>> {
        flat(self.parts).push(text::utf8_lossy(dir))
    }
}

/// Whether `lines` show the removal of a directory that holds `k`, and is
/// displayed as `dir`.
#[verifier::opaque]
pub open spec fn shows_removal(
    lines: Seq<Seq<char>>,
    k: Kids,
    dir: Seq<u8>,
    depth: nat,
) -> bool
    decreases depth, 1int,
{
    exists|x: Shown|
        {
            &&& lines == #[trigger] x.lines(dir)
            &&& x.order.no_duplicates()
            &&& x.order.to_set() == k.dom()
            &&& x.parts.len() == x.order.len()
            &&& forall|i: int|
                0 <= i < x.order.len() ==> shows_one(
                    #[trigger] x.parts[i],
                    k[x.order[i]],
                    dir,
                    x.order[i],
                    depth,
                )
        }
}

/// Whether `part` shows the removal of one file.
#[verifier::opaque]
pub open spec fn shows_one(
    part: Seq<Seq<char>>,
    node: Node,
    dir: Seq<u8>,
    name: Seq<u8>,
    depth: nat,
) -> bool
    decreases depth, 0int,
{
    if node.data.is_dir() {
        depth > 0 && shows_removal(
            part,
            node.kids,
            replica::shown_in(dir, name),
            (depth - 1) as nat,
        )
    } else {
        part == seq![path_text(dir, name)]
    }
}

/// What has been shown of each file shows the removal of the directory.
proof fn lemma_shown(
    l: Seq<(Vec<u8>, FileData)>,
    parts: Seq<Seq<Seq<char>>>,
    k: Kids,
    dir: Seq<u8>,
    depth: nat,
)
    requires
        replica::listed(l, replica::listing(k)),
        parts.len() == l.len(),
        forall|i: int|
            0 <= i < l.len() ==> shows_one(#[trigger] parts[i], k[l[i].0@], dir, l[i].0@, depth),
    ensures
        shows_removal(flat(parts).push(text::utf8_lossy(dir)), k, dir, depth),
{
    reveal(shows_removal);
    reveal(shows_one);
    let m = replica::listing(k);
    let x = Shown { order: Seq::new(l.len(), |i: int| l[i].0@), parts };
    assert forall|i: int, j: int|
        0 <= i < x.order.len() && 0 <= j < x.order.len() && i != j implies x.order[i]
        != x.order[j] by {
        if i < j {
            assert(l[i].0@ != l[j].0@);
        } else {
            assert(l[j].0@ != l[i].0@);
        }
    }
    assert forall|n: Seq<u8>| x.order.to_set().contains(n) == k.dom().contains(n) by {
        if x.order.contains(n) {
            let i = choose|i: int| 0 <= i < x.order.len() && x.order[i] == n;
            assert(m.dom().contains(l[i].0@));
        }
        if k.dom().contains(n) {
            assert(m.dom().contains(n));
            let i = choose|i: int| 0 <= i < l.len() && #[trigger] l[i].0@ == n;
            assert(x.order[i] == n);
        }
    }
    assert(x.order.to_set() =~= k.dom());
    assert(flat(parts).push(text::utf8_lossy(dir)) == x.lines(dir));
}

/// Removes the file of the given name from a directory. What is removed is
/// added to `out` if it is to be shown.
fn remove_by_name<A: Replica>(
    rep: &mut A,
    dir: &mut A::Directory,
    name: &[u8],
    verbose: bool,
    out: &mut Vec<String>,
) -> (r: Result<()>)
    ensures
        texts(final(out)@) == if verbose {
            texts(old(out)@).push(path_text(old(dir).shown(), name@))
        } else {
            texts(old(out)@)
        },
        mutate::sane(old(rep)) && mutate::standing(old(dir), old(rep).state().tree) ==> {
            let tree = old(rep).state().tree;
            let p = old(dir).path();
            let k = place::kids_of(tree, p);
            &&& mutate::sane(final(rep))
            &&& final(rep).state().faultless == old(rep).state().faultless
            &&& r is Ok ==> k.dom().contains(name@) && k[name@].kids == Map::<Seq<u8>, Node>::empty()
                && final(rep).state().tree == without(tree, p, name@)
            &&& old(rep).state().faultless ==> {
                if !k.dom().contains(name@) {
                    r is Err && final(rep).state().tree == tree && setup::fails_with(
                        r,
                        path_text(final(dir).shown(), name@) + ": File not found"@,
                    )
                } else if k[name@].kids == Map::<Seq<u8>, Node>::empty() {
                    r is Ok
                } else {
                    r is Err
                }
            }
        },
{
    let ghost tree = rep.state().tree;
    let ghost p = dir.path();
    let ghost m = dir.modes();
    let ghost good = mutate::sane(rep) && mutate::standing(dir, tree);
    let ghost out0 = out@;
    if verbose {
        let line = about("", dir.full_path(), name, "");
        proof {
            reveal_strlit("");
            assert(line@ =~= path_text(dir.shown(), name@));
        }
        out.push(line);
        assert(texts(out@) =~= texts(out0).push(path_text(dir.shown(), name@)));
    }
    let files: NameMap<FileData> = match map_of(rep, dir, "Failed to list contents of '") {
        Ok(files) => files,
        Err(e) => {
            return Err(e);
        },
    };
    assert(context::models(files).dom().contains(name@) == files@.dom().contains(name@));
    match files.get(name) {
        None => {
            let words = about("", dir.full_path(), name, ": File not found");
            proof {
                reveal_strlit("");
                assert(words@ =~= path_text(dir.shown(), name@) + ": File not found"@);
            }
            Err(Error::say(words))
        },
        Some(fd) => {
            assert(context::models(files)[name@] == fd@);
            match rep.remove(dir, File(name, fd)) {
                Ok(_) => {
                    proof {
                        if good {
                            place::lemma_graft_modes(
                                tree,
                                p,
                                m,
                                Seq::empty(),
                                place::kids_of(tree, p).remove(name@),
                            );
                        }
                    }
                    Ok(())
                },
                Err(e) => Err(
                    Error::because(about("Failed to remove '", dir.full_path(), name, "'"), e),
                ),
            }
        },
    }
}

/// Emptying a directory and removing it is removing the directory.
proof fn lemma_emptied(tree: Kids, p: Path, m: Seq<FileMode>)
    requires
        p.len() > 0,
        m.len() == p.len(),
        place::is_there(tree, p),
    ensures
        ({
            let emptied = place::graft(tree, p, m, Map::empty());
            &&& place::is_there(emptied, p)
            &&& place::kids_of(emptied, p) == Map::<Seq<u8>, Node>::empty()
            &&& place::graft(
                emptied,
                p.drop_last(),
                m.drop_last(),
                place::kids_of(emptied, p.drop_last()).remove(p.last()),
            ) == without(tree, p.drop_last(), p.last())
        }),
{
    let q = p.drop_last();
    let n = p.last();
    let mq = m.drop_last();
    let d = place::kids_of(tree, q);
    let emptied = place::graft(tree, p, m, Map::empty());
    assert(q.push(n) =~= p);
    assert(mq.push(m.last()) =~= m);
    mutate::lemma_there_prefix(tree, p, (p.len() - 1) as nat);
    assert(p.take(p.len() - 1) =~= q);
    place::lemma_graft_there(tree, p, m, Map::empty());
    place::lemma_graft_get(tree, p, m, Map::empty());
    place::lemma_graft_child(tree, q, mq, n, m.last(), Map::empty());
    let g = place::grown(d, n, m.last(), Map::empty());
    place::lemma_graft_get(tree, q, mq, g);
    assert(g.remove(n) =~= d.remove(n));
    place::lemma_graft_twice(tree, q, mq, g, d.remove(n));
    place::lemma_graft_modes(tree, q, mq, Seq::empty(), d.remove(n));
}

/// One more part.
proof fn lemma_part(before: Seq<Seq<char>>, parts: Seq<Seq<Seq<char>>>, part: Seq<Seq<char>>)
    ensures
        before + flat(parts) + part == before + flat(parts.push(part)),
{
    assert(parts.push(part).drop_last() =~= parts);
    assert(before + flat(parts) + part =~= before + flat(parts.push(part)));
}

/// Removes a directory with everything in it. What is removed is added to
/// `out` if it is to be shown.
fn remove_recursively<A: Replica>(
    rep: &mut A,
    dir: A::Directory,
    verbose: bool,
    out: &mut Vec<String>,
    depth: usize,
) -> (r: Result<()>)
    ensures
        !verbose ==> texts(final(out)@) == texts(old(out)@),
        texts(old(out)@).is_prefix_of(texts(final(out)@)),
        mutate::sane(old(rep)) && mutate::standing(&dir, old(rep).state().tree) ==> {
            let tree = old(rep).state().tree;
            let p = dir.path();
            &&& mutate::sane(final(rep))
            &&& final(rep).state().faultless == old(rep).state().faultless
            &&& r is Ok ==> p.len() > 0 && final(rep).state().tree == without(
                tree,
                p.drop_last(),
                p.last(),
            )
            &&& old(rep).state().faultless && p.len() > 0 && mutate::within(
                place::kids_of(tree, p),
                depth as nat,
            ) ==> r is Ok
            &&& verbose && r is Ok ==> exists|lines: Seq<Seq<char>>|
                texts(final(out)@) == texts(old(out)@) + lines && #[trigger] shows_removal(
                    lines,
                    place::kids_of(tree, p),
                    dir.shown(),
                    depth as nat,
                )
        },
    decreases depth,
{
    let mut here = dir;
    let ghost good = mutate::sane(rep) && mutate::standing(&here, rep.state().tree);
    let ghost s0 = rep.state();
    let ghost handle = here;
    let ghost p = here.path();
    let ghost m = here.modes();
    let ghost k0 = place::kids_of(s0.tree, p);
    let ghost out0 = texts(out@);
    let ghost mut parts: Seq<Seq<Seq<char>>> = Seq::empty();
    let listed = rep.list(&mut here);
    proof {
        assert(out0 =~= out0 + flat(parts));
        if good {
            assert(rep.state().condemned =~= s0.condemned);
        }
    }
    let l: Vec<(Vec<u8>, FileData)> = match listed {
        Ok(l) => l,
        Err(e) => {
            return Err(
                Error::because(about_path("Failed to list contents of '", here.full_path(), "'"), e),
            );
        },
    };
    proof {
        if good {
            replica::lemma_spared(k0, s0.condemned, p);
            assert(mutate::left(k0, l@, 0) =~= k0);
            place::lemma_graft_same(s0.tree, p, m);
            rep.lemma_sound();
            mutate::lemma_sound_kids_of(s0.tree, p);
        }
    }
    let mut i: usize = 0;
    while i < l.len()
        invariant
            i <= l.len(),
            !verbose ==> texts(out@) == out0,
            out0.is_prefix_of(texts(out@)),
            good && verbose ==> texts(out@) == out0 + flat(parts),
            good && verbose ==> parts.len() == i,
            good && verbose ==> forall|j: int|
                0 <= j < i ==> shows_one(
                    #[trigger] parts[j],
                    k0[l@[j].0@],
                    handle.shown(),
                    l@[j].0@,
                    depth as nat,
                ),
            out0 == texts(old(out)@),
            s0 == old(rep).state(),
            handle == dir,
            good == (mutate::sane(old(rep)) && mutate::standing(&dir, s0.tree)),
            p == handle.path() && m == handle.modes(),
            k0 == place::kids_of(s0.tree, p),
            good ==> {
                &&& mutate::sane(rep)
                &&& rep.state().faultless == s0.faultless
                &&& mutate::standing(&handle, s0.tree)
                &&& replica::same_handle(&here, &handle)
                &&& trees::sound(k0)
                &&& replica::listed(l@, replica::listing(k0))
                &&& rep.state().tree == place::graft(s0.tree, p, m, mutate::left(k0, l@, i as int))
            },
        decreases l.len() - i,
    {
        let name: &Vec<u8> = &l[i].0;
        let fd: &FileData = &l[i].1;
        let ghost n = name@;
        let ghost k = mutate::left(k0, l@, i as int);
        let ghost t1 = rep.state().tree;
        let ghost out1 = texts(out@);
        proof {
            if good {
                assert(replica::listing(k0).dom().contains(l@[i as int].0@));
                mutate::lemma_left(k0, l@, i as int);
                place::lemma_graft_get(s0.tree, p, m, k);
                place::lemma_graft_there(s0.tree, p, m, k);
                trees::lemma_sound(k0);
                assert(trees::sound_tree(model::at(k0, n)));
                place::lemma_graft_child(t1, p, m, n, 0, Map::empty());
                place::lemma_graft_twice(s0.tree, p, m, k, k.remove(n));
                place::lemma_graft_modes(t1, p, m, Seq::empty(), k.remove(n));
                assert(p.push(n).drop_last() =~= p);
                if mutate::within(k0, depth as nat) {
                    mutate::lemma_within(k0, depth as nat, n);
                }
            }
        }
        if fd.is_dir() {
            if depth == 0 {
                return Err(Error::new(ErrorKind::DirectoryTooDeep));
            }
            let sub: A::Directory = match rep.chdir(&here, name.as_slice()) {
                Ok(d) => d,
                Err(e) => {
                    return Err(
                        Error::because(
                            about("Failed to enter '", here.full_path(), name.as_slice(), "'"),
                            e,
                        ),
                    );
                },
            };
            proof {
                if good {
                    mutate::lemma_standing(&sub, t1);
                }
            }
            let removed = remove_recursively(rep, sub, verbose, out, depth - 1);
            match removed {
                Ok(_) => {},
                Err(e) => {
                    return Err(e);
                },
            }
            proof {
                if good && verbose {
                    let part = choose|lines: Seq<Seq<char>>|
                        texts(out@) == out1 + lines && #[trigger] shows_removal(
                            lines,
                            k0[n].kids,
                            replica::shown_in(handle.shown(), n),
                            (depth - 1) as nat,
                        );
                    reveal(shows_one);
                    reveal(shows_removal);
                    assert(shows_one(part, k0[n], handle.shown(), n, depth as nat));
                    lemma_part(out0, parts, part);
                    parts = parts.push(part);
                }
            }
        } else {
            if verbose {
                let line = about("", here.full_path(), name.as_slice(), "");
                let ghost part = seq![line@];
                let ghost before = out@;
                proof {
                    reveal_strlit("");
                    assert(line@ =~= path_text(here.shown(), n));
                }
                out.push(line);
                proof {
                    assert(texts(out@) =~= texts(before) + part);
                    if good {
                        reveal(shows_one);
                        assert(shows_one(part, k0[n], handle.shown(), n, depth as nat));
                        lemma_part(out0, parts, part);
                        parts = parts.push(part);
                    }
                }
            }
            match rep.remove(&mut here, File(name.as_slice(), fd)) {
                Ok(_) => {},
                Err(e) => {
                    return Err(
                        Error::because(
                            about("Failed to remove '", here.full_path(), name.as_slice(), "'"),
                            e,
                        ),
                    );
                },
            }
        }
        i += 1;
    }
    proof {
        if good {
            mutate::lemma_left(k0, l@, i as int);
            if p.len() > 0 {
                lemma_emptied(s0.tree, p, m);
            } else {
                assert(place::is_there(rep.state().tree, p));
            }
        }
    }
    if verbose {
        let line = about_path("", here.full_path(), "");
        let ghost before = out@;
        let ghost shown = line@;
        proof {
            reveal_strlit("");
            assert(line@ =~= text::utf8_lossy(here.shown()));
        }
        out.push(line);
        proof {
            assert(texts(out@) =~= texts(before).push(shown));
            if good {
                lemma_shown(l@, parts, k0, handle.shown(), depth as nat);
                assert(texts(out@) =~= out0 + flat(parts).push(shown));
            }
        }
    }
    match rep.rmdir(&mut here) {
        Ok(_) => Ok(()),
        Err(e) => Err(Error::because(about_path("Failed to remove '", here.full_path(), "'"), e)),
    }
}

/// What is said if the logical root is to be removed.
pub const REMOVE_LOGICAL_ROOT: &'static str =
    "If you really want to remove the logical root directory, pass the fully-qualified path instead.";

/// What is said if the physical root is to be removed.
pub const REMOVE_PHYSICAL_ROOT: &'static str =
    "Cannot remove the physical root. If you really want to remove all the data under it, list each top-level item separately.";

/// What is said if a directory is to be removed with no leave to do so.
pub const REMOVE_DIRECTORY: &'static str =
    "Not removing directory without `--recursive` flag.";

/// Why a path is not to be removed: it is that of a root.
pub open spec fn root_refusal(p: Seq<u8>) -> Option<Seq<char>> {
    if p.len() == 0 {
        Some(REMOVE_LOGICAL_ROOT@)
    } else if path::absolute(p) && path::components(p).len() == 0 {
        Some(REMOVE_PHYSICAL_ROOT@)
    } else {
        None
    }
}

/// Fails if a path is that of a root, which is not to be removed.
pub fn check_removal(shown_path: &[u8]) -> (r: Result<()>)
    ensures
        match root_refusal(shown_path@) {
            Some(words) => setup::fails_with(r, words),
            None => r is Ok,
        },
{
    if shown_path.len() == 0 {
        return Err(Error::say(REMOVE_LOGICAL_ROOT.to_owned()));
    }
    let c = path::split(shown_path);
    assert(path::names_of(c.names@).len() == c.names@.len());
    if path::is_absolute(shown_path) && c.names.len() == 0 {
        return Err(Error::say(REMOVE_PHYSICAL_ROOT.to_owned()));
    }
    Ok(())
}

/// Removes the file or, if `recursive`, the directory that a path leads to from
/// the directory `start` on. A root is not removed. What is removed is added to
/// `out` if it is to be shown.
pub fn rm_one<A: Replica>(
    rep: &mut A,
    start: A::Directory,
    shown_path: &[u8],
    recursive: bool,
    verbose: bool,
    out: &mut Vec<String>,
) -> (r: Result<()>)
    ensures
        !verbose ==> texts(final(out)@) == texts(old(out)@),
        texts(old(out)@).is_prefix_of(texts(final(out)@)),
        root_refusal(shown_path@) matches Some(words) ==> setup::fails_with(r, words)
            && *final(rep) == *old(rep) && final(out)@ == old(out)@,
        root_refusal(shown_path@) is None && mutate::sane(old(rep)) && mutate::standing(
            &start,
            old(rep).state().tree,
        ) ==> {
            let tree = old(rep).state().tree;
            let way = path::components(shown_path@);
            let full = start.path() + way;
            let parent = start.path() + way.drop_last();
            let k = place::kids_of(tree, parent);
            &&& mutate::sane(final(rep))
            &&& final(rep).state().faultless == old(rep).state().faultless
            &&& r is Ok ==> {
                ||| recursive && place::is_there(tree, full) && final(rep).state().tree == without(
                    tree,
                    full.drop_last(),
                    full.last(),
                ) && (verbose ==> exists|lines: Seq<Seq<char>>|
                    texts(final(out)@) == texts(old(out)@) + lines && #[trigger] shows_removal(
                        lines,
                        place::kids_of(tree, full),
                        shown_along(start.shown(), way),
                        usize::MAX as nat,
                    ))
                ||| k.dom().contains(way.last()) && k[way.last()].kids == Map::<
                    Seq<u8>,
                    Node,
                >::empty() && final(rep).state().tree == without(tree, parent, way.last()) && (
                verbose ==> texts(final(out)@) == texts(old(out)@).push(
                    path_text(shown_along(start.shown(), way.drop_last()), way.last()),
                ))
            }
            &&& old(rep).state().faultless ==> {
                if place::is_there(tree, full) {
                    if recursive {
                        &&& r is Ok && verbose ==> exists|lines: Seq<Seq<char>>|
                            texts(final(out)@) == texts(old(out)@) + lines
                                && #[trigger] shows_removal(
                                lines,
                                place::kids_of(tree, full),
                                shown_along(start.shown(), way),
                                usize::MAX as nat,
                            )
                        &&& mutate::within(place::kids_of(tree, full), usize::MAX as nat) ==> r
                            is Ok
                    } else {
                        setup::fails_with(r, REMOVE_DIRECTORY@) && final(rep).state().tree == tree
                    }
                } else if place::is_there(tree, parent) && k.dom().contains(way.last()) {
                    r is Ok
                } else {
                    r is Err && final(rep).state().tree == tree
                }
            }
        },
{
    match check_removal(shown_path) {
        Ok(_) => {},
        Err(e) => {
            return Err(e);
        },
    }
    let c = path::split(shown_path);
    let ghost tree = rep.state().tree;
    let ghost base = start.path();
    let ghost way = path::components(shown_path@);
    let ghost good = mutate::sane(rep) && mutate::standing(&start, tree);
    proof {
        path::lemma_relative_components(shown_path@);
        assert(way.len() > 0);
    }
    let (mut dir, single): (A::Directory, Option<Name>) = match navigate(
        rep,
        start,
        &c.names,
        true,
    ) {
        Ok(place) => place,
        Err(e) => {
            return Err(e);
        },
    };
    match single {
        Some(name) => {
            proof {
                if good {
                    let parent = base + way.drop_last();
                    let k = place::kids_of(tree, parent);
                    rep.lemma_sound();
                    mutate::lemma_sound_kids_of(tree, parent);
                    if k.dom().contains(name@) && rep.state().faultless {
                        trees::lemma_sound(k);
                        assert(trees::sound_tree(model::at(k, name@)));
                        place::lemma_graft_child(
                            tree,
                            parent,
                            dir.modes(),
                            name@,
                            0,
                            Map::empty(),
                        );
                        assert(parent.push(name@) =~= base + way);
                        assert(k[name@].kids =~= Map::<Seq<u8>, Node>::empty());
                    }
                }
            }
            remove_by_name(rep, &mut dir, name.as_slice(), verbose, out)
        },
        None => {
            if !recursive {
                Err(Error::say(REMOVE_DIRECTORY.to_owned()))
            } else {
                remove_recursively(rep, dir, verbose, out, usize::MAX)
            }
        },
    }
}

/// Each permission is shown in a place of its own: reading, writing and executing
/// by the owner, the group and the others. Where a file is executed with other
/// rights, or sticks, that is shown in the place for executing, by a small letter
/// if the file can be executed and by a capital letter otherwise.
pub proof fn law_permissions(mode: FileMode)
    ensures
        ({
            let p = permissions(mode);
            &&& p.len() == 9
            &&& p[0] == (if mode & 0o400 != 0 { 'r' } else { '-' })
            &&& p[1] == (if mode & 0o200 != 0 { 'w' } else { '-' })
            &&& p[3] == (if mode & 0o40 != 0 { 'r' } else { '-' })
            &&& p[4] == (if mode & 0o20 != 0 { 'w' } else { '-' })
            &&& p[6] == (if mode & 0o4 != 0 { 'r' } else { '-' })
            &&& p[7] == (if mode & 0o2 != 0 { 'w' } else { '-' })
            &&& p[2] == 'x' || p[2] == 's' <==> mode & 0o100 != 0
            &&& p[2] == 'S' || p[2] == 's' <==> mode & 0o4000 != 0
            &&& p[5] == 'x' || p[5] == 's' <==> mode & 0o10 != 0
            &&& p[5] == 'S' || p[5] == 's' <==> mode & 0o2000 != 0
            &&& p[8] == 'x' || p[8] == 't' <==> mode & 0o1 != 0
            &&& p[8] == 'T' || p[8] == 't' <==> mode & 0o1000 != 0
            &&& p[2] == '-' <==> mode & 0o4100 == 0
            &&& p[5] == '-' <==> mode & 0o2010 == 0
            &&& p[8] == '-' <==> mode & 0o1001 == 0
        }),
{
    assert((mode & 0o400 == 0 || mode & 0o400 == 0o400) && (mode & 0o200 == 0 || mode & 0o200
        == 0o200) && (mode & 0o40 == 0 || mode & 0o40 == 0o40) && (mode & 0o20 == 0 || mode & 0o20
        == 0o20) && (mode & 0o4 == 0 || mode & 0o4 == 0o4) && (mode & 0o2 == 0 || mode & 0o2
        == 0o2) && (mode & 0o4100 == 0 <==> mode & 0o100 == 0 && mode & 0o4000 == 0) && (mode
        & 0o2010 == 0 <==> mode & 0o10 == 0 && mode & 0o2000 == 0) && (mode & 0o1001 == 0 <==> mode
        & 0o1 == 0 && mode & 0o1000 == 0)) by (bit_vector);
}

/// A size for people is rounded down to a whole number of units, of which there
/// are fewer than ten thousand; the unit is the smallest such one.
pub proof fn law_scaled(size: nat)
    ensures
        scaled(size).0 * pow(1024, scaled(size).1) <= size,
        size < (scaled(size).0 + 1) * pow(1024, scaled(size).1),
        scaled(size).1 > 0 ==> 10_000 * pow(1024, (scaled(size).1 - 1) as nat) <= size,
    decreases size,
{
    reveal(pow);
    if size >= 10000 {
        let q = size / 1024;
        law_scaled(q);
        let (v, k) = scaled(q);
        let p = pow(1024, k);
        assert(pow(1024, (k + 1) as nat) == 1024 * p);
        assert(v * (1024 * p) <= size) by (nonlinear_arith)
            requires
                v * p <= q,
                1024 * q <= size,
        ;
        assert(size < (v + 1) * (1024 * p)) by (nonlinear_arith)
            requires
                q < (v + 1) * p,
                size < 1024 * q + 1024,
        ;
        if k > 0 {
            let o = pow(1024, (k - 1) as nat);
            assert(p == 1024 * o);
            assert(10_000 * (1024 * o) <= size) by (nonlinear_arith)
                requires
                    10_000 * o <= q,
                    1024 * q <= size,
            ;
        }
    }
}

/// Sizes end in the same column. In bytes, they are shown in full; for people, as
/// a number of units, with the letter of the unit, and each unit has another one.
pub proof fn law_ls_size(size: nat, i: nat, j: nat)
    ensures
        ({
            let d = text::digits(size, 10);
            let t = ls_size(size, false);
            &&& text::number(d, 10) == size && t.len() >= 12 && t.skip(t.len() - d.len()) == d
            &&& forall|k: int| 0 <= k < t.len() - d.len() ==> t[k] == ' '
        }),
        ({
            let d = text::digits(scaled(size).0, 10);
            let t = ls_size(size, true);
            &&& text::number(d, 10) == scaled(size).0 && t.len() >= 5
            &&& t.drop_last().skip(t.len() - 1 - d.len()) == d
            &&& t.last() == unit_text(scaled(size).1)
            &&& forall|k: int| 0 <= k < t.len() - 1 - d.len() ==> t[k] == ' '
        }),
        i < 8 && j < 8 && unit_text(i) == unit_text(j) ==> i == j,
        unit_text(0) == 'B' && unit_text(1) == 'k' && unit_text(2) == 'M' && unit_text(3) == 'G'
            && unit_text(4) == 'T' && unit_text(5) == 'P' && unit_text(6) == 'E',
{
    text::law_digits(size, 10);
    text::law_padded(text::digits(size, 10), 12, ' ');
    let d = text::digits(scaled(size).0, 10);
    text::law_digits(scaled(size).0, 10);
    text::law_padded(d, 4, ' ');
    assert(ls_size(size, true).drop_last() =~= text::padded(d, 4, ' '));
}

/// How a file is listed: its type, its permissions, its size, when it was modified
/// if that is known, its name, and where it leads if it is a symbolic link.
pub proof fn law_ls_line(name: Seq<u8>, fd: FileModel, human_readable: bool)
    ensures
        ({
            let t = ls_line(name, fd, human_readable);
            let n = text::utf8_lossy(name);
            &&& match fd {
                FileModel::Regular(mode, size, time, _) => {
                    let s = ls_size(size as nat, human_readable).len();
                    let m = ls_time(time).len();
                    &&& t[0] == '-' && text::stands(t, 1, permissions(mode))
                    &&& text::stands(t, 12, ls_size(size as nat, human_readable))
                    &&& time > 0 ==> text::stands(t, 14int + s, sync_log::time_text(time))
                    &&& t.skip(16int + s + m) == n + "\n"@
                },
                FileModel::Directory(mode) => {
                    &&& t[0] == 'd' && text::stands(t, 1, permissions(mode))
                    &&& text::stands(t, 12, ls_size(0, human_readable))
                    &&& t.skip(33int + ls_size(0, human_readable).len()) == n + "\n"@
                },
                FileModel::Symlink(target) => {
                    let to = text::utf8_lossy(target);
                    let s = ls_size(vstd::utf8::encode_utf8(to).len(), human_readable);
                    &&& t[0] == 'l' && text::stands(t, 12, s)
                    &&& t.skip(33int + s.len()) == n + " -> "@ + to + "\n"@
                },
                FileModel::Special => {
                    &&& t[0] == 'c' && text::stands(t, 12, ls_size(0, human_readable))
                    &&& t.skip(33int + ls_size(0, human_readable).len()) == n + "\n"@
                },
            }
        }),
{
    reveal_strlit("  ");
    reveal_strlit("                 ");
    reveal_strlit("\n");
    reveal_strlit(" -> ");
    let t = ls_line(name, fd, human_readable);
    let l = line_of(fd);
    let n = text::utf8_lossy(name);
    let p = permissions(l.mode);
    let z = ls_size(l.size, human_readable);
    let s = z.len() as int;
    let m = ls_time(l.time).len() as int;
    assert(t.subrange(1, 10) =~= p);
    assert(t.subrange(12, 12 + s) =~= z);
    assert(t.subrange(14 + s, 14 + s + m) =~= ls_time(l.time));
    match fd {
        FileModel::Symlink(target) => {
            assert(t.skip(16 + s + m) =~= n + " -> "@ + text::utf8_lossy(target) + "\n"@);
        },
        _ => {
            assert(t.skip(16 + s + m) =~= n + "\n"@);
        },
    }
}

/// Files are listed one after the other, each on a line of its own.
pub proof fn law_ls_text(
    a: Seq<Seq<u8>>,
    b: Seq<Seq<u8>>,
    name: Seq<u8>,
    files: Map<Seq<u8>, FileModel>,
    human_readable: bool,
)
    ensures
        ls_text(a + b, files, human_readable) == ls_text(a, files, human_readable) + ls_text(
            b,
            files,
            human_readable,
        ),
        ls_text(seq![name], files, human_readable) == ls_line(name, files[name], human_readable),
    decreases b.len(),
{
    let one = seq![name];
    assert(one.drop_last() =~= Seq::empty());
    assert(ls_text(one.drop_last(), files, human_readable) =~= Seq::empty());
    assert(ls_text(one, files, human_readable) =~= ls_line(name, files[name], human_readable));
    let x = ls_text(a, files, human_readable);
    if b.len() == 0 {
        assert(a + b =~= a);
        assert(x + ls_text(b, files, human_readable) =~= x);
    } else {
        law_ls_text(a, b.drop_last(), name, files, human_readable);
        assert((a + b).drop_last() =~= a + b.drop_last());
        assert((a + b).last() == b.last());
        assert(ls_text(a + b, files, human_readable) =~= x + ls_text(b, files, human_readable));
    }
}

/// A directory is listed in one way only.
pub proof fn law_listed_once(
    s: Seq<char>,
    t: Seq<char>,
    files: Map<Seq<u8>, FileModel>,
    human_readable: bool,
)
    requires
        lists(s, files, human_readable),
        lists(t, files, human_readable),
    ensures
        s == t,
{
    let a = choose|a: Seq<Seq<u8>>|
        in_order(a, files) && s == #[trigger] ls_text(a, files, human_readable);
    let b = choose|b: Seq<Seq<u8>>|
        in_order(b, files) && t == #[trigger] ls_text(b, files, human_readable);
    lemma_one_order(a, b, files);
}

/// There is one ascending order of the names of a directory.
proof fn lemma_one_order(a: Seq<Seq<u8>>, b: Seq<Seq<u8>>, files: Map<Seq<u8>, FileModel>)
    requires
        in_order(a, files),
        in_order(b, files),
    ensures
        a == b,
    decreases a.len(),
{
    if a.len() > 0 && b.len() > 0 {
        let (x, y) = (a[0], b[0]);
        assert(a.contains(x) && b.contains(y));
        assert(files.dom().contains(x) && files.dom().contains(y));
        assert(b.contains(x) && a.contains(y));
        let i = b.index_of(x);
        let j = a.index_of(y);
        if i > 0 {
            assert(bytes::before(b[0], b[i]));
            if j > 0 {
                assert(bytes::before(a[0], a[j]));
                bytes::lemma_before_asym(x, y);
            }
        }
        assert(x == y);
        lemma_order_rest(a, files);
        lemma_order_rest(b, files);
        lemma_one_order(a.drop_first(), b.drop_first(), files.remove(x));
        assert(a =~= seq![x] + a.drop_first());
        assert(b =~= seq![y] + b.drop_first());
    } else if a.len() > 0 {
        assert(a.contains(a[0]));
        assert(files.dom().contains(a[0]));
        assert(b.contains(a[0]));
    } else if b.len() > 0 {
        assert(b.contains(b[0]));
        assert(files.dom().contains(b[0]));
        assert(a.contains(b[0]));
    } else {
        assert(a =~= b);
    }
}

proof fn lemma_order_rest(a: Seq<Seq<u8>>, files: Map<Seq<u8>, FileModel>)
    requires
        in_order(a, files),
        a.len() > 0,
    ensures
        in_order(a.drop_first(), files.remove(a[0])),
{
    let r = a.drop_first();
    let m = files.remove(a[0]);
    assert forall|n: Seq<u8>| r.contains(n) <==> #[trigger] m.dom().contains(n) by {
        if r.contains(n) {
            let i = r.index_of(n);
            assert(a[i + 1] == n);
            assert(a.contains(n));
            assert(bytes::before(a[0], a[i + 1]));
            bytes::lemma_before_asym(a[0], n);
        }
        if m.dom().contains(n) {
            assert(a.contains(n));
            let i = a.index_of(n);
            assert(i > 0);
            assert(r[i - 1] == n);
        }
    }
    assert forall|i: int, j: int| 0 <= i < j < r.len() implies bytes::before(
        #[trigger] r[i],
        #[trigger] r[j],
    ) by {
        assert(bytes::before(a[i + 1], a[j + 1]));
    }
}

/// If no name is given, every file of a directory is fetched, in the order of the
/// list, into the target directory under its own name.
pub proof fn law_get_all(dir: Seq<u8>, list: Seq<(Name, FileData)>, dst: Seq<u8>)
    ensures
        ({
            let steps = get_steps(dir, list, None, dst);
            &&& steps.len() == list.len()
            &&& forall|i: int|
                0 <= i < list.len() ==> {
                    let x = #[trigger] steps[i];
                    &&& x.name == list[i].0@ && x.data == list[i].1@
                    &&& x.source == path::joined(dir, list[i].0@)
                    &&& x.target == path::joined(dst, list[i].0@)
                    &&& x.temp_dir == dst
                }
        }),
    decreases list.len(),
{
    if list.len() > 0 {
        law_get_all(dir, list.drop_last(), dst);
        let steps = get_steps(dir, list, None, dst);
        assert forall|i: int| 0 <= i < list.len() implies {
            let x = #[trigger] steps[i];
            &&& x.name == list[i].0@ && x.data == list[i].1@
            &&& x.source == path::joined(dir, list[i].0@)
            &&& x.target == path::joined(dst, list[i].0@)
            &&& x.temp_dir == dst
        } by {
            if i < list.len() - 1 {
                assert(steps[i] == get_steps(dir, list.drop_last(), None, dst)[i]);
                assert(list.drop_last()[i] == list[i]);
            }
        }
    }
}

/// If a name is given, the files of that name are fetched and no others, and each
/// becomes the target itself.
pub proof fn law_get_one(dir: Seq<u8>, list: Seq<(Name, FileData)>, name: Seq<u8>, dst: Seq<u8>)
    ensures
        ({
            let steps = get_steps(dir, list, Some(name), dst);
            &&& steps.len() == 0 <==> forall|i: int|
                0 <= i < list.len() ==> (#[trigger] list[i]).0@ != name
            &&& forall|i: int|
                0 <= i < steps.len() ==> {
                    let x = #[trigger] steps[i];
                    &&& x.name == name && x.target == dst && x.source == path::joined(dir, name)
                    &&& exists|j: int|
                        0 <= j < list.len() && (#[trigger] list[j]).0@ == name && list[j].1@ == x.data
                    &&& path::parent_of(dst) matches Some(parent) ==> x.temp_dir == parent
                }
        }),
    decreases list.len(),
{
    if list.len() > 0 {
        let rest = list.drop_last();
        law_get_one(dir, rest, name, dst);
        let steps = get_steps(dir, list, Some(name), dst);
        let before = get_steps(dir, rest, Some(name), dst);
        assert(list.last() == list[list.len() - 1]);
        assert(forall|i: int| 0 <= i < rest.len() ==> rest[i] == list[i]);
        assert forall|i: int| 0 <= i < steps.len() implies {
            let x = #[trigger] steps[i];
            &&& x.name == name && x.target == dst && x.source == path::joined(dir, name)
            &&& exists|j: int|
                0 <= j < list.len() && (#[trigger] list[j]).0@ == name && list[j].1@ == x.data
            &&& path::parent_of(dst) matches Some(parent) ==> x.temp_dir == parent
        } by {
            let x = steps[i];
            if i < before.len() {
                assert(x == before[i]);
                let j = choose|j: int|
                    0 <= j < rest.len() && (#[trigger] rest[j]).0@ == name && rest[j].1@ == x.data;
                assert(list[j].0@ == name && list[j].1@ == x.data);
            } else {
                let j = list.len() - 1;
                assert(list[j].0@ == name && list[j].1@ == x.data);
            }
        }
        if forall|i: int| 0 <= i < list.len() ==> (#[trigger] list[i]).0@ != name {
            assert forall|i: int| 0 <= i < rest.len() implies (#[trigger] rest[i]).0@ != name by {
                assert(list[i].0@ != name);
            }
        } else {
            let k = choose|k: int| 0 <= k < list.len() && (#[trigger] list[k]).0@ == name;
            if k < rest.len() {
                assert(rest[k].0@ == name);
            }
        }
    }
}

/// The logical root and the physical root are not removed, however they are
/// written; all else is.
pub proof fn law_root_refusal(p: Seq<u8>)
    ensures
        root_refusal(p) is None <==> path::components(p).len() > 0,
        p.len() > 0 && (forall|i: int| 0 <= i < p.len() ==> p[i] == path::SEPARATOR)
            ==> root_refusal(p) is Some,
{
    path::lemma_relative_components(p);
    if p.len() == 0 {
        assert(path::components(p).len() == 0);
    }
    if forall|i: int| 0 <= i < p.len() ==> p[i] == path::SEPARATOR {
        lemma_separators(p, 0);
    }
}

proof fn lemma_separators(p: Seq<u8>, i: int)
    requires
        0 <= i <= p.len(),
        forall|j: int| 0 <= j < p.len() ==> p[j] == path::SEPARATOR,
    ensures
        path::spans(p, i).len() == 0,
    decreases p.len() - i,
{
    if i < p.len() {
        lemma_separators(p, i + 1);
    }
}

/// The way along names is shown step by step: from a directory that is shown, each
/// name is shown behind the one before.
pub proof fn law_shown_along(start: Seq<u8>, a: Seq<Seq<u8>>, b: Seq<Seq<u8>>, name: Seq<u8>)
    ensures
        shown_along(start, a + b) == shown_along(shown_along(start, a), b),
        shown_along(start, seq![name]) == replica::shown_in(start, name),
    decreases b.len(),
{
    let one = seq![name];
    assert(one.drop_last() =~= Seq::empty());
    assert(shown_along(start, one.drop_last()) == start);
    if b.len() == 0 {
        assert(a + b =~= a);
    } else {
        law_shown_along(start, a, b.drop_last(), name);
        assert((a + b).drop_last() =~= a + b.drop_last());
        assert((a + b).last() == b.last());
    }
}

/// What is fetched becomes what it is on the server: a file of the same type, with
/// the same mode, modification time or target. What is there is replaced only with
/// leave, and no leave is refused where nothing is there.
pub proof fn law_fetching(data: FileModel, exists: bool, allow: bool)
    ensures
        match fetching(data, exists, allow) {
            Some(ActionModel::Write(mode, time, overwrite)) => data is Regular && data.mode()
                == Some(mode) && data->Regular_2 == time && (overwrite ==> allow) && (allow
                ==> overwrite),
            Some(ActionModel::Descend(mode)) => data == FileModel::Directory(mode),
            Some(ActionModel::Link(to, replace)) => data == FileModel::Symlink(to) && (replace
                ==> allow) && (replace <==> exists),
            Some(ActionModel::Ignore) => data is Special,
            None => data is Symlink && exists && !allow,
        },
        fetching(data, false, allow) is Some,
        fetching(data, exists, true) is Some,
{
}

/// What is put into a directory keeps its name there. What is not, or has no name,
/// takes the name that is given for it.
pub proof fn law_fetched_to(src: Seq<u8>, dst: Seq<u8>, dst_is_dir: bool)
    ensures
        !dst_is_dir ==> fetched_to(src, dst, dst_is_dir) == dst,
        path::file_name_of(src) is None ==> fetched_to(src, dst, dst_is_dir) == dst,
        dst_is_dir ==> (path::file_name_of(src) matches Some(n) ==> {
            let p = fetched_to(src, dst, dst_is_dir);
            &&& path::components(p) == path::components(dst).push(n)
            &&& path::file_name_of(p) == Some(n)
            &&& path::absolute(p) == path::absolute(dst)
        }),
{
    if let Some(n) = path::file_name_of(src) {
        path::lemma_file_name_plain(src);
        path::law_joined_name(dst, n);
    }
}

/// A local file is stored as one of the same type, with all that is known of it.
/// Only special files are not stored.
pub proof fn law_stored(local: LocalFile)
    ensures
        match stored(local) {
            None => local is Special,
            Some(FileModel::Directory(m)) => local == LocalFile::Directory(m),
            Some(FileModel::Regular(m, s, t, _)) => local == LocalFile::Regular(m, s, t),
            Some(FileModel::Symlink(target)) => local is Symlink && local->Symlink_0@ == target,
            Some(FileModel::Special) => false,
        },
{
}

/// A symbolic link is listed with all permissions, since those of what it leads to
/// count; a special file with none.
pub proof fn law_listed_permissions(name: Seq<u8>, target: Seq<u8>, human_readable: bool)
    ensures
        text::stands(
            ls_line(name, FileModel::Symlink(target), human_readable),
            1,
            "rwsrwsrwt"@,
        ),
        text::stands(ls_line(name, FileModel::Special, human_readable), 1, "---------"@),
{
    reveal_strlit("rwsrwsrwt");
    reveal_strlit("---------");
    let all: u32 = 0o7777;
    assert(all & 0o400 == 0o400 && all & 0o200 == 0o200 && all & 0o100 != 0 && all & 0o4000 != 0
        && all & 0o40 == 0o40 && all & 0o20 == 0o20 && all & 0o10 != 0 && all & 0o2000 != 0 && all
        & 0o4 == 0o4 && all & 0o2 == 0o2 && all & 0o1 != 0 && all & 0o1000 != 0) by (bit_vector)
        requires
            all == 0o7777,
    ;
    assert(permissions(all) =~= "rwsrwsrwt"@);
    let none: u32 = 0;
    assert(none & 0o400 == 0 && none & 0o200 == 0 && none & 0o100 == 0 && none & 0o4000 == 0 && none
        & 0o40 == 0 && none & 0o20 == 0 && none & 0o10 == 0 && none & 0o2000 == 0 && none & 0o4
        == 0 && none & 0o2 == 0 && none & 0o1 == 0 && none & 0o1000 == 0) by (bit_vector)
        requires
            none == 0,
    ;
    assert(permissions(none) =~= "---------"@);
    let t = ls_line(name, FileModel::Symlink(target), human_readable);
    let u = ls_line(name, FileModel::Special, human_readable);
    assert(t.subrange(1, 10) =~= permissions(all));
    assert(u.subrange(1, 10) =~= permissions(none));
}

/// What is said about a file names it, behind its directory where that is known.
pub proof fn law_manual_texts(dir: Seq<u8>, name: Seq<u8>, p: Seq<u8>)
    ensures
        ({
            let (d, n) = (text::utf8_lossy(dir), text::utf8_lossy(name));
            let t = path_text(dir, name);
            &&& text::stands(t, 0, d) && t[d.len() as int] == '/' && t.skip(1int + d.len()) == n
        }),
        text::stands(nameless_text(p), 1, text::utf8_lossy(p)),
        text::stands(not_overwriting_text(p), 17, text::utf8_lossy(p)),
{
    reveal_strlit("/");
    reveal_strlit("'");
    reveal_strlit("Not overwriting '");
    let (d, n) = (text::utf8_lossy(dir), text::utf8_lossy(name));
    let t = path_text(dir, name);
    assert(t.subrange(0, d.len() as int) =~= d);
    assert(t.skip(1int + d.len()) =~= n);
    let x = text::utf8_lossy(p);
    assert(nameless_text(p).subrange(1, 1int + x.len()) =~= x);
    assert(not_overwriting_text(p).subrange(17, 17int + x.len()) =~= x);
}

/// Where the way along names ends early, the first name that does not lead on is
/// named, behind the names before it.
pub proof fn law_stopped_text(start: Seq<u8>, names: Seq<Seq<u8>>, i: int, tail: bool)
    requires
        0 <= i < names.len(),
    ensures
        ({
            let t = stopped_text(start, names, i, tail);
            let place = path_text(shown_along(start, names.take(i)), names[i]);
            let at: int = if tail {
                6
            } else {
                17
            };
            &&& text::stands(t, at, place)
            &&& tail ==> t.skip(at + place.len()) == "' is not a directory"@
            &&& !tail ==> text::stands(t, 0, "Failed to enter '"@)
        }),
{
    reveal_strlit("Path '");
    reveal_strlit("' is not a directory");
    reveal_strlit("Failed to enter '");
    let t = stopped_text(start, names, i, tail);
    let place = path_text(shown_along(start, names.take(i)), names[i]);
    if tail {
        assert(t.subrange(6, 6int + place.len()) =~= place);
        assert(t.skip(6int + place.len()) =~= "' is not a directory"@);
    } else {
        assert(t.subrange(17, 17int + place.len()) =~= place);
        assert(t.subrange(0, 17) =~= "Failed to enter '"@);
    }
}

} // verus!
