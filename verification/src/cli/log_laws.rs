//! What can be told from the output about what has happened.

use vstd::arithmetic::power::pow;
use vstd::prelude::*;

use crate::defs::FileModel;
use crate::errors;
use crate::errors::Error;
use crate::log;
use crate::log::{LogLevel, LogModel, OperationModel, ReplicaSide};
use crate::path;
use crate::reconcile::compute::{
    Conflict, ConflictingEdit, Reconciliation, ReconciliationSide,
};
use crate::text;
use crate::text::stands;

use super::sync_log::{
    after_log, causes_text, conflict_text, conflict_word, contents_of, counters_text, edit_words,
    error_text, file_text, heard, human_text, info_of, item_line, itemised_text, level_colour,
    level_name, line_text, location_of, mode_text, noted, operation_name, operation_text,
    progressed, reconciliation_text, resolution_word, said, saying, scaled, side_column, side_of,
    side_word, size_text, spin_mark, spin_text, time_text, unit, ContentsModel, InfoModel,
    ReplicaSpinState, Saying, SpinState, SyncLogModel,
};

verus! {

/// Whether `t` is one line of the itemised output: eleven characters, a space, the
/// path that is shown, and the end of the line.
pub open spec fn is_item(t: Seq<char>, shown: Seq<char>) -> bool {
    &&& t.len() == 13 + shown.len()
    &&& t[11] == ' '
    &&& t.subrange(12, 12int + shown.len()) == shown
    &&& t.last() == '\n'
}

proof fn lemma_item(flags: Seq<char>, root: Seq<u8>, dir: Seq<u8>, name: Option<Seq<u8>>)
    requires
        flags.len() == 11,
    ensures
        is_item(item_line(flags, root, dir, name), path::shown(root, dir, name)),
        item_line(flags, root, dir, name).take(11) == flags,
        forall|i: int| 0 <= i < 11 ==> item_line(flags, root, dir, name)[i] == flags[i],
{
    reveal_strlit("\n");
    let shown = path::shown(root, dir, name);
    let t = item_line(flags, root, dir, name);
    assert(t.subrange(12, 12int + shown.len()) =~= shown);
    assert(t.take(11) =~= flags);
}

/// The letter that stands in a column is the one for a change, if there is one,
/// and a dot otherwise.
pub open spec fn column(c: char, change: bool, letter: char) -> bool {
    c == (if change {
        letter
    } else {
        '.'
    })
}

/// In the item for an update of a regular file by a regular file, each column
/// tells of one thing alone: the third of the content, the fourth of the size, the
/// fifth of the modification time and the sixth of the mode. The first tells where
/// the content goes, if it does.
pub proof fn law_itemised_regular(
    root: Seq<u8>,
    side: ReplicaSide,
    dir: Seq<u8>,
    name: Seq<u8>,
    old_fd: FileModel,
    new_fd: FileModel,
)
    requires
        side != ReplicaSide::Ancestor,
        old_fd is Regular,
        new_fd is Regular,
    ensures
        ({
            let t = itemised_text(root, LogModel::Update(side, dir, name, old_fd, new_fd));
            &&& is_item(t, path::shown(root, dir, Some(name)))
            &&& column(t[2], old_fd->Regular_3 != new_fd->Regular_3, 'c')
            &&& column(t[3], old_fd->Regular_1 != new_fd->Regular_1, 's')
            &&& column(t[4], old_fd->Regular_2 != new_fd->Regular_2, 't')
            &&& column(t[5], old_fd->Regular_0 != new_fd->Regular_0, 'p')
            &&& forall|i: int| 6 <= i < 11 ==> t[i] == '.'
            &&& t[1] == 'f'
            &&& t[0] == '.' <==> old_fd.matches_content(new_fd)
            &&& t[0] == '>' <==> !old_fd.matches_content(new_fd) && side == ReplicaSide::Client
            &&& t[0] == '<' <==> !old_fd.matches_content(new_fd) && side == ReplicaSide::Server
        }),
{
    let item = super::sync_log::update_item(side, old_fd, new_fd);
    lemma_item(item.flags(), root, dir, Some(name));
}

/// In the item for any other update, the third column tells whether there is
/// another content than before, and the sixth whether there can be another mode.
pub proof fn law_itemised_update(
    root: Seq<u8>,
    side: ReplicaSide,
    dir: Seq<u8>,
    name: Seq<u8>,
    old_fd: FileModel,
    new_fd: FileModel,
)
    requires
        side != ReplicaSide::Ancestor,
        !(old_fd is Regular && new_fd is Regular),
    ensures
        ({
            let t = itemised_text(root, LogModel::Update(side, dir, name, old_fd, new_fd));
            &&& is_item(t, path::shown(root, dir, Some(name)))
            &&& column(t[2], !(old_fd is Directory && new_fd is Directory), 'c')
            &&& column(t[5], !(old_fd is Symlink && new_fd is Symlink), 'p')
            &&& t[3] == '.' && t[4] == '.'
            &&& forall|i: int| 6 <= i < 11 ==> t[i] == '.'
            &&& t[1] == (match new_fd {
                FileModel::Regular(_, _, _, _) => 'f',
                FileModel::Directory(_) => 'd',
                FileModel::Symlink(_) => 'L',
                FileModel::Special => 'S',
            })
            &&& t[0] == '.' <==> old_fd is Directory && new_fd is Directory
            &&& t[0] == '>' <==> new_fd is Regular && side == ReplicaSide::Client
            &&& t[0] == '<' <==> new_fd is Regular && side == ReplicaSide::Server
            &&& t[0] == '.' || t[0] == '>' || t[0] == '<' || t[0] == 'c'
        }),
{
    let item = super::sync_log::update_item(side, old_fd, new_fd);
    lemma_item(item.flags(), root, dir, Some(name));
}

/// The item for something that is created has nothing but plus signs behind its
/// first two columns, which are those of an update to the same file from a file of
/// another type.
pub proof fn law_itemised_create(
    root: Seq<u8>,
    side: ReplicaSide,
    dir: Seq<u8>,
    name: Seq<u8>,
    fd: FileModel,
    other: FileModel,
)
    requires
        side != ReplicaSide::Ancestor,
        !fd.matches_content(other),
        fd is Directory ==> !(other is Directory),
    ensures
        ({
            let t = itemised_text(root, LogModel::Create(side, dir, name, fd));
            let u = itemised_text(root, LogModel::Update(side, dir, name, other, fd));
            &&& is_item(t, path::shown(root, dir, Some(name)))
            &&& t[0] == u[0] && t[1] == u[1]
            &&& forall|i: int| 2 <= i < 11 ==> t[i] == '+'
            &&& t.skip(11) == u.skip(11)
        }),
{
    let item = super::sync_log::create_item(side, fd);
    lemma_item(item.flags(), root, dir, Some(name));
    let other_item = super::sync_log::update_item(side, other, fd);
    lemma_item(other_item.flags(), root, dir, Some(name));
    let t = itemised_text(root, LogModel::Create(side, dir, name, fd));
    let u = itemised_text(root, LogModel::Update(side, dir, name, other, fd));
    assert(t.skip(11) =~= u.skip(11));
}

/// A renaming is itemised on two lines, the first for the old name and the second
/// for the new one. What is deleted is itemised as that.
pub proof fn law_itemised_names(
    root: Seq<u8>,
    side: ReplicaSide,
    dir: Seq<u8>,
    name: Seq<u8>,
    new_name: Seq<u8>,
    fd: FileModel,
)
    requires
        side != ReplicaSide::Ancestor,
    ensures
        ({
            let t = itemised_text(root, LogModel::Rename(side, dir, name, new_name));
            let l = 13 + path::shown(root, dir, Some(name)).len();
            &&& l < t.len()
            &&& is_item(t.take(l as int), path::shown(root, dir, Some(name)))
            &&& is_item(t.skip(l as int), path::shown(root, dir, Some(new_name)))
            &&& t.take(11) == "*renamefrom"@ && t.subrange(l as int, l as int + 11) == "*renameto  "@
        }),
        is_item(
            itemised_text(root, LogModel::Remove(side, dir, name, fd)),
            path::shown(root, dir, Some(name)),
        ),
        itemised_text(root, LogModel::Remove(side, dir, name, fd)).take(11) == "*delete    "@,
        is_item(itemised_text(root, LogModel::Rmdir(side, dir)), path::shown(root, dir, None)),
        itemised_text(root, LogModel::Rmdir(side, dir)).take(11) == "*delete    "@,
{
    reveal_strlit("*renamefrom");
    reveal_strlit("*renameto  ");
    reveal_strlit("*delete    ");
    lemma_item("*renamefrom"@, root, dir, Some(name));
    lemma_item("*renameto  "@, root, dir, Some(new_name));
    lemma_item("*delete    "@, root, dir, Some(name));
    lemma_item("*delete    "@, root, dir, None);
    let t = itemised_text(root, LogModel::Rename(side, dir, name, new_name));
    let l = (13 + path::shown(root, dir, Some(name)).len()) as int;
    let a = item_line("*renamefrom"@, root, dir, Some(name));
    let b = item_line("*renameto  "@, root, dir, Some(new_name));
    assert(t.take(l) =~= a);
    assert(t.skip(l) =~= b);
    assert(t.take(11) =~= a.take(11));
    assert(t.subrange(l, l + 11) =~= b.take(11));
}

/// Nothing is itemised exactly where nothing happens to a file of the client or
/// the server, or where it is itemised as what is done about it.
pub proof fn law_itemised_silent(root: Seq<u8>, what: LogModel)
    ensures
        itemised_text(root, what).len() == 0 <==> {
            ||| side_of(what) == Some(ReplicaSide::Ancestor)
            ||| what is SyncStarted || what is SyncFinished
            ||| what is RecursiveDelete || what is Error
            ||| what matches LogModel::Inspect(_, _, r, _) && (r is Use || r is Split)
        },
        what matches LogModel::Inspect(dir, name, r, c) ==> (!(r is Use || r is Split) ==> {
            let t = itemised_text(root, what);
            &&& is_item(t, path::shown(root, dir, Some(name)))
            &&& t[0] == '.' && t[1] == '?'
            &&& forall|i: int| 2 <= i < 11 ==> t[i] == ' '
        }),
{
    reveal_strlit("\n");
    if let LogModel::Inspect(dir, name, r, c) = what {
        lemma_item(super::sync_log::unchanged_item().flags(), root, dir, Some(name));
    }
}

/// A size is given in whole units, rounded down, in the smallest unit of which
/// there are at most ten thousand. Each unit is 1024 times the one before.
pub proof fn law_scaled(size: nat)
    ensures
        scaled(size).0 <= 10_000,
        scaled(size).0 * pow(1024, scaled(size).1) <= size,
        size < (scaled(size).0 + 1) * pow(1024, scaled(size).1),
        scaled(size).1 > 0 ==> 10_001 * pow(1024, (scaled(size).1 - 1) as nat) <= size,
    decreases size,
{
    reveal(pow);
    if size > 10_000 {
        let q = size / 1024;
        law_scaled(q);
        let (v, k) = scaled(q);
        let p = pow(1024, k);
        assert(pow(1024, (k + 1) as nat) == 1024 * p);
        assert(v * (1024 * p) <= size) by (nonlinear_arith)
            requires
                v * p <= q,
                1024 * q <= size,
        ;
        assert(size < (v + 1) * (1024 * p)) by (nonlinear_arith)
            requires
                q < (v + 1) * p,
                size < 1024 * q + 1024,
        ;
        if k > 0 {
            let o = pow(1024, (k - 1) as nat);
            assert(p == 1024 * o);
            assert(10_001 * (1024 * o) <= size) by (nonlinear_arith)
                requires
                    10_001 * o <= q,
                    1024 * q <= size,
            ;
        }
    }
}

/// The units are told apart, and a size is shown as the number of units and the
/// unit.
pub proof fn law_size_text(size: nat, i: nat, j: nat)
    ensures
        unit(i) == unit(j) && i < 7 && j < 7 ==> i == j,
        ({
            let d = text::digits(scaled(size).0, 10);
            let l = d.len() as int;
            &&& size_text(size).take(l) == d
            &&& text::number(size_text(size).take(l), 10) == scaled(size).0
            &&& size_text(size)[l] == ' '
            &&& size_text(size).skip(l + 1) == unit(scaled(size).1)
        }),
{
    reveal_strlit("bytes");
    reveal_strlit("kB");
    reveal_strlit("MB");
    reveal_strlit("GB");
    reveal_strlit("TB");
    reveal_strlit("PB");
    reveal_strlit("EB");
    reveal_strlit(" ");
    assert("kB"@[0] == 'k' && "MB"@[0] == 'M' && "GB"@[0] == 'G' && "TB"@[0] == 'T' && "PB"@[0]
        == 'P' && "EB"@[0] == 'E' && "bytes"@[0] == 'b');
    text::law_digits(scaled(size).0, 10);
    let d = text::digits(scaled(size).0, 10);
    let l = d.len() as int;
    assert(size_text(size).take(l) =~= d);
    assert(size_text(size).skip(l + 1) =~= unit(scaled(size).1));
}

/// A mode is shown in octal digits, of which there are at least four.
pub proof fn law_mode_shown(mode: u32)
    ensures
        ({
            let d = text::digits(mode as nat, 8);
            let t = mode_text(mode);
            &&& text::number(d, 8) == mode
            &&& t.len() >= 4 && t.skip(t.len() - d.len()) == d
            &&& forall|i: int| 0 <= i < t.len() - d.len() ==> t[i] == '0'
            &&& d.len() >= 4 ==> t == d
        }),
{
    text::law_digits(mode as nat, 8);
    text::law_padded(text::digits(mode as nat, 8), 4, '0');
}

/// What is shown of a file begins with its type; behind it are the mode of a file
/// that has one, the target of a symbolic link, and the size and the time of a
/// regular file.
pub proof fn law_file_text(fd: FileModel)
    ensures
        ({
            let t = file_text(fd);
            match fd {
                FileModel::Directory(mode) => {
                    &&& stands(t, 0, "directory"@)
                    &&& stands(t, 16, mode_text(mode))
                },
                FileModel::Regular(mode, size, mtime, _) => {
                    let m = mode_text(mode).len();
                    let s = size_text(size as nat).len();
                    &&& stands(t, 0, "regular file"@)
                    &&& stands(t, 19, mode_text(mode))
                    &&& stands(t, 26int + m, size_text(size as nat))
                    &&& stands(t, 37int + m + s, time_text(mtime))
                },
                FileModel::Symlink(target) => {
                    &&& stands(t, 0, "symlink"@)
                    &&& t.skip(11) == text::utf8_lossy(target)
                },
                FileModel::Special => t == "special file"@,
            }
        }),
{
    reveal_strlit("directory");
    reveal_strlit("directory (mode ");
    reveal_strlit("regular file");
    reveal_strlit("regular file (mode ");
    reveal_strlit(", size ");
    reveal_strlit(", modified ");
    reveal_strlit("symlink");
    reveal_strlit("symlink to ");
    reveal_strlit(")");
    let t = file_text(fd);
    match fd {
        FileModel::Directory(mode) => {
            assert(t.subrange(0, 9) =~= "directory"@);
            assert(t.subrange(16, 16int + mode_text(mode).len()) =~= mode_text(mode));
        },
        FileModel::Regular(mode, size, mtime, _) => {
            let m = mode_text(mode).len() as int;
            let s = size_text(size as nat).len() as int;
            assert(t.subrange(0, 12) =~= "regular file"@);
            assert(t.subrange(19, 19 + m) =~= mode_text(mode));
            assert(t.subrange(26 + m, 26 + m + s) =~= size_text(size as nat));
            assert(t.subrange(37 + m + s, 37 + m + s + time_text(mtime).len()) =~= time_text(
                mtime,
            ));
        },
        FileModel::Symlink(target) => {
            assert(t.subrange(0, 7) =~= "symlink"@);
            assert(t.skip(11) =~= text::utf8_lossy(target));
        },
        _ => {},
    }
}

/// Each of the counters of a replica is either left alone or counts one thing.
/// What is created, updated or deleted counts as that, on its own side; nothing
/// else counts. Bytes count where content has to be transferred.
pub proof fn law_progress(spin: SpinState, what: LogModel)
    ensures
        ({
            let next = progressed(spin, what);
            let cli = side_of(what) == Some(ReplicaSide::Client);
            let srv = side_of(what) == Some(ReplicaSide::Server);
            &&& next.cycle == spin.cycle
            &&& counts(spin.cli, next.cli, cli, what)
            &&& counts(spin.srv, next.srv, srv, what)
        }),
{
}

/// Whether the counters of a replica tell of what has happened, if it happened
/// there.
pub open spec fn counts(
    before: ReplicaSpinState,
    after: ReplicaSpinState,
    here: bool,
    what: LogModel,
) -> bool {
    &&& advanced(before.created, after.created, if here && what is Create { 1 } else { 0 })
    &&& advanced(before.updated, after.updated, if here && what is Update { 1 } else { 0 })
    &&& advanced(before.deleted, after.deleted, if here && what is Remove { 1 } else { 0 })
    &&& match what {
        LogModel::Create(_, _, _, FileModel::Regular(_, size, _, _)) if here => advanced(
            before.transfer,
            after.transfer,
            size as int,
        ),
        LogModel::Update(_, _, _, FileModel::Regular(_, _, _, was), FileModel::Regular(
            _,
            size,
            _,
            is,
        )) if here => advanced(
            before.transfer,
            after.transfer,
            if was == is {
                0
            } else {
                size as int
            },
        ),
        LogModel::Update(_, _, _, old_fd, FileModel::Regular(_, size, _, _)) if here => advanced(
            before.transfer,
            after.transfer,
            size as int,
        ),
        _ => after.transfer == before.transfer,
    }
}

/// Whether a counter has gone on by `n`. Behind the last number comes zero.
pub open spec fn advanced(before: u64, after: u64, n: int) -> bool {
    after == before + n || after + 0x1_0000_0000_0000_0000 == before + n
}

/// Whether something has happened that is shown, either as such or by the
/// progress.
pub open spec fn stirs(st: SyncLogModel, level: LogLevel, what: LogModel, interrupted: bool) -> bool {
    what is Create || what is Update || what is Remove || said(st, level, what, interrupted) is Some
}

/// When the progress is shown, its mark turns by one place, and each of the four
/// marks is another one. Otherwise the progress stays as it is.
pub proof fn law_turns(st: SyncLogModel, level: LogLevel, what: LogModel, interrupted: bool)
    requires
        st.spin is Some,
        st.spin->0.cycle < 4,
    ensures
        ({
            let next = after_log(st, level, what, interrupted).spin;
            let before = st.spin->0;
            &&& next is Some && next->0.cycle < 4
            &&& stirs(st, level, what, interrupted) ==> {
                &&& next->0 == SpinState { cycle: next->0.cycle, ..progressed(before, what) }
                &&& next->0.cycle == before.cycle + 1 || (next->0.cycle == 0 && before.cycle == 3)
            }
            &&& !stirs(st, level, what, interrupted) ==> next->0 == before
        }),
        forall|a: u8, b: u8|
            a < 4 && b < 4 && a != b ==> #[trigger] spin_mark(a) != #[trigger] spin_mark(b),
{
}

/// The text that is written is the line, if something is said, and behind it the
/// progress, if it is shown at all and something has stirred.
pub proof fn law_human_text(st: SyncLogModel, level: LogLevel, what: LogModel, interrupted: bool)
    ensures
        ({
            let t = human_text(st, level, what, interrupted);
            let line = said(st, level, what, interrupted);
            let next = after_log(st, level, what, interrupted).spin;
            let l: int = if line is Some {
                line->0.len() as int
            } else {
                0
            };
            &&& line is Some ==> t.take(l) == line->0
            &&& st.spin is Some && stirs(st, level, what, interrupted) ==> t.skip(l) == spin_text(
                next->0,
            )
            &&& !(st.spin is Some && stirs(st, level, what, interrupted)) ==> t.len() == l
            &&& st.spin is None ==> next is None
        }),
{
    let t = human_text(st, level, what, interrupted);
    match said(st, level, what, interrupted) {
        Some(line) => {
            assert(t.take(line.len() as int) =~= line);
            let next = after_log(st, level, what, interrupted).spin;
            if st.spin is Some {
                assert(t.skip(line.len() as int) =~= spin_text(next->0));
            }
        },
        None => {
            let next = after_log(st, level, what, interrupted).spin;
            if st.spin is Some && stirs(st, level, what, interrupted) {
                assert(t.skip(0) =~= spin_text(next->0));
            }
        },
    }
}

/// What is not said: operations below a directory that is itself created or
/// deleted, unless everything is to be shown; and what is not to be heard. All
/// else is said.
pub proof fn law_unsaid(st: SyncLogModel, level: LogLevel, what: LogModel, interrupted: bool)
    ensures
        ({
            let next = noted(st, what);
            let line = said(st, level, what, interrupted);
            &&& what is SyncStarted || what is SyncFinished ==> line is None
            &&& what is Inspect || what is Update || what is Rename || what is Error ==> (line is None
                <==> !heard(st, level, side_of(what).unwrap_or(ReplicaSide::Client), interrupted))
            &&& st.deep && side_of(what) is Some ==> (line is None <==> !heard(
                st,
                level,
                side_of(what)->0,
                interrupted,
            ))
            &&& !st.deep ==> match what {
                LogModel::Create(side, dir, _, _) => line is None <==> next.created.contains(
                    path::normal(dir),
                ) || !heard(st, level, side, interrupted),
                LogModel::Remove(side, dir, _, _) => line is None <==> next.recdel.contains(
                    path::normal(dir),
                ) || !heard(st, level, side, interrupted),
                LogModel::Rmdir(side, dir) => line is None <==> next.recdel.contains(
                    path::normal(dir),
                ) || !heard(st, level, side, interrupted),
                LogModel::RecursiveDelete(side, dir) => line is None <==> (path::parent_of(dir)
                    is Some && next.recdel.contains(path::normal(path::parent_of(dir)->0)))
                    || !heard(st, level, side, interrupted),
                _ => true,
            }
        }),
{
}

/// Once a directory has been created, what is created in it goes without saying;
/// once one is deleted recursively, so does what is deleted in it, its own removal
/// included. That is so however the directory is written, and nothing that is said
/// of another directory changes by it.
pub proof fn law_goes_without_saying(
    st: SyncLogModel,
    side: ReplicaSide,
    dir: Seq<u8>,
    name: Seq<u8>,
    fd: FileModel,
    deleted: Seq<u8>,
    within: Seq<u8>,
    below: Seq<u8>,
    there: ReplicaSide,
    other: Seq<u8>,
    any: FileModel,
    what: LogModel,
)
    requires
        !st.deep,
        fd is Directory,
    ensures
        ({
            let created = noted(st, LogModel::Create(side, dir, name, fd));
            let recdel = noted(st, LogModel::RecursiveDelete(side, deleted));
            &&& path::same_path(within, path::joined(dir, name)) ==> saying(
                created,
                LogModel::Create(there, within, other, any),
            ) is None
            &&& path::same_path(within, deleted) ==> {
                &&& saying(recdel, LogModel::Remove(there, within, other, any)) is None
                &&& saying(recdel, LogModel::Rmdir(there, within)) is None
                &&& path::parent_of(below) == Some(within) ==> saying(
                    recdel,
                    LogModel::RecursiveDelete(there, below),
                ) is None
            }
            &&& !(what matches LogModel::Create(_, d, _, _) && path::same_path(
                d,
                path::joined(dir, name),
            )) ==> saying(created, what) == saying(st, what)
            &&& what is Create || what is Update || what is Rename || what is Error ==> saying(
                recdel,
                what,
            ) == saying(st, what)
        }),
{
    path::law_normal(within, path::joined(dir, name));
    path::law_normal(within, deleted);
    if let LogModel::Create(_, d, _, _) = what {
        path::law_normal(d, path::joined(dir, name));
    }
}

/// What happens is noted of directories alone, and nothing is forgotten.
pub proof fn law_noted(st: SyncLogModel, level: LogLevel, what: LogModel, interrupted: bool)
    ensures
        ({
            let next = after_log(st, level, what, interrupted);
            &&& next.root == st.root && next.deep == st.deep && next.ancestors == st.ancestors
                && next.colour == st.colour
            &&& st.created.subset_of(next.created) && st.recdel.subset_of(next.recdel)
            &&& next.created != st.created ==> what is Create && what->Create_3
                is Directory
            &&& next.recdel != st.recdel ==> what is RecursiveDelete
        }),
{
}

/// An error is heard from any replica, unless it is that the server is gone after
/// the program has been interrupted. From the client and the server everything
/// else is heard, too; from the ancestor store only if everything is to be.
pub proof fn law_heard(st: SyncLogModel, level: LogLevel, side: ReplicaSide, interrupted: bool)
    ensures
        side == ReplicaSide::Client ==> heard(st, level, side, interrupted),
        side == ReplicaSide::Server && !(interrupted && level == log::FATAL) ==> heard(
            st,
            level,
            side,
            interrupted,
        ),
        side == ReplicaSide::Server && interrupted && level == log::FATAL ==> !heard(
            st,
            level,
            side,
            interrupted,
        ),
        side == ReplicaSide::Ancestor && (st.ancestors || level == log::FATAL || level == log::ERROR)
            ==> heard(st, level, side, interrupted),
        side == ReplicaSide::Ancestor && !st.ancestors && level > log::ERROR ==> !heard(
            st,
            level,
            side,
            interrupted,
        ),
{
}

/// What is said is about the file that it happened to, on the side that it
/// happened on.
pub proof fn law_saying(st: SyncLogModel, what: LogModel)
    ensures
        saying(st, what) matches Some(x) ==> {
            &&& x.side == side_of(what).unwrap_or(ReplicaSide::Client)
            &&& match what {
                LogModel::Inspect(dir, name, r, c) => x.dir == dir && x.name == Some(name) && stands(
                    x.words,
                    0,
                    reconciliation_text(r),
                ) && x.words.skip(reconciliation_text(r).len() as int) == conflict_text(c),
                LogModel::Create(_, dir, name, fd) => x.dir == dir && x.name == Some(name) && stands(
                    x.words,
                    0,
                    "create"@,
                ) && x.words.skip(17) == file_text(fd),
                LogModel::Update(_, dir, name, old_fd, new_fd) => x.dir == dir && x.name == Some(
                    name,
                ) && stands(x.words, 0, "update"@) && stands(x.words, 17, file_text(old_fd))
                    && x.words.skip(28int + file_text(old_fd).len()) == file_text(new_fd),
                LogModel::Rename(_, dir, name, new_name) => x.dir == dir && x.name == Some(name)
                    && stands(x.words, 0, "rename"@) && x.words.skip(18) == text::utf8_lossy(
                    new_name,
                ),
                LogModel::Remove(_, dir, name, fd) => x.dir == dir && x.name == Some(name) && stands(
                    x.words,
                    0,
                    "delete"@,
                ) && x.words.skip(17) == file_text(fd),
                LogModel::RecursiveDelete(_, dir) => x.dir == dir && x.name is None && x.words
                    == "delete recursively"@,
                LogModel::Rmdir(_, dir) => x.dir == dir && x.name is None && x.words
                    == "remove directory"@,
                LogModel::Error(_, dir, op, _) => x.dir == dir && x.name == operation_name(op)
                    && stands(x.words, 0, operation_text(op)),
                _ => false,
            }
        },
{
    reveal_strlit("create");
    reveal_strlit("update");
    reveal_strlit("rename");
    reveal_strlit("delete");
    reveal_strlit("create\n        + ");
    reveal_strlit("update\n        - ");
    reveal_strlit("delete\n        - ");
    reveal_strlit("\n        + ");
    reveal_strlit("rename\n        -> ");
    if let Some(x) = saying(st, what) {
        let w = x.words;
        match what {
            LogModel::Inspect(_, _, r, c) => {
                let l = reconciliation_text(r).len() as int;
                assert(w.subrange(0, l) =~= reconciliation_text(r));
                assert(w.skip(l) =~= conflict_text(c));
            },
            LogModel::Create(_, _, _, fd) => {
                assert(w.subrange(0, 6) =~= "create"@);
                assert(w.skip(17) =~= file_text(fd));
            },
            LogModel::Update(_, _, _, old_fd, new_fd) => {
                let l = file_text(old_fd).len() as int;
                assert(w.subrange(0, 6) =~= "update"@);
                assert(w.subrange(17, 17 + l) =~= file_text(old_fd));
                assert(w.skip(28 + l) =~= file_text(new_fd));
            },
            LogModel::Rename(_, _, _, new_name) => {
                assert(w.subrange(0, 6) =~= "rename"@);
                assert(w.skip(18) =~= text::utf8_lossy(new_name));
            },
            LogModel::Remove(_, _, _, fd) => {
                assert(w.subrange(0, 6) =~= "delete"@);
                assert(w.skip(17) =~= file_text(fd));
            },
            LogModel::Error(_, _, op, _) => {
                assert(w.subrange(0, operation_text(op).len() as int) =~= operation_text(op));
            },
            _ => {},
        }
    }
}

/// A line without colours has the level in the same five columns and the side in
/// the same six, then the path that is shown, then what is said.
pub proof fn law_line(st: SyncLogModel, level: LogLevel, x: Saying)
    requires
        !st.colour,
    ensures
        ({
            let t = line_text(st, level, x);
            let shown = path::shown(st.root, x.dir, x.name);
            &&& stands(t, 4, level_name(level)) && stands(t, 11, side_column(x.side))
            &&& stands(t, 18, shown)
            &&& stands(t, 20int + shown.len(), x.words)
            &&& t.len() == 21 + shown.len() + x.words.len() && t.last() == '\n'
        }),
{
    lemma_columns(level, x.side);
    reveal_strlit("\x1B[K[");
    reveal_strlit("] ");
    reveal_strlit(" ");
    reveal_strlit(": ");
    reveal_strlit("\n");
    let t = line_text(st, level, x);
    let shown = path::shown(st.root, x.dir, x.name);
    let l = shown.len() as int;
    assert(t.subrange(4, 9) =~= level_name(level));
    assert(t.subrange(11, 17) =~= side_column(x.side));
    assert(t.subrange(18, 18 + l) =~= shown);
    assert(t.subrange(20 + l, 20 + l + x.words.len()) =~= x.words);
}

/// The columns are as wide as each other.
proof fn lemma_columns(level: LogLevel, side: ReplicaSide)
    ensures
        level_name(level).len() == 5,
        side_column(side).len() == 6,
{
    reveal_strlit("FATAL");
    reveal_strlit("ERROR");
    reveal_strlit("WARN ");
    reveal_strlit("EDIT ");
    reveal_strlit("INFO ");
    reveal_strlit("?????");
    reveal_strlit("local ");
    reveal_strlit("remote");
    reveal_strlit("ancest");
}

/// Levels are told apart by their names, and those above information by their
/// colours; sides are told apart by their columns and by their words.
pub proof fn law_told_apart(a: LogLevel, b: LogLevel, x: ReplicaSide, y: ReplicaSide)
    requires
        1 <= a <= 5,
        1 <= b <= 5,
    ensures
        level_name(a) == level_name(b) <==> a == b,
        level_colour(a) == level_colour(b) <==> a == b,
        level_colour(a).len() == 0 <==> a == log::INFO,
        side_column(x) == side_column(y) <==> x == y,
        side_word(x) == side_word(y) <==> x == y,
        level_name(a).len() == 5,
        side_column(x).len() == 6,
        x != ReplicaSide::Client ==> side_column(x) == side_word(x).take(6),
{
    lemma_columns(a, x);
    reveal_strlit("FATAL");
    reveal_strlit("ERROR");
    reveal_strlit("WARN ");
    reveal_strlit("EDIT ");
    reveal_strlit("INFO ");
    reveal_strlit("local ");
    reveal_strlit("remote");
    reveal_strlit("ancest");
    reveal_strlit("local");
    reveal_strlit("ancestor");
    reveal_strlit("\x1B[1;31m");
    reveal_strlit("\x1B[31m");
    reveal_strlit("\x1B[33m");
    reveal_strlit("\x1B[36m");
    assert("FATAL"@[0] == 'F' && "ERROR"@[1] == 'R' && "WARN "@[0] == 'W' && "EDIT "@[1] == 'D'
        && "INFO "@[0] == 'I' && "FATAL"@[1] == 'A' && "ERROR"@[0] == 'E' && "EDIT "@[0] == 'E');
    assert("\x1B[1;31m"@.len() == 7 && "\x1B[31m"@.len() == 5 && "\x1B[33m"@.len() == 5
        && "\x1B[36m"@.len() == 5);
    assert(level_colour(1) == "\x1B[1;31m"@ && level_colour(2) == "\x1B[31m"@ && level_colour(3)
        == "\x1B[33m"@ && level_colour(4) == "\x1B[36m"@ && level_colour(5).len() == 0);
    assert("\x1B[31m"@[3] == '1' && "\x1B[33m"@[3] == '3' && "\x1B[36m"@[3] == '6');
    assert("local "@[0] == 'l' && "remote"@[0] == 'r' && "ancest"@[0] == 'a' && "ancestor"@[0]
        == 'a' && "local"@[0] == 'l');
    assert("remote"@.take(6) =~= "remote"@);
    assert("ancestor"@.take(6) =~= "ancest"@);
}

/// A conflict is told in words exactly if there is one. Which side deleted, and
/// what was edited on each side, is told apart.
pub proof fn law_conflict_text(c: Conflict, side: ReconciliationSide)
    ensures
        conflict_text(c).len() == 0 <==> c is NoConflict,
        stands(
            conflict_text(Conflict::EditDelete(side)),
            31,
            side_word(side.replica()),
        ),
        stands(
            conflict_text(Conflict::EditDelete(side)),
            49int + side_word(side.replica()).len(),
            side_word(side.other().replica()),
        ),
        c matches Conflict::EditEdit(client, server) ==> {
            let t = conflict_text(c);
            let l = edit_words(client).len();
            &&& stands(t, 20, edit_words(client)) && stands(t, 20int + l, " changed locally, "@)
            &&& stands(t, 38int + l, edit_words(server))
            &&& stands(t, 38int + l + edit_words(server).len(), " changed remotely)"@)
        },
        edit_words(ConflictingEdit::Mode) != edit_words(ConflictingEdit::Content),
{
    reveal_strlit("\n        (conflict: deleted on ");
    reveal_strlit(" side, changed on ");
    reveal_strlit(" side)");
    reveal_strlit("\n        (conflict: ");
    reveal_strlit(" changed locally, ");
    reveal_strlit(" changed remotely)");
    reveal_strlit("file mode");
    reveal_strlit("content");
    assert("file mode"@.len() != "content"@.len());
    let d = conflict_text(Conflict::EditDelete(side));
    let a = side_word(side.replica());
    let b = side_word(side.other().replica());
    assert(d.subrange(31, 31int + a.len()) =~= a);
    assert(d.subrange(49int + a.len(), 49int + a.len() + b.len()) =~= b);
    if let Conflict::EditEdit(client, server) = c {
        let t = conflict_text(c);
        let (x, y) = (edit_words(client), edit_words(server));
        let l = x.len() as int;
        assert(t.subrange(20, 20 + l) =~= x);
        assert(t.subrange(20 + l, 38 + l) =~= " changed locally, "@);
        assert(t.subrange(38 + l, 38 + l + y.len()) =~= y);
        assert(t.subrange(38 + l + y.len(), 56 + l + y.len()) =~= " changed remotely)"@);
    }
}

/// The words for how a conflict is resolved tell each way from any other, and the
/// side that it is about.
pub proof fn law_reconciliation_text(r: Reconciliation, q: Reconciliation)
    ensures
        r matches Reconciliation::Use(side) ==> stands(
            reconciliation_text(r),
            6,
            side_word(side.replica()),
        ),
        r matches Reconciliation::Split(side, _) ==> reconciliation_text(r).skip(17) == side_word(
            side.replica(),
        ),
        reconciliation_text(r)[0] == reconciliation_text(q)[0] && reconciliation_text(r)[1]
            == reconciliation_text(q)[1] <==> match (r, q) {
            (Reconciliation::Use(_), Reconciliation::Use(_)) => true,
            (Reconciliation::Split(_, _), Reconciliation::Split(_, _)) => true,
            _ => r == q,
        },
{
    reveal_strlit("in sync");
    reveal_strlit("out of sync, not changing");
    reveal_strlit("irreconcilable");
    reveal_strlit("using ");
    reveal_strlit(" version");
    reveal_strlit("renaming file on ");
    match r {
        Reconciliation::Use(side) => {
            let w = side_word(side.replica());
            assert(reconciliation_text(r).subrange(6, 6int + w.len()) =~= w);
        },
        Reconciliation::Split(side, _) => {
            assert(reconciliation_text(r).skip(17) =~= side_word(side.replica()));
        },
        _ => {},
    }
}

/// The words for a failed operation tell each from any other, but for the removal
/// of a file and that of a directory; all but listing, marking and removing
/// directories are about a name.
pub proof fn law_operation_text(op: OperationModel, other: OperationModel)
    ensures
        operation_name(op) is None <==> op is List || op is MarkClean || op is Rmdir,
        operation_name(op) matches Some(n) ==> op == OperationModel::Chdir(n) || op
            == OperationModel::Create(n) || op == OperationModel::Update(n) || op
            == OperationModel::Rename(n) || op == OperationModel::Remove(n) || op
            == OperationModel::Access(n),
        operation_text(op) == operation_text(other) <==> {
            ||| op is List && other is List
            ||| op is MarkClean && other is MarkClean
            ||| op is Chdir && other is Chdir
            ||| op is Create && other is Create
            ||| op is Update && other is Update
            ||| op is Rename && other is Rename
            ||| (op is Remove || op is Rmdir) && (other is Remove || other is Rmdir)
            ||| op is Access && other is Access
        },
{
    reveal_strlit("Failed to list directory: ");
    reveal_strlit("Failed to mark directory clean: ");
    reveal_strlit("Failed to enter directory: ");
    reveal_strlit("Failed to create: ");
    reveal_strlit("Failed to update: ");
    reveal_strlit("Failed to rename: ");
    reveal_strlit("Failed to remove: ");
    reveal_strlit("Failed to access: ");
    assert("Failed to list directory: "@[10] == 'l' && "Failed to mark directory clean: "@[10]
        == 'm' && "Failed to enter directory: "@[10] == 'e' && "Failed to create: "@[10] == 'c'
        && "Failed to update: "@[10] == 'u' && "Failed to access: "@[10] == 'a');
    assert("Failed to rename: "@[10] == 'r' && "Failed to remove: "@[10] == 'r'
        && "Failed to rename: "@[12] == 'n' && "Failed to remove: "@[12] == 'm');
}

/// A status record says all of a file but the hash: two files of one type give the
/// same one exactly if they agree in all that is shown of them.
pub proof fn law_info(a: FileModel, b: FileModel)
    ensures
        info_of(a) == info_of(b) <==> match (a, b) {
            (FileModel::Directory(m), FileModel::Directory(n)) => m == n,
            (FileModel::Regular(m, s, t, _), FileModel::Regular(n, r, u, _)) => m == n && s == r && t
                == u,
            (FileModel::Symlink(p), FileModel::Symlink(q)) => text::utf8_lossy(p)
                == text::utf8_lossy(q),
            (FileModel::Special, FileModel::Special) => true,
            _ => false,
        },
        match info_of(a) {
            InfoModel::Directory(mode) => a == FileModel::Directory(mode),
            InfoModel::File(mode, size, time) => a is Regular && a->Regular_0 == mode
                && a->Regular_1 == size && a->Regular_2 == time,
            InfoModel::Symlink(t) => a is Symlink && text::utf8_lossy(a->Symlink_0) == t,
            InfoModel::Special => a is Special,
        },
{
}

/// A record is written of all that happens, but for files that are inspected and
/// found without a conflict, and those in sync. It names the side and the path,
/// and says what happened.
pub proof fn law_record(root: Seq<u8>, what: LogModel)
    ensures
        contents_of(root, what) is None <==> (what matches LogModel::Inspect(_, _, r, c) && (r
            is InSync || c is NoConflict)),
        what is SyncStarted <==> contents_of(root, what) == Some(ContentsModel::SyncStarted),
        what is SyncFinished <==> contents_of(root, what) == Some(ContentsModel::SyncFinished),
        what is Create <==> contents_of(root, what) == Some(ContentsModel::SyncCreate),
        what is Remove <==> contents_of(root, what) == Some(ContentsModel::SyncRemove),
        what is RecursiveDelete <==> contents_of(root, what) == Some(
            ContentsModel::SyncRemoveRecursively,
        ),
        what is Rmdir <==> contents_of(root, what) == Some(ContentsModel::SyncRemoveDirectory),
        what matches LogModel::Update(_, _, _, old_fd, new_fd) ==> contents_of(root, what) == Some(
            ContentsModel::SyncUpdate(info_of(old_fd), info_of(new_fd)),
        ),
        what matches LogModel::Rename(_, dir, _, new_name) ==> contents_of(root, what) == Some(
            ContentsModel::SyncRename(path::shown(root, dir, Some(new_name))),
        ),
        what is Error ==> contents_of(root, what)->0 is SyncError,
        location_of(root, what) is None <==> what is SyncStarted || what is SyncFinished,
        location_of(root, what) matches Some(l) ==> {
            &&& l.side == match side_of(what) {
                Some(side) => Some(side_word(side)),
                None => None,
            }
            &&& what matches LogModel::Create(_, _, _, fd) ==> l.info == Some(info_of(fd))
            &&& what matches LogModel::Remove(_, _, _, fd) ==> l.info == Some(info_of(fd))
            &&& !(what is Create || what is Remove) ==> l.info is None
        },
{
}

/// The path in a record is the one that is itemised, and the one that is spoken of
/// on the terminal.
pub proof fn law_same_place(st: SyncLogModel, what: LogModel)
    ensures
        location_of(st.root, what) matches Some(l) ==> {
            &&& saying(st, what) matches Some(x) ==> l.path == path::shown(st.root, x.dir, x.name)
            &&& what is Create || what is Update || what is Remove || what is Rmdir
                ==> (itemised_text(st.root, what).len() > 0 ==> is_item(
                itemised_text(st.root, what),
                l.path,
            ))
        },
{
    match what {
        LogModel::Create(side, dir, name, fd) => {
            lemma_item(super::sync_log::create_item(side, fd).flags(), st.root, dir, Some(name));
        },
        LogModel::Update(side, dir, name, old_fd, new_fd) => {
            let item = super::sync_log::update_item(side, old_fd, new_fd);
            lemma_item(item.flags(), st.root, dir, Some(name));
        },
        LogModel::Remove(side, dir, name, _) => {
            reveal_strlit("*delete    ");
            lemma_item("*delete    "@, st.root, dir, Some(name));
        },
        LogModel::Rmdir(side, dir) => {
            reveal_strlit("*delete    ");
            lemma_item("*delete    "@, st.root, dir, None);
        },
        _ => {},
    }
}

/// The words of a record tell each kind of conflict, and each way to resolve one,
/// from any other. The word for a deletion names the sides in the order of what
/// was done there.
pub proof fn law_words(c: Conflict, d: Conflict, r: Reconciliation, q: Reconciliation)
    ensures
        conflict_word(c) is None <==> c is NoConflict,
        conflict_word(c) == conflict_word(d) <==> match (c, d) {
            (Conflict::EditEdit(_, _), Conflict::EditEdit(_, _)) => true,
            _ => c == d,
        },
        c matches Conflict::EditDelete(side) ==> conflict_word(c) == Some(
            "edit_"@ + side_word(side.other().replica()) + "_delete_"@ + side_word(side.replica()),
        ),
        resolution_word(r) is None <==> r is InSync,
        resolution_word(r) == resolution_word(q) <==> match (r, q) {
            (Reconciliation::Split(a, _), Reconciliation::Split(b, _)) => a == b,
            _ => r == q,
        },
        r matches Reconciliation::Use(side) ==> resolution_word(r) == Some(
            "use_"@ + side_word(side.replica()),
        ),
        r matches Reconciliation::Split(side, _) ==> resolution_word(r) == Some(
            "split_"@ + side_word(side.replica()),
        ),
{
    reveal_strlit("edit_edit");
    reveal_strlit("edit_remote_delete_local");
    reveal_strlit("edit_local_delete_remote");
    reveal_strlit("edit_");
    reveal_strlit("_delete_");
    reveal_strlit("local");
    reveal_strlit("remote");
    reveal_strlit("unsynced");
    reveal_strlit("irreconcilable");
    reveal_strlit("use_");
    reveal_strlit("use_local");
    reveal_strlit("use_remote");
    reveal_strlit("split_");
    reveal_strlit("split_local");
    reveal_strlit("split_remote");
    assert("edit_"@ + "remote"@ + "_delete_"@ + "local"@ =~= "edit_remote_delete_local"@);
    assert("edit_"@ + "local"@ + "_delete_"@ + "remote"@ =~= "edit_local_delete_remote"@);
    assert("use_"@ + "local"@ =~= "use_local"@);
    assert("use_"@ + "remote"@ =~= "use_remote"@);
    assert("split_"@ + "local"@ =~= "split_local"@);
    assert("split_"@ + "remote"@ =~= "split_remote"@);
    assert("edit_edit"@.len() == 9 && "edit_remote_delete_local"@.len() == 24);
    assert("edit_remote_delete_local"@[5] == 'r' && "edit_local_delete_remote"@[5] == 'l');
    assert("unsynced"@.len() == 8 && "irreconcilable"@.len() == 14 && "use_local"@.len() == 9
        && "use_remote"@.len() == 10 && "split_local"@.len() == 11 && "split_remote"@.len() == 12);
}

/// The progress shows the counters of the client as what comes in, and those of
/// the server as what goes out.
pub proof fn law_spin_text(spin: SpinState)
    ensures
        ({
            let t = spin_text(spin);
            let l = counters_text(spin.cli).len();
            &&& t.len() > 3 && t[3] == spin_mark(spin.cycle)
            &&& stands(t, 4, " in: "@) && stands(t, 9, counters_text(spin.cli))
            &&& stands(t, 9int + l, ", out: "@) && stands(t, 16int + l, counters_text(spin.srv))
            &&& t.last() == '\r'
        }),
{
    reveal_strlit("\x1B[K");
    reveal_strlit(" in: ");
    reveal_strlit(", out: ");
    reveal_strlit("\r");
    let t = spin_text(spin);
    let (a, b) = (counters_text(spin.cli), counters_text(spin.srv));
    let l = a.len() as int;
    assert(t.subrange(4, 9) =~= " in: "@);
    assert(t.subrange(9, 9 + l) =~= a);
    assert(t.subrange(9 + l, 16 + l) =~= ", out: "@);
    assert(t.subrange(16 + l, 16 + l + b.len()) =~= b);
}

/// The counters of a replica are shown as the numbers that they are, behind a plus
/// sign for what was created, an asterisk for what was updated and a minus sign
/// for what was deleted, with the bytes that were transferred at the end.
pub proof fn law_counters_text(r: ReplicaSpinState)
    ensures
        ({
            let t = counters_text(r);
            let created = text::digits(r.created as nat, 10);
            let updated = text::digits(r.updated as nat, 10);
            let deleted = text::digits(r.deleted as nat, 10);
            let (a, b, c) = (created.len(), updated.len(), deleted.len());
            &&& text::number(created, 10) == r.created && text::number(updated, 10) == r.updated
                && text::number(deleted, 10) == r.deleted
            &&& t[0] == '+' && stands(t, 1, created)
            &&& t[2int + a] == '*' && stands(t, 3int + a, updated)
            &&& t[4int + a + b] == '-' && stands(t, 5int + a + b, deleted)
            &&& t.skip(6int + a + b + c) == size_text(r.transfer as nat)
        }),
{
    reveal_strlit("+");
    reveal_strlit(" *");
    reveal_strlit(" -");
    reveal_strlit(" ");
    text::law_digits(r.created as nat, 10);
    text::law_digits(r.updated as nat, 10);
    text::law_digits(r.deleted as nat, 10);
    let t = counters_text(r);
    let created = text::digits(r.created as nat, 10);
    let updated = text::digits(r.updated as nat, 10);
    let deleted = text::digits(r.deleted as nat, 10);
    let (a, b, c) = (created.len() as int, updated.len() as int, deleted.len() as int);
    assert(t.subrange(1, 1 + a) =~= created);
    assert(t.subrange(3 + a, 3 + a + b) =~= updated);
    assert(t.subrange(5 + a + b, 5 + a + b + c) =~= deleted);
    assert(t.skip(6 + a + b + c) =~= size_text(r.transfer as nat));
}

/// The causes of an error are told one after the other, in their order, each in
/// full.
pub proof fn law_causes(a: Seq<String>, b: Seq<String>, cause: String)
    ensures
        causes_text(a + b) == causes_text(a) + causes_text(b),
        causes_text(seq![cause]).skip(12) == cause@,
        causes_text(seq![cause]).len() == 12 + cause@.len(),
    decreases b.len(),
{
    reveal_strlit("\ncaused by: ");
    assert(seq![cause].drop_last() =~= Seq::empty());
    assert(causes_text(seq![cause].drop_last()).len() == 0);
    assert(causes_text(seq![cause]).skip(12) =~= cause@);
    if b.len() == 0 {
        assert(a + b =~= a);
        assert(causes_text(a) + causes_text(b) =~= causes_text(a));
    } else {
        law_causes(a, b.drop_last(), cause);
        assert((a + b).drop_last() =~= a + b.drop_last());
        assert((a + b).last() == b.last());
        assert(causes_text(a + b) =~= causes_text(a) + causes_text(b));
    }
}

/// What is said of a failed operation is which one it was, then what went wrong,
/// then the causes, then the backtrace if there is one.
pub proof fn law_error_text(op: OperationModel, err: Error)
    ensures
        ({
            let t = error_text(op, err);
            let a = operation_text(op).len();
            let b = errors::kind_text(err.kind).len();
            let c = causes_text(err.causes@).len();
            &&& stands(t, 0, operation_text(op))
            &&& stands(t, a as int, errors::kind_text(err.kind))
            &&& stands(t, a as int + b, causes_text(err.causes@))
            &&& err.backtrace is None ==> t.len() == a + b + c
            &&& err.backtrace matches Some(bt) ==> stands(t, 1int + a + b + c, bt@)
        }),
{
    reveal_strlit("\n");
    let t = error_text(op, err);
    let (x, y, z) = (
        operation_text(op),
        errors::kind_text(err.kind),
        causes_text(err.causes@),
    );
    let (a, b, c) = (x.len() as int, y.len() as int, z.len() as int);
    assert(t.subrange(0, a) =~= x);
    assert(t.subrange(a, a + b) =~= y);
    assert(t.subrange(a + b, a + b + c) =~= z);
    if let Some(bt) = err.backtrace {
        assert(t.subrange(1 + a + b + c, 1 + a + b + c + bt@.len()) =~= bt@);
    }
}

/// A time is shown as a date if there is one for it, and in seconds otherwise, with
/// a sign where it is before the Epoch.
pub proof fn law_time_text(mtime: i64)
    ensures
        match super::format_date::timestamp_text(mtime) {
            Some(date) => time_text(mtime) == date,
            None => {
                &&& mtime >= 0 ==> time_text(mtime) == text::digits(mtime as nat, 10)
                &&& mtime < 0 ==> time_text(mtime)[0] == '-' && time_text(mtime).skip(1)
                    == text::digits((-mtime) as nat, 10)
            },
        },
{
    text::law_signed(mtime as int);
}

/// A line with colours says the same as one without. The level is in its colour, and
/// the path is bright.
pub proof fn law_coloured_line(st: SyncLogModel, level: LogLevel, x: Saying)
    requires
        st.colour,
    ensures
        ({
            let t = line_text(st, level, x);
            let shown = path::shown(st.root, x.dir, x.name);
            let c = level_colour(level).len();
            &&& stands(t, 4, level_colour(level)) && stands(t, 4int + c, level_name(level))
            &&& stands(t, 9int + c, "\x1B[0m"@) && stands(t, 15int + c, side_column(x.side))
            &&& stands(t, 22int + c, "\x1B[1m"@) && stands(t, 26int + c, shown)
            &&& stands(t, 26int + c + shown.len(), "\x1B[0m"@)
            &&& stands(t, 32int + c + shown.len(), x.words) && t.last() == '\n'
        }),
{
    lemma_columns(level, x.side);
    reveal_strlit("\x1B[K[");
    reveal_strlit("\x1B[0m");
    reveal_strlit("\x1B[1m");
    reveal_strlit("] ");
    reveal_strlit(" ");
    reveal_strlit(": ");
    reveal_strlit("\n");
    let t = line_text(st, level, x);
    let shown = path::shown(st.root, x.dir, x.name);
    let l = shown.len() as int;
    let c = level_colour(level).len() as int;
    assert(t.subrange(4, 4 + c) =~= level_colour(level));
    assert(t.subrange(4 + c, 9 + c) =~= level_name(level));
    assert(t.subrange(9 + c, 13 + c) =~= "\x1B[0m"@);
    assert(t.subrange(15 + c, 21 + c) =~= side_column(x.side));
    assert(t.subrange(22 + c, 26 + c) =~= "\x1B[1m"@);
    assert(t.subrange(26 + c, 26 + c + l) =~= shown);
    assert(t.subrange(26 + c + l, 30 + c + l) =~= "\x1B[0m"@);
    assert(t.subrange(32 + c + l, 32 + c + l + x.words.len()) =~= x.words);
}

} // verus!
