//! What is shown to the user while files are synchronised.

use vstd::prelude::*;

use crate::bytes::Name;
use crate::defs;
use crate::defs::{FileData, FileMode, FileModel};
use crate::errors;
use crate::errors::Error;
use crate::log;
use crate::log::{
    ErrorOperation, Log, LogLevel, LogModel, Logger, OperationModel, ReplicaSide,
};
use crate::path;
use crate::reconcile::compute::{
    Conflict, ConflictingEdit, Reconciliation, ReconciliationSide,
};
use crate::table::NameMap;
use crate::text;

use super::format_date;

verus! {

/// The word for a replica.
pub open spec fn side_word(side: ReplicaSide) -> Seq<char> {
    match side {
        ReplicaSide::Client => "local"@,
        ReplicaSide::Server => "remote"@,
        ReplicaSide::Ancestor => "ancestor"@,
    }
}

/// Returns the word for a replica.
pub fn name_side(side: ReplicaSide) -> (r: &'static str)
    ensures
        r@ == side_word(side),
{
    match side {
        ReplicaSide::Client => "local",
        ReplicaSide::Server => "remote",
        ReplicaSide::Ancestor => "ancestor",
    }
}

fn name_recon_side(side: ReconciliationSide) -> (r: &'static str)
    ensures
        r@ == side_word(side.replica()),
{
    name_side(ReplicaSide::from(side))
}

/// The words for what has been edited.
pub open spec fn edit_words(edit: ConflictingEdit) -> Seq<char> {
    match edit {
        ConflictingEdit::Mode => "file mode"@,
        ConflictingEdit::Content => "content"@,
    }
}

fn name_edit(edit: ConflictingEdit) -> (r: &'static str)
    ensures
        r@ == edit_words(edit),
{
    match edit {
        ConflictingEdit::Mode => "file mode",
        ConflictingEdit::Content => "content",
    }
}

/// What is said about a reconciliation.
pub open spec fn reconciliation_text(r: Reconciliation) -> Seq<char> {
    match r {
        Reconciliation::InSync => "in sync"@,
        Reconciliation::Unsync => "out of sync, not changing"@,
        Reconciliation::Irreconcilable => "irreconcilable"@,
        Reconciliation::Use(side) => "using "@ + side_word(side.replica()) + " version"@,
        Reconciliation::Split(side, _) => "renaming file on "@ + side_word(side.replica()),
    }
}

fn push_reconciliation(s: &mut String, r: Reconciliation)
    ensures
        final(s)@ == old(s)@ + reconciliation_text(r),
{
    let ghost start = s@;
    match r {
        Reconciliation::InSync => {
            s.append("in sync");
        },
        Reconciliation::Unsync => {
            s.append("out of sync, not changing");
        },
        Reconciliation::Irreconcilable => {
            s.append("irreconcilable");
        },
        Reconciliation::Use(side) => {
            s.append("using ");
            s.append(name_recon_side(side));
            s.append(" version");
        },
        Reconciliation::Split(side, _) => {
            s.append("renaming file on ");
            s.append(name_recon_side(side));
        },
    }
    assert(s@ =~= start + reconciliation_text(r));
}

/// What is said about a conflict.
pub open spec fn conflict_text(c: Conflict) -> Seq<char> {
    match c {
        Conflict::NoConflict => Seq::empty(),
        Conflict::EditDelete(side) => "\n        (conflict: deleted on "@ + side_word(
            side.replica(),
        ) + " side, changed on "@ + side_word(side.other().replica()) + " side)"@,
        Conflict::EditEdit(client, server) => "\n        (conflict: "@ + edit_words(client)
            + " changed locally, "@ + edit_words(server) + " changed remotely)"@,
    }
}

fn push_conflict(s: &mut String, c: Conflict)
    ensures
        final(s)@ == old(s)@ + conflict_text(c),
{
    let ghost start = s@;
    match c {
        Conflict::NoConflict => {},
        Conflict::EditDelete(side) => {
            s.append("\n        (conflict: deleted on ");
            s.append(name_recon_side(side));
            s.append(" side, changed on ");
            s.append(name_recon_side(side.rev()));
            s.append(" side)");
        },
        Conflict::EditEdit(client, server) => {
            s.append("\n        (conflict: ");
            s.append(name_edit(client));
            s.append(" changed locally, ");
            s.append(name_edit(server));
            s.append(" changed remotely)");
        },
    }
    assert(s@ =~= start + conflict_text(c));
}

/// A size in units of which there are at most ten thousand, and how many times
/// the unit has been raised.
pub open spec fn scaled(size: nat) -> (nat, nat)
    decreases size,
{
    if size > 10_000 {
        let x = scaled(size / 1024);
        (x.0, x.1 + 1)
    } else {
        (size, 0)
    }
}

/// The units that sizes are given in.
pub open spec fn unit(i: nat) -> Seq<char> {
    if i == 0 {
        "bytes"@
    } else if i == 1 {
        "kB"@
    } else if i == 2 {
        "MB"@
    } else if i == 3 {
        "GB"@
    } else if i == 4 {
        "TB"@
    } else if i == 5 {
        "PB"@
    } else {
        "EB"@
    }
}

/// A size as it is shown to the user.
pub open spec fn size_text(size: nat) -> Seq<char> {
    text::digits(scaled(size).0, 10) + " "@ + unit(scaled(size).1)
}

proof fn lemma_scaled(size: nat)
    ensures
        size <= 10_000 ==> scaled(size).1 == 0,
        size < 10_001 * 1024 ==> scaled(size).1 <= 1,
        size < 10_001 * 1024 * 1024 ==> scaled(size).1 <= 2,
        size < 10_001 * 1024 * 1024 * 1024 ==> scaled(size).1 <= 3,
        size < 10_001 * 1024 * 1024 * 1024 * 1024 ==> scaled(size).1 <= 4,
        size < 10_001 * 1024 * 1024 * 1024 * 1024 * 1024 ==> scaled(size).1 <= 5,
        size < 10_001 * 1024 * 1024 * 1024 * 1024 * 1024 * 1024 ==> scaled(size).1 <= 6,
        scaled(size).0 <= 10_000,
    decreases size,
{
    if size > 10_000 {
        lemma_scaled(size / 1024);
    }
}

/// Appends a size as it is shown to the user.
fn push_size(s: &mut String, size: u64)
    ensures
        final(s)@ == old(s)@ + size_text(size as nat),
{
    let ghost start = s@;
    let mut left: u64 = size;
    let mut raised: usize = 0;
    proof {
        lemma_scaled(size as nat);
    }
    while left > 10_000
        invariant
            scaled(size as nat).0 == scaled(left as nat).0,
            scaled(size as nat).1 == scaled(left as nat).1 + raised,
            scaled(size as nat).1 <= 6,
        decreases left,
    {
        left = left / 1024;
        raised += 1;
    }
    text::push_digits(s, left, 10);
    s.append(" ");
    if raised == 0 {
        s.append("bytes");
    } else if raised == 1 {
        s.append("kB");
    } else if raised == 2 {
        s.append("MB");
    } else if raised == 3 {
        s.append("GB");
    } else if raised == 4 {
        s.append("TB");
    } else if raised == 5 {
        s.append("PB");
    } else {
        s.append("EB");
    }
    assert(s@ =~= start + size_text(size as nat));
}

/// A mode as it is shown to the user.
pub open spec fn mode_text(mode: FileMode) -> Seq<char> {
    text::padded(text::digits(mode as nat, 8), 4, '0')
}

/// A modification time as it is shown to the user: as a date if there is one.
pub open spec fn time_text(mtime: i64) -> Seq<char> {
    match format_date::timestamp_text(mtime) {
        Some(s) => s,
        None => text::signed_digits(mtime as int),
    }
}

/// A file as it is shown to the user.
pub open spec fn file_text(fd: FileModel) -> Seq<char> {
    match fd {
        FileModel::Directory(mode) => "directory (mode "@ + mode_text(mode) + ")"@,
        FileModel::Regular(mode, size, mtime, _) => "regular file (mode "@ + mode_text(mode)
            + ", size "@ + size_text(size as nat) + ", modified "@ + time_text(mtime) + ")"@,
        FileModel::Symlink(target) => "symlink to "@ + text::utf8_lossy(target),
        FileModel::Special => "special file"@,
    }
}

/// Appends a file as it is shown to the user.
fn push_file(s: &mut String, fd: &FileData)
    ensures
        final(s)@ == old(s)@ + file_text(fd@),
{
    let ghost start = s@;
    match fd {
        FileData::Directory(mode) => {
            s.append("directory (mode ");
            text::push_padded_digits(s, *mode as u64, 8, 4, '0');
            s.append(")");
        },
        FileData::Regular(mode, size, mtime, _) => {
            s.append("regular file (mode ");
            text::push_padded_digits(s, *mode as u64, 8, 4, '0');
            s.append(", size ");
            push_size(s, *size);
            s.append(", modified ");
            match format_date::format_timestamp(*mtime) {
                Some(date) => {
                    s.append(date.as_str());
                },
                None => {
                    text::push_signed(s, *mtime);
                },
            }
            s.append(")");
        },
        FileData::Symlink(target) => {
            s.append("symlink to ");
            s.append(text::from_utf8_lossy(target.as_slice()).as_str());
        },
        FileData::Special => {
            s.append("special file");
        },
    }
    assert(s@ =~= start + file_text(fd@));
}

/// The name that a failed operation was about, if any.
pub open spec fn operation_name(op: OperationModel) -> Option<Seq<u8>> {
    match op {
        OperationModel::List => None,
        OperationModel::MarkClean => None,
        OperationModel::Chdir(name) => Some(name),
        OperationModel::Create(name) => Some(name),
        OperationModel::Update(name) => Some(name),
        OperationModel::Rename(name) => Some(name),
        OperationModel::Remove(name) => Some(name),
        OperationModel::Rmdir => None,
        OperationModel::Access(name) => Some(name),
    }
}

/// Gets the basename of the path of the given `ErrorOperation`, if any.
pub fn get_error_basename<'a>(op: &ErrorOperation<'a>) -> (r: Option<&'a [u8]>)
    ensures
        match r {
            Some(n) => operation_name(op@) == Some(n@),
            None => operation_name(op@) is None,
        },
{
    match *op {
        ErrorOperation::List => None,
        ErrorOperation::MarkClean => None,
        ErrorOperation::Chdir(name) => Some(name),
        ErrorOperation::Create(name) => Some(name),
        ErrorOperation::Update(name) => Some(name),
        ErrorOperation::Rename(name) => Some(name),
        ErrorOperation::Remove(name) => Some(name),
        ErrorOperation::Rmdir => None,
        ErrorOperation::Access(name) => Some(name),
    }
}

/// What is said of a failed operation before the error itself.
pub open spec fn operation_text(op: OperationModel) -> Seq<char> {
    match op {
        OperationModel::List => "Failed to list directory: "@,
        OperationModel::MarkClean => "Failed to mark directory clean: "@,
        OperationModel::Chdir(_) => "Failed to enter directory: "@,
        OperationModel::Create(_) => "Failed to create: "@,
        OperationModel::Update(_) => "Failed to update: "@,
        OperationModel::Rename(_) => "Failed to rename: "@,
        OperationModel::Remove(_) => "Failed to remove: "@,
        OperationModel::Rmdir => "Failed to remove: "@,
        OperationModel::Access(_) => "Failed to access: "@,
    }
}

/// The causes of an error, each on a line of its own.
pub open spec fn causes_text(causes: Seq<String>) -> Seq<char>
    decreases causes.len(),
{
    if causes.len() == 0 {
        Seq::empty()
    } else {
        causes_text(causes.drop_last()) + "\ncaused by: "@ + causes.last()@
    }
}

/// What is said of a failed operation.
pub open spec fn error_text(op: OperationModel, err: Error) -> Seq<char> {
    operation_text(op) + errors::kind_text(err.kind) + causes_text(err.causes@) + match err.backtrace {
        Some(bt) => "\n"@ + bt@ + "\n"@,
        None => Seq::empty(),
    }
}

/// Format the given `ErrorOperation` into a human-readable error message.
pub fn format_error_log(op: &ErrorOperation, err: &Error) -> (r: String)
    ensures
        r@ == error_text(op@, *err),
{
    let mut s: String = String::new();
    match op {
        ErrorOperation::List => {
            s.append("Failed to list directory: ");
        },
        ErrorOperation::MarkClean => {
            s.append("Failed to mark directory clean: ");
        },
        ErrorOperation::Chdir(_) => {
            s.append("Failed to enter directory: ");
        },
        ErrorOperation::Create(_) => {
            s.append("Failed to create: ");
        },
        ErrorOperation::Update(_) => {
            s.append("Failed to update: ");
        },
        ErrorOperation::Rename(_) => {
            s.append("Failed to rename: ");
        },
        ErrorOperation::Remove(_) => {
            s.append("Failed to remove: ");
        },
        ErrorOperation::Rmdir => {
            s.append("Failed to remove: ");
        },
        ErrorOperation::Access(_) => {
            s.append("Failed to access: ");
        },
    }
    s.append(err.kind.message().as_str());
    let ghost start = s@;
    proof {
        assert(start =~= operation_text(op@) + errors::kind_text(err.kind));
        assert(err.causes@.take(0) =~= Seq::empty());
        assert(start + causes_text(Seq::empty()) =~= start);
    }
    let mut i: usize = 0;
    while i < err.causes.len()
        invariant
            i <= err.causes@.len(),
            s@ == start + causes_text(err.causes@.take(i as int)),
        decreases err.causes@.len() - i,
    {
        s.append("\ncaused by: ");
        s.append(err.causes[i].as_str());
        proof {
            let c = err.causes@.take(i + 1);
            assert(c.drop_last() =~= err.causes@.take(i as int));
            assert(s@ =~= start + causes_text(c));
        }
        i += 1;
    }
    proof {
        assert(err.causes@.take(i as int) =~= err.causes@);
    }
    match &err.backtrace {
        Some(bt) => {
            s.append("\n");
            s.append(bt.as_str());
            s.append("\n");
        },
        None => {},
    }
    assert(s@ =~= error_text(op@, *err));
    s
}

/// What has been done to one replica.
#[derive(Clone, Copy, Debug, PartialEq, Eq, Structural)]
pub struct ReplicaSpinState {
    pub created: u64,
    pub updated: u64,
    pub deleted: u64,
    /// How many bytes have been transferred.
    pub transfer: u64,
}

/// What the line that shows the progress says.
#[derive(Clone, Copy, Debug, PartialEq, Eq, Structural)]
pub struct SpinState {
    pub cycle: u8,
    pub cli: ReplicaSpinState,
    pub srv: ReplicaSpinState,
}

impl SpinState {
    /// Returns the state before anything has been done.
    pub fn new() -> (r: SpinState)
        ensures
            r.cycle == 0,
            r.cli == r.srv,
            r.cli == (ReplicaSpinState { created: 0, updated: 0, deleted: 0, transfer: 0 }),
    {
        let zero = ReplicaSpinState { created: 0, updated: 0, deleted: 0, transfer: 0 };
        SpinState { cycle: 0, cli: zero, srv: zero }
    }
}

/// How many bytes it takes to transfer a file.
pub open spec fn spin_size(fd: FileModel) -> u64 {
    match fd {
        FileModel::Regular(_, size, _, _) => size,
        _ => 0,
    }
}

/// The replica's counters after an operation on it. They wrap around.
pub open spec fn counted(r: ReplicaSpinState, what: LogModel) -> ReplicaSpinState {
    match what {
        LogModel::Create(_, _, _, fd) => ReplicaSpinState {
            created: r.created.wrapping_add(1),
            transfer: r.transfer.wrapping_add(spin_size(fd)),
            ..r
        },
        LogModel::Update(_, _, _, old_fd, new_fd) => ReplicaSpinState {
            updated: r.updated.wrapping_add(1),
            transfer: if old_fd.matches_content(new_fd) {
                r.transfer
            } else {
                r.transfer.wrapping_add(spin_size(new_fd))
            },
            ..r
        },
        LogModel::Remove(_, _, _, _) => ReplicaSpinState {
            deleted: r.deleted.wrapping_add(1),
            ..r
        },
        _ => r,
    }
}

/// The side that an operation that counts as progress is on.
pub open spec fn progress_side(what: LogModel) -> Option<ReplicaSide> {
    match what {
        LogModel::Create(side, _, _, _) => Some(side),
        LogModel::Update(side, _, _, _, _) => Some(side),
        LogModel::Remove(side, _, _, _) => Some(side),
        _ => None,
    }
}

/// The progress after something has happened.
pub open spec fn progressed(spin: SpinState, what: LogModel) -> SpinState {
    match progress_side(what) {
        Some(ReplicaSide::Client) => SpinState { cli: counted(spin.cli, what), ..spin },
        Some(ReplicaSide::Server) => SpinState { srv: counted(spin.srv, what), ..spin },
        _ => spin,
    }
}

fn size_of(fd: &FileData) -> (r: u64)
    ensures
        r == spin_size(fd@),
{
    match fd {
        FileData::Regular(_, size, _, _) => *size,
        _ => 0,
    }
}

impl ReplicaSpinState {
    fn count(&mut self, what: &Log)
        ensures
            *final(self) == counted(*old(self), what@),
    {
        match what {
            Log::Create(_, _, _, fd) => {
                self.created = self.created.wrapping_add(1);
                self.transfer = self.transfer.wrapping_add(size_of(fd));
            },
            Log::Update(_, _, _, old_fd, new_fd) => {
                self.updated = self.updated.wrapping_add(1);
                if !old_fd.matches_content(new_fd) {
                    self.transfer = self.transfer.wrapping_add(size_of(new_fd));
                }
            },
            Log::Remove(_, _, _, _) => {
                self.deleted = self.deleted.wrapping_add(1);
            },
            _ => {},
        }
    }
}

/// The mark that turns with the progress.
pub open spec fn spin_mark(cycle: u8) -> char {
    if cycle == 0 {
        '-'
    } else if cycle == 1 {
        '\\'
    } else if cycle == 2 {
        '|'
    } else {
        '/'
    }
}

/// The counters of one replica.
pub open spec fn counters_text(r: ReplicaSpinState) -> Seq<char> {
    "+"@ + text::digits(r.created as nat, 10) + " *"@ + text::digits(r.updated as nat, 10) + " -"@
        + text::digits(r.deleted as nat, 10) + " "@ + size_text(r.transfer as nat)
}

/// The line that shows the progress.
pub open spec fn spin_text(spin: SpinState) -> Seq<char> {
    "\x1B[K"@.push(spin_mark(spin.cycle)) + " in: "@ + counters_text(spin.cli) + ", out: "@
        + counters_text(spin.srv) + "\r"@
}

fn push_counters(s: &mut String, r: &ReplicaSpinState)
    ensures
        final(s)@ == old(s)@ + counters_text(*r),
{
    let ghost start = s@;
    s.append("+");
    text::push_digits(s, r.created, 10);
    s.append(" *");
    text::push_digits(s, r.updated, 10);
    s.append(" -");
    text::push_digits(s, r.deleted, 10);
    s.append(" ");
    push_size(s, r.transfer);
    assert(s@ =~= start + counters_text(*r));
}

fn push_spin(s: &mut String, spin: &SpinState)
    ensures
        final(s)@ == old(s)@ + spin_text(*spin),
{
    let ghost start = s@;
    s.append("\x1B[K");
    s.push(
        if spin.cycle == 0 {
            '-'
        } else if spin.cycle == 1 {
            '\\'
        } else if spin.cycle == 2 {
            '|'
        } else {
            '/'
        },
    );
    s.append(" in: ");
    push_counters(s, &spin.cli);
    s.append(", out: ");
    push_counters(s, &spin.srv);
    s.append("\r");
    assert(s@ =~= start + spin_text(*spin));
}

/// Formats the logs of the reconciler.
pub struct SyncLog {
    /// The directory that is synchronised on the client.
    pub client_root: Name,
    /// Whether operations under a directory that is itself created or deleted
    /// are shown.
    pub include_ops_under_opped_directory: bool,
    /// Whether operations on the ancestor store are shown.
    pub include_ancestors: bool,
    pub colour: bool,
    /// The directories that have been created, as normal paths.
    pub created_directories: NameMap<()>,
    /// The directories that are deleted recursively, as normal paths.
    pub recdel_directories: NameMap<()>,
    pub spin: Option<SpinState>,
}

/// What a `SyncLog` knows, over mathematical values.
#[verifier::ext_equal]
pub struct SyncLogModel {
    pub root: Seq<u8>,
    pub deep: bool,
    pub ancestors: bool,
    pub colour: bool,
    pub created: Set<Seq<u8>>,
    pub recdel: Set<Seq<u8>>,
    pub spin: Option<SpinState>,
}

impl View for SyncLog {
    type V = SyncLogModel;

    open spec fn view(&self) -> SyncLogModel {
        SyncLogModel {
            root: self.client_root@,
            deep: self.include_ops_under_opped_directory,
            ancestors: self.include_ancestors,
            colour: self.colour,
            created: self.created_directories@.dom(),
            recdel: self.recdel_directories@.dom(),
            spin: self.spin,
        }
    }
}

/// The directories that are known to be created, and those known to be deleted
/// recursively, after something has happened.
pub open spec fn noted(st: SyncLogModel, what: LogModel) -> SyncLogModel {
    match what {
        LogModel::Create(_, dir, name, fd) => if fd.is_dir() {
            SyncLogModel { created: st.created.insert(path::normal(path::joined(dir, name))), ..st }
        } else {
            st
        },
        LogModel::RecursiveDelete(_, dir) => SyncLogModel {
            recdel: st.recdel.insert(path::normal(dir)),
            ..st
        },
        _ => st,
    }
}

/// Something to be said about a file, or about a directory itself.
pub struct Saying {
    pub dir: Seq<u8>,
    pub name: Option<Seq<u8>>,
    pub side: ReplicaSide,
    pub words: Seq<char>,
}

/// What there is to be said about what has happened, once it has been noted.
pub open spec fn saying(st: SyncLogModel, what: LogModel) -> Option<Saying> {
    match what {
        LogModel::SyncStarted => None,
        LogModel::SyncFinished => None,
        LogModel::Inspect(dir, name, r, c) => Some(
            Saying {
                dir,
                name: Some(name),
                side: ReplicaSide::Client,
                words: reconciliation_text(r) + conflict_text(c),
            },
        ),
        LogModel::Create(side, dir, name, fd) => if st.deep || !st.created.contains(path::normal(dir)) {
            Some(
                Saying { dir, name: Some(name), side, words: "create\n        + "@ + file_text(fd) },
            )
        } else {
            None
        },
        LogModel::Update(side, dir, name, old_fd, new_fd) => Some(
            Saying {
                dir,
                name: Some(name),
                side,
                words: "update\n        - "@ + file_text(old_fd) + "\n        + "@ + file_text(
                    new_fd,
                ),
            },
        ),
        LogModel::Rename(side, dir, old_name, new_name) => Some(
            Saying {
                dir,
                name: Some(old_name),
                side,
                words: "rename\n        -> "@ + text::utf8_lossy(new_name),
            },
        ),
        LogModel::Remove(side, dir, name, fd) => if st.deep || !st.recdel.contains(path::normal(dir)) {
            Some(
                Saying { dir, name: Some(name), side, words: "delete\n        - "@ + file_text(fd) },
            )
        } else {
            None
        },
        LogModel::RecursiveDelete(side, dir) => if st.deep || !(path::parent_of(dir) matches Some(
            p,
        ) && st.recdel.contains(path::normal(p))) {
            Some(Saying { dir, name: None, side, words: "delete recursively"@ })
        } else {
            None
        },
        LogModel::Rmdir(side, dir) => if st.deep || !st.recdel.contains(path::normal(dir)) {
            Some(Saying { dir, name: None, side, words: "remove directory"@ })
        } else {
            None
        },
        LogModel::Error(side, dir, op, err) => Some(
            Saying { dir, name: operation_name(op), side, words: error_text(op, err) },
        ),
    }
}

/// Whether something on the given side is said at all. Only errors are shown
/// for the ancestor store unless everything is to be; and once the program has
/// been interrupted, that the server is gone is no news.
pub open spec fn heard(
    st: SyncLogModel,
    level: LogLevel,
    side: ReplicaSide,
    interrupted: bool,
) -> bool {
    &&& side != ReplicaSide::Ancestor || st.ancestors || level <= log::ERROR
    &&& level != log::FATAL || side != ReplicaSide::Server || !interrupted
}

/// The colour that a level is shown in.
pub open spec fn level_colour(level: LogLevel) -> Seq<char> {
    if level == log::FATAL {
        "\x1B[1;31m"@
    } else if level == log::ERROR {
        "\x1B[31m"@
    } else if level == log::WARN {
        "\x1B[33m"@
    } else if level == log::EDIT {
        "\x1B[36m"@
    } else {
        Seq::empty()
    }
}

/// The name of a level.
pub open spec fn level_name(level: LogLevel) -> Seq<char> {
    if level == log::FATAL {
        "FATAL"@
    } else if level == log::ERROR {
        "ERROR"@
    } else if level == log::WARN {
        "WARN "@
    } else if level == log::EDIT {
        "EDIT "@
    } else if level == log::INFO {
        "INFO "@
    } else {
        "?????"@
    }
}

/// The name of a replica, as wide as any other.
pub open spec fn side_column(side: ReplicaSide) -> Seq<char> {
    match side {
        ReplicaSide::Client => "local "@,
        ReplicaSide::Server => "remote"@,
        ReplicaSide::Ancestor => "ancest"@,
    }
}

/// `code` if there are to be colours.
pub open spec fn coloured(colour: bool, code: Seq<char>) -> Seq<char> {
    if colour {
        code
    } else {
        Seq::empty()
    }
}

/// A line of the log.
pub open spec fn line_text(st: SyncLogModel, level: LogLevel, x: Saying) -> Seq<char> {
    "\x1B[K["@ + coloured(st.colour, level_colour(level)) + level_name(level) + coloured(
        st.colour,
        "\x1B[0m"@,
    ) + "] "@ + side_column(x.side) + " "@ + coloured(st.colour, "\x1B[1m"@) + path::shown(
        st.root,
        x.dir,
        x.name,
    ) + coloured(st.colour, "\x1B[0m"@) + ": "@ + x.words + "\n"@
}

/// What is said about what has happened, if anything.
pub open spec fn said(
    st: SyncLogModel,
    level: LogLevel,
    what: LogModel,
    interrupted: bool,
) -> Option<Seq<char>> {
    match saying(noted(st, what), what) {
        Some(x) => if heard(st, level, x.side, interrupted) {
            Some(line_text(st, level, x))
        } else {
            None
        },
        None => None,
    }
}

/// The log after something has happened: what has been noted, and the progress,
/// whose mark turns when it is shown anew.
pub open spec fn after_log(
    st: SyncLogModel,
    level: LogLevel,
    what: LogModel,
    interrupted: bool,
) -> SyncLogModel {
    let next = noted(st, what);
    SyncLogModel {
        spin: match st.spin {
            Some(spin) => if progress_side(what) is Some || said(st, level, what, interrupted)
                is Some {
                let counted_spin = progressed(spin, what);
                Some(
                    SpinState { cycle: (counted_spin.cycle.wrapping_add(1) % 4) as u8, ..counted_spin },
                )
            } else {
                Some(spin)
            },
            None => None,
        },
        ..next
    }
}

/// The text that is written when something has happened.
pub open spec fn human_text(
    st: SyncLogModel,
    level: LogLevel,
    what: LogModel,
    interrupted: bool,
) -> Seq<char> {
    let line = match said(st, level, what, interrupted) {
        Some(t) => t,
        None => Seq::empty(),
    };
    let next = after_log(st, level, what, interrupted);
    if next.spin is Some && (progress_side(what) is Some || said(st, level, what, interrupted)
        is Some) {
        line + spin_text(next.spin->0)
    } else {
        line
    }
}

/// The side that something happens on, if it is on one.
pub open spec fn side_of(what: LogModel) -> Option<ReplicaSide> {
    match what {
        LogModel::SyncStarted => None,
        LogModel::SyncFinished => None,
        LogModel::Inspect(_, _, _, _) => None,
        LogModel::Create(side, _, _, _) => Some(side),
        LogModel::Update(side, _, _, _, _) => Some(side),
        LogModel::Rename(side, _, _, _) => Some(side),
        LogModel::Remove(side, _, _, _) => Some(side),
        LogModel::Rmdir(side, _) => Some(side),
        LogModel::RecursiveDelete(side, _) => Some(side),
        LogModel::Error(side, _, _, _) => Some(side),
    }
}

/// Of the ancestor store, only errors are told unless everything is to be, and
/// nothing is itemised.
pub proof fn law_ancestor_quiet(
    st: SyncLogModel,
    level: LogLevel,
    what: LogModel,
    interrupted: bool,
)
    requires
        side_of(what) == Some(ReplicaSide::Ancestor),
    ensures
        !st.ancestors && level > log::ERROR ==> said(st, level, what, interrupted) is None,
        itemised_text(st.root, what) == Seq::<char>::empty(),
{
}

/// Every line of the itemised output begins with eleven characters for what
/// happens to the file, and a space.
pub proof fn law_item_columns(item: LineItem)
    ensures
        item.flags().len() == 11,
        "*renamefrom"@.len() == 11,
        "*renameto  "@.len() == 11,
        "*delete    "@.len() == 11,
{
    reveal_strlit("*renamefrom");
    reveal_strlit("*renameto  ");
    reveal_strlit("*delete    ");
}

fn push_coloured(s: &mut String, colour: bool, code: &str)
    ensures
        final(s)@ == old(s)@ + coloured(colour, code@),
{
    let ghost start = s@;
    if colour {
        s.append(code);
    }
    assert(s@ =~= start + coloured(colour, code@));
}

fn colour_of(level: LogLevel) -> (r: &'static str)
    ensures
        r@ == level_colour(level),
{
    match level {
        log::FATAL => "\x1B[1;31m",
        log::ERROR => "\x1B[31m",
        log::WARN => "\x1B[33m",
        log::EDIT => "\x1B[36m",
        _ => {
            proof {
                reveal_strlit("");
                assert(""@ =~= Seq::empty());
            }
            ""
        },
    }
}

fn name_of(level: LogLevel) -> (r: &'static str)
    ensures
        r@ == level_name(level),
{
    match level {
        log::FATAL => "FATAL",
        log::ERROR => "ERROR",
        log::WARN => "WARN ",
        log::EDIT => "EDIT ",
        log::INFO => "INFO ",
        _ => "?????",
    }
}

fn column_of(side: ReplicaSide) -> (r: &'static str)
    ensures
        r@ == side_column(side),
{
    match side {
        ReplicaSide::Client => "local ",
        ReplicaSide::Server => "remote",
        ReplicaSide::Ancestor => "ancest",
    }
}

/// Something to be said.
struct Words<'a> {
    dir: &'a [u8],
    name: Option<&'a [u8]>,
    side: ReplicaSide,
    words: String,
}

impl<'a> Words<'a> {
    spec fn model(self) -> Saying {
        Saying {
            dir: self.dir@,
            name: match self.name {
                Some(n) => Some(n@),
                None => None,
            },
            side: self.side,
            words: self.words@,
        }
    }
}

impl SyncLog {
    /// Notes directories that are created or deleted.
    fn note(&mut self, what: &Log)
        ensures
            final(self)@ == noted(old(self)@, what@),
    {
        let ghost st = self@;
        match what {
            Log::Create(_, dir, name, fd) => {
                if fd.is_dir() {
                    let _ = self.created_directories.insert(
                        path::normalise(path::join(dir, name).as_slice()),
                        (),
                    );
                    assert(self@.created =~= st.created.insert(
                        path::normal(path::joined(dir@, name@)),
                    ));
                }
            },
            Log::RecursiveDelete(_, dir) => {
                let _ = self.recdel_directories.insert(path::normalise(dir), ());
                assert(self@.recdel =~= st.recdel.insert(path::normal(dir@)));
            },
            _ => {},
        }
        assert(self@ =~= noted(st, what@));
    }

    /// Returns what there is to be said about what has happened.
    fn words<'a>(&self, what: &Log<'a>) -> (r: Option<Words<'a>>)
        ensures
            match r {
                Some(x) => saying(self@, what@) == Some(x.model()),
                None => saying(self@, what@) is None,
            },
    {
        let mut words: String = String::new();
        match *what {
            Log::SyncStarted => None,
            Log::SyncFinished => None,
            Log::Inspect(dir, name, r, c) => {
                push_reconciliation(&mut words, r);
                push_conflict(&mut words, c);
                assert(words@ =~= reconciliation_text(r) + conflict_text(c));
                Some(Words { dir, name: Some(name), side: ReplicaSide::Client, words })
            },
            Log::Create(side, dir, name, fd) => {
                if !self.include_ops_under_opped_directory
                    && self.created_directories.contains_key(path::normalise(dir).as_slice()) {
                    return None;
                }
                words.append("create\n        + ");
                push_file(&mut words, fd);
                assert(words@ =~= "create\n        + "@ + file_text(fd@));
                Some(Words { dir, name: Some(name), side, words })
            },
            Log::Update(side, dir, name, old_fd, new_fd) => {
                words.append("update\n        - ");
                push_file(&mut words, old_fd);
                words.append("\n        + ");
                push_file(&mut words, new_fd);
                assert(words@ =~= "update\n        - "@ + file_text(old_fd@) + "\n        + "@
                    + file_text(new_fd@));
                Some(Words { dir, name: Some(name), side, words })
            },
            Log::Rename(side, dir, old_name, new_name) => {
                words.append("rename\n        -> ");
                words.append(text::from_utf8_lossy(new_name).as_str());
                assert(words@ =~= "rename\n        -> "@ + text::utf8_lossy(new_name@));
                Some(Words { dir, name: Some(old_name), side, words })
            },
            Log::Remove(side, dir, name, fd) => {
                if !self.include_ops_under_opped_directory
                    && self.recdel_directories.contains_key(path::normalise(dir).as_slice()) {
                    return None;
                }
                words.append("delete\n        - ");
                push_file(&mut words, fd);
                assert(words@ =~= "delete\n        - "@ + file_text(fd@));
                Some(Words { dir, name: Some(name), side, words })
            },
            Log::RecursiveDelete(side, dir) => {
                if !self.include_ops_under_opped_directory {
                    if let Some(parent) = path::parent(dir) {
                        let parent = path::normalise(parent.as_slice());
                        if self.recdel_directories.contains_key(parent.as_slice()) {
                            return None;
                        }
                    }
                }
                words.append("delete recursively");
                assert(words@ =~= "delete recursively"@);
                Some(Words { dir, name: None, side, words })
            },
            Log::Rmdir(side, dir) => {
                if !self.include_ops_under_opped_directory
                    && self.recdel_directories.contains_key(path::normalise(dir).as_slice()) {
                    return None;
                }
                words.append("remove directory");
                assert(words@ =~= "remove directory"@);
                Some(Words { dir, name: None, side, words })
            },
            Log::Error(side, dir, op, err) => Some(
                Words {
                    dir,
                    name: get_error_basename(&op),
                    side,
                    words: format_error_log(&op, err),
                },
            ),
        }
    }

    /// Returns the text that is written to the terminal when something has
    /// happened, and takes note of it.
    pub fn write_human_readable(&mut self, level: LogLevel, what: &Log, interrupted: bool) -> (r:
        String)
        ensures
            r@ == human_text(old(self)@, level, what@, interrupted),
            final(self)@ == after_log(old(self)@, level, what@, interrupted),
    {
        let ghost st = self@;
        self.note(what);
        let mut s: String = String::new();
        let mut reprint_spin = match what {
            Log::Create(_, _, _, _) => true,
            Log::Update(_, _, _, _, _) => true,
            Log::Remove(_, _, _, _) => true,
            _ => false,
        };
        let words = self.words(what);
        if let Some(x) = words {
            let not_ancestor_or_allowed = x.side != ReplicaSide::Ancestor || self.include_ancestors
                || level <= log::ERROR;
            let not_interrupted_server_death = level != log::FATAL || x.side != ReplicaSide::Server
                || !interrupted;
            if not_ancestor_or_allowed && not_interrupted_server_death {
                s.append("\x1B[K[");
                push_coloured(&mut s, self.colour, colour_of(level));
                s.append(name_of(level));
                push_coloured(&mut s, self.colour, "\x1B[0m");
                s.append("] ");
                s.append(column_of(x.side));
                s.append(" ");
                push_coloured(&mut s, self.colour, "\x1B[1m");
                s.append(path::display(self.client_root.as_slice(), x.dir, x.name).as_str());
                push_coloured(&mut s, self.colour, "\x1B[0m");
                s.append(": ");
                s.append(x.words.as_str());
                s.append("\n");
                assert(s@ =~= line_text(st, level, x.model()));
                reprint_spin = true;
            }
        }
        let ghost line = s@;
        proof {
            match said(st, level, what@, interrupted) {
                Some(t) => {
                    assert(line == t);
                },
                None => {
                    assert(line =~= Seq::empty());
                },
            }
        }
        if let Some(spin) = &mut self.spin {
            if reprint_spin {
                match what {
                    Log::Create(ReplicaSide::Client, _, _, _) => spin.cli.count(what),
                    Log::Create(ReplicaSide::Server, _, _, _) => spin.srv.count(what),
                    Log::Update(ReplicaSide::Client, _, _, _, _) => spin.cli.count(what),
                    Log::Update(ReplicaSide::Server, _, _, _, _) => spin.srv.count(what),
                    Log::Remove(ReplicaSide::Client, _, _, _) => spin.cli.count(what),
                    Log::Remove(ReplicaSide::Server, _, _, _) => spin.srv.count(what),
                    _ => {},
                }
                spin.cycle = spin.cycle.wrapping_add(1) % 4;
                push_spin(&mut s, spin);
            }
        }
        assert(self@ =~= after_log(st, level, what@, interrupted));
        assert(s@ =~= human_text(st, level, what@, interrupted));
        s
    }
}

/// One line of the itemised output, which follows the format of `rsync` as best
/// it can. That is an 11-character string which is either a sequence of flags
/// or a `*` and a short message, right-padded.
#[derive(Clone, Copy, Debug, PartialEq, Eq)]
pub struct LineItem {
    /// `<` for a transfer to the remote host, `>` for one to the local host,
    /// `c` for an item being created, `.` for no update.
    pub update_type: char,
    /// `f` for a regular file, `d` for a directory, `L` for a symbolic link,
    /// `S` for a special file.
    pub file_type: char,
    pub content_change: bool,
    pub size_change: bool,
    pub time_change: bool,
    pub mode_change: bool,
    /// What stands where there is no change: `.` by default, `+` if something
    /// is being created, a space if the item is completely unchanged.
    pub fill: char,
}

/// `flag` if there is a change.
pub open spec fn flag(change: bool, flag: char, fill: char) -> char {
    if change {
        flag
    } else {
        fill
    }
}

impl LineItem {
    /// The flags.
    pub open spec fn flags(self) -> Seq<char> {
        seq![
            self.update_type,
            self.file_type,
            flag(self.content_change, 'c', self.fill),
            flag(self.size_change, 's', self.fill),
            flag(self.time_change, 't', self.fill),
            flag(self.mode_change, 'p', self.fill),
            self.fill,
            self.fill,
            self.fill,
            self.fill,
            self.fill,
        ]
    }

    fn push_to(&self, s: &mut String)
        ensures
            final(s)@ == old(s)@ + self.flags(),
    {
        let ghost start = s@;
        let fill = self.fill;
        s.push(self.update_type);
        s.push(self.file_type);
        s.push(if self.content_change { 'c' } else { fill });
        s.push(if self.size_change { 's' } else { fill });
        s.push(if self.time_change { 't' } else { fill });
        s.push(if self.mode_change { 'p' } else { fill });
        s.push(fill);
        s.push(fill);
        s.push(fill);
        s.push(fill);
        s.push(fill);
        assert(s@ =~= start + self.flags());
    }
}

/// The letter for the type of a file.
pub open spec fn type_letter(fd: FileModel) -> char {
    match fd {
        FileModel::Regular(_, _, _, _) => 'f',
        FileModel::Directory(_) => 'd',
        FileModel::Symlink(_) => 'L',
        FileModel::Special => 'S',
    }
}

/// The letter for where the content of a file goes.
pub open spec fn update_letter(side: ReplicaSide, fd: FileModel) -> char {
    match (side, fd) {
        (ReplicaSide::Client, FileModel::Regular(_, _, _, _)) => '>',
        (ReplicaSide::Server, FileModel::Regular(_, _, _, _)) => '<',
        _ => 'c',
    }
}

/// The flags of an update.
pub open spec fn update_item(side: ReplicaSide, old_fd: FileModel, new_fd: FileModel) -> LineItem {
    let (content, size, time, mode) = match (old_fd, new_fd) {
        (FileModel::Regular(m1, s1, t1, h1), FileModel::Regular(m2, s2, t2, h2)) => (
            h1 != h2,
            s1 != s2,
            t1 != t2,
            m1 != m2,
        ),
        (FileModel::Symlink(_), FileModel::Symlink(_)) => (true, false, false, false),
        (FileModel::Directory(_), FileModel::Directory(_)) => (false, false, false, true),
        _ => (true, false, false, true),
    };
    LineItem {
        update_type: if content {
            update_letter(side, new_fd)
        } else {
            '.'
        },
        file_type: type_letter(new_fd),
        content_change: content,
        size_change: size,
        time_change: time,
        mode_change: mode,
        fill: '.',
    }
}

/// The item for something that stays as it is. Its type cannot be told, since
/// the three replicas could each have a different one.
pub open spec fn unchanged_item() -> LineItem {
    LineItem {
        update_type: '.',
        file_type: '?',
        content_change: false,
        size_change: false,
        time_change: false,
        mode_change: false,
        fill: ' ',
    }
}

/// The item for something that is created.
pub open spec fn create_item(side: ReplicaSide, fd: FileModel) -> LineItem {
    LineItem {
        update_type: update_letter(side, fd),
        file_type: type_letter(fd),
        content_change: false,
        size_change: false,
        time_change: false,
        mode_change: false,
        fill: '+',
    }
}

/// A line of the itemised output.
pub open spec fn item_line(
    flags: Seq<char>,
    root: Seq<u8>,
    dir: Seq<u8>,
    name: Option<Seq<u8>>,
) -> Seq<char> {
    flags.push(' ') + path::shown(root, dir, name) + "\n"@
}

/// The itemised output for what has happened. Nothing is said about the
/// ancestor store.
pub open spec fn itemised_text(root: Seq<u8>, what: LogModel) -> Seq<char> {
    match what {
        LogModel::Inspect(dir, name, r, _) => match r {
            Reconciliation::Use(_) => Seq::empty(),
            Reconciliation::Split(_, _) => Seq::empty(),
            _ => item_line(unchanged_item().flags(), root, dir, Some(name)),
        },
        LogModel::Create(side, dir, name, fd) => if side == ReplicaSide::Ancestor {
            Seq::empty()
        } else {
            item_line(create_item(side, fd).flags(), root, dir, Some(name))
        },
        LogModel::Update(side, dir, name, old_fd, new_fd) => if side == ReplicaSide::Ancestor {
            Seq::empty()
        } else {
            item_line(update_item(side, old_fd, new_fd).flags(), root, dir, Some(name))
        },
        LogModel::Rename(side, dir, old_name, new_name) => if side == ReplicaSide::Ancestor {
            Seq::empty()
        } else {
            item_line("*renamefrom"@, root, dir, Some(old_name)) + item_line(
                "*renameto  "@,
                root,
                dir,
                Some(new_name),
            )
        },
        LogModel::Remove(side, dir, name, _) => if side == ReplicaSide::Ancestor {
            Seq::empty()
        } else {
            item_line("*delete    "@, root, dir, Some(name))
        },
        LogModel::Rmdir(side, dir) => if side == ReplicaSide::Ancestor {
            Seq::empty()
        } else {
            item_line("*delete    "@, root, dir, None)
        },
        _ => Seq::empty(),
    }
}

fn letter_of(fd: &FileData) -> (r: char)
    ensures
        r == type_letter(fd@),
{
    match fd {
        FileData::Regular(_, _, _, _) => 'f',
        FileData::Directory(_) => 'd',
        FileData::Symlink(_) => 'L',
        FileData::Special => 'S',
    }
}

fn update_letter_of(side: ReplicaSide, fd: &FileData) -> (r: char)
    ensures
        r == update_letter(side, fd@),
{
    match (side, fd) {
        (ReplicaSide::Client, FileData::Regular(_, _, _, _)) => '>',
        (ReplicaSide::Server, FileData::Regular(_, _, _, _)) => '<',
        _ => 'c',
    }
}

fn update_item_of(side: ReplicaSide, old_fd: &FileData, new_fd: &FileData) -> (r: LineItem)
    ensures
        r == update_item(side, old_fd@, new_fd@),
{
    let (content_change, size_change, time_change, mode_change) = match (old_fd, new_fd) {
        (FileData::Regular(m1, s1, t1, h1), FileData::Regular(m2, s2, t2, h2)) => (
            !defs::same_hash(h1, h2),
            *s1 != *s2,
            *t1 != *t2,
            *m1 != *m2,
        ),
        (FileData::Symlink(_), FileData::Symlink(_)) => (true, false, false, false),
        (FileData::Directory(_), FileData::Directory(_)) => (false, false, false, true),
        _ => (true, false, false, true),
    };
    LineItem {
        update_type: if content_change {
            update_letter_of(side, new_fd)
        } else {
            '.'
        },
        file_type: letter_of(new_fd),
        content_change,
        size_change,
        time_change,
        mode_change,
        fill: '.',
    }
}

impl SyncLog {
    fn push_item(&self, s: &mut String, flags: &str, dir: &[u8], name: Option<&[u8]>)
        ensures
            final(s)@ == old(s)@ + item_line(
                flags@,
                self@.root,
                dir@,
                match name {
                    Some(n) => Some(n@),
                    None => None,
                },
            ),
    {
        let ghost start = s@;
        s.append(flags);
        s.push(' ');
        s.append(path::display(self.client_root.as_slice(), dir, name).as_str());
        s.append("\n");
        assert(s@ =~= start + item_line(
            flags@,
            self@.root,
            dir@,
            match name {
                Some(n) => Some(n@),
                None => None,
            },
        ));
    }

    fn push_line(&self, s: &mut String, item: LineItem, dir: &[u8], name: &[u8])
        ensures
            final(s)@ == old(s)@ + item_line(item.flags(), self@.root, dir@, Some(name@)),
    {
        let mut flags: String = String::new();
        item.push_to(&mut flags);
        assert(flags@ =~= item.flags());
        self.push_item(s, flags.as_str(), dir, Some(name));
    }

    /// Returns the itemised output for what has happened.
    pub fn write_itemised(&self, what: &Log) -> (r: String)
        ensures
            r@ == itemised_text(self@.root, what@),
    {
        let mut s: String = String::new();
        match *what {
            Log::Inspect(dir, name, r, _) => match r {
                Reconciliation::Use(_) => {},
                Reconciliation::Split(_, _) => {},
                _ => {
                    let item = LineItem {
                        update_type: '.',
                        file_type: '?',
                        content_change: false,
                        size_change: false,
                        time_change: false,
                        mode_change: false,
                        fill: ' ',
                    };
                    self.push_line(&mut s, item, dir, name);
                },
            },
            Log::Create(side, dir, name, fd) => {
                if side != ReplicaSide::Ancestor {
                    let item = LineItem {
                        update_type: update_letter_of(side, fd),
                        file_type: letter_of(fd),
                        content_change: false,
                        size_change: false,
                        time_change: false,
                        mode_change: false,
                        fill: '+',
                    };
                    self.push_line(&mut s, item, dir, name);
                }
            },
            Log::Update(side, dir, name, old_fd, new_fd) => {
                if side != ReplicaSide::Ancestor {
                    let item = update_item_of(side, old_fd, new_fd);
                    self.push_line(&mut s, item, dir, name);
                }
            },
            Log::Rename(side, dir, old_name, new_name) => {
                if side != ReplicaSide::Ancestor {
                    self.push_item(&mut s, "*renamefrom", dir, Some(old_name));
                    self.push_item(&mut s, "*renameto  ", dir, Some(new_name));
                }
            },
            Log::Remove(side, dir, name, _) => {
                if side != ReplicaSide::Ancestor {
                    self.push_item(&mut s, "*delete    ", dir, Some(name));
                }
            },
            Log::Rmdir(side, dir) => {
                if side != ReplicaSide::Ancestor {
                    self.push_item(&mut s, "*delete    ", dir, None);
                }
            },
            _ => {},
        }
        assert(s@ =~= itemised_text(self@.root, what@));
        s
    }
}

/// The version of the format of status records.
pub const STATUS_VERSION: usize = 1;

/// What a status record says about a file.
#[derive(Debug, PartialEq, Eq)]
pub enum StatusInfo {
    Directory { mode: u32 },
    File { mode: u32, size: u64, modified_time: i64 },
    Symlink { target: String },
    Special,
}

/// What happened.
#[derive(Debug, PartialEq, Eq)]
pub enum StatusContents {
    SyncStarted,
    SyncFinished,
    SyncConflict { type_: &'static str, reconciliation: &'static str },
    SyncCreate,
    SyncUpdate { old_info: StatusInfo, new_info: StatusInfo },
    SyncRename { new_name: String },
    SyncRemove,
    SyncRemoveRecursively,
    SyncRemoveDirectory,
    SyncError { error_message: String },
}

/// Where it happened.
#[derive(Debug, PartialEq, Eq)]
pub struct StatusLocation {
    pub side: Option<&'static str>,
    pub path: String,
    pub info: Option<StatusInfo>,
}

/// A record of the machine-readable status output, but for the time.
#[derive(Debug, PartialEq, Eq)]
pub struct StatusRecord {
    pub contents: StatusContents,
    pub location: Option<StatusLocation>,
}

/// What a `StatusInfo` says, over mathematical values.
pub enum InfoModel {
    Directory(u32),
    File(u32, u64, i64),
    Symlink(Seq<char>),
    Special,
}

/// What a `StatusContents` says, over mathematical values.
pub enum ContentsModel {
    SyncStarted,
    SyncFinished,
    SyncConflict(Seq<char>, Seq<char>),
    SyncCreate,
    SyncUpdate(InfoModel, InfoModel),
    SyncRename(Seq<char>),
    SyncRemove,
    SyncRemoveRecursively,
    SyncRemoveDirectory,
    SyncError(Seq<char>),
}

/// What a `StatusLocation` says, over mathematical values.
pub struct LocationModel {
    pub side: Option<Seq<char>>,
    pub path: Seq<char>,
    pub info: Option<InfoModel>,
}

impl View for StatusInfo {
    type V = InfoModel;

    open spec fn view(&self) -> InfoModel {
        match *self {
            StatusInfo::Directory { mode } => InfoModel::Directory(mode),
            StatusInfo::File { mode, size, modified_time } => InfoModel::File(
                mode,
                size,
                modified_time,
            ),
            StatusInfo::Symlink { target } => InfoModel::Symlink(target@),
            StatusInfo::Special => InfoModel::Special,
        }
    }
}

impl View for StatusContents {
    type V = ContentsModel;

    open spec fn view(&self) -> ContentsModel {
        match *self {
            StatusContents::SyncStarted => ContentsModel::SyncStarted,
            StatusContents::SyncFinished => ContentsModel::SyncFinished,
            StatusContents::SyncConflict { type_, reconciliation } => ContentsModel::SyncConflict(
                type_@,
                reconciliation@,
            ),
            StatusContents::SyncCreate => ContentsModel::SyncCreate,
            StatusContents::SyncUpdate { old_info, new_info } => ContentsModel::SyncUpdate(
                old_info@,
                new_info@,
            ),
            StatusContents::SyncRename { new_name } => ContentsModel::SyncRename(new_name@),
            StatusContents::SyncRemove => ContentsModel::SyncRemove,
            StatusContents::SyncRemoveRecursively => ContentsModel::SyncRemoveRecursively,
            StatusContents::SyncRemoveDirectory => ContentsModel::SyncRemoveDirectory,
            StatusContents::SyncError { error_message } => ContentsModel::SyncError(error_message@),
        }
    }
}

impl View for StatusLocation {
    type V = LocationModel;

    open spec fn view(&self) -> LocationModel {
        LocationModel {
            side: match self.side {
                Some(side) => Some(side@),
                None => None,
            },
            path: self.path@,
            info: match self.info {
                Some(info) => Some(info@),
                None => None,
            },
        }
    }
}

/// What a status record says about a file.
pub open spec fn info_of(fd: FileModel) -> InfoModel {
    match fd {
        FileModel::Directory(mode) => InfoModel::Directory(mode),
        FileModel::Regular(mode, size, mtime, _) => InfoModel::File(mode, size, mtime),
        FileModel::Symlink(target) => InfoModel::Symlink(text::utf8_lossy(target)),
        FileModel::Special => InfoModel::Special,
    }
}

/// The word for a conflict, if there is one.
pub open spec fn conflict_word(c: Conflict) -> Option<Seq<char>> {
    match c {
        Conflict::NoConflict => None,
        Conflict::EditEdit(_, _) => Some("edit_edit"@),
        Conflict::EditDelete(ReconciliationSide::Client) => Some("edit_remote_delete_local"@),
        Conflict::EditDelete(ReconciliationSide::Server) => Some("edit_local_delete_remote"@),
    }
}

/// The word for how a conflict is resolved.
pub open spec fn resolution_word(r: Reconciliation) -> Option<Seq<char>> {
    match r {
        Reconciliation::InSync => None,
        Reconciliation::Unsync => Some("unsynced"@),
        Reconciliation::Irreconcilable => Some("irreconcilable"@),
        Reconciliation::Use(ReconciliationSide::Client) => Some("use_local"@),
        Reconciliation::Use(ReconciliationSide::Server) => Some("use_remote"@),
        Reconciliation::Split(ReconciliationSide::Client, _) => Some("split_local"@),
        Reconciliation::Split(ReconciliationSide::Server, _) => Some("split_remote"@),
    }
}

/// What is recorded of what has happened. Files without a conflict are not
/// recorded when they are inspected.
pub open spec fn contents_of(root: Seq<u8>, what: LogModel) -> Option<ContentsModel> {
    match what {
        LogModel::SyncStarted => Some(ContentsModel::SyncStarted),
        LogModel::SyncFinished => Some(ContentsModel::SyncFinished),
        LogModel::Inspect(_, _, r, c) => match (conflict_word(c), resolution_word(r)) {
            (Some(x), Some(y)) => Some(ContentsModel::SyncConflict(x, y)),
            _ => None,
        },
        LogModel::Create(_, _, _, _) => Some(ContentsModel::SyncCreate),
        LogModel::Update(_, _, _, old_fd, new_fd) => Some(
            ContentsModel::SyncUpdate(info_of(old_fd), info_of(new_fd)),
        ),
        LogModel::Rename(_, dir, _, new_name) => Some(
            ContentsModel::SyncRename(path::shown(root, dir, Some(new_name))),
        ),
        LogModel::Remove(_, _, _, _) => Some(ContentsModel::SyncRemove),
        LogModel::RecursiveDelete(_, _) => Some(ContentsModel::SyncRemoveRecursively),
        LogModel::Rmdir(_, _) => Some(ContentsModel::SyncRemoveDirectory),
        LogModel::Error(_, _, op, err) => Some(ContentsModel::SyncError(error_text(op, err))),
    }
}

/// Where what is recorded has happened.
pub open spec fn location_of(root: Seq<u8>, what: LogModel) -> Option<LocationModel> {
    match what {
        LogModel::SyncStarted => None,
        LogModel::SyncFinished => None,
        LogModel::Inspect(dir, name, _, _) => Some(
            LocationModel { side: None, path: path::shown(root, dir, Some(name)), info: None },
        ),
        LogModel::Create(side, dir, name, fd) => Some(
            LocationModel {
                side: Some(side_word(side)),
                path: path::shown(root, dir, Some(name)),
                info: Some(info_of(fd)),
            },
        ),
        LogModel::Remove(side, dir, name, fd) => Some(
            LocationModel {
                side: Some(side_word(side)),
                path: path::shown(root, dir, Some(name)),
                info: Some(info_of(fd)),
            },
        ),
        LogModel::Update(side, dir, name, _, _) => Some(
            LocationModel {
                side: Some(side_word(side)),
                path: path::shown(root, dir, Some(name)),
                info: None,
            },
        ),
        LogModel::Rename(side, dir, name, _) => Some(
            LocationModel {
                side: Some(side_word(side)),
                path: path::shown(root, dir, Some(name)),
                info: None,
            },
        ),
        LogModel::Rmdir(side, dir) => Some(
            LocationModel {
                side: Some(side_word(side)),
                path: path::shown(root, dir, None),
                info: None,
            },
        ),
        LogModel::RecursiveDelete(side, dir) => Some(
            LocationModel {
                side: Some(side_word(side)),
                path: path::shown(root, dir, None),
                info: None,
            },
        ),
        LogModel::Error(side, dir, op, _) => Some(
            LocationModel {
                side: Some(side_word(side)),
                path: path::shown(root, dir, operation_name(op)),
                info: None,
            },
        ),
    }
}

fn convert_state_to_info(fd: &FileData) -> (r: StatusInfo)
    ensures
        r@ == info_of(fd@),
{
    match fd {
        FileData::Directory(mode) => StatusInfo::Directory { mode: *mode },
        FileData::Regular(mode, size, mtime, _) => StatusInfo::File {
            mode: *mode,
            size: *size,
            modified_time: *mtime,
        },
        FileData::Symlink(target) => StatusInfo::Symlink {
            target: text::from_utf8_lossy(target.as_slice()),
        },
        FileData::Special => StatusInfo::Special,
    }
}

fn word_for_conflict(c: Conflict) -> (r: Option<&'static str>)
    ensures
        match r {
            Some(w) => conflict_word(c) == Some(w@),
            None => conflict_word(c) is None,
        },
{
    match c {
        Conflict::NoConflict => None,
        Conflict::EditEdit(_, _) => Some("edit_edit"),
        Conflict::EditDelete(ReconciliationSide::Client) => Some("edit_remote_delete_local"),
        Conflict::EditDelete(ReconciliationSide::Server) => Some("edit_local_delete_remote"),
    }
}

fn word_for_resolution(r: Reconciliation) -> (w: Option<&'static str>)
    ensures
        match w {
            Some(w) => resolution_word(r) == Some(w@),
            None => resolution_word(r) is None,
        },
{
    match r {
        Reconciliation::InSync => None,
        Reconciliation::Unsync => Some("unsynced"),
        Reconciliation::Irreconcilable => Some("irreconcilable"),
        Reconciliation::Use(ReconciliationSide::Client) => Some("use_local"),
        Reconciliation::Use(ReconciliationSide::Server) => Some("use_remote"),
        Reconciliation::Split(ReconciliationSide::Client, _) => Some("split_local"),
        Reconciliation::Split(ReconciliationSide::Server, _) => Some("split_remote"),
    }
}

impl SyncLog {
    /// Returns what is recorded of what has happened, if anything.
    pub fn write_json_status(&self, what: &Log) -> (r: Option<StatusRecord>)
        ensures
            match r {
                Some(x) => {
                    &&& contents_of(self@.root, what@) == Some(x.contents@)
                    &&& location_of(self@.root, what@) == match x.location {
                        Some(l) => Some(l@),
                        None => None,
                    }
                },
                None => contents_of(self@.root, what@) is None,
            },
    {
        let root = self.client_root.as_slice();
        let contents = match *what {
            Log::SyncStarted => StatusContents::SyncStarted,
            Log::SyncFinished => StatusContents::SyncFinished,
            Log::Inspect(_, _, reconciliation, conflict) => match (
                word_for_conflict(conflict),
                word_for_resolution(reconciliation),
            ) {
                (Some(type_), Some(reconciliation)) => StatusContents::SyncConflict {
                    type_,
                    reconciliation,
                },
                _ => {
                    return None;
                },
            },
            Log::Create(_, _, _, _) => StatusContents::SyncCreate,
            Log::Update(_, _, _, old_fd, new_fd) => StatusContents::SyncUpdate {
                old_info: convert_state_to_info(old_fd),
                new_info: convert_state_to_info(new_fd),
            },
            Log::Rename(_, dir, _, new_name) => StatusContents::SyncRename {
                new_name: path::display(root, dir, Some(new_name)),
            },
            Log::Remove(_, _, _, _) => StatusContents::SyncRemove,
            Log::RecursiveDelete(_, _) => StatusContents::SyncRemoveRecursively,
            Log::Rmdir(_, _) => StatusContents::SyncRemoveDirectory,
            Log::Error(_, _, op, err) => StatusContents::SyncError {
                error_message: format_error_log(&op, err),
            },
        };
        let location = match *what {
            Log::SyncStarted => None,
            Log::SyncFinished => None,
            Log::Inspect(dir, name, _, _) => Some(
                StatusLocation { side: None, path: path::display(root, dir, Some(name)), info: None },
            ),
            Log::Create(side, dir, name, fd) => Some(
                StatusLocation {
                    side: Some(name_side(side)),
                    path: path::display(root, dir, Some(name)),
                    info: Some(convert_state_to_info(fd)),
                },
            ),
            Log::Remove(side, dir, name, fd) => Some(
                StatusLocation {
                    side: Some(name_side(side)),
                    path: path::display(root, dir, Some(name)),
                    info: Some(convert_state_to_info(fd)),
                },
            ),
            Log::Update(side, dir, name, _, _) => Some(
                StatusLocation {
                    side: Some(name_side(side)),
                    path: path::display(root, dir, Some(name)),
                    info: None,
                },
            ),
            Log::Rename(side, dir, name, _) => Some(
                StatusLocation {
                    side: Some(name_side(side)),
                    path: path::display(root, dir, Some(name)),
                    info: None,
                },
            ),
            Log::Rmdir(side, dir) => Some(
                StatusLocation {
                    side: Some(name_side(side)),
                    path: path::display(root, dir, None),
                    info: None,
                },
            ),
            Log::RecursiveDelete(side, dir) => Some(
                StatusLocation {
                    side: Some(name_side(side)),
                    path: path::display(root, dir, None),
                    info: None,
                },
            ),
            Log::Error(side, dir, op, _) => Some(
                StatusLocation {
                    side: Some(name_side(side)),
                    path: path::display(root, dir, get_error_basename(&op)),
                    info: None,
                },
            ),
        };
        Some(StatusRecord { contents, location })
    }
}

/// Collects what is to be shown to the user.
pub struct SyncLogger {
    pub format: SyncLog,
    /// The level up to which logs are shown on the terminal.
    pub verbose_level: LogLevel,
    /// The level up to which logs are itemised.
    pub itemise_level: LogLevel,
    /// Whether status records are written.
    pub json_status: bool,
    /// Whether the program has been interrupted.
    pub interrupted: bool,
    /// What is to be written to the terminal.
    pub terminal: String,
    /// The itemised output.
    pub items: String,
    pub records: Vec<StatusRecord>,
    history: Ghost<Seq<(LogLevel, LogModel)>>,
}

impl SyncLogger {
    /// Returns a logger to which nothing has been logged.
    pub fn new(
        format: SyncLog,
        verbose_level: LogLevel,
        itemise_level: LogLevel,
        json_status: bool,
    ) -> (r: SyncLogger)
        ensures
            r.format() == format@,
            r.levels() == (verbose_level, itemise_level),
            r.logged() == Seq::<(LogLevel, LogModel)>::empty(),
            r.shown() == Seq::<char>::empty(),
            r.itemised() == Seq::<char>::empty(),
            r.recorded() == Seq::<StatusRecord>::empty(),
            r.writes_records() == json_status,
            !r.is_interrupted(),
    {
        SyncLogger {
            format,
            verbose_level,
            itemise_level,
            json_status,
            interrupted: false,
            terminal: String::new(),
            items: String::new(),
            records: Vec::new(),
            history: Ghost(Seq::empty()),
        }
    }

    /// What the formatter knows.
    pub closed spec fn format(self) -> SyncLogModel {
        self.format@
    }

    /// The levels up to which logs are shown, and itemised.
    pub closed spec fn levels(self) -> (LogLevel, LogLevel) {
        (self.verbose_level, self.itemise_level)
    }

    /// What is to be written to the terminal.
    pub closed spec fn shown(self) -> Seq<char> {
        self.terminal@
    }

    /// The itemised output.
    pub closed spec fn itemised(self) -> Seq<char> {
        self.items@
    }

    /// Whether status records are written.
    pub closed spec fn writes_records(self) -> bool {
        self.json_status
    }

    /// The status records.
    pub closed spec fn recorded(self) -> Seq<StatusRecord> {
        self.records@
    }

    /// Whether the program has been interrupted.
    pub closed spec fn is_interrupted(self) -> bool {
        self.interrupted
    }
}

impl Logger for SyncLogger {
    closed spec fn logged(&self) -> Seq<(LogLevel, LogModel)> {
        self.history@
    }

    fn log(&mut self, level: LogLevel, what: &Log)
        ensures
            final(self).levels() == old(self).levels(),
            final(self).is_interrupted() == old(self).is_interrupted(),
            level <= old(self).levels().0 ==> final(self).shown() == old(self).shown() + human_text(
                old(self).format(),
                level,
                what@,
                old(self).is_interrupted(),
            ) && final(self).format() == after_log(
                old(self).format(),
                level,
                what@,
                old(self).is_interrupted(),
            ),
            level > old(self).levels().0 ==> final(self).shown() == old(self).shown(),
            level > old(self).levels().0 ==> final(self).format() == old(self).format(),
            final(self).itemised() == (if level <= old(self).levels().1 {
                old(self).itemised() + itemised_text(old(self).format().root, what@)
            } else {
                old(self).itemised()
            }),
            final(self).writes_records() == old(self).writes_records(),
            old(self).writes_records() ==> (contents_of(old(self).format().root, what@) matches Some(
                c,
            ) ==> {
                let x = final(self).recorded().last();
                &&& final(self).recorded() == old(self).recorded().push(x)
                &&& x.contents@ == c
                &&& location_of(old(self).format().root, what@) == match x.location {
                    Some(l) => Some(l@),
                    None => None,
                }
            }),
            !old(self).writes_records() || contents_of(old(self).format().root, what@) is None
                ==> final(self).recorded() == old(self).recorded(),
    {
        if level <= self.verbose_level {
            let line = self.format.write_human_readable(level, what, self.interrupted);
            self.terminal.append(line.as_str());
        }
        if level <= self.itemise_level {
            let items = self.format.write_itemised(what);
            self.items.append(items.as_str());
        }
        if self.json_status {
            if let Some(record) = self.format.write_json_status(what) {
                self.records.push(record);
            }
        }
        proof {
            self.history@ = self.history@.push((level, what@));
        }
    }
}

} // verus!
