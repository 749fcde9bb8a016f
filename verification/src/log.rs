//! Structured logs emitted primarily by the reconciler.
//!
//! The intent is to immediately support normal "verbose" operation while also
//! providing useful output for tests, while also allowing rsync-style itemised
//! output.

use vstd::prelude::*;

use crate::bytes;
use crate::defs::{FileData, FileModel};
use crate::errors::Error;
use crate::reconcile::compute::{Conflict, Reconciliation};

verus! {

pub type LogLevel = u8;

/// Log level indicating an unrecoverable, non-localised error.
pub const FATAL: LogLevel = 1;

/// Log level indicating a localised error.
pub const ERROR: LogLevel = 2;

/// Log level indicating a somewhat surprising situation that can still be
/// handled reasonably, such as edit/edit conflicts.
pub const WARN: LogLevel = 3;

/// Log level indicating the reconciler making changes to one of the real
/// replicas.
pub const EDIT: LogLevel = 4;

/// Log level for informational messages not indicative of problems or changes
/// being made.
pub const INFO: LogLevel = 5;

#[derive(Clone, Copy, Debug, PartialEq, Eq, Structural)]
pub enum ReplicaSide {
    Client,
    Ancestor,
    Server,
}

/// The operation that failed.
#[derive(Clone, Copy, Debug, PartialEq, Eq)]
pub enum ErrorOperation<'a> {
    List,
    MarkClean,
    Chdir(&'a [u8]),
    Create(&'a [u8]),
    Update(&'a [u8]),
    Rename(&'a [u8]),
    Remove(&'a [u8]),
    Rmdir,
    Access(&'a [u8]),
}

/// Something that happened, or is about to happen. The first byte string of
/// each variant is the directory concerned.
#[derive(Clone, Copy, Debug)]
pub enum Log<'a> {
    SyncStarted,
    SyncFinished,
    Inspect(&'a [u8], &'a [u8], Reconciliation, Conflict),
    Create(ReplicaSide, &'a [u8], &'a [u8], &'a FileData),
    Update(ReplicaSide, &'a [u8], &'a [u8], &'a FileData, &'a FileData),
    Rename(ReplicaSide, &'a [u8], &'a [u8], &'a [u8]),
    Remove(ReplicaSide, &'a [u8], &'a [u8], &'a FileData),
    Rmdir(ReplicaSide, &'a [u8]),
    RecursiveDelete(ReplicaSide, &'a [u8]),
    Error(ReplicaSide, &'a [u8], ErrorOperation<'a>, &'a Error),
}

/// What an `ErrorOperation` says, over mathematical values.
pub enum OperationModel {
    List,
    MarkClean,
    Chdir(Seq<u8>),
    Create(Seq<u8>),
    Update(Seq<u8>),
    Rename(Seq<u8>),
    Remove(Seq<u8>),
    Rmdir,
    Access(Seq<u8>),
}

/// What a `Log` says, over mathematical values.
pub enum LogModel {
    SyncStarted,
    SyncFinished,
    Inspect(Seq<u8>, Seq<u8>, Reconciliation, Conflict),
    Create(ReplicaSide, Seq<u8>, Seq<u8>, FileModel),
    Update(ReplicaSide, Seq<u8>, Seq<u8>, FileModel, FileModel),
    Rename(ReplicaSide, Seq<u8>, Seq<u8>, Seq<u8>),
    Remove(ReplicaSide, Seq<u8>, Seq<u8>, FileModel),
    Rmdir(ReplicaSide, Seq<u8>),
    RecursiveDelete(ReplicaSide, Seq<u8>),
    Error(ReplicaSide, Seq<u8>, OperationModel, Error),
}

impl<'a> View for ErrorOperation<'a> {
    type V = OperationModel;

    open spec fn view(&self) -> OperationModel {
        match *self {
            ErrorOperation::List => OperationModel::List,
            ErrorOperation::MarkClean => OperationModel::MarkClean,
            ErrorOperation::Chdir(n) => OperationModel::Chdir(n@),
            ErrorOperation::Create(n) => OperationModel::Create(n@),
            ErrorOperation::Update(n) => OperationModel::Update(n@),
            ErrorOperation::Rename(n) => OperationModel::Rename(n@),
            ErrorOperation::Remove(n) => OperationModel::Remove(n@),
            ErrorOperation::Rmdir => OperationModel::Rmdir,
            ErrorOperation::Access(n) => OperationModel::Access(n@),
        }
    }
}

impl<'a> View for Log<'a> {
    type V = LogModel;

    open spec fn view(&self) -> LogModel {
        match *self {
            Log::SyncStarted => LogModel::SyncStarted,
            Log::SyncFinished => LogModel::SyncFinished,
            Log::Inspect(d, n, r, c) => LogModel::Inspect(d@, n@, r, c),
            Log::Create(side, d, n, fd) => LogModel::Create(side, d@, n@, fd@),
            Log::Update(side, d, n, x, y) => LogModel::Update(side, d@, n@, x@, y@),
            Log::Rename(side, d, n, m) => LogModel::Rename(side, d@, n@, m@),
            Log::Remove(side, d, n, fd) => LogModel::Remove(side, d@, n@, fd@),
            Log::Rmdir(side, d) => LogModel::Rmdir(side, d@),
            Log::RecursiveDelete(side, d) => LogModel::RecursiveDelete(side, d@),
            Log::Error(side, d, op, e) => LogModel::Error(side, d@, op@, *e),
        }
    }
}

/// Takes the logs.
pub trait Logger: Sized {
    /// Everything logged so far, with the levels.
    open spec fn logged(&self) -> Seq<(LogLevel, LogModel)> {
        arbitrary()
    }

    fn log(&mut self, level: LogLevel, what: &Log)
        ensures
            final(self).logged() == old(self).logged().push((level, what@)),
    ;
}

/// Whether entries have at most been added to a log.
pub open spec fn grown(
    before: Seq<(LogLevel, LogModel)>,
    after: Seq<(LogLevel, LogModel)>,
) -> bool {
    before.is_prefix_of(after)
}

/// Whether entries have at most been added to a log, none of which is about the
/// inspection of a file.
#[verifier::opaque]
pub open spec fn acted(
    before: Seq<(LogLevel, LogModel)>,
    after: Seq<(LogLevel, LogModel)>,
) -> bool {
    &&& grown(before, after)
    &&& forall|i: int| before.len() <= i < after.len() ==> (#[trigger] after[i]).1 !is Inspect
}

/// Whether entries have at most been added to a log, none of which is about an
/// error.
#[verifier::opaque]
pub open spec fn flawless(
    before: Seq<(LogLevel, LogModel)>,
    after: Seq<(LogLevel, LogModel)>,
) -> bool {
    &&& grown(before, after)
    &&& forall|i: int| before.len() <= i < after.len() ==> (#[trigger] after[i]).1 !is Error
}

/// What is added to a log makes it grow.
pub proof fn lemma_grown(before: Seq<(LogLevel, LogModel)>, after: Seq<(LogLevel, LogModel)>)
    ensures
        acted(before, after) || flawless(before, after) ==> grown(before, after),
        after == before ==> acted(before, after) && flawless(before, after),
{
    reveal(acted);
    reveal(flawless);
}

/// Where one entry is added, it depends on that entry.
pub proof fn lemma_added(l: Seq<(LogLevel, LogModel)>, x: (LogLevel, LogModel))
    ensures
        acted(l, l.push(x)) == (x.1 !is Inspect),
        flawless(l, l.push(x)) == (x.1 !is Error),
{
    reveal(acted);
    reveal(flawless);
    assert(l.push(x)[l.len() as int] == x);
}

/// What is added in two goes is added.
pub proof fn lemma_added_twice(
    a: Seq<(LogLevel, LogModel)>,
    b: Seq<(LogLevel, LogModel)>,
    c: Seq<(LogLevel, LogModel)>,
)
    requires
        grown(a, b),
        grown(b, c),
    ensures
        grown(a, c),
        acted(a, b) && acted(b, c) ==> acted(a, c),
        flawless(a, b) && flawless(b, c) ==> flawless(a, c),
{
    reveal(acted);
    reveal(flawless);
    assert forall|i: int| a.len() <= i < b.len() implies #[trigger] c[i] == b[i] by {}
}

/// The inspection of a file: its directory, its name, and what was decided.
pub struct Inspection {
    pub dir: Seq<u8>,
    pub name: Seq<u8>,
    pub recon: Reconciliation,
    pub conflict: Conflict,
}

/// The entry for the inspection of a file.
pub open spec fn inspection_entry(x: Inspection) -> (LogLevel, LogModel) {
    (
        if x.conflict is NoConflict {
            INFO
        } else {
            WARN
        },
        LogModel::Inspect(x.dir, x.name, x.recon, x.conflict),
    )
}

/// Whether a file has been inspected, and no other.
pub open spec fn inspected(
    before: Seq<(LogLevel, LogModel)>,
    after: Seq<(LogLevel, LogModel)>,
    x: Inspection,
) -> bool {
    acted(before.push(inspection_entry(x)), after)
}

/// The inspections that a log is about, in order.
pub open spec fn inspections(l: Seq<(LogLevel, LogModel)>) -> Seq<Inspection>
    decreases l.len(),
{
    if l.len() == 0 {
        Seq::empty()
    } else {
        match l.last().1 {
            LogModel::Inspect(dir, name, recon, conflict) => inspections(l.drop_last()).push(
                Inspection { dir, name, recon, conflict },
            ),
            _ => inspections(l.drop_last()),
        }
    }
}

/// No inspections are added where no entries for them are.
pub proof fn lemma_acted(before: Seq<(LogLevel, LogModel)>, after: Seq<(LogLevel, LogModel)>)
    requires
        acted(before, after),
    ensures
        inspections(after) == inspections(before),
    decreases after.len(),
{
    reveal(acted);
    if after.len() == before.len() {
        assert(after =~= before);
    } else {
        lemma_acted(before, after.drop_last());
    }
}

/// Inspections are only ever added.
pub proof fn lemma_inspections_grow(
    before: Seq<(LogLevel, LogModel)>,
    after: Seq<(LogLevel, LogModel)>,
)
    requires
        grown(before, after),
    ensures
        inspections(before).is_prefix_of(inspections(after)),
    decreases after.len(),
{
    if after.len() == before.len() {
        assert(after =~= before);
    } else {
        lemma_inspections_grow(before, after.drop_last());
    }
}

/// One inspection is added where one file has been inspected.
pub proof fn lemma_inspected(
    before: Seq<(LogLevel, LogModel)>,
    after: Seq<(LogLevel, LogModel)>,
    x: Inspection,
)
    requires
        inspected(before, after, x),
    ensures
        inspections(after) == inspections(before).push(x),
{
    let l = before.push(inspection_entry(x));
    lemma_acted(l, after);
    assert(l.drop_last() =~= before);
}

/// Whether inspections are those of the files of these names in a directory:
/// each once and in ascending order, unless one of the files is given another
/// name on the way.
pub open spec fn sweep(seen: Seq<Inspection>, dir: Seq<u8>, names: Set<Seq<u8>>) -> bool {
    &&& forall|i: int| 0 <= i < seen.len() ==> (#[trigger] seen[i]).dir == dir
    &&& (forall|i: int| 0 <= i < seen.len() ==> (#[trigger] seen[i]).recon !is Split) ==> {
        &&& forall|i: int, j: int|
            0 <= i < j < seen.len() ==> bytes::before(
                (#[trigger] seen[i]).name,
                (#[trigger] seen[j]).name,
            )
        &&& forall|n: Seq<u8>| #[trigger]
            names.contains(n) <==> exists|i: int|
                0 <= i < seen.len() && (#[trigger] seen[i]).name == n
    }
}

/// Whether the first inspections that have been added to a log are those of the
/// files of these names in a directory.
pub open spec fn swept(
    before: Seq<(LogLevel, LogModel)>,
    after: Seq<(LogLevel, LogModel)>,
    dir: Seq<u8>,
    names: Set<Seq<u8>>,
) -> bool {
    exists|seen: Seq<Inspection>| #[trigger]
        sweep(seen, dir, names) && (inspections(before) + seen).is_prefix_of(inspections(after))
}

} // verus!
