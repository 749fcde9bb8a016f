//! Deciding what is to become of a single file.

use vstd::prelude::*;

use vstd::slice::slice_subrange;

use crate::bytes;
use crate::bytes::Name;
use crate::defs;
use crate::defs::{FileData, FileModel};
use crate::log::ReplicaSide;
use crate::path;
use crate::rules::{HalfSyncMode, SyncMode, SyncModeSetting};
use crate::text;

verus! {

/// The byte `.`.
pub const DOT: u8 = 46;

/// The byte `/`.
pub const SLASH: u8 = 47;

/// The byte `~`.
pub const TILDE: u8 = 126;

/// Whether `n` names a file within a directory: it is not empty, holds no
/// slash and is neither `.` nor `..`.
pub open spec fn plain_name(n: Seq<u8>) -> bool {
    n.len() > 0 && !n.contains(SLASH) && n != seq![DOT] && n != seq![DOT, DOT]
}

/// The index of the last `b` in `s`, or -1 if there is none.
pub open spec fn last_at(s: Seq<u8>, b: u8) -> int
    decreases s.len(),
{
    if s.len() == 0 {
        -1
    } else if s.last() == b {
        s.len() - 1
    } else {
        last_at(s.drop_last(), b)
    }
}

/// Where the extension of a file name begins, with its dot: at the last dot,
/// unless that is the first byte.
pub open spec fn extension_at(n: Seq<u8>) -> int {
    if last_at(n, DOT) <= 0 {
        n.len() as int
    } else {
        last_at(n, DOT)
    }
}

/// The stem of an alternate name: what precedes the extension, cut after its
/// last tilde or else with a tilde added.
pub open spec fn alternate_base(n: Seq<u8>) -> Seq<u8> {
    let stem = n.take(extension_at(n));
    if last_at(stem, TILDE) >= 0 {
        stem.take(last_at(stem, TILDE) + 1)
    } else {
        stem.push(TILDE)
    }
}

/// The `k`th alternate for the name `n`.
pub open spec fn alternate(n: Seq<u8>, k: nat) -> Seq<u8> {
    alternate_base(n) + text::digit_bytes(k) + n.skip(extension_at(n))
}

/// The bytes of a name with malformed UTF-8 sequences replaced.
pub open spec fn readable(n: Seq<u8>) -> Seq<u8> {
    vstd::utf8::encode_utf8(text::utf8_lossy(n))
}

/// Whether `f` may answer `b` when asked about `name`.
pub open spec fn answers<F: Fn(&[u8]) -> bool>(f: F, name: Seq<u8>, b: bool) -> bool {
    exists|x: &[u8]| x@ == name && #[trigger] call_ensures(f, (x,), b)
}

/// Whether `r` is the `k`th alternate for `n`, `f` answers that it is not in
/// use, and answers of each earlier one that it is.
pub open spec fn first_unused<F: Fn(&[u8]) -> bool>(f: F, n: Seq<u8>, k: u64, r: Seq<u8>) -> bool {
    &&& k >= 1
    &&& r == alternate(n, k as nat)
    &&& answers(f, r, false)
    &&& forall|j: u64| 1 <= j < k ==> #[trigger] answers(f, alternate(n, j as nat), true)
}

/// Returns the index of the last `b` in `s`.
pub fn find_last(s: &[u8], b: u8) -> (r: Option<usize>)
    ensures
        match r {
            Some(i) => last_at(s@, b) == i && i < s@.len(),
            None => last_at(s@, b) == -1,
        },
{
    let mut i: usize = s.len();
    assert(s@.take(i as int) =~= s@);
    while i > 0
        invariant
            i <= s.len(),
            last_at(s@, b) == last_at(s@.take(i as int), b),
        decreases i,
    {
        assert(s@.take(i as int).drop_last() =~= s@.take(i as int - 1));
        if s[i - 1] == b {
            return Some(i - 1);
        }
        i -= 1;
    }
    None
}

/// Returns whether `n` names a file within a directory.
pub fn is_plain_name(n: &[u8]) -> (r: bool)
    ensures
        r == plain_name(n@),
{
    let mut i: usize = 0;
    while i < n.len()
        invariant
            i <= n.len(),
            forall|j: int| 0 <= j < i ==> n@[j] != SLASH,
        decreases n.len() - i,
    {
        if n[i] == SLASH {
            assert(n@.contains(SLASH)) by {
                assert(n@[i as int] == SLASH);
            }
            return false;
        }
        i += 1;
    }
    assert(!n@.contains(SLASH));
    if n.len() == 0 {
        false
    } else if n.len() == 1 && n[0] == DOT {
        assert(n@ =~= seq![DOT]);
        false
    } else if n.len() == 2 && n[0] == DOT && n[1] == DOT {
        assert(n@ =~= seq![DOT, DOT]);
        false
    } else {
        true
    }
}

/// Like `gen_alternate_name()`, for any name and any set of names in use:
/// returns `None` if `orig` does not name a file, or if every suffix is in
/// use.
pub fn find_alternate_name<F: Fn(&[u8]) -> bool>(orig: &[u8], in_use: F) -> (r: Option<Name>)
    requires
        forall|x: &[u8]| call_requires(in_use, (x,)),
    ensures
        r is Some ==> plain_name(readable(orig@)),
        r matches Some(new) ==> exists|k: u64| first_unused(in_use, readable(orig@), k, new@),
        r is None && plain_name(readable(orig@)) ==> forall|k: u64|
            k >= 1 ==> #[trigger] answers(in_use, alternate(readable(orig@), k as nat), true),
{
    let decoded: String = text::from_utf8_lossy(orig);
    let name: &[u8] = decoded.as_str().as_bytes();
    let ghost n = readable(orig@);
    if !is_plain_name(name) {
        return None;
    }
    let ext_at: usize = match find_last(name, DOT) {
        Some(i) => if i == 0 {
            name.len()
        } else {
            i
        },
        None => name.len(),
    };
    let mut base: Vec<u8> = bytes::copy(slice_subrange(name, 0, ext_at));
    assert(base@ =~= n.take(extension_at(n)));
    match find_last(base.as_slice(), TILDE) {
        Some(tilde) => base.truncate(tilde + 1),
        None => base.push(TILDE),
    }
    assert(base@ =~= alternate_base(n));
    let extension: &[u8] = slice_subrange(name, ext_at, name.len());
    assert(extension@ =~= n.skip(extension_at(n)));
    let mut k: u64 = 1;
    loop
        invariant
            forall|x: &[u8]| call_requires(in_use, (x,)),
            k >= 1,
            n == readable(orig@),
            plain_name(n),
            base@ == alternate_base(n),
            extension@ == n.skip(extension_at(n)),
            forall|j: u64|
                1 <= j < k ==> #[trigger] answers(in_use, alternate(n, j as nat), true),
        decreases u64::MAX - k,
    {
        let mut new: Vec<u8> = bytes::copy(base.as_slice());
        text::push_digit_bytes(&mut new, k);
        bytes::append(&mut new, extension);
        assert(new@ =~= alternate(n, k as nat));
        if !in_use(new.as_slice()) {
            assert(answers(in_use, new@, false));
            let r: Option<Name> = Some(new);
            assert(first_unused(in_use, readable(orig@), k, r->0@));
            return r;
        }
        assert(answers(in_use, alternate(n, k as nat), true));
        if k == u64::MAX {
            return None;
        }
        k += 1;
    }
}

/// Generates a new name based on `orig` for which `in_use` returns `false`.
///
/// If the stem of `orig` contains a `~`, all characters after the last `~` in
/// the stem are dropped; otherwise, `~` is appended to the stem. The function
/// then appends successive suffixes until it finds one not in use.
///
/// The extension is always preserved; eg, "foo.txt" may become "foo~1.txt".
///
/// If `orig` is not valid UTF-8, invalid sequences may be clobbered.
pub fn gen_alternate_name<F: Fn(&[u8]) -> bool>(orig: &[u8], in_use: F) -> (r: Name)
    requires
        forall|x: &[u8]| call_requires(in_use, (x,)),
        plain_name(readable(orig@)),
        exists|k: u64|
            k >= 1 && !#[trigger] answers(in_use, alternate(readable(orig@), k as nat), true),
    ensures
        exists|k: u64| first_unused(in_use, readable(orig@), k, r@),
{
    match find_alternate_name(orig, in_use) {
        Some(name) => name,
        // There is always one that is not in use.
        None => Vec::new(),
    }
}

/// Alternate names differ for different suffixes.
pub proof fn law_alternates_differ(n: Seq<u8>, j: nat, k: nat)
    requires
        j != k,
    ensures
        alternate(n, j) != alternate(n, k),
{
    if alternate(n, j) == alternate(n, k) {
        let x = alternate(n, j);
        let b = alternate_base(n).len() as int;
        let e = n.skip(extension_at(n)).len();
        assert(x.subrange(b, x.len() - e) =~= text::digit_bytes(j));
        assert(alternate(n, k).subrange(b, x.len() - e) =~= text::digit_bytes(k));
        text::lemma_digit_bytes_injective(j, k);
    }
}

/// When a reconciliation sources from or affects one side, indicates which
/// replica is to be used.
#[derive(Clone, Copy, Debug, PartialEq, Eq, Structural)]
pub enum ReconciliationSide {
    Client,
    Server,
}

impl ReconciliationSide {
    pub open spec fn other(self) -> ReconciliationSide {
        match self {
            ReconciliationSide::Client => ReconciliationSide::Server,
            ReconciliationSide::Server => ReconciliationSide::Client,
        }
    }

    /// Returns the opposite side.
    pub fn rev(self) -> (r: Self)
        ensures
            r == self.other(),
    {
        match self {
            ReconciliationSide::Client => ReconciliationSide::Server,
            ReconciliationSide::Server => ReconciliationSide::Client,
        }
    }

    pub open spec fn replica(self) -> ReplicaSide {
        match self {
            ReconciliationSide::Client => ReplicaSide::Client,
            ReconciliationSide::Server => ReplicaSide::Server,
        }
    }
}

impl vstd::std_specs::convert::FromSpecImpl<ReconciliationSide> for ReplicaSide {
    open spec fn obeys_from_spec() -> bool {
        true
    }

    open spec fn from_spec(r: ReconciliationSide) -> ReplicaSide {
        r.replica()
    }
}

impl From<ReconciliationSide> for ReplicaSide {
    fn from(r: ReconciliationSide) -> (side: ReplicaSide) {
        match r {
            ReconciliationSide::Client => ReplicaSide::Client,
            ReconciliationSide::Server => ReplicaSide::Server,
        }
    }
}

/// Indicates how the ancestor replica is to be treated for
/// `Reconciliation::Split`.
#[derive(Clone, Copy, Debug, PartialEq, Eq, Structural)]
pub enum SplitAncestorState {
    /// Rename the ancestor to match the renamed replica (the new file will now
    /// look like a delete).
    Move,
    /// Remove the ancestor entirely (both files will look like creations).
    Delete,
}

/// Describes the end-state of the reconciliation of a single file.
#[derive(Clone, Copy, Debug, PartialEq, Eq, Structural)]
pub enum Reconciliation {
    /// The client and server are in-sync. The ancestor should be updated to
    /// match, if needed. If the file is a directory, recurse if it is dirty on
    /// the client or server.
    InSync,
    /// The client and server are not in-sync and are to be left that way. Take
    /// no action and do not recurse.
    Unsync,
    /// The client and server are not in-sync and are to be left that way, but
    /// this is due to a potentially unexpected situation. Warn the user if
    /// appropriate, but otherwise take no action and do not recurse.
    ///
    /// Changes are only considered "irreconcilable" if the sync mode would
    /// imply propagating changes, but does not permit any automatic
    /// resolution. For example, edit/edit conflicts are only irreconcilable if
    /// one of the update directions is enabled.
    Irreconcilable,
    /// Use either the client or the server state, setting the ancestor to
    /// match. If the file is a directory, recurse. If the file is to be
    /// deleted and is a directory, recurse and delete if empty after recursion
    /// completes.
    Use(ReconciliationSide),
    /// Rename the file on the given side to a new, unique name, then retry
    /// reconciliation. The ancestor may be unchanged, renamed, or deleted
    /// based on the second field.
    Split(ReconciliationSide, SplitAncestorState),
}

/// Indicates what kind of conflict, if any, was encountered during
/// reconciliation.
#[derive(Clone, Copy, Debug, PartialEq, Eq, Structural)]
pub enum Conflict {
    /// No conflict.
    NoConflict,
    /// The file was edited on one side and deleted on the other. The side
    /// which deleted is indicated in the value.
    EditDelete(ReconciliationSide),
    /// The file was edited on both sides. Fields are the edit types (relative
    /// to the ancestor) on client and server, respectively.
    EditEdit(ConflictingEdit, ConflictingEdit),
}

#[derive(Clone, Copy, Debug, PartialEq, Eq, Structural)]
pub enum ConflictingEdit {
    /// Only the mode of the file was changed relative to the ancestor, or the
    /// server and client agree on content but not mode.
    Mode,
    /// The content or type of the file was changed relative to the ancestor
    /// and the server and client do not agree on content.
    Content,
}

/// How to give `dst` the state `src`: a directory that something else is to
/// take the place of is moved out of the way first.
pub open spec fn replacement(
    dst: Option<FileModel>,
    dst_side: ReconciliationSide,
    src: Option<FileModel>,
) -> Reconciliation {
    if defs::opt_is_dir(dst) && src is Some && !defs::opt_is_dir(src) {
        Reconciliation::Split(dst_side, SplitAncestorState::Move)
    } else {
        Reconciliation::Use(dst_side.other())
    }
}

/// What becomes of a file that exists on one side only and has no ancestor.
/// `away` is the direction that leads away from the file.
pub open spec fn created(
    away: HalfSyncMode,
    toward: HalfSyncMode,
    propagate: Reconciliation,
    revert: Reconciliation,
) -> Reconciliation {
    if away.create.on() {
        propagate
    } else if toward.delete.force() {
        revert
    } else {
        Reconciliation::Unsync
    }
}

/// What becomes of a file that exists on one side and in the ancestor. `away`
/// is the direction that leads toward the file, from the side that lacks it.
pub open spec fn deleted(
    anc: FileModel,
    file: FileModel,
    deleted_side: ReconciliationSide,
    away: HalfSyncMode,
    toward: HalfSyncMode,
    propagate: Reconciliation,
    revert: Reconciliation,
) -> (Reconciliation, Conflict) {
    if anc.matches_content(file) {
        (
            if away.delete.on() {
                propagate
            } else if toward.create.force() {
                revert
            } else {
                Reconciliation::Unsync
            },
            Conflict::NoConflict,
        )
    } else {
        (
            if toward.create.on() {
                revert
            } else if away.delete.force() {
                propagate
            } else if away.delete.on() || toward.update.on() {
                Reconciliation::Irreconcilable
            } else {
                Reconciliation::Unsync
            },
            Conflict::EditDelete(deleted_side),
        )
    }
}

/// What becomes of two edits that cannot be merged.
pub open spec fn conflicting(mode: SyncMode) -> Reconciliation {
    if !mode.inbound.update.on() && !mode.outbound.update.on() {
        Reconciliation::Unsync
    } else if mode.inbound.create.on() && mode.outbound.create.on() {
        Reconciliation::Split(ReconciliationSide::Server, SplitAncestorState::Delete)
    } else {
        Reconciliation::Irreconcilable
    }
}

/// The first choice where its direction is on, else the second where its
/// direction is forced, else the third.
pub open spec fn prefer(
    first: SyncModeSetting,
    then_use: Reconciliation,
    second: SyncModeSetting,
    else_use: Reconciliation,
    otherwise: Reconciliation,
) -> Reconciliation {
    if first.on() {
        then_use
    } else if second.force() {
        else_use
    } else {
        otherwise
    }
}

/// Whether there is an ancestor for which `f` is in the relation `matches`.
pub open spec fn is_ancestor(a: Option<FileModel>, f: FileModel) -> bool {
    a matches Some(a) && a.matches(f)
}

/// Whether there is an ancestor with the content of `f`.
pub open spec fn is_ancestor_content(a: Option<FileModel>, f: FileModel) -> bool {
    a matches Some(a) && a.matches_content(f)
}

/// Whether the server's version is to be preferred where the two versions
/// differ in metadata alone.
pub open spec fn server_wins(c: FileModel, a: Option<FileModel>, s: FileModel) -> bool {
    is_ancestor(a, c) || (!is_ancestor(a, s) && s.newer_than(c))
}

/// What becomes of a file that exists on both sides in different versions.
pub open spec fn updated(
    c: FileModel,
    a: Option<FileModel>,
    s: FileModel,
    mode: SyncMode,
    use_client: Reconciliation,
    use_server: Reconciliation,
) -> (Reconciliation, Conflict) {
    let inbound = mode.inbound.update;
    let outbound = mode.outbound.update;
    if !c.matches(s) && c.matches_data(s) {
        (
            if server_wins(c, a, s) {
                prefer(inbound, use_server, outbound, use_client, Reconciliation::InSync)
            } else {
                prefer(outbound, use_client, inbound, use_server, Reconciliation::InSync)
            },
            Conflict::NoConflict,
        )
    } else if is_ancestor(a, c) {
        (
            prefer(inbound, use_server, outbound, use_client, Reconciliation::Unsync),
            Conflict::NoConflict,
        )
    } else if is_ancestor(a, s) {
        (
            prefer(outbound, use_client, inbound, use_server, Reconciliation::Unsync),
            Conflict::NoConflict,
        )
    } else if is_ancestor_content(a, c) && is_ancestor_content(a, s) {
        (
            if outbound.force() {
                use_client
            } else if inbound.force() {
                use_server
            } else if outbound.on() {
                use_client
            } else if inbound.on() {
                use_server
            } else {
                Reconciliation::Unsync
            },
            Conflict::EditEdit(ConflictingEdit::Mode, ConflictingEdit::Mode),
        )
    } else if is_ancestor_content(a, c) {
        (
            prefer(inbound, use_server, outbound, use_client, conflicting(mode)),
            Conflict::EditEdit(ConflictingEdit::Mode, ConflictingEdit::Content),
        )
    } else if is_ancestor_content(a, s) {
        (
            prefer(outbound, use_client, inbound, use_server, conflicting(mode)),
            Conflict::EditEdit(ConflictingEdit::Content, ConflictingEdit::Mode),
        )
    } else {
        (
            if inbound.force() && outbound.force() {
                if s.newer_than(c) {
                    use_server
                } else {
                    use_client
                }
            } else if inbound.force() {
                use_server
            } else if outbound.force() {
                use_client
            } else {
                conflicting(mode)
            },
            if c.matches_content(s) {
                Conflict::EditEdit(ConflictingEdit::Mode, ConflictingEdit::Mode)
            } else {
                Conflict::EditEdit(ConflictingEdit::Content, ConflictingEdit::Content)
            },
        )
    }
}

/// The reconciliation of a file triple, and the conflict that it shows.
pub open spec fn chosen(
    cli: Option<FileModel>,
    anc: Option<FileModel>,
    srv: Option<FileModel>,
    mode: SyncMode,
) -> (Reconciliation, Conflict) {
    let use_server = replacement(cli, ReconciliationSide::Client, srv);
    let use_client = replacement(srv, ReconciliationSide::Server, cli);
    match (cli, anc, srv) {
        (None, _, None) => (Reconciliation::InSync, Conflict::NoConflict),
        (Some(c), _, Some(s)) if c.matches(s) => (Reconciliation::InSync, Conflict::NoConflict),
        (Some(FileModel::Special), _, _) => (Reconciliation::Unsync, Conflict::NoConflict),
        (_, _, Some(FileModel::Special)) => (Reconciliation::Unsync, Conflict::NoConflict),
        (Some(_), None, None) => (
            created(mode.outbound, mode.inbound, use_client, use_server),
            Conflict::NoConflict,
        ),
        (None, None, Some(_)) => (
            created(mode.inbound, mode.outbound, use_server, use_client),
            Conflict::NoConflict,
        ),
        (Some(c), Some(a), None) => deleted(
            a,
            c,
            ReconciliationSide::Server,
            mode.inbound,
            mode.outbound,
            use_server,
            use_client,
        ),
        (None, Some(a), Some(s)) => deleted(
            a,
            s,
            ReconciliationSide::Client,
            mode.outbound,
            mode.inbound,
            use_client,
            use_server,
        ),
        (Some(c), a, Some(s)) => updated(c, a, s, mode, use_client, use_server),
    }
}

fn replace(
    dst_file: Option<&FileData>,
    dst_side: ReconciliationSide,
    src_file: Option<&FileData>,
) -> (r: Reconciliation)
    ensures
        r == replacement(defs::opt_view(dst_file), dst_side, defs::opt_view(src_file)),
{
    match (dst_file, src_file) {
        // If either side is nonexistent, we don't need anything special.
        (None, _) => Reconciliation::Use(dst_side.rev()),
        (_, None) => Reconciliation::Use(dst_side.rev()),
        // If the src is a directory, it doesn't matter what dst is. If not a
        // directory, it can be simply removed; if a directory, we merge the
        // two.
        (Some(_), Some(FileData::Directory(_))) => Reconciliation::Use(dst_side.rev()),
        // If the dst is a directory but src is not, we need to move dst out of
        // the way first and treat it like an edit/delete conflict, since we
        // can't (and don't want to) remove the whole thing atomically.
        (Some(FileData::Directory(_)), Some(_)) => Reconciliation::Split(
            dst_side,
            SplitAncestorState::Move,
        ),
        // Any pair of atomic files needs no special handling.
        (Some(_), Some(_)) => Reconciliation::Use(dst_side.rev()),
    }
}

fn create(
    away: HalfSyncMode,
    toward: HalfSyncMode,
    propagate: Reconciliation,
    revert: Reconciliation,
) -> (r: (Reconciliation, Conflict))
    ensures
        r == (created(away, toward, propagate, revert), Conflict::NoConflict),
{
    // Creation. If create is enabled away from the file, create the file on
    // the other side. Else, if force delete is enabled toward the file, delete
    // it; otherwise, desync.
    if away.create.on() {
        (propagate, Conflict::NoConflict)
    } else if toward.delete.force() {
        (revert, Conflict::NoConflict)
    } else {
        (Reconciliation::Unsync, Conflict::NoConflict)
    }
}

fn delete(
    anc: &FileData,
    file: &FileData,
    deleted_side: ReconciliationSide,
    away: HalfSyncMode,
    toward: HalfSyncMode,
    propagate: Reconciliation,
    revert: Reconciliation,
) -> (r: (Reconciliation, Conflict))
    ensures
        r == deleted(anc@, file@, deleted_side, away, toward, propagate, revert),
{
    // Deletion. If delete is enabled towards the existing file, delete it.
    // Else, if force create is enabled away from it, create it on the other
    // side; otherwise, desync. There are two cases for resurrection so that we
    // give force-create precedence over force-delete.
    //
    // Note that we don't count edit/delete conflicts as such when only the
    // mode has changed.
    if anc.matches_content(file) {
        let r = if away.delete.on() {
            propagate
        } else if toward.create.force() {
            revert
        } else {
            Reconciliation::Unsync
        };
        (r, Conflict::NoConflict)
    } else {
        let r = if toward.create.on() {
            revert
        } else if away.delete.force() {
            propagate
        } else if away.delete.on() || toward.update.on() {
            Reconciliation::Irreconcilable
        } else {
            Reconciliation::Unsync
        };
        (r, Conflict::EditDelete(deleted_side))
    }
}

fn matches_ancestor(a: Option<&FileData>, f: &FileData) -> (r: bool)
    ensures
        r == is_ancestor(defs::opt_view(a), f@),
{
    match a {
        Some(a) => a.matches(f),
        None => false,
    }
}

fn matches_ancestor_content(a: Option<&FileData>, f: &FileData) -> (r: bool)
    ensures
        r == is_ancestor_content(defs::opt_view(a), f@),
{
    match a {
        Some(a) => a.matches_content(f),
        None => false,
    }
}

fn choose_between(
    first: SyncModeSetting,
    use_first: Reconciliation,
    second: SyncModeSetting,
    use_second: Reconciliation,
    otherwise: Reconciliation,
) -> (r: Reconciliation)
    ensures
        r == prefer(first, use_first, second, use_second, otherwise),
{
    if first.on() {
        use_first
    } else if second.force() {
        use_second
    } else {
        otherwise
    }
}

fn update(
    c: &FileData,
    a: Option<&FileData>,
    s: &FileData,
    mode: SyncMode,
    use_client: Reconciliation,
    use_server: Reconciliation,
) -> (r: (Reconciliation, Conflict))
    ensures
        r == updated(c@, defs::opt_view(a), s@, mode, use_client, use_server),
{
    let inbound = mode.inbound.update;
    let outbound = mode.outbound.update;
    // What to do on an edit/edit conflict that can't be reconciled
    // automatically.
    let need_split = if inbound.on() || outbound.on() {
        if mode.inbound.create.on() && mode.outbound.create.on() {
            // We're allowed to create files on both sides, so rename the
            // server file and keep both versions.
            Reconciliation::Split(ReconciliationSide::Server, SplitAncestorState::Delete)
        } else {
            // Not allowed to create files, so we can't do anything.
            Reconciliation::Irreconcilable
        }
    } else {
        // Update conflicts are of no interest because updates are disabled.
        Reconciliation::Unsync
    };
    let c_is_anc = matches_ancestor(a, c);
    let s_is_anc = matches_ancestor(a, s);
    let c_has_anc = matches_ancestor_content(a, c);
    let s_has_anc = matches_ancestor_content(a, s);
    if !c.matches(s) && c.matches_data(s) {
        // If the client and server agree other than metadata, pick the one
        // that disagrees with the ancestor, or the one that is newer if they
        // both disagree.
        let server_wins = if c_is_anc {
            true
        } else if s_is_anc {
            false
        } else {
            s.newer_than(c)
        };
        // If we can't reconcile, simply leave as-is since it's just metadata.
        // We also don't report the conflict.
        let r = if server_wins {
            choose_between(inbound, use_server, outbound, use_client, Reconciliation::InSync)
        } else {
            choose_between(outbound, use_client, inbound, use_server, Reconciliation::InSync)
        };
        (r, Conflict::NoConflict)
    } else if c_is_anc {
        // No conflict if one side agrees with the ancestor. As with creates
        // and deletes, force settings revert the updated side instead.
        (
            choose_between(inbound, use_server, outbound, use_client, Reconciliation::Unsync),
            Conflict::NoConflict,
        )
    } else if s_is_anc {
        (
            choose_between(outbound, use_client, inbound, use_server, Reconciliation::Unsync),
            Conflict::NoConflict,
        )
    } else if c_has_anc && s_has_anc {
        // If both sides disagree about mode but not content, propagate the
        // mode whichever direction we can, preferring the client.
        let r = match (inbound, outbound) {
            (_, SyncModeSetting::Force) => use_client,
            (SyncModeSetting::Force, _) => use_server,
            (_, SyncModeSetting::On) => use_client,
            (SyncModeSetting::On, _) => use_server,
            _ => Reconciliation::Unsync,
        };
        (r, Conflict::EditEdit(ConflictingEdit::Mode, ConflictingEdit::Mode))
    } else if c_has_anc {
        // If one side changes the mode and the other side changes the content,
        // prefer the content side unless force overrides.
        (
            choose_between(inbound, use_server, outbound, use_client, need_split),
            Conflict::EditEdit(ConflictingEdit::Mode, ConflictingEdit::Content),
        )
    } else if s_has_anc {
        (
            choose_between(outbound, use_client, inbound, use_server, need_split),
            Conflict::EditEdit(ConflictingEdit::Content, ConflictingEdit::Mode),
        )
    } else {
        // Both files have changed content, though possibly to the same.
        let r = match (inbound, outbound) {
            // Force+Force = use newer, break ties with client
            (SyncModeSetting::Force, SyncModeSetting::Force) => if s.newer_than(c) {
                use_server
            } else {
                use_client
            },
            (SyncModeSetting::Force, _) => use_server,
            (_, SyncModeSetting::Force) => use_client,
            _ => need_split,
        };
        let edit = if c.matches_content(s) {
            ConflictingEdit::Mode
        } else {
            ConflictingEdit::Content
        };
        (r, Conflict::EditEdit(edit, edit))
    }
}

/// Determines the abstract reconciliation path for the given file triple and
/// sync mode.
///
/// Whether the caller should recurse is determined by the reconciliation type
/// and whether the file in question is actually a directory.
///
/// This function will never suggest to simply replace a directory with
/// something that is not a directory; it will instead indicate to rename the
/// existing directory first via `Reconciliation::Split`.
pub fn choose_reconciliation(
    cli: Option<&FileData>,
    anc: Option<&FileData>,
    srv: Option<&FileData>,
    mode: SyncMode,
) -> (r: (Reconciliation, Conflict))
    ensures
        r == chosen(defs::opt_view(cli), defs::opt_view(anc), defs::opt_view(srv), mode),
{
    let use_server = replace(cli, ReconciliationSide::Client, srv);
    let use_client = replace(srv, ReconciliationSide::Server, cli);
    match (cli, anc, srv) {
        // Trivial: If the server and client agree already, they're in-sync.
        (None, _, None) => (Reconciliation::InSync, Conflict::NoConflict),
        (Some(c), _, Some(s)) if c.matches(s) => (Reconciliation::InSync, Conflict::NoConflict),
        // We never do anything with special files
        (Some(FileData::Special), _, _) => (Reconciliation::Unsync, Conflict::NoConflict),
        (_, _, Some(FileData::Special)) => (Reconciliation::Unsync, Conflict::NoConflict),
        (Some(_), None, None) => create(mode.outbound, mode.inbound, use_client, use_server),
        (None, None, Some(_)) => create(mode.inbound, mode.outbound, use_server, use_client),
        (Some(c), Some(a), None) => delete(
            a,
            c,
            ReconciliationSide::Server,
            mode.inbound,
            mode.outbound,
            use_server,
            use_client,
        ),
        (None, Some(a), Some(s)) => delete(
            a,
            s,
            ReconciliationSide::Client,
            mode.outbound,
            mode.inbound,
            use_client,
            use_server,
        ),
        (Some(c), a, Some(s)) => update(c, a, s, mode, use_client, use_server),
    }
}

/// With nothing propagated in either direction, a file is either in sync or
/// left as it is.
pub proof fn law_null_mode(
    c: Option<FileModel>,
    a: Option<FileModel>,
    s: Option<FileModel>,
    mode: SyncMode,
)
    requires
        mode.inbound == crate::rules::uniform(SyncModeSetting::Off),
        mode.outbound == crate::rules::uniform(SyncModeSetting::Off),
    ensures
        chosen(c, a, s, mode).0 == Reconciliation::InSync || chosen(c, a, s, mode).0
            == Reconciliation::Unsync,
{
}

/// With nothing propagated to the client, no reconciliation modifies the
/// client.
pub proof fn law_client_untouched(
    c: Option<FileModel>,
    a: Option<FileModel>,
    s: Option<FileModel>,
    mode: SyncMode,
)
    requires
        mode.inbound == crate::rules::uniform(SyncModeSetting::Off),
    ensures
        match chosen(c, a, s, mode).0 {
            Reconciliation::Use(side) => side == ReconciliationSide::Client,
            Reconciliation::Split(side, _) => side == ReconciliationSide::Server,
            _ => true,
        },
{
}

/// With nothing propagated to the server, no reconciliation modifies the
/// server.
pub proof fn law_server_untouched(
    c: Option<FileModel>,
    a: Option<FileModel>,
    s: Option<FileModel>,
    mode: SyncMode,
)
    requires
        mode.outbound == crate::rules::uniform(SyncModeSetting::Off),
    ensures
        match chosen(c, a, s, mode).0 {
            Reconciliation::Use(side) => side == ReconciliationSide::Server,
            Reconciliation::Split(side, _) => side == ReconciliationSide::Client,
            _ => true,
        },
{
}

/// With everything forced outbound, every file but a special one is made to
/// look as on the client.
pub proof fn law_outbound_force(
    c: Option<FileModel>,
    a: Option<FileModel>,
    s: Option<FileModel>,
    mode: SyncMode,
)
    requires
        mode.inbound == crate::rules::uniform(SyncModeSetting::Off),
        mode.outbound == crate::rules::uniform(SyncModeSetting::Force),
        c != Some(FileModel::Special),
        s != Some(FileModel::Special),
    ensures
        match chosen(c, a, s, mode).0 {
            Reconciliation::InSync => c == s || (c matches Some(c) && s matches Some(s)
                && c.matches(s)),
            Reconciliation::Use(side) => side == ReconciliationSide::Client,
            Reconciliation::Split(side, _) => side == ReconciliationSide::Server,
            _ => false,
        },
{
}

/// A directory is never simply replaced by something that is not a directory,
/// other than by its removal: where `Use` would do so, the directory is split
/// off first.
pub proof fn law_directories_not_overwritten(
    c: Option<FileModel>,
    a: Option<FileModel>,
    s: Option<FileModel>,
    mode: SyncMode,
)
    ensures
        chosen(c, a, s, mode).0 == Reconciliation::Use(ReconciliationSide::Client)
            && defs::opt_is_dir(s) ==> c is None || defs::opt_is_dir(c),
        chosen(c, a, s, mode).0 == Reconciliation::Use(ReconciliationSide::Server)
            && defs::opt_is_dir(c) ==> s is None || defs::opt_is_dir(s),
{
}

/// A file is split off only where both sides have one.
pub proof fn law_split_needs_both(
    c: Option<FileModel>,
    a: Option<FileModel>,
    s: Option<FileModel>,
    mode: SyncMode,
)
    ensures
        chosen(c, a, s, mode).0 is Split ==> c is Some && s is Some,
{
}

/// Special files are never touched.
pub proof fn law_special_untouched(
    c: Option<FileModel>,
    a: Option<FileModel>,
    s: Option<FileModel>,
    mode: SyncMode,
)
    requires
        c == Some(FileModel::Special) || s == Some(FileModel::Special),
    ensures
        chosen(c, a, s, mode).0 == Reconciliation::InSync || chosen(c, a, s, mode).0
            == Reconciliation::Unsync,
        chosen(c, a, s, mode).1 == Conflict::NoConflict,
{
}

/// A conflict is reported only where there is something to be lost: an edit
/// against a deletion, or two different edits of one file.
pub proof fn law_conflicts(
    c: Option<FileModel>,
    a: Option<FileModel>,
    s: Option<FileModel>,
    mode: SyncMode,
)
    ensures
        match chosen(c, a, s, mode).1 {
            Conflict::NoConflict => true,
            Conflict::EditDelete(ReconciliationSide::Client) => c is None && (a matches Some(x)
                && s matches Some(y) && !x.matches_content(y)),
            Conflict::EditDelete(ReconciliationSide::Server) => s is None && (a matches Some(x)
                && c matches Some(y) && !x.matches_content(y)),
            Conflict::EditEdit(_, _) => c matches Some(x) && s matches Some(y)
                && !x.matches_data(y) && !is_ancestor(a, x) && !is_ancestor(a, y),
        },
{
}

/// In a mode without force, no edit is overwritten: a version that a `Use`
/// replaces or deletes has the content of the ancestor, or that of the version
/// that replaces it.
pub proof fn law_unforced_keeps_edits(
    c: Option<FileModel>,
    a: Option<FileModel>,
    s: Option<FileModel>,
    mode: SyncMode,
)
    requires
        !mode.inbound.create.force() && !mode.inbound.update.force()
            && !mode.inbound.delete.force(),
        !mode.outbound.create.force() && !mode.outbound.update.force()
            && !mode.outbound.delete.force(),
    ensures
        match chosen(c, a, s, mode).0 {
            Reconciliation::Use(ReconciliationSide::Client) => s matches Some(x)
                ==> is_ancestor_content(a, x) || (c matches Some(y) && y.matches_content(x)),
            Reconciliation::Use(ReconciliationSide::Server) => c matches Some(x)
                ==> is_ancestor_content(a, x) || (s matches Some(y) && y.matches_content(x)),
            _ => true,
        },
{
}

/// The mode with its two directions exchanged.
pub open spec fn mirrored(mode: SyncMode) -> SyncMode {
    SyncMode { inbound: mode.outbound, outbound: mode.inbound }
}

/// The reconciliation with the two sides exchanged.
pub open spec fn mirrored_choice(r: Reconciliation) -> Reconciliation {
    match r {
        Reconciliation::Use(side) => Reconciliation::Use(side.other()),
        Reconciliation::Split(side, st) => Reconciliation::Split(side.other(), st),
        _ => r,
    }
}

/// Client and server are treated alike: exchanging the two exchanges them in
/// the result. What is left out is where a tie has to be broken: the server's
/// version is the one renamed where both are kept, the client's mode is the
/// one kept where both directions are set alike, and the client's version is
/// the one kept where both are forced and neither is newer.
pub proof fn law_symmetric(
    c: Option<FileModel>,
    a: Option<FileModel>,
    s: Option<FileModel>,
    mode: SyncMode,
)
    requires
        chosen(c, a, s, mode).0 != Reconciliation::Split(
            ReconciliationSide::Server,
            SplitAncestorState::Delete,
        ),
        chosen(c, a, s, mode).1 == Conflict::EditEdit(ConflictingEdit::Mode, ConflictingEdit::Mode)
            ==> mode.inbound.update != mode.outbound.update || !mode.inbound.update.on(),
        chosen(c, a, s, mode).1 == Conflict::EditEdit(
            ConflictingEdit::Content,
            ConflictingEdit::Content,
        ) && mode.inbound.update.force() && mode.outbound.update.force() ==> c->0.newer_than(s->0)
            || s->0.newer_than(c->0),
    ensures
        chosen(s, a, c, mirrored(mode)).0 == mirrored_choice(chosen(c, a, s, mode).0),
{
    if let (Some(x), Some(y)) = (c, s) {
        if x.matches(y) || x == FileModel::Special || y == FileModel::Special {
        } else if x.matches_data(y) {
            assert(chosen(c, a, s, mode).1 == Conflict::NoConflict);
            assert(x.newer_than(y) != y.newer_than(x));
        } else {
            lemma_symmetric_update(x, a, y, mode);
        }
    }
}

proof fn lemma_symmetric_update(x: FileModel, a: Option<FileModel>, y: FileModel, mode: SyncMode)
    requires
        !x.matches_data(y),
        x != FileModel::Special,
        y != FileModel::Special,
        chosen(Some(x), a, Some(y), mode).0 != Reconciliation::Split(
            ReconciliationSide::Server,
            SplitAncestorState::Delete,
        ),
        chosen(Some(x), a, Some(y), mode).1 == Conflict::EditEdit(
            ConflictingEdit::Mode,
            ConflictingEdit::Mode,
        ) ==> mode.inbound.update != mode.outbound.update || !mode.inbound.update.on(),
        chosen(Some(x), a, Some(y), mode).1 == Conflict::EditEdit(
            ConflictingEdit::Content,
            ConflictingEdit::Content,
        ) && mode.inbound.update.force() && mode.outbound.update.force() ==> x.newer_than(y)
            || y.newer_than(x),
    ensures
        chosen(Some(y), a, Some(x), mirrored(mode)).0 == mirrored_choice(
            chosen(Some(x), a, Some(y), mode).0,
        ),
{
    let uc = replacement(Some(y), ReconciliationSide::Server, Some(x));
    let us = replacement(Some(x), ReconciliationSide::Client, Some(y));
    let m = mirrored(mode);
    assert(chosen(Some(x), a, Some(y), mode) == updated(x, a, y, mode, uc, us));
    assert(chosen(Some(y), a, Some(x), m) == updated(
        y,
        a,
        x,
        m,
        mirrored_choice(us),
        mirrored_choice(uc),
    ));
    assert(!(is_ancestor(a, x) && is_ancestor(a, y)));
    if is_ancestor(a, x) {
    } else if is_ancestor(a, y) {
    } else if is_ancestor_content(a, x) && is_ancestor_content(a, y) {
    } else if is_ancestor_content(a, x) {
    } else if is_ancestor_content(a, y) {
    } else {
    }
}

/// Exchanging the sides twice gives back what there was.
pub proof fn law_rev(side: ReconciliationSide)
    ensures
        side.other().other() == side,
        side.other() != side,
{
}

/// The setting by which a change of a file is propagated.
pub open spec fn governing(
    m: HalfSyncMode,
    before: Option<FileModel>,
    after: Option<FileModel>,
) -> SyncModeSetting {
    match (before, after) {
        (None, _) => m.create,
        (_, None) => m.delete,
        _ => m.update,
    }
}

/// The direction that leads away from a side.
pub open spec fn leaving(mode: SyncMode, side: ReconciliationSide) -> HalfSyncMode {
    match side {
        ReconciliationSide::Client => mode.outbound,
        ReconciliationSide::Server => mode.inbound,
    }
}

/// What is chosen where the side `side` has `mine` and the other has `theirs`.
pub open spec fn choice_for(
    side: ReconciliationSide,
    mine: Option<FileModel>,
    a: Option<FileModel>,
    theirs: Option<FileModel>,
    mode: SyncMode,
) -> (Reconciliation, Conflict) {
    match side {
        ReconciliationSide::Client => chosen(mine, a, theirs, mode),
        ReconciliationSide::Server => chosen(theirs, a, mine, mode),
    }
}

/// Whether the version `winner` of the side `side` is to take the place of the
/// version `loser` of the other side. A directory is moved out of the way of
/// anything else, so that nothing in it is lost.
pub open spec fn prevails(
    r: Reconciliation,
    side: ReconciliationSide,
    winner: Option<FileModel>,
    loser: Option<FileModel>,
) -> bool {
    if loser is Some && loser->0 is Directory && winner is Some && winner->0 !is Directory {
        r == Reconciliation::Split(side.other(), SplitAncestorState::Move)
    } else {
        r == Reconciliation::Use(side)
    }
}

/// Whether a side has what the ancestor has, as far as a change on the other side
/// goes: where the other side has deleted the file, another mode or modification
/// time does not count.
pub open spec fn kept_as(
    a: Option<FileModel>,
    kept: Option<FileModel>,
    changed: Option<FileModel>,
) -> bool {
    match (a, kept) {
        (None, None) => true,
        (Some(x), Some(y)) => x.matches(y) || (changed is None && x.matches_content(y)),
        _ => false,
    }
}

/// Whether there is a file that is not special.
pub open spec fn not_special(f: Option<FileModel>) -> bool {
    f != Some(FileModel::Special)
}

/// Where two sides have the same, or nothing at all, there is nothing to be done
/// but to bring the ancestor up to date, whatever the mode. Where there is
/// nothing to be done, they differ in the modification time at most.
pub proof fn law_in_sync(
    c: Option<FileModel>,
    a: Option<FileModel>,
    s: Option<FileModel>,
    mode: SyncMode,
)
    ensures
        c == s ==> chosen(c, a, s, mode) == (Reconciliation::InSync, Conflict::NoConflict),
        c matches Some(x) && s matches Some(y) && x.matches(y) ==> chosen(c, a, s, mode) == (
            Reconciliation::InSync,
            Conflict::NoConflict,
        ),
        chosen(c, a, s, mode).0 == Reconciliation::InSync ==> c == s || (c matches Some(x)
            && s matches Some(y) && x.matches_data(y)),
        !not_special(c) || !not_special(s) ==> chosen(c, a, s, mode).0 == (if c == s {
            Reconciliation::InSync
        } else {
            Reconciliation::Unsync
        }),
{
}

/// A change on one side only, where the other side has what the ancestor has, is
/// propagated if changes of its kind are on in the direction that leads away from
/// it: whatever type of file is created, changed or deleted. Else it is undone if
/// the change that undoes it is forced in the other direction. Else both sides
/// stay as they are. There is never a conflict.
pub proof fn law_one_sided_change(
    side: ReconciliationSide,
    changed: Option<FileModel>,
    a: Option<FileModel>,
    kept: Option<FileModel>,
    mode: SyncMode,
)
    requires
        not_special(changed) && not_special(kept),
        kept_as(a, kept, changed),
        changed is Some || kept is Some,
        changed is Some && kept is Some ==> !changed->0.matches(kept->0),
    ensures
        ({
            let (r, conflict) = choice_for(side, changed, a, kept, mode);
            let on = governing(leaving(mode, side), a, changed).on();
            let undone = governing(leaving(mode, side.other()), changed, a).force();
            &&& conflict == Conflict::NoConflict
            &&& on ==> prevails(r, side, changed, kept)
            &&& !on && undone ==> prevails(r, side.other(), kept, changed)
            &&& !on && !undone ==> r == (if changed matches Some(x) && kept matches Some(y)
                && x.matches_data(y) {
                Reconciliation::InSync
            } else {
                Reconciliation::Unsync
            })
        }),
{
}

/// In a mode where everything is on in both directions, a version that is the
/// ancestor's never overrides a change on the other side, be it an edit or a
/// deletion.
pub proof fn law_changes_prevail(
    side: ReconciliationSide,
    changed: Option<FileModel>,
    a: Option<FileModel>,
    kept: Option<FileModel>,
    mode: SyncMode,
)
    requires
        not_special(changed) && not_special(kept),
        kept_as(a, kept, changed),
        changed is Some || kept is Some,
        changed is Some && kept is Some ==> !changed->0.matches(kept->0),
        forall|before: Option<FileModel>, after: Option<FileModel>|
            (#[trigger] governing(mode.inbound, before, after)).on(),
        forall|before: Option<FileModel>, after: Option<FileModel>|
            (#[trigger] governing(mode.outbound, before, after)).on(),
    ensures
        prevails(choice_for(side, changed, a, kept, mode).0, side, changed, kept),
{
    law_one_sided_change(side, changed, a, kept, mode);
    assert(governing(mode.inbound, a, changed).on());
    assert(governing(mode.outbound, a, changed).on());
}

/// A file that was edited on one side and deleted on the other is a conflict. The
/// edit prevails if the file may be created anew in the direction that leads away
/// from it; it is only lost to a deletion that is forced. Else both sides stay as
/// they are, which is unexpected if either change would have been propagated by
/// itself.
pub proof fn law_edit_and_delete(
    side: ReconciliationSide,
    edited: FileModel,
    a: FileModel,
    mode: SyncMode,
)
    requires
        edited != FileModel::Special,
        !a.matches_content(edited),
    ensures
        ({
            let (r, conflict) = choice_for(side, Some(edited), Some(a), None, mode);
            let along = leaving(mode, side);
            let back = leaving(mode, side.other());
            &&& conflict == Conflict::EditDelete(side.other())
            &&& along.create.on() ==> r == Reconciliation::Use(side)
            &&& !along.create.on() && back.delete.force() ==> r == Reconciliation::Use(
                side.other(),
            )
            &&& !along.create.on() && !back.delete.force() ==> r == (if back.delete.on()
                || along.update.on() {
                Reconciliation::Irreconcilable
            } else {
                Reconciliation::Unsync
            })
        }),
{
}

/// How strongly something is set.
pub open spec fn strength(x: SyncModeSetting) -> int {
    match x {
        SyncModeSetting::Off => 0,
        SyncModeSetting::On => 1,
        SyncModeSetting::Force => 2,
    }
}

/// Whether both sides have edited a file, each in its own way, so that more than
/// the modification time differs.
pub open spec fn both_edited(c: FileModel, a: Option<FileModel>, s: FileModel) -> bool {
    &&& c != FileModel::Special && s != FileModel::Special
    &&& !c.matches_data(s)
    &&& a matches Some(x) ==> !x.matches(c) && !x.matches(s)
}

/// Whether a side still has the content of the ancestor.
pub open spec fn same_content(a: Option<FileModel>, f: FileModel) -> bool {
    a matches Some(x) && x.matches_content(f)
}

/// Two edits of a file are a conflict, and there is none else where both sides
/// have the file. What has been edited is the mode on a side that still has the
/// content of the ancestor, and on both where their contents are the same.
pub proof fn law_two_edits_conflict(
    c: FileModel,
    a: Option<FileModel>,
    s: FileModel,
    mode: SyncMode,
)
    ensures
        chosen(Some(c), a, Some(s), mode).1 != Conflict::NoConflict <==> both_edited(c, a, s),
        both_edited(c, a, s) ==> (chosen(Some(c), a, Some(s), mode).1 matches Conflict::EditEdit(
            x,
            y,
        ) && {
            &&& x == ConflictingEdit::Mode <==> same_content(a, c) || c.matches_content(s)
            &&& y == ConflictingEdit::Mode <==> same_content(a, s) || c.matches_content(s)
        }),
{
}

/// Where both sides have edited nothing but the mode, the mode is propagated in
/// the direction that is set more strongly, and from the client if both are set
/// alike.
pub proof fn law_two_modes(c: FileModel, a: FileModel, s: FileModel, mode: SyncMode)
    requires
        both_edited(c, Some(a), s),
        a.matches_content(c) && a.matches_content(s),
    ensures
        ({
            let r = chosen(Some(c), Some(a), Some(s), mode).0;
            let (i, o) = (strength(mode.inbound.update), strength(mode.outbound.update));
            &&& i > o ==> r == Reconciliation::Use(ReconciliationSide::Server)
            &&& o > 0 && o >= i ==> r == Reconciliation::Use(ReconciliationSide::Client)
            &&& i == 0 && o == 0 ==> r == Reconciliation::Unsync
        }),
{
}

/// Where neither of two edits can be chosen, both are kept under different names
/// if files may be created in both directions; if not, that is unexpected unless
/// no updates are propagated at all.
pub open spec fn both_kept(r: Reconciliation, mode: SyncMode) -> bool {
    if strength(mode.inbound.update) + strength(mode.outbound.update) == 0 {
        r == Reconciliation::Unsync
    } else if strength(mode.inbound.create) > 0 && strength(mode.outbound.create) > 0 {
        r == Reconciliation::Split(ReconciliationSide::Server, SplitAncestorState::Delete)
    } else {
        r == Reconciliation::Irreconcilable
    }
}

/// Where one side has edited the content and the other nothing but the mode, the
/// content prevails if updates are on in the direction that leads away from it;
/// else the mode does, but only if it is forced; else both are kept.
pub proof fn law_content_over_mode(
    side: ReconciliationSide,
    content: FileModel,
    a: FileModel,
    only_mode: FileModel,
    mode: SyncMode,
)
    requires
        both_edited(content, Some(a), only_mode),
        a.matches_content(only_mode),
        !a.matches_content(content),
    ensures
        ({
            let r = choice_for(side, Some(content), Some(a), Some(only_mode), mode).0;
            let along = leaving(mode, side).update;
            let back = leaving(mode, side.other()).update;
            &&& along.on() ==> prevails(r, side, Some(content), Some(only_mode))
            &&& !along.on() && back.force() ==> prevails(
                r,
                side.other(),
                Some(only_mode),
                Some(content),
            )
            &&& !along.on() && !back.force() ==> both_kept(r, mode)
        }),
{
}

/// Where both sides have edited the content, or there is no ancestor to tell,
/// only force chooses between them: the direction that is forced, and if both are,
/// the newer version, or that of the client if neither is newer. Else both are
/// kept.
pub proof fn law_two_contents(c: FileModel, a: Option<FileModel>, s: FileModel, mode: SyncMode)
    requires
        both_edited(c, a, s),
        !same_content(a, c) && !same_content(a, s),
    ensures
        ({
            let r = chosen(Some(c), a, Some(s), mode).0;
            let (i, o) = (mode.inbound.update.force(), mode.outbound.update.force());
            let newer = s.newer_than(c);
            &&& i && (newer || !o) ==> prevails(r, ReconciliationSide::Server, Some(s), Some(c))
            &&& o && (!newer || !i) ==> prevails(r, ReconciliationSide::Client, Some(c), Some(s))
            &&& !i && !o ==> both_kept(r, mode)
        }),
{
}

/// Where the two sides differ in the modification time alone and neither has that
/// of the ancestor, the newer version is propagated if updates are on in its
/// direction; else the older one is, but only if it is forced; else both stay as
/// they are, which counts as in sync.
pub proof fn law_two_times(
    side: ReconciliationSide,
    newer: FileModel,
    a: Option<FileModel>,
    older: FileModel,
    mode: SyncMode,
)
    requires
        newer.matches_data(older),
        newer.newer_than(older),
        a matches Some(x) ==> !x.matches(newer) && !x.matches(older),
    ensures
        ({
            let (r, conflict) = choice_for(side, Some(newer), a, Some(older), mode);
            let along = leaving(mode, side).update;
            let back = leaving(mode, side.other()).update;
            &&& conflict == Conflict::NoConflict
            &&& along.on() ==> r == Reconciliation::Use(side)
            &&& !along.on() && back.force() ==> r == Reconciliation::Use(side.other())
            &&& !along.on() && !back.force() ==> r == Reconciliation::InSync
        }),
{
}

/// The index of the last `b` in `s` is that of one, and there is none after it.
pub proof fn law_last_at(s: Seq<u8>, b: u8)
    ensures
        -1 <= last_at(s, b) < s.len(),
        last_at(s, b) >= 0 ==> s[last_at(s, b)] == b,
        forall|i: int| last_at(s, b) < i < s.len() ==> s[i] != b,
    decreases s.len(),
{
    if s.len() > 0 && s.last() != b {
        law_last_at(s.drop_last(), b);
        assert forall|i: int| last_at(s, b) < i < s.len() implies s[i] != b by {
            if i < s.len() - 1 {
                assert(s.drop_last()[i] != b);
            }
        }
    }
}

/// An alternate name begins with the stem of the name up to its last tilde, or
/// with all of the stem and a tilde; then comes a number; and it ends with the
/// extension, which holds one dot and begins with it. A name that begins with
/// its only dot has no extension.
pub proof fn law_alternate_parts(n: Seq<u8>, stem: Seq<u8>, extension: Seq<u8>, k: nat)
    requires
        n == stem + extension,
        extension.len() > 0 ==> stem.len() > 0 && extension[0] == DOT,
        forall|i: int| 1 <= i < extension.len() ==> extension[i] != DOT,
        extension.len() == 0 ==> forall|i: int| 1 <= i < stem.len() ==> stem[i] != DOT,
    ensures
        !stem.contains(TILDE) ==> alternate(n, k) == stem.push(TILDE) + text::digit_bytes(k)
            + extension,
        forall|i: int|
            0 <= i < stem.len() && stem[i] == TILDE && (forall|j: int|
                i < j < stem.len() ==> stem[j] != TILDE) ==> alternate(n, k) == #[trigger] stem.take(
                i + 1,
            ) + text::digit_bytes(k) + extension,
{
    law_last_at(n, DOT);
    let at = last_at(n, DOT);
    if extension.len() > 0 {
        assert(n[stem.len() as int] == DOT);
        if at > stem.len() {
            assert(extension[at - stem.len()] == DOT);
        }
        assert(at == stem.len());
    } else {
        assert(n =~= stem);
    }
    assert(extension_at(n) == stem.len());
    assert(n.take(extension_at(n)) =~= stem);
    assert(n.skip(extension_at(n)) =~= extension);
    law_last_at(stem, TILDE);
    let tilde = last_at(stem, TILDE);
    if tilde >= 0 {
        assert(stem.contains(stem[tilde]));
    }
    assert forall|i: int|
        0 <= i < stem.len() && stem[i] == TILDE && (forall|j: int|
            i < j < stem.len() ==> stem[j] != TILDE) implies alternate(n, k) == #[trigger] stem.take(
        i + 1,
    ) + text::digit_bytes(k) + extension by {
        assert(tilde == i);
    }
}

/// A file can be given an alternate name exactly if its name leads, as a path, to the
/// file itself.
pub proof fn law_plain_name(n: Seq<u8>)
    ensures
        plain_name(n) <==> path::file_name_of(n) == Some(n),
{
    path::law_own_name(n);
    if plain_name(n) {
        assert forall|i: int| 0 <= i < n.len() implies n[i] != path::SEPARATOR by {
            assert(n.contains(n[i]));
        }
    }
}

} // verus!
