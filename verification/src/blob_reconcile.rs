//! Reconciling directories that are stored as blobs.

use vstd::prelude::*;

use crate::bytes;
use crate::bytes::Name;
use crate::defs::HashId;
use crate::errors::{Error, ErrorKind};
use crate::mutator;
use crate::mutator::{
    Call, DirPtr, DirPtrType, Location, MutationError, MutationResult, Mutator, PtrModel,
};
use crate::rules::SyncMode;
use crate::table::NameMap;
use crate::text;

verus! {

/// What is done about one name.
#[derive(Clone, Copy, Debug, PartialEq, Eq, Structural)]
pub enum Reconciliation {
    Nop,
    Download,
    Upload,
    DeleteClient,
    DeleteServer,
    Recurse,
    Conflict,
}

/// What has happened to one name.
pub enum Change {
    Nop,
    Conflict,
    CreateOut,
    CreateIn,
    UpdateOut,
    UpdateIn,
    DeleteOut,
    DeleteIn,
}

/// An entry in the client, the ancestor and the server.
pub struct SyncTriple {
    pub client: Option<DirPtr>,
    pub ancestor: Option<DirPtr>,
    pub server: Option<DirPtr>,
}

/// What has happened to a name. Edit/delete conflicts are resolved via
/// resurrection.
pub open spec fn change(
    client: Option<PtrModel>,
    ancestor: Option<PtrModel>,
    server: Option<PtrModel>,
) -> Change {
    match (client, server) {
        (None, None) => Change::Nop,
        (Some(cli), None) => if ancestor is Some && cli.matches(ancestor->0) {
            Change::DeleteIn
        } else {
            Change::CreateOut
        },
        (None, Some(srv)) => if ancestor is Some && srv.matches(ancestor->0) {
            Change::DeleteOut
        } else {
            Change::CreateIn
        },
        (Some(cli), Some(srv)) => if cli.matches(srv) {
            Change::Nop
        } else if ancestor is Some && cli.matches(ancestor->0) {
            Change::UpdateIn
        } else if ancestor is Some && srv.matches(ancestor->0) {
            Change::UpdateOut
        } else {
            Change::Conflict
        },
    }
}

/// Whether an entry is a directory if there is one.
pub open spec fn dir_or_none(p: Option<PtrModel>) -> bool {
    p matches Some(p) ==> p.typ == DirPtrType::Directory
}

/// What is done about a name.
pub open spec fn plan(
    client: Option<PtrModel>,
    ancestor: Option<PtrModel>,
    server: Option<PtrModel>,
    mode: SyncMode,
) -> Reconciliation {
    let is_dir = dir_or_none(client) && dir_or_none(server);
    match change(client, ancestor, server) {
        Change::Nop => Reconciliation::Nop,
        Change::UpdateIn => if is_dir {
            Reconciliation::Recurse
        } else {
            when(mode.inbound.update.on(), Reconciliation::Download)
        },
        Change::UpdateOut => if is_dir {
            Reconciliation::Recurse
        } else {
            when(mode.outbound.update.on(), Reconciliation::Upload)
        },
        Change::Conflict => if is_dir {
            Reconciliation::Recurse
        } else if mode.inbound.update.on() && mode.outbound.update.on() {
            Reconciliation::Conflict
        } else if mode.inbound.update.on() {
            Reconciliation::Download
        } else {
            when(mode.outbound.update.on(), Reconciliation::Upload)
        },
        Change::CreateOut => when(mode.outbound.create.on(), Reconciliation::Upload),
        Change::CreateIn => when(mode.inbound.create.on(), Reconciliation::Download),
        Change::DeleteOut => when(mode.outbound.delete.on(), Reconciliation::DeleteServer),
        Change::DeleteIn => when(mode.inbound.delete.on(), Reconciliation::DeleteClient),
    }
}

/// `r` if that is permitted.
pub open spec fn when(permitted: bool, r: Reconciliation) -> Reconciliation {
    if permitted {
        r
    } else {
        Reconciliation::Nop
    }
}

fn if_permitted(permitted: bool, r: Reconciliation) -> (x: Reconciliation)
    ensures
        x == when(permitted, r),
{
    if permitted {
        r
    } else {
        Reconciliation::Nop
    }
}

fn is_dir_or_none(p: &Option<DirPtr>) -> (r: bool)
    ensures
        r == dir_or_none(mutator::ptr(*p)),
{
    match p {
        Some(p) => match p.typ {
            DirPtrType::Directory => true,
            _ => false,
        },
        None => true,
    }
}

fn calc_change(inn: &SyncTriple) -> (r: Change)
    ensures
        r == change(
            mutator::ptr(inn.client),
            mutator::ptr(inn.ancestor),
            mutator::ptr(inn.server),
        ),
{
    let unchanged = |p: &DirPtr| -> (b: bool)
        ensures
            b == (inn.ancestor is Some && p@.matches(inn.ancestor->0@)),
        {
            match &inn.ancestor {
                Some(a) => p.matches(a),
                None => false,
            }
        };
    match (&inn.client, &inn.server) {
        (None, None) => Change::Nop,
        (Some(cli), None) => {
            if unchanged(cli) {
                Change::DeleteIn
            } else {
                Change::CreateOut
            }
        },
        (None, Some(srv)) => {
            if unchanged(srv) {
                Change::DeleteOut
            } else {
                Change::CreateIn
            }
        },
        (Some(cli), Some(srv)) => {
            if cli.matches(srv) {
                Change::Nop
            } else if unchanged(cli) {
                Change::UpdateIn
            } else if unchanged(srv) {
                Change::UpdateOut
            } else {
                Change::Conflict
            }
        },
    }
}

/// Returns what is done about a name.
pub fn calc_reconciliation(inn: &SyncTriple, mode: &SyncMode) -> (r: Reconciliation)
    ensures
        r == plan(
            mutator::ptr(inn.client),
            mutator::ptr(inn.ancestor),
            mutator::ptr(inn.server),
            *mode,
        ),
{
    let is_dir = is_dir_or_none(&inn.client) && is_dir_or_none(&inn.server);
    match calc_change(inn) {
        Change::Nop => Reconciliation::Nop,
        Change::UpdateIn => {
            if is_dir {
                Reconciliation::Recurse
            } else {
                if_permitted(mode.inbound.update.on(), Reconciliation::Download)
            }
        },
        Change::UpdateOut => {
            if is_dir {
                Reconciliation::Recurse
            } else {
                if_permitted(mode.outbound.update.on(), Reconciliation::Upload)
            }
        },
        Change::Conflict => {
            if is_dir {
                Reconciliation::Recurse
            } else if mode.inbound.update.on() && mode.outbound.update.on() {
                Reconciliation::Conflict
            } else if mode.inbound.update.on() {
                Reconciliation::Download
            } else {
                if_permitted(mode.outbound.update.on(), Reconciliation::Upload)
            }
        },
        Change::CreateOut => if_permitted(mode.outbound.create.on(), Reconciliation::Upload),
        Change::CreateIn => if_permitted(mode.inbound.create.on(), Reconciliation::Download),
        Change::DeleteOut => if_permitted(mode.outbound.delete.on(), Reconciliation::DeleteServer),
        Change::DeleteIn => if_permitted(mode.inbound.delete.on(), Reconciliation::DeleteClient),
    }
}

/// What a plan supposes of the entries: there is something to be transferred,
/// what is deleted on one side is not there on the other, and only directories
/// are entered.
pub proof fn law_plan(
    client: Option<PtrModel>,
    ancestor: Option<PtrModel>,
    server: Option<PtrModel>,
    mode: SyncMode,
)
    ensures
        match plan(client, ancestor, server, mode) {
            Reconciliation::Nop => true,
            Reconciliation::Download => server is Some,
            Reconciliation::Upload => client is Some,
            Reconciliation::DeleteClient => client is Some && server is None,
            Reconciliation::DeleteServer => client is None && server is Some,
            Reconciliation::Recurse => client is Some && server is Some && dir_or_none(client)
                && dir_or_none(server),
            Reconciliation::Conflict => client is Some && server is Some,
        },
{
}

/// An entry that is the same on both sides is left alone; so is every entry if
/// nothing is to be propagated and it is not a directory on both sides.
pub proof fn law_plan_nop(
    client: Option<PtrModel>,
    ancestor: Option<PtrModel>,
    server: Option<PtrModel>,
    mode: SyncMode,
)
    ensures
        mutator::ptrs_match(client, server) ==> plan(client, ancestor, server, mode)
            == Reconciliation::Nop,
        mode.inbound == crate::rules::uniform(crate::rules::SyncModeSetting::Off) && mode.outbound
            == crate::rules::uniform(crate::rules::SyncModeSetting::Off) && !(dir_or_none(client)
            && dir_or_none(server)) ==> plan(client, ancestor, server, mode) == Reconciliation::Nop,
{
}

/// The entries of a directory by their names. Of entries with the same name,
/// the last one counts.
pub open spec fn table(l: Seq<PtrModel>) -> Map<Seq<u8>, PtrModel>
    decreases l.len(),
{
    if l.len() == 0 {
        Map::empty()
    } else {
        table(l.drop_last()).insert(l.last().name, l.last())
    }
}

/// A table, over mathematical values.
pub open spec fn models(m: Map<Seq<u8>, DirPtr>) -> Map<Seq<u8>, PtrModel> {
    m.map_values(|p: DirPtr| p@)
}

/// Returns the entries of a directory by their names.
pub fn to_map(dir: Vec<DirPtr>) -> (r: NameMap<DirPtr>)
    ensures
        models(r@) == table(mutator::ptrs(dir@)),
{
    let mut r: NameMap<DirPtr> = NameMap::new();
    let ghost all = mutator::ptrs(dir@);
    let mut i: usize = 0;
    assert(models(r@) =~= table(all.take(0)));
    while i < dir.len()
        invariant
            i <= dir@.len(),
            all == mutator::ptrs(dir@),
            models(r@) == table(all.take(i as int)),
        decreases dir@.len() - i,
    {
        let ghost before = r@;
        let p = dir[i].copy();
        let ghost x = p;
        let _ = r.insert(bytes::copy(p.name.as_slice()), p);
        i += 1;
        proof {
            let t = all.take(i as int);
            assert(t.drop_last() =~= all.take(i - 1));
            assert(t.last() == x@);
            assert(models(r@) =~= models(before).insert(x@.name, x@));
        }
    }
    assert(all.take(i as int) =~= all);
    r
}

/// One name in the client, the ancestor and the server, over mathematical
/// values.
#[verifier::ext_equal]
pub struct Entries {
    pub client: Option<PtrModel>,
    pub ancestor: Option<PtrModel>,
    pub server: Option<PtrModel>,
}

impl View for SyncTriple {
    type V = Entries;

    open spec fn view(&self) -> Entries {
        Entries {
            client: mutator::ptr(self.client),
            ancestor: mutator::ptr(self.ancestor),
            server: mutator::ptr(self.server),
        }
    }
}

/// What becomes of a name, for each of those that it gives rise to.
pub open spec fn entries(l: Seq<SyncTriple>) -> Seq<Entries> {
    l.map_values(|t: SyncTriple| t@)
}

/// What becomes of a name: the ancestor is what both sides agree on, if they
/// do.
pub open spec fn both(client: Option<PtrModel>, server: Option<PtrModel>) -> Entries {
    Entries {
        client,
        ancestor: if mutator::ptrs_match(client, server) {
            server
        } else {
            None
        },
        server,
    }
}

/// What becomes of a name that both sides have as `p`, but with the given blob.
pub open spec fn agreed(p: PtrModel, value: Seq<u8>) -> Entries {
    let q = PtrModel { name: p.name, typ: p.typ, mode: p.mode, value };
    both(Some(q), Some(q))
}

/// Returns what becomes of a name.
fn single(client: Option<DirPtr>, server: Option<DirPtr>) -> (r: SyncTriple)
    ensures
        r@ == both(mutator::ptr(client), mutator::ptr(server)),
{
    let ancestor = if DirPtr::matches_opt(&client, &server) {
        match &server {
            Some(p) => Some(p.copy()),
            None => None,
        }
    } else {
        None
    };
    SyncTriple { client, ancestor, server }
}

/// The `i`th alternate for a name.
pub open spec fn numbered(name: Seq<u8>, i: nat) -> Seq<u8> {
    name.push(0x7e) + text::digit_bytes(i)
}

/// Returns the first alternate for a name that is not in use, and takes note
/// that it is.
fn rename(name: &[u8], names: &mut NameMap<()>) -> (r: Option<Name>)
    ensures
        match r {
            Some(n) => {
                &&& !old(names)@.dom().contains(n@)
                &&& final(names)@ == old(names)@.insert(n@, ())
                &&& exists|i: u64|
                    i >= 1 && n@ == #[trigger] numbered(name@, i as nat) && forall|j: u64|
                        1 <= j < i ==> old(names)@.dom().contains(
                            #[trigger] numbered(name@, j as nat),
                        )
            },
            None => *final(names) == *old(names) && forall|j: u64|
                j >= 1 ==> old(names)@.dom().contains(#[trigger] numbered(name@, j as nat)),
        },
{
    let mut i: u64 = 1;
    loop
        invariant
            i >= 1,
            *names == *old(names),
            forall|j: u64|
                1 <= j < i ==> names@.dom().contains(#[trigger] numbered(name@, j as nat)),
        decreases u64::MAX - i,
    {
        let mut n: Name = bytes::copy(name);
        n.push(0x7e);
        text::push_digit_bytes(&mut n, i);
        assert(n@ == numbered(name@, i as nat));
        if !names.contains_key(n.as_slice()) {
            let _ = names.insert(bytes::copy(n.as_slice()), ());
            return Some(n);
        }
        if i == u64::MAX {
            return None;
        }
        i += 1;
    }
}

/// The failure of too many tries.
fn give_up() -> (r: MutationError)
    ensures
        r matches MutationError::Failure(e) && e.kind == ErrorKind::TooManyTxRetries,
{
    MutationError::Failure(Error::new(ErrorKind::TooManyTxRetries))
}

/// The failure of a directory that is too deep.
fn too_deep() -> (r: MutationError)
    ensures
        r matches MutationError::Failure(e) && e.kind == ErrorKind::DirectoryTooDeep,
{
    MutationError::Failure(Error::new(ErrorKind::DirectoryTooDeep))
}

/// Whether `n` is the first alternate for a name that is not in use.
pub open spec fn is_next(name: Seq<u8>, used: Set<Seq<u8>>, n: Seq<u8>) -> bool {
    &&& !used.contains(n)
    &&& exists|i: u64|
        i >= 1 && n == #[trigger] numbered(name, i as nat) && forall|j: u64|
            1 <= j < i ==> used.contains(#[trigger] numbered(name, j as nat))
}

/// The blob of an entry that may be missing.
pub open spec fn value_of(p: Option<PtrModel>) -> Option<Seq<u8>> {
    match p {
        Some(p) => Some(p.value),
        None => None,
    }
}

/// Whether an error is a failure of the given kind.
pub open spec fn fails_for(e: MutationError, kind: ErrorKind) -> bool {
    e matches MutationError::Failure(e) && e.kind == kind
}

/// Everything in a directory, by name.
#[verifier::ext_equal]
pub struct Tables {
    pub client: Map<Seq<u8>, PtrModel>,
    pub ancestor: Map<Seq<u8>, PtrModel>,
    pub server: Map<Seq<u8>, PtrModel>,
}

/// What a table has by a name.
pub open spec fn lookup(m: Map<Seq<u8>, PtrModel>, n: Seq<u8>) -> Option<PtrModel> {
    if m.dom().contains(n) {
        Some(m[n])
    } else {
        None
    }
}

/// A table with one more entry.
pub open spec fn entered(m: Map<Seq<u8>, PtrModel>, p: Option<PtrModel>) -> Map<
    Seq<u8>,
    PtrModel,
> {
    match p {
        Some(p) => m.insert(p.name, p),
        None => m,
    }
}

impl Tables {
    pub open spec fn at(self, n: Seq<u8>) -> Entries {
        Entries {
            client: lookup(self.client, n),
            ancestor: lookup(self.ancestor, n),
            server: lookup(self.server, n),
        }
    }

    pub open spec fn without(self, n: Seq<u8>) -> Tables {
        Tables {
            client: self.client.remove(n),
            ancestor: self.ancestor.remove(n),
            server: self.server.remove(n),
        }
    }

    pub open spec fn with(self, l: Seq<Entries>) -> Tables
        decreases l.len(),
    {
        if l.len() == 0 {
            self
        } else {
            let t = self.with(l.drop_last());
            Tables {
                client: entered(t.client, l.last().client),
                ancestor: entered(t.ancestor, l.last().ancestor),
                server: entered(t.server, l.last().server),
            }
        }
    }
}

/// What is done about one name.
pub struct Work<L> {
    pub name: Seq<u8>,
    /// The calls that are made.
    pub calls: Seq<Call<L>>,
    /// What becomes of the name.
    pub out: Seq<Entries>,
    /// The names that are in use before.
    pub used: Set<Seq<u8>>,
    /// The names that are in use after.
    pub left: Set<Seq<u8>>,
}

/// The tables once the work has been done.
pub open spec fn after<L>(t: Tables, work: Seq<Work<L>>) -> Tables
    decreases work.len(),
{
    if work.len() == 0 {
        t
    } else {
        after(t, work.drop_last()).without(work.last().name).with(work.last().out)
    }
}

/// The calls that are made for the work.
pub open spec fn made<L>(work: Seq<Work<L>>) -> Seq<Call<L>>
    decreases work.len(),
{
    if work.len() == 0 {
        Seq::empty()
    } else {
        made(work.drop_last()) + work.last().calls
    }
}

/// Whether `l` lists the table, in order.
pub open spec fn lists(l: Seq<PtrModel>, m: Map<Seq<u8>, PtrModel>) -> bool {
    &&& forall|i: int, j: int|
        0 <= i < j < l.len() ==> bytes::before((#[trigger] l[i]).name, (#[trigger] l[j]).name)
    &&& forall|i: int|
        0 <= i < l.len() ==> lookup(m, (#[trigger] l[i]).name) == Some(l[i])
    &&& forall|n: Seq<u8>| #[trigger]
        m.dom().contains(n) ==> exists|i: int| 0 <= i < l.len() && (#[trigger] l[i]).name == n
}

/// An attempt to reconcile a subdirectory that changed under our hands.
pub struct Attempt<L> {
    pub sub: L,
    pub calls: Seq<Call<L>>,
}

/// The calls that are made in attempts to reconcile the subdirectory `dir`.
pub open spec fn attempts<L>(tried: Seq<Attempt<L>>, at: L, dir: PtrModel) -> Seq<Call<L>>
    decreases tried.len(),
{
    if tried.len() == 0 {
        Seq::empty()
    } else {
        attempts(tried.drop_last(), at, dir).push(Call::Chdir(at, dir, Ok(tried.last().sub)))
            + tried.last().calls
    }
}

/// A subdirectory that has been reconciled, possibly after some attempts.
pub struct Entered<L> {
    pub tried: Seq<Attempt<L>>,
    pub sub: L,
    pub calls: Seq<Call<L>>,
    pub hash: HashId,
}

/// A directory that has been reconciled.
pub struct Visit<L> {
    pub client: Vec<DirPtr>,
    pub ancestor: Vec<DirPtr>,
    pub server: Vec<DirPtr>,
    pub work: Seq<Work<L>>,
    pub new_ancestor: Seq<PtrModel>,
    pub new_server: Seq<PtrModel>,
}

impl<L> Entered<L> {
    /// All calls that are made.
    pub open spec fn all(self, at: L, dir: PtrModel) -> Seq<Call<L>> {
        attempts(self.tried, at, dir).push(Call::Chdir(at, dir, Ok(self.sub))) + self.calls
    }
}

/// A subdirectory that could not be reconciled, possibly after some attempts.
pub struct Repelled<L> {
    pub tried: Seq<Attempt<L>>,
    pub rest: Seq<Call<L>>,
}

impl<L> Repelled<L> {
    /// All calls that are made.
    pub open spec fn all(self, at: L, dir: PtrModel) -> Seq<Call<L>> {
        attempts(self.tried, at, dir) + self.rest
    }
}

/// A directory that could not be reconciled once it had been listed.
pub struct Broken<L> {
    pub client: Vec<DirPtr>,
    pub ancestor: Vec<DirPtr>,
    pub server: Vec<DirPtr>,
    /// What has been done.
    pub work: Seq<Work<L>>,
    /// The calls that are made after that.
    pub rest: Seq<Call<L>>,
}

impl<L> Broken<L> {
    /// What is there to begin with.
    pub open spec fn tables(self) -> Tables {
        Tables {
            client: table(mutator::ptrs(self.client@)),
            ancestor: table(mutator::ptrs(self.ancestor@)),
            server: table(mutator::ptrs(self.server@)),
        }
    }

    /// All calls that are made.
    pub open spec fn all(self, at: L) -> Seq<Call<L>> {
        seq![
            Call::LsClient(at, Ok(self.client)),
            Call::LsAncestor(at, Ok(self.ancestor)),
            Call::LsServer(at, Ok(self.server)),
        ] + made(self.work) + self.rest
    }
}

impl<L> Visit<L> {
    /// What is there to begin with.
    pub open spec fn tables(self) -> Tables {
        Tables {
            client: table(mutator::ptrs(self.client@)),
            ancestor: table(mutator::ptrs(self.ancestor@)),
            server: table(mutator::ptrs(self.server@)),
        }
    }

    /// All calls that are made.
    pub open spec fn all(self, at: L, hash: HashId) -> Seq<Call<L>> {
        seq![
            Call::LsClient(at, Ok(self.client)),
            Call::LsAncestor(at, Ok(self.ancestor)),
            Call::LsServer(at, Ok(self.server)),
        ] + made(self.work) + seq![
            Call::PutDirAncestor(at, self.new_ancestor, None),
            Call::PutDirServer(at, self.new_server, Ok(hash)),
        ]
    }
}

/// Whether a name has been reconciled by the given calls: as planned.
#[verifier::opaque]
pub open spec fn one_done<L: Location>(
    calls: Seq<Call<L>>,
    at: L,
    e: Entries,
    used: Set<Seq<u8>>,
    out: Seq<Entries>,
    left: Set<Seq<u8>>,
    tries: nat,
    depth: nat,
) -> bool
    decreases depth, 0int, (if e.client is Some && e.server is Some {
        1nat
    } else {
        0nat
    }),
{
    match plan(e.client, e.ancestor, e.server, at.mode()) {
        Reconciliation::Nop => {
            &&& calls == Seq::<Call<L>>::empty()
            &&& out == seq![both(e.client, e.server)]
            &&& left == used
        },
        Reconciliation::Download => {
            &&& calls == seq![Call::Download(at, e.server->0, value_of(e.client), None)]
            &&& out == seq![both(e.server, e.server)]
            &&& left == used
        },
        Reconciliation::Upload => {
            &&& exists|h: HashId|
                calls == seq![#[trigger] uploaded(at, e.client->0, h)] && out == seq![
                    agreed(e.client->0, h@),
                ]
            &&& left == used
        },
        Reconciliation::DeleteClient => {
            &&& calls == seq![Call::RmClient(at, e.client->0, None)]
            &&& out == seq![both(None, None)]
            &&& left == used
        },
        Reconciliation::DeleteServer => {
            &&& calls == Seq::<Call<L>>::empty()
            &&& out == seq![both(None, None)]
            &&& left == used
        },
        Reconciliation::Recurse => {
            &&& depth > 0
            &&& exists|x: Entered<L>|
                {
                    &&& calls == #[trigger] x.all(at, e.client->0)
                    &&& x.tried.len() <= tries
                    &&& all_modified(x.tried, tries, (depth - 1) as nat)
                    &&& out == seq![agreed(e.client->0, x.hash@)]
                    &&& directory_done(x.calls, x.sub, x.hash, tries, (depth - 1) as nat)
                }
            &&& left == used
        },
        Reconciliation::Conflict => {
            &&& out.len() == 2
            &&& exists|n: Seq<u8>, mid: int|
                {
                    &&& #[trigger] is_next(e.server->0.name, used, n)
                    &&& left == used.insert(n)
                    &&& 0 <= mid <= calls.len()
                    &&& one_done(
                        #[trigger] calls.take(mid),
                        at,
                        Entries { client: e.client, ancestor: None, server: None },
                        left,
                        seq![out[0]],
                        left,
                        tries,
                        depth,
                    )
                    &&& one_done(
                        calls.skip(mid),
                        at,
                        Entries {
                            client: None,
                            ancestor: None,
                            server: Some(
                                PtrModel {
                                    name: n,
                                    typ: e.server->0.typ,
                                    mode: e.server->0.mode,
                                    value: e.server->0.value,
                                },
                            ),
                        },
                        left,
                        seq![out[1]],
                        left,
                        tries,
                        depth,
                    )
                }
        },
    }
}

/// Whether each attempt to reconcile a subdirectory failed because something
/// changed.
#[verifier::opaque]
pub open spec fn all_modified<L: Location>(tried: Seq<Attempt<L>>, tries: nat, depth: nat) -> bool
    decreases depth, 3int, tried.len(),
{
    tried.len() == 0 || {
        &&& all_modified(tried.drop_last(), tries, depth)
        &&& directory_failed(
            tried.last().calls,
            tried.last().sub,
            MutationError::Modified,
            tries,
            depth,
        )
    }
}

/// Whether reconciling a name has come to an end with an error, after the given
/// calls.
#[verifier::opaque]
pub open spec fn one_failed<L: Location>(
    calls: Seq<Call<L>>,
    at: L,
    e: Entries,
    used: Set<Seq<u8>>,
    err: MutationError,
    tries: nat,
    depth: nat,
) -> bool
    decreases depth, 0int, (if e.client is Some && e.server is Some {
        1nat
    } else {
        0nat
    }),
{
    match plan(e.client, e.ancestor, e.server, at.mode()) {
        Reconciliation::Nop => false,
        Reconciliation::Download => calls == seq![
            Call::Download(at, e.server->0, value_of(e.client), Some(err)),
        ],
        Reconciliation::Upload => calls == seq![Call::Upload(at, e.client->0, Err(err))],
        Reconciliation::DeleteClient => calls == seq![
            Call::RmClient(at, e.client->0, Some(err)),
        ],
        Reconciliation::DeleteServer => false,
        Reconciliation::Recurse => if depth == 0 {
            calls == Seq::<Call<L>>::empty() && fails_for(err, ErrorKind::DirectoryTooDeep)
        } else {
            exists|x: Repelled<L>|
                {
                    &&& calls == #[trigger] x.all(at, e.client->0)
                    &&& all_modified(x.tried, tries, (depth - 1) as nat)
                    &&& {
                        ||| x.tried.len() <= tries && x.rest == seq![
                            Call::Chdir(at, e.client->0, Err(err)),
                        ]
                        ||| x.tried.len() <= tries && err !is Modified && exists|sub: L| {
                            &&& x.rest.len() > 0
                            &&& x.rest[0] == #[trigger] entering(at, e.client->0, sub)
                            &&& directory_failed(
                                x.rest.skip(1),
                                sub,
                                err,
                                tries,
                                (depth - 1) as nat,
                            )
                        }
                        ||| x.tried.len() == tries + 1 && x.rest == Seq::<Call<L>>::empty()
                            && fails_for(err, ErrorKind::TooManyTxRetries)
                    }
                }
        },
        Reconciliation::Conflict => {
            ||| calls == Seq::<Call<L>>::empty() && fails_for(err, ErrorKind::AllSuffixesInUse)
                && forall|j: u64|
                j >= 1 ==> used.contains(#[trigger] numbered(e.server->0.name, j as nat))
            ||| exists|n: Seq<u8>|
                {
                    &&& #[trigger] is_next(e.server->0.name, used, n)
                    &&& one_failed(
                        calls,
                        at,
                        Entries { client: e.client, ancestor: None, server: None },
                        used.insert(n),
                        err,
                        tries,
                        depth,
                    )
                }
            ||| exists|n: Seq<u8>, mid: int, out: Entries|
                {
                    &&& #[trigger] is_next(e.server->0.name, used, n)
                    &&& 0 <= mid <= calls.len()
                    &&& one_done(
                        #[trigger] calls.take(mid),
                        at,
                        Entries { client: e.client, ancestor: None, server: None },
                        used.insert(n),
                        #[trigger] alone(out),
                        used.insert(n),
                        tries,
                        depth,
                    )
                    &&& one_failed(
                        calls.skip(mid),
                        at,
                        Entries {
                            client: None,
                            ancestor: None,
                            server: Some(
                                PtrModel {
                                    name: n,
                                    typ: e.server->0.typ,
                                    mode: e.server->0.mode,
                                    value: e.server->0.value,
                                },
                            ),
                        },
                        used.insert(n),
                        err,
                        tries,
                        depth,
                    )
                }
        },
    }
}

/// Whether reconciling a directory has come to an end with an error, after the
/// given calls: it could not be listed, or one of its names could not be
/// reconciled, or what came of it could not be stored.
#[verifier::opaque]
pub open spec fn directory_failed<L: Location>(
    calls: Seq<Call<L>>,
    at: L,
    err: MutationError,
    tries: nat,
    depth: nat,
) -> bool
    decreases depth, 2int, 0nat,
{
    ||| calls == seq![Call::LsClient(at, Err(err))]
    ||| exists|client: Vec<DirPtr>|
        calls == seq![#[trigger] seen_client(at, client), Call::LsAncestor(at, Err(err))]
    ||| exists|client: Vec<DirPtr>, ancestor: Vec<DirPtr>|
        calls == seq![
            #[trigger] seen_client(at, client),
            #[trigger] seen_ancestor(at, ancestor),
            Call::LsServer(at, Err(err)),
        ]
    ||| exists|x: Broken<L>|
        {
            let t = x.tables();
            let held = after(t, x.work);
            &&& calls == #[trigger] x.all(at)
            &&& work_done(x.work, t, at, tries, depth)
            &&& {
                ||| exists|n: Seq<u8>|
                    {
                        &&& (#[trigger] t.client.dom().contains(n) || t.server.dom().contains(n))
                        &&& one_failed(
                            x.rest,
                            at,
                            held.at(n),
                            used_after(t, x.work),
                            err,
                            tries,
                            depth,
                        )
                    }
                ||| exists|anc: Seq<PtrModel>|
                    {
                        &&& every_name(x.work, t)
                        &&& #[trigger] lists(anc, held.ancestor)
                        &&& x.rest == seq![Call::PutDirAncestor(at, anc, Some(err))]
                    }
                ||| exists|anc: Seq<PtrModel>, srv: Seq<PtrModel>|
                    {
                        &&& every_name(x.work, t)
                        &&& #[trigger] lists(anc, held.ancestor)
                        &&& #[trigger] lists(srv, held.server)
                        &&& x.rest == seq![
                            Call::PutDirAncestor(at, anc, None),
                            Call::PutDirServer(at, srv, Err(err)),
                        ]
                    }
            }
        }
}

/// What becomes of a name that gives rise to no other.
pub open spec fn alone(out: Entries) -> Seq<Entries> {
    seq![out]
}

/// A listing of the client that worked out.
pub open spec fn seen_client<L>(at: L, l: Vec<DirPtr>) -> Call<L> {
    Call::LsClient(at, Ok(l))
}

/// A listing of the ancestor that worked out.
pub open spec fn seen_ancestor<L>(at: L, l: Vec<DirPtr>) -> Call<L> {
    Call::LsAncestor(at, Ok(l))
}

/// Going into a subdirectory that worked out.
pub open spec fn entering<L>(at: L, dir: PtrModel, sub: L) -> Call<L> {
    Call::Chdir(at, dir, Ok(sub))
}

/// An upload that gave the given blob.
pub open spec fn uploaded<L>(at: L, p: PtrModel, h: HashId) -> Call<L> {
    Call::Upload(at, p, Ok(h))
}

/// Whether a directory has been reconciled by the given calls: what it holds is
/// listed, every name of the client and the server is reconciled, and what
/// comes of it is stored.
#[verifier::opaque]
pub open spec fn directory_done<L: Location>(
    calls: Seq<Call<L>>,
    at: L,
    hash: HashId,
    tries: nat,
    depth: nat,
) -> bool
    decreases depth, 2int, 0nat,
{
    exists|v: Visit<L>|
        {
            &&& calls == #[trigger] v.all(at, hash)
            &&& work_done(v.work, v.tables(), at, tries, depth)
            &&& every_name(v.work, v.tables())
            &&& lists(v.new_ancestor, after(v.tables(), v.work).ancestor)
            &&& lists(v.new_server, after(v.tables(), v.work).server)
        }
}

/// Whether every name of the client and the server is worked on, in order.
pub open spec fn every_name<L>(work: Seq<Work<L>>, t: Tables) -> bool {
    &&& forall|i: int, j: int|
        0 <= i < j < work.len() ==> bytes::before(
            (#[trigger] work[i]).name,
            (#[trigger] work[j]).name,
        )
    &&& forall|n: Seq<u8>|
        (exists|i: int| 0 <= i < work.len() && (#[trigger] work[i]).name == n) <==> (
        #[trigger] t.client.dom().contains(n) || t.server.dom().contains(n))
}

/// Whether each name has been reconciled, with what is there when it is its
/// turn.
#[verifier::opaque]
pub open spec fn work_done<L: Location>(
    work: Seq<Work<L>>,
    t: Tables,
    at: L,
    tries: nat,
    depth: nat,
) -> bool
    decreases depth, 1int, work.len(),
{
    work.len() == 0 || {
        let done = work.drop_last();
        let w = work.last();
        &&& work_done(done, t, at, tries, depth)
        &&& w.used == used_after(t, done)
        &&& one_done(w.calls, at, after(t, done).at(w.name), w.used, w.out, w.left, tries, depth)
    }
}

/// The names that are in use once the work has been done.
pub open spec fn used_after<L>(t: Tables, work: Seq<Work<L>>) -> Set<Seq<u8>> {
    if work.len() == 0 {
        t.client.dom() + t.server.dom()
    } else {
        work.last().left
    }
}

/// The calls that have been made in between.
pub open spec fn since<L>(before: Seq<Call<L>>, now: Seq<Call<L>>) -> Seq<Call<L>> {
    now.skip(before.len() as int)
}

/// Whether there have only been more calls.
pub open spec fn extends<L>(before: Seq<Call<L>>, now: Seq<Call<L>>) -> bool {
    before.len() <= now.len() && now.take(before.len() as int) == before
}

/// What has been called since is called in order.
proof fn lemma_since<L>(a: Seq<Call<L>>, b: Seq<Call<L>>, c: Seq<Call<L>>)
    requires
        extends(a, b),
        extends(b, c),
    ensures
        extends(a, c),
        since(a, c) == since(a, b) + since(b, c),
{
    assert(c.take(a.len() as int) =~= c.take(b.len() as int).take(a.len() as int));
    assert(since(a, c) =~= since(a, b) + since(b, c)) by {
        assert forall|i: int| 0 <= i < since(a, b).len() implies since(a, c)[i] == since(
            a,
            b,
        )[i] by {
            assert(c.take(b.len() as int)[a.len() + i] == c[a.len() + i]);
        }
    }
}

/// A single call.
proof fn lemma_called<L>(a: Seq<Call<L>>, x: Call<L>)
    ensures
        extends(a, a.push(x)),
        since(a, a.push(x)) == seq![x],
{
    assert(a.push(x).take(a.len() as int) =~= a);
    assert(since(a, a.push(x)) =~= seq![x]);
}

/// No call at all.
proof fn lemma_not_called<L>(a: Seq<Call<L>>)
    ensures
        extends(a, a),
        since(a, a) == Seq::<Call<L>>::empty(),
{
    assert(a.take(a.len() as int) =~= a);
    assert(since(a, a) =~= Seq::empty());
}

/// A name that only one side has gives rise to no other.
proof fn lemma_one_side<L: Location>(
    calls: Seq<Call<L>>,
    at: L,
    e: Entries,
    used: Set<Seq<u8>>,
    out: Seq<Entries>,
    left: Set<Seq<u8>>,
    tries: nat,
    depth: nat,
)
    requires
        one_done(calls, at, e, used, out, left, tries, depth),
        e.client is None || e.server is None,
    ensures
        out.len() == 1,
        left == used,
{
    reveal(one_done);
}

/// A conflict is reconciled if both names are that it gives rise to.
proof fn lemma_conflict<L: Location>(
    first: Seq<Call<L>>,
    second: Seq<Call<L>>,
    at: L,
    e: Entries,
    used: Set<Seq<u8>>,
    n: Seq<u8>,
    one: Seq<Entries>,
    two: Seq<Entries>,
    tries: nat,
    depth: nat,
)
    requires
        plan(e.client, e.ancestor, e.server, at.mode()) == Reconciliation::Conflict,
        is_next(e.server->0.name, used, n),
        one.len() == 1,
        two.len() == 1,
        one_done(
            first,
            at,
            Entries { client: e.client, ancestor: None, server: None },
            used.insert(n),
            one,
            used.insert(n),
            tries,
            depth,
        ),
        one_done(
            second,
            at,
            Entries {
                client: None,
                ancestor: None,
                server: Some(
                    PtrModel {
                        name: n,
                        typ: e.server->0.typ,
                        mode: e.server->0.mode,
                        value: e.server->0.value,
                    },
                ),
            },
            used.insert(n),
            two,
            used.insert(n),
            tries,
            depth,
        ),
    ensures
        one_done(first + second, at, e, used, one + two, used.insert(n), tries, depth),
{
    let calls = first + second;
    let out = one + two;
    let mid = first.len() as int;
    assert(calls.take(mid) =~= first);
    assert(calls.skip(mid) =~= second);
    assert(seq![out[0]] =~= one);
    assert(seq![out[1]] =~= two);
    reveal(one_done);
}

/// One more attempt has failed.
proof fn lemma_attempted<L: Location>(
    tried: Seq<Attempt<L>>,
    x: Attempt<L>,
    at: L,
    dir: PtrModel,
    tries: nat,
    depth: nat,
)
    requires
        all_modified(tried, tries, depth),
        directory_failed(x.calls, x.sub, MutationError::Modified, tries, depth),
    ensures
        all_modified(tried.push(x), tries, depth),
        attempts(tried.push(x), at, dir) == attempts(tried, at, dir).push(
            entering(at, dir, x.sub),
        ) + x.calls,
{
    reveal(all_modified);
    reveal(directory_failed);
    assert(tried.push(x).drop_last() =~= tried);
}

/// A subdirectory cannot be reconciled if it cannot be entered, if it fails, or
/// if it changes too many times.
proof fn lemma_repelled<L: Location>(
    x: Repelled<L>,
    sub: L,
    at: L,
    e: Entries,
    used: Set<Seq<u8>>,
    err: MutationError,
    tries: nat,
    depth: nat,
)
    requires
        plan(e.client, e.ancestor, e.server, at.mode()) == Reconciliation::Recurse,
        depth > 0,
        all_modified(x.tried, tries, (depth - 1) as nat),
        ({
            ||| x.tried.len() <= tries && x.rest == seq![Call::Chdir(at, e.client->0, Err(err))]
            ||| x.tried.len() <= tries && err !is Modified && x.rest.len() > 0 && x.rest[0]
                == entering(at, e.client->0, sub) && directory_failed(
                x.rest.skip(1),
                sub,
                err,
                tries,
                (depth - 1) as nat,
            )
            ||| x.tried.len() == tries + 1 && x.rest == Seq::<Call<L>>::empty() && fails_for(
                err,
                ErrorKind::TooManyTxRetries,
            )
        }),
    ensures
        one_failed(x.all(at, e.client->0), at, e, used, err, tries, depth),
{
    reveal(one_failed);
    reveal(all_modified);
    reveal(directory_failed);
}

/// A conflict is not reconciled if the first of the names is not that it gives
/// rise to.
proof fn lemma_first_failed<L: Location>(
    calls: Seq<Call<L>>,
    at: L,
    e: Entries,
    used: Set<Seq<u8>>,
    n: Seq<u8>,
    err: MutationError,
    tries: nat,
    depth: nat,
)
    requires
        plan(e.client, e.ancestor, e.server, at.mode()) == Reconciliation::Conflict,
        is_next(e.server->0.name, used, n),
        one_failed(
            calls,
            at,
            Entries { client: e.client, ancestor: None, server: None },
            used.insert(n),
            err,
            tries,
            depth,
        ),
    ensures
        one_failed(calls, at, e, used, err, tries, depth),
{
    reveal(one_failed);
}

/// A conflict is not reconciled if the second of the names is not that it gives
/// rise to.
proof fn lemma_second_failed<L: Location>(
    first: Seq<Call<L>>,
    second: Seq<Call<L>>,
    at: L,
    e: Entries,
    used: Set<Seq<u8>>,
    n: Seq<u8>,
    out: Seq<Entries>,
    err: MutationError,
    tries: nat,
    depth: nat,
)
    requires
        plan(e.client, e.ancestor, e.server, at.mode()) == Reconciliation::Conflict,
        is_next(e.server->0.name, used, n),
        one_done(
            first,
            at,
            Entries { client: e.client, ancestor: None, server: None },
            used.insert(n),
            out,
            used.insert(n),
            tries,
            depth,
        ),
        one_failed(
            second,
            at,
            Entries {
                client: None,
                ancestor: None,
                server: Some(
                    PtrModel {
                        name: n,
                        typ: e.server->0.typ,
                        mode: e.server->0.mode,
                        value: e.server->0.value,
                    },
                ),
            },
            used.insert(n),
            err,
            tries,
            depth,
        ),
    ensures
        one_failed(first + second, at, e, used, err, tries, depth),
{
    let calls = first + second;
    let mid = first.len() as int;
    assert(calls.take(mid) =~= first);
    assert(calls.skip(mid) =~= second);
    reveal(one_failed);
    reveal(one_done);
    lemma_one_side(
        first,
        at,
        Entries { client: e.client, ancestor: None, server: None },
        used.insert(n),
        out,
        used.insert(n),
        tries,
        depth,
    );
    assert(alone(out[0]) =~= out);
    assert(is_next(e.server->0.name, used, n));
}

/// One more name has been reconciled.
proof fn lemma_worked<L: Location>(
    work: Seq<Work<L>>,
    w: Work<L>,
    t: Tables,
    at: L,
    tries: nat,
    depth: nat,
)
    requires
        work_done(work, t, at, tries, depth),
        w.used == used_after(t, work),
        one_done(w.calls, at, after(t, work).at(w.name), w.used, w.out, w.left, tries, depth),
    ensures
        work_done(work.push(w), t, at, tries, depth),
        after(t, work.push(w)) == after(t, work).without(w.name).with(w.out),
        made(work.push(w)) == made(work) + w.calls,
{
    reveal(work_done);
    reveal(one_done);
    assert(work.push(w).drop_last() =~= work);
}

/// Reconciles one name. Returns what becomes of it, and of the name it gives
/// rise to if there is a conflict.
///
/// `tries` is how often a directory that changes under our hands is tried again,
/// `depth` how deep directories may be.
fn reconcile_one<M: Mutator>(
    mutator: &mut M,
    context: &M::Location,
    inn: SyncTriple,
    names: &mut NameMap<()>,
    tries: u64,
    depth: u64,
) -> (r: MutationResult<Vec<SyncTriple>>)
    ensures
        extends(old(mutator).calls(), final(mutator).calls()),
        match r {
            Ok(v) => one_done(
                since(old(mutator).calls(), final(mutator).calls()),
                *context,
                inn@,
                old(names)@.dom(),
                entries(v@),
                final(names)@.dom(),
                tries as nat,
                depth as nat,
            ),
            Err(e) => one_failed(
                since(old(mutator).calls(), final(mutator).calls()),
                *context,
                inn@,
                old(names)@.dom(),
                e,
                tries as nat,
                depth as nat,
            ),
        },
        plan(inn@.client, inn@.ancestor, inn@.server, context.mode()) == Reconciliation::Nop
            ==> r is Ok,
        plan(inn@.client, inn@.ancestor, inn@.server, context.mode())
            == Reconciliation::DeleteServer ==> r is Ok,
    decreases depth, 1int, (if inn.client is Some && inn.server is Some {
        1int
    } else {
        0int
    }),
{
    let mode = context.sync_mode();
    let what = calc_reconciliation(&inn, &mode);
    let ghost e0 = inn@;
    let ghost before = mutator.calls();
    proof {
        law_plan(e0.client, e0.ancestor, e0.server, mode);
        lemma_not_called(before);
        reveal(one_done);
        reveal(one_failed);
    }
    let SyncTriple { client, ancestor: _, server } = inn;
    let mut ret: Vec<SyncTriple> = Vec::new();
    match (what, client, server) {
        (Reconciliation::Download, client, Some(srv)) => {
            let if_match: Option<HashId> = match &client {
                Some(cli) => Some(cli.value),
                None => None,
            };
            assert(mutator::blob(if_match) == value_of(e0.client));
            let done = mutator.download(context, &srv, if_match);
            proof {
                lemma_called(
                    before,
                    Call::Download(*context, srv@, mutator::blob(if_match), mutator::refusal(done)),
                );
            }
            match done {
                Ok(_) => {},
                Err(e) => {
                    return Err(e);
                },
            }
            ret.push(single(Some(srv.copy()), Some(srv)));
            assert(entries(ret@) =~= seq![both(e0.server, e0.server)]);
        },
        (Reconciliation::Upload, Some(cli), _) => {
            let done = mutator.upload(context, &cli);
            proof {
                lemma_called(before, Call::Upload(*context, cli@, done));
            }
            let value: HashId = match done {
                Ok(value) => value,
                Err(e) => {
                    return Err(e);
                },
            };
            let ghost p = cli@;
            let res = DirPtr { value, ..cli };
            ret.push(single(Some(res.copy()), Some(res)));
            proof {
                assert(since(before, mutator.calls()) == seq![uploaded(*context, p, value)]);
                assert(entries(ret@) =~= seq![agreed(p, value@)]);
            }
        },
        (Reconciliation::DeleteClient, Some(cli), _) => {
            let done = mutator.rm_client(context, &cli);
            proof {
                lemma_called(before, Call::RmClient(*context, cli@, mutator::refusal(done)));
            }
            match done {
                Ok(_) => {},
                Err(e) => {
                    return Err(e);
                },
            }
            ret.push(single(None, None));
            assert(entries(ret@) =~= seq![both(None, None)]);
        },
        (Reconciliation::DeleteServer, _, _) => {
            ret.push(single(None, None));
            assert(entries(ret@) =~= seq![both(None, None)]);
        },
        (Reconciliation::Recurse, Some(cli), _) => {
            if depth == 0 {
                return Err(too_deep());
            }
            let mut left: u64 = tries;
            let ghost mut tried: Seq<Attempt<M::Location>> = Seq::empty();
            let ghost dir = cli@;
            assert(all_modified(tried, tries as nat, (depth - 1) as nat)) by {
                reveal(all_modified);
            }
            assert(since(before, before) =~= attempts(tried, *context, dir));
            loop
                invariant
                    depth > 0,
                    dir == cli@,
                    tried.len() + left == tries,
                    all_modified(tried, tries as nat, (depth - 1) as nat),
                    since(before, mutator.calls()) == attempts(tried, *context, dir),
                    ret@.len() == 0,
                    before == old(mutator).calls(),
                    extends(before, mutator.calls()),
                    *names == *old(names),
                    e0 == inn@,
                    what == Reconciliation::Recurse,
                    what == plan(e0.client, e0.ancestor, e0.server, context.mode()),
                    e0.client == Some(cli@),
                decreases left,
            {
                let ghost begun = mutator.calls();
                let entry = mutator.chdir(context, &cli);
                let ghost inside = mutator.calls();
                proof {
                    lemma_called(begun, Call::Chdir(*context, cli@, entry));
                    lemma_since(before, begun, inside);
                }
                let sub = match entry {
                    Ok(sub) => sub,
                    Err(e) => {
                        proof {
                            let x = Repelled {
                                tried,
                                rest: seq![Call::Chdir(*context, dir, Err(e))],
                            };
                            assert(since(before, mutator.calls()) == x.all(*context, dir));
                            lemma_repelled(
                                x,
                                *context,
                                *context,
                                e0,
                                names@.dom(),
                                e,
                                tries as nat,
                                depth as nat,
                            );
                        }
                        return Err(e);
                    },
                };
                let done = reconcile_directory(mutator, &sub, tries, depth - 1);
                let ghost within = since(inside, mutator.calls());
                proof {
                    lemma_since(before, inside, mutator.calls());
                }
                match done {
                    Ok(value) => {
                        let ghost p = cli@;
                        let mut res = cli.copy();
                        res.value = value;
                        ret.push(single(Some(res.copy()), Some(res)));
                        proof {
                            assert(entries(ret@) =~= seq![agreed(p, value@)]);
                            let x = Entered {
                                tried,
                                sub,
                                calls: within,
                                hash: value,
                            };
                            assert(since(before, mutator.calls()) =~= x.all(*context, p));
                            assert(directory_done(
                                x.calls,
                                x.sub,
                                x.hash,
                                tries as nat,
                                (depth - 1) as nat,
                            ));
                            reveal(one_done);
                            reveal(all_modified);
                            reveal(directory_done);
                        }
                        return Ok(ret);
                    },
                    Err(MutationError::Modified) => {
                        proof {
                            let x = Attempt { sub, calls: within };
                            let more = tried.push(x);
                            lemma_attempted(
                                tried,
                                x,
                                *context,
                                dir,
                                tries as nat,
                                (depth - 1) as nat,
                            );
                            assert(since(before, mutator.calls()) =~= attempts(
                                more,
                                *context,
                                dir,
                            ));
                            tried = more;
                        }
                        if left == 0 {
                            let given_up = give_up();
                            proof {
                                let err = given_up;
                                let x = Repelled { tried, rest: Seq::empty() };
                                assert(since(before, mutator.calls()) =~= x.all(*context, dir));
                                lemma_repelled(
                                    x,
                                    *context,
                                    *context,
                                    e0,
                                    names@.dom(),
                                    err,
                                    tries as nat,
                                    depth as nat,
                                );
                            }
                            return Err(given_up);
                        }
                        left -= 1;
                    },
                    Err(e) => {
                        proof {
                            let rest = seq![entering(*context, dir, sub)] + within;
                            let x = Repelled { tried, rest };
                            assert(rest.skip(1) =~= within);
                            assert(rest[0] == entering(*context, dir, sub));
                            assert(since(before, mutator.calls()) =~= x.all(*context, dir));
                            lemma_repelled(
                                x,
                                sub,
                                *context,
                                e0,
                                names@.dom(),
                                e,
                                tries as nat,
                                depth as nat,
                            );
                        }
                        return Err(e);
                    },
                }
            }
        },
        (Reconciliation::Conflict, Some(cli), Some(srv)) => {
            let mut srv = srv;
            let ghost p = srv@;
            match rename(srv.name.as_slice(), names) {
                Some(n) => {
                    assert(is_next(p.name, old(names)@.dom(), n@));
                    srv.name = n;
                },
                None => {
                    return Err(MutationError::Failure(Error::new(ErrorKind::AllSuffixesInUse)));
                },
            }
            let ghost n = srv@.name;
            let ghost used = names@.dom();
            assert(used =~= old(names)@.dom().insert(n));
            let ours = SyncTriple { client: Some(cli), ancestor: None, server: None };
            let first = reconcile_one(mutator, context, ours, names, tries, depth);
            let ghost middle = mutator.calls();
            match first {
                Ok(mut v) => {
                    ret.append(&mut v);
                },
                Err(e) => {
                    proof {
                        lemma_first_failed(
                            since(before, middle),
                            *context,
                            e0,
                            old(names)@.dom(),
                            n,
                            e,
                            tries as nat,
                            depth as nat,
                        );
                    }
                    return Err(e);
                },
            }
            let ghost one = entries(ret@);
            proof {
                lemma_one_side(
                    since(before, middle),
                    *context,
                    ours@,
                    used,
                    one,
                    names@.dom(),
                    tries as nat,
                    depth as nat,
                );
            }
            let theirs = SyncTriple { client: None, ancestor: None, server: Some(srv) };
            let second = reconcile_one(mutator, context, theirs, names, tries, depth);
            proof {
                lemma_since(before, middle, mutator.calls());
            }
            match second {
                Ok(mut v) => {
                    let ghost two = entries(v@);
                    ret.append(&mut v);
                    proof {
                        let last = since(middle, mutator.calls());
                        lemma_one_side(
                            last,
                            *context,
                            theirs@,
                            used,
                            two,
                            names@.dom(),
                            tries as nat,
                            depth as nat,
                        );
                        assert(entries(ret@) =~= one + two);
                        lemma_conflict(
                            since(before, middle),
                            last,
                            *context,
                            e0,
                            old(names)@.dom(),
                            n,
                            one,
                            two,
                            tries as nat,
                            depth as nat,
                        );
                    }
                },
                Err(e) => {
                    proof {
                        lemma_second_failed(
                            since(before, middle),
                            since(middle, mutator.calls()),
                            *context,
                            e0,
                            old(names)@.dom(),
                            n,
                            one,
                            e,
                            tries as nat,
                            depth as nat,
                        );
                    }
                    return Err(e);
                },
            }
        },
        (_, client, server) => {
            ret.push(single(client, server));
            assert(entries(ret@) =~= seq![both(e0.client, e0.server)]);
        },
    }
    Ok(ret)
}

/// Returns the entries of a table.
fn values(m: &NameMap<DirPtr>) -> (r: Vec<DirPtr>)
    requires
        keyed(models(m@)),
    ensures
        lists(mutator::ptrs(r@), models(m@)),
{
    let mut r: Vec<DirPtr> = Vec::new();
    let len: usize = m.len();
    let mut i: usize = 0;
    while i < len
        invariant
            i <= len,
            len == m.order().len(),
            r@.len() == i,
            forall|j: int| 0 <= j < i ==> (#[trigger] r@[j])@ == m@[m.order()[j]]@,
        decreases len - i,
    {
        r.push(m.value_at(i).copy());
        i += 1;
    }
    proof {
        let l = mutator::ptrs(r@);
        let t = models(m@);
        assert forall|j: int| 0 <= j < l.len() implies lookup(t, (#[trigger] l[j]).name) == Some(
            l[j],
        ) && l[j].name == m.order()[j] by {
            assert(m.order().contains(m.order()[j]));
            assert(m@.dom().contains(m.order()[j]));
            assert(t.dom().contains(m.order()[j]));
            assert(t[m.order()[j]] == l[j]);
        }
        assert forall|n: Seq<u8>| #[trigger] t.dom().contains(n) implies exists|j: int|
            0 <= j < l.len() && (#[trigger] l[j]).name == n by {
            assert(m@.dom().contains(n));
            assert(m.order().contains(n));
            let j = choose|j: int| 0 <= j < m.order().len() && m.order()[j] == n;
            assert(l[j].name == n);
        }
    }
    r
}

/// Whether every entry stands under its own name.
spec fn keyed(m: Map<Seq<u8>, PtrModel>) -> bool {
    forall|n: Seq<u8>| #[trigger] m.dom().contains(n) ==> m[n].name == n
}

proof fn lemma_table_keyed(l: Seq<PtrModel>)
    ensures
        keyed(table(l)),
    decreases l.len(),
{
    if l.len() > 0 {
        lemma_table_keyed(l.drop_last());
    }
}

spec fn all_keyed(t: Tables) -> bool {
    keyed(t.client) && keyed(t.ancestor) && keyed(t.server)
}

proof fn lemma_with_keyed(t: Tables, l: Seq<Entries>)
    requires
        all_keyed(t),
    ensures
        all_keyed(t.with(l)),
    decreases l.len(),
{
    if l.len() > 0 {
        lemma_with_keyed(t, l.drop_last());
    }
}

/// Adds an entry to a table.
fn put(m: &mut NameMap<DirPtr>, p: &Option<DirPtr>)
    ensures
        models(final(m)@) == entered(models(old(m)@), mutator::ptr(*p)),
{
    let ghost before = models(m@);
    match p {
        Some(p) => {
            let p = p.copy();
            let ghost x = p;
            let _ = m.insert(bytes::copy(p.name.as_slice()), p);
            assert(models(m@) =~= before.insert(x@.name, x@));
        },
        None => {},
    }
}

/// Adds the names of a table to those that are in use.
fn add_names(names: &mut NameMap<()>, m: &NameMap<DirPtr>)
    ensures
        final(names)@.dom() == old(names)@.dom() + m@.dom(),
{
    let len: usize = m.len();
    let mut i: usize = 0;
    let ghost before = names@.dom();
    assert(m.order().take(0).to_set() =~= Set::empty());
    assert(before =~= before + m.order().take(0).to_set());
    while i < len
        invariant
            i <= len,
            len == m.order().len(),
            names@.dom() == before + m.order().take(i as int).to_set(),
        decreases len - i,
    {
        let _ = names.insert(bytes::copy(m.name_at(i).as_slice()), ());
        proof {
            let o = m.order();
            let t = o.take(i + 1);
            assert(t =~= o.take(i as int).push(o[i as int]));
            assert forall|n: Seq<u8>| t.to_set().contains(n) == (o.take(i as int).to_set().contains(
                n,
            ) || n == o[i as int]) by {
                if o.take(i as int).contains(n) {
                    let j = choose|j: int| 0 <= j < i && o.take(i as int)[j] == n;
                    assert(t[j] == n);
                }
                assert(t[i as int] == o[i as int]);
            }
            assert(names@.dom() =~= before + t.to_set());
        }
        i += 1;
    }
    proof {
        assert(m.order().take(i as int) =~= m.order());
        assert(m.order().to_set() =~= m@.dom());
    }
}

/// Reconciles a directory and everything in it. Returns the hash of the blob
/// that it is stored as on the server.
fn reconcile_directory<M: Mutator>(
    mutator: &mut M,
    context: &M::Location,
    tries: u64,
    depth: u64,
) -> (r: MutationResult<HashId>)
    ensures
        extends(old(mutator).calls(), final(mutator).calls()),
        match r {
            Ok(h) => directory_done(
                since(old(mutator).calls(), final(mutator).calls()),
                *context,
                h,
                tries as nat,
                depth as nat,
            ),
            Err(e) => directory_failed(
                since(old(mutator).calls(), final(mutator).calls()),
                *context,
                e,
                tries as nat,
                depth as nat,
            ),
        },
    decreases depth, 2int, 0int,
{
    proof {
        reveal(directory_failed);
    }
    let ghost c0 = mutator.calls();
    let cl = mutator.ls_client(context);
    let ghost c1 = mutator.calls();
    proof {
        lemma_called(c0, Call::LsClient(*context, cl));
    }
    let cl = match cl {
        Ok(l) => l,
        Err(e) => {
            return Err(e);
        },
    };
    let ghost gcl = cl;
    let mut client = to_map(cl);
    let al = mutator.ls_ancestor(context);
    let ghost c2 = mutator.calls();
    proof {
        lemma_called(c1, Call::LsAncestor(*context, al));
        lemma_since(c0, c1, c2);
    }
    let al = match al {
        Ok(l) => l,
        Err(e) => {
            assert(since(c0, c2) =~= seq![
                seen_client(*context, gcl),
                Call::LsAncestor(*context, Err(e)),
            ]);
            return Err(e);
        },
    };
    let ghost gal = al;
    let mut ancestor = to_map(al);
    let sl = mutator.ls_server(context);
    let ghost c3 = mutator.calls();
    proof {
        lemma_called(c2, Call::LsServer(*context, sl));
        lemma_since(c0, c2, c3);
    }
    let sl = match sl {
        Ok(l) => l,
        Err(e) => {
            assert(since(c0, c3) =~= seq![
                seen_client(*context, gcl),
                seen_ancestor(*context, gal),
                Call::LsServer(*context, Err(e)),
            ]);
            return Err(e);
        },
    };
    let ghost gsl = sl;
    let mut server = to_map(sl);
    let ghost t0 = Tables {
        client: table(mutator::ptrs(gcl@)),
        ancestor: table(mutator::ptrs(gal@)),
        server: table(mutator::ptrs(gsl@)),
    };
    let mut names: NameMap<()> = NameMap::new();
    add_names(&mut names, &client);
    add_names(&mut names, &server);
    let todo: Vec<Name> = listed(&names);
    let ghost order = crate::path::names_of(todo@);
    let ghost mut work: Seq<Work<M::Location>> = Seq::empty();
    proof {
        lemma_table_keyed(mutator::ptrs(gcl@));
        lemma_table_keyed(mutator::ptrs(gal@));
        lemma_table_keyed(mutator::ptrs(gsl@));
        assert(names@.dom() =~= t0.client.dom() + t0.server.dom());
        lemma_not_called(c3);
        reveal(work_done);
        assert forall|n: Seq<u8>| #[trigger] order.contains(n) implies t0.client.dom().contains(n)
            || t0.server.dom().contains(n) by {
            assert(names@.dom().contains(n));
        }
    }
    let mut i: usize = 0;
    while i < todo.len()
        invariant
            i <= todo@.len(),
            order == crate::path::names_of(todo@),
            work.len() == i,
            forall|j: int| 0 <= j < i ==> (#[trigger] work[j]).name == order[j],
            names@.dom() == used_after(t0, work),
            tables_of(client@, ancestor@, server@) == after(t0, work),
            all_keyed(after(t0, work)),
            work_done(work, t0, *context, tries as nat, depth as nat),
            c0 == old(mutator).calls(),
            c1 == c0.push(Call::LsClient(*context, Ok(gcl))),
            c2 == c1.push(Call::LsAncestor(*context, Ok(gal))),
            c3 == c2.push(Call::LsServer(*context, Ok(gsl))),
            t0 == (Tables {
                client: table(mutator::ptrs(gcl@)),
                ancestor: table(mutator::ptrs(gal@)),
                server: table(mutator::ptrs(gsl@)),
            }),
            forall|n: Seq<u8>| #[trigger]
                order.contains(n) ==> t0.client.dom().contains(n) || t0.server.dom().contains(n),
            extends(c0, c3),
            extends(c3, mutator.calls()),
            since(c3, mutator.calls()) == made(work),
        decreases todo@.len() - i,
    {
        let name: &[u8] = todo[i].as_slice();
        let ghost held = after(t0, work);
        let ghost used = names@.dom();
        let ghost c = mutator.calls();
        let inn = SyncTriple {
            client: client.remove(name),
            ancestor: ancestor.remove(name),
            server: server.remove(name),
        };
        proof {
            assert(inn@ == held.at(name@));
            assert(tables_of(client@, ancestor@, server@) =~= held.without(name@));
        }
        let out = reconcile_one(mutator, context, inn, &mut names, tries, depth);
        proof {
            lemma_since(c3, c, mutator.calls());
            lemma_since(c0, c3, mutator.calls());
        }
        let out: Vec<SyncTriple> = match out {
            Ok(out) => out,
            Err(e) => {
                proof {
                    let rest = since(c, mutator.calls());
                    let x = Broken { client: gcl, ancestor: gal, server: gsl, work, rest };
                    assert(x.tables() == t0);
                    lemma_broken(x, *context, c0, c1, c2, c3, c, mutator.calls());
                    assert(t0.client.dom().contains(name@) || t0.server.dom().contains(name@)) by {
                        assert(order.contains(order[i as int]));
                    }
                    lemma_name_failed(
                        x,
                        name@,
                        *context,
                        e,
                        tries as nat,
                        depth as nat,
                    );
                }
                return Err(e);
            },
        };
        let ghost all = entries(out@);
        let mut j: usize = 0;
        assert(all.take(0) =~= Seq::empty());
        while j < out.len()
            invariant
                j <= out@.len(),
                all == entries(out@),
                tables_of(client@, ancestor@, server@) == held.without(name@).with(
                    all.take(j as int),
                ),
            decreases out@.len() - j,
        {
            put(&mut client, &out[j].client);
            put(&mut ancestor, &out[j].ancestor);
            put(&mut server, &out[j].server);
            proof {
                let t = all.take(j + 1);
                assert(t.drop_last() =~= all.take(j as int));
                assert(t.last() == out@[j as int]@);
            }
            j += 1;
        }
        proof {
            assert(all.take(j as int) =~= all);
            let w = Work {
                name: name@,
                calls: since(c, mutator.calls()),
                out: all,
                used,
                left: names@.dom(),
            };
            lemma_with_keyed(held.without(name@), all);
            lemma_worked(work, w, t0, *context, tries as nat, depth as nat);
            work = work.push(w);
        }
        i += 1;
    }
    let new_ancestor = values(&ancestor);
    let new_server = values(&server);
    let ghost c4 = mutator.calls();
    let stored = mutator.put_dir_ancestor(context, &new_ancestor);
    let ghost c5 = mutator.calls();
    proof {
        lemma_since(c0, c3, c4);
        lemma_called(c4, Call::PutDirAncestor(*context, mutator::ptrs(new_ancestor@), mutator::refusal(stored)));
        lemma_since(c0, c4, c5);
        lemma_every_name(work, order, t0);
    }
    match stored {
        Ok(_) => {},
        Err(e) => {
            proof {
                let anc = mutator::ptrs(new_ancestor@);
                let rest = seq![Call::PutDirAncestor(*context, anc, Some(e))];
                let x = Broken { client: gcl, ancestor: gal, server: gsl, work, rest };
                assert(x.tables() == t0);
                lemma_broken(x, *context, c0, c1, c2, c3, c4, c5);
                assert(lists(anc, after(t0, work).ancestor));
            }
            return Err(e);
        },
    }
    let r = mutator.put_dir_server(context, &new_server);
    proof {
        let c6 = mutator.calls();
        lemma_called(c5, Call::PutDirServer(*context, mutator::ptrs(new_server@), r));
        lemma_since(c0, c5, c6);
        if r is Ok {
            let v = Visit {
                client: gcl,
                ancestor: gal,
                server: gsl,
                work,
                new_ancestor: mutator::ptrs(new_ancestor@),
                new_server: mutator::ptrs(new_server@),
            };
            assert(v.tables() == t0);
            lemma_all(v, *context, r->Ok_0, c0, c1, c2, c3, c4, c5, c6);
            reveal(directory_done);
        } else {
            let anc = mutator::ptrs(new_ancestor@);
            let srv = mutator::ptrs(new_server@);
            let rest = seq![
                Call::PutDirAncestor(*context, anc, None),
                Call::PutDirServer(*context, srv, Err(r->Err_0)),
            ];
            let x = Broken { client: gcl, ancestor: gal, server: gsl, work, rest };
            assert(x.tables() == t0);
            lemma_since(c4, c5, c6);
            assert(since(c4, c6) =~= rest);
            lemma_broken(x, *context, c0, c1, c2, c3, c4, c6);
            assert(lists(anc, after(t0, work).ancestor));
            assert(lists(srv, after(t0, work).server));
        }
    }
    r
}

/// The calls that come before something goes wrong are made in order.
proof fn lemma_broken<L>(
    x: Broken<L>,
    at: L,
    c0: Seq<Call<L>>,
    c1: Seq<Call<L>>,
    c2: Seq<Call<L>>,
    c3: Seq<Call<L>>,
    c4: Seq<Call<L>>,
    c5: Seq<Call<L>>,
)
    requires
        c1 == c0.push(Call::LsClient(at, Ok(x.client))),
        c2 == c1.push(Call::LsAncestor(at, Ok(x.ancestor))),
        c3 == c2.push(Call::LsServer(at, Ok(x.server))),
        extends(c3, c4),
        since(c3, c4) == made(x.work),
        extends(c4, c5),
        since(c4, c5) == x.rest,
    ensures
        since(c0, c5) == x.all(at),
{
    let first = seq![
        Call::LsClient(at, Ok(x.client)),
        Call::LsAncestor(at, Ok(x.ancestor)),
        Call::LsServer(at, Ok(x.server)),
    ];
    assert(c3.take(c0.len() as int) =~= c0);
    assert(since(c0, c3) =~= first);
    lemma_since(c0, c3, c4);
    lemma_since(c0, c4, c5);
}

/// A directory is not reconciled if one of its names is not.
proof fn lemma_name_failed<L: Location>(
    x: Broken<L>,
    n: Seq<u8>,
    at: L,
    err: MutationError,
    tries: nat,
    depth: nat,
)
    requires
        work_done(x.work, x.tables(), at, tries, depth),
        x.tables().client.dom().contains(n) || x.tables().server.dom().contains(n),
        one_failed(
            x.rest,
            at,
            after(x.tables(), x.work).at(n),
            used_after(x.tables(), x.work),
            err,
            tries,
            depth,
        ),
    ensures
        directory_failed(x.all(at), at, err, tries, depth),
{
    reveal(directory_failed);
    reveal(work_done);
    reveal(one_failed);
    let d = x.tables().client.dom();
    assert(d.contains(n) || !d.contains(n));
}

/// The calls of a visit are made in order.
proof fn lemma_all<L>(
    v: Visit<L>,
    at: L,
    hash: HashId,
    c0: Seq<Call<L>>,
    c1: Seq<Call<L>>,
    c2: Seq<Call<L>>,
    c3: Seq<Call<L>>,
    c4: Seq<Call<L>>,
    c5: Seq<Call<L>>,
    c6: Seq<Call<L>>,
)
    requires
        c1 == c0.push(Call::LsClient(at, Ok(v.client))),
        c2 == c1.push(Call::LsAncestor(at, Ok(v.ancestor))),
        c3 == c2.push(Call::LsServer(at, Ok(v.server))),
        extends(c3, c4),
        since(c3, c4) == made(v.work),
        c5 == c4.push(Call::PutDirAncestor(at, v.new_ancestor, None)),
        c6 == c5.push(Call::PutDirServer(at, v.new_server, Ok(hash))),
    ensures
        since(c0, c6) == v.all(at, hash),
{
    let n = c0.len() as int;
    assert(c4 =~= c3 + made(v.work)) by {
        assert forall|i: int| 0 <= i < c3.len() implies c4[i] == c3[i] by {
            assert(c4.take(c3.len() as int)[i] == c4[i]);
        }
        assert forall|i: int| c3.len() <= i < c4.len() implies c4[i] == made(v.work)[i
            - c3.len()] by {
            assert(since(c3, c4)[i - c3.len()] == c4[i]);
        }
    }
    assert(since(c0, c6) =~= v.all(at, hash));
}

/// Tables, over mathematical values.
spec fn tables_of(
    client: Map<Seq<u8>, DirPtr>,
    ancestor: Map<Seq<u8>, DirPtr>,
    server: Map<Seq<u8>, DirPtr>,
) -> Tables {
    Tables { client: models(client), ancestor: models(ancestor), server: models(server) }
}

/// Work that goes by the names in use works on every name.
proof fn lemma_every_name<L>(work: Seq<Work<L>>, order: Seq<Seq<u8>>, t: Tables)
    requires
        work.len() == order.len(),
        forall|j: int| 0 <= j < work.len() ==> (#[trigger] work[j]).name == order[j],
        forall|i: int, j: int|
            0 <= i < j < order.len() ==> bytes::before(#[trigger] order[i], #[trigger] order[j]),
        forall|n: Seq<u8>|
            order.contains(n) <==> #[trigger] (t.client.dom() + t.server.dom()).contains(n),
    ensures
        every_name(work, t),
{
    assert forall|n: Seq<u8>|
        (exists|i: int| 0 <= i < work.len() && (#[trigger] work[i]).name == n) <==> (
        #[trigger] t.client.dom().contains(n) || t.server.dom().contains(n)) by {
        let d = t.client.dom() + t.server.dom();
        assert(d.contains(n) <==> order.contains(n));
        if order.contains(n) {
            let i = choose|i: int| 0 <= i < order.len() && order[i] == n;
            assert(work[i].name == n);
        }
        if exists|i: int| 0 <= i < work.len() && (#[trigger] work[i]).name == n {
            let i = choose|i: int| 0 <= i < work.len() && (#[trigger] work[i]).name == n;
            assert(order[i] == n);
        }
    }
}

/// Returns the names of a table.
fn listed(names: &NameMap<()>) -> (r: Vec<Name>)
    ensures
        crate::path::names_of(r@) == names.order(),
        forall|n: Seq<u8>| names.order().contains(n) <==> #[trigger] names@.dom().contains(n),
        forall|i: int, j: int|
            0 <= i < j < names.order().len() ==> bytes::before(
                #[trigger] names.order()[i],
                #[trigger] names.order()[j],
            ),
{
    let mut r: Vec<Name> = Vec::new();
    let len: usize = names.len();
    let mut i: usize = 0;
    while i < len
        invariant
            i <= len,
            len == names.order().len(),
            r@.len() == i,
            forall|j: int| 0 <= j < i ==> (#[trigger] r@[j])@ == names.order()[j],
        decreases len - i,
    {
        r.push(bytes::copy(names.name_at(i).as_slice()));
        i += 1;
    }
    assert(crate::path::names_of(r@) =~= names.order());
    r
}

/// Everything has been reconciled, but the root had changed by then.
pub struct Round<L> {
    pub root: L,
    pub calls: Seq<Call<L>>,
    pub hash: HashId,
}

impl<L> Round<L> {
    /// The calls that are made before the result is stored.
    pub open spec fn begun(self) -> Seq<Call<L>> {
        seq![Call::Root(Ok(self.root))] + self.calls
    }
}

/// The calls that are made in rounds that came to nothing.
pub open spec fn rounds<L>(l: Seq<Round<L>>) -> Seq<Call<L>>
    decreases l.len(),
{
    if l.len() == 0 {
        Seq::empty()
    } else {
        rounds(l.drop_last()) + l.last().begun().push(
            Call::Finish(l.last().hash@, Some(MutationError::Modified)),
        ).push(Call::CancelAncestors)
    }
}

/// Whether everything has been reconciled in each round.
pub open spec fn all_done<L: Location>(l: Seq<Round<L>>, tries: nat, depth: nat) -> bool {
    forall|i: int|
        0 <= i < l.len() ==> directory_done(
            (#[trigger] l[i]).calls,
            l[i].root,
            l[i].hash,
            tries,
            depth,
        )
}

/// Everything has been reconciled, possibly after some rounds.
pub struct Finished<L> {
    pub before: Seq<Round<L>>,
    pub round: Round<L>,
}

impl<L> Finished<L> {
    /// All calls that are made.
    pub open spec fn all(self) -> Seq<Call<L>> {
        rounds(self.before) + self.round.begun().push(Call::Finish(self.round.hash@, None))
    }
}

/// Reconciling everything has come to nothing, possibly after some rounds.
pub struct Failed<L> {
    pub before: Seq<Round<L>>,
    pub rest: Seq<Call<L>>,
}

impl<L> Failed<L> {
    /// All calls that are made.
    pub open spec fn all(self) -> Seq<Call<L>> {
        rounds(self.before) + self.rest
    }
}

/// Whether everything has been reconciled, after the given calls.
pub open spec fn all_reconciled<L: Location>(calls: Seq<Call<L>>, tries: nat, depth: nat) -> bool {
    exists|x: Finished<L>|
        {
            &&& calls == #[trigger] x.all()
            &&& x.before.len() <= tries
            &&& all_done(x.before, tries, depth)
            &&& directory_done(x.round.calls, x.round.root, x.round.hash, tries, depth)
        }
}

/// Whether reconciling everything has come to an end with an error, after the
/// given calls: there was no root, or it could not be reconciled, or the result
/// could not be stored, or it had to be given up too many times.
pub open spec fn reconciling_failed<L: Location>(
    calls: Seq<Call<L>>,
    err: MutationError,
    tries: nat,
    depth: nat,
) -> bool {
    exists|x: Failed<L>|
        {
            &&& calls == #[trigger] x.all()
            &&& all_done(x.before, tries, depth)
            &&& {
                ||| x.before.len() <= tries && x.rest == seq![Call::<L>::Root(Err(err))]
                ||| x.before.len() <= tries && exists|root: L|
                    {
                        &&& x.rest.len() > 0
                        &&& x.rest[0] == #[trigger] rooted(root)
                        &&& directory_failed(x.rest.skip(1), root, err, tries, depth)
                    }
                ||| x.before.len() <= tries && err !is Modified && exists|r: Round<L>|
                    {
                        &&& x.rest == (#[trigger] r.begun()).push(
                            Call::Finish(r.hash@, Some(err)),
                        )
                        &&& directory_done(r.calls, r.root, r.hash, tries, depth)
                    }
                ||| x.before.len() == tries + 1 && x.rest == Seq::<Call<L>>::empty()
                    && fails_for(err, ErrorKind::TooManyTxRetries)
            }
        }
}

/// A root that there is.
pub open spec fn rooted<L>(root: L) -> Call<L> {
    Call::Root(Ok(root))
}

/// Reconciles everything. If something changes under our hands, it is tried
/// again.
pub fn reconcile<M: Mutator>(mutator: &mut M) -> (r: MutationResult<()>)
    ensures
        extends(old(mutator).calls(), final(mutator).calls()),
        match r {
            Ok(_) => all_reconciled(
                since(old(mutator).calls(), final(mutator).calls()),
                u64::MAX as nat,
                u64::MAX as nat,
            ),
            Err(e) => reconciling_failed(
                since(old(mutator).calls(), final(mutator).calls()),
                e,
                u64::MAX as nat,
                u64::MAX as nat,
            ),
        },
{
    reconcile_within(mutator, u64::MAX, u64::MAX)
}

/// Reconciles everything. If something changes under our hands, it is tried
/// again, up to the given number of times. Directories may be nested up to the
/// given depth.
pub fn reconcile_within<M: Mutator>(mutator: &mut M, tries: u64, depth: u64) -> (r: MutationResult<
    (),
>)
    ensures
        extends(old(mutator).calls(), final(mutator).calls()),
        match r {
            Ok(_) => all_reconciled(
                since(old(mutator).calls(), final(mutator).calls()),
                tries as nat,
                depth as nat,
            ),
            Err(e) => reconciling_failed(
                since(old(mutator).calls(), final(mutator).calls()),
                e,
                tries as nat,
                depth as nat,
            ),
        },
{
    let mut left: u64 = tries;
    let ghost c0 = mutator.calls();
    let ghost mut before: Seq<Round<M::Location>> = Seq::empty();
    proof {
        lemma_not_called(c0);
    }
    loop
        invariant
            c0 == old(mutator).calls(),
            extends(c0, mutator.calls()),
            before.len() + left == tries,
            all_done(before, tries as nat, depth as nat),
            since(c0, mutator.calls()) == rounds(before),
        decreases left,
    {
        let ghost c1 = mutator.calls();
        let root = mutator.root();
        let ghost c2 = mutator.calls();
        proof {
            lemma_called(c1, Call::Root(root));
            lemma_since(c0, c1, c2);
        }
        let context = match root {
            Ok(context) => context,
            Err(e) => {
                proof {
                    let x = Failed { before, rest: seq![Call::Root(Err(e))] };
                    assert(since(c0, c2) == x.all());
                }
                return Err(e);
            },
        };
        let done = reconcile_directory(mutator, &context, tries, depth);
        let ghost c3 = mutator.calls();
        let ghost calls = since(c2, c3);
        proof {
            lemma_since(c0, c2, c3);
        }
        let root_hash: HashId = match done {
            Ok(h) => h,
            Err(e) => {
                proof {
                    let rest = seq![rooted(context)] + calls;
                    let x = Failed { before, rest };
                    assert(rest[0] == rooted(context));
                    assert(rest.skip(1) =~= calls);
                    assert(since(c0, c3) =~= x.all());
                }
                return Err(e);
            },
        };
        let finished = mutator.finish(&root_hash);
        let ghost c4 = mutator.calls();
        let ghost round = Round { root: context, calls, hash: root_hash };
        proof {
            lemma_called(c3, Call::Finish(root_hash@, mutator::refusal(finished)));
            lemma_since(c0, c3, c4);
        }
        match finished {
            Ok(u) => {
                proof {
                    let x = Finished { before, round };
                    assert(since(c0, c4) =~= x.all());
                }
                return Ok(());
            },
            Err(MutationError::Modified) => {
                mutator.cancel_ancestors();
                proof {
                    lemma_called(c4, Call::CancelAncestors);
                    lemma_since(c0, c4, mutator.calls());
                    let more = before.push(round);
                    assert(more.drop_last() =~= before);
                    assert(since(c0, mutator.calls()) =~= rounds(more));
                    before = more;
                }
                if left == 0 {
                    proof {
                        let x = Failed { before, rest: Seq::empty() };
                        assert(since(c0, mutator.calls()) =~= x.all());
                    }
                    return Err(give_up());
                }
                left -= 1;
            },
            Err(e) => {
                proof {
                    let rest = round.begun().push(Call::Finish(root_hash@, Some(e)));
                    let x = Failed { before, rest };
                    assert(since(c0, c4) =~= x.all());
                }
                return Err(e);
            },
        }
    }
}

/// A mode with its two directions exchanged.
pub open spec fn turned(mode: SyncMode) -> SyncMode {
    SyncMode { inbound: mode.outbound, outbound: mode.inbound }
}

/// What is done, with the two sides exchanged.
pub open spec fn mirrored(r: Reconciliation) -> Reconciliation {
    match r {
        Reconciliation::Download => Reconciliation::Upload,
        Reconciliation::Upload => Reconciliation::Download,
        Reconciliation::DeleteClient => Reconciliation::DeleteServer,
        Reconciliation::DeleteServer => Reconciliation::DeleteClient,
        other => other,
    }
}

/// Neither side is preferred: with the sides and the directions exchanged, the same
/// is done the other way round.
pub proof fn law_plan_mirrored(
    client: Option<PtrModel>,
    ancestor: Option<PtrModel>,
    server: Option<PtrModel>,
    mode: SyncMode,
)
    ensures
        plan(server, ancestor, client, turned(mode)) == mirrored(
            plan(client, ancestor, server, mode),
        ),
{
}

/// If only the server has changed, the change is brought to the client where it is
/// permitted, and nothing else is ever done. By `law_plan_mirrored`, the like holds
/// of a change on the client.
pub proof fn law_plan_inbound(
    client: Option<PtrModel>,
    ancestor: Option<PtrModel>,
    server: Option<PtrModel>,
    mode: SyncMode,
)
    requires
        mutator::ptrs_match(client, ancestor),
        !mutator::ptrs_match(server, ancestor),
    ensures
        ({
            let r = plan(client, ancestor, server, mode);
            let dirs = client is Some && server is Some && client->0.typ == DirPtrType::Directory
                && server->0.typ == DirPtrType::Directory;
            &&& dirs ==> r is Recurse
            &&& server is None ==> r == (if mode.inbound.delete.on() {
                Reconciliation::DeleteClient
            } else {
                Reconciliation::Nop
            })
            &&& client is None ==> r == (if mode.inbound.create.on() {
                Reconciliation::Download
            } else {
                Reconciliation::Nop
            })
            &&& client is Some && server is Some && !dirs ==> r == (if mode.inbound.update.on() {
                Reconciliation::Download
            } else {
                Reconciliation::Nop
            })
        }),
{
}

/// If both sides have changed and differ, nothing is lost where everything is
/// permitted: what one side has deleted is brought back, directories are entered,
/// and of other files both versions are kept. If only one direction is permitted,
/// the version that can be brought over is.
pub proof fn law_plan_both(
    client: Option<PtrModel>,
    ancestor: Option<PtrModel>,
    server: Option<PtrModel>,
    mode: SyncMode,
)
    requires
        !mutator::ptrs_match(client, ancestor),
        !mutator::ptrs_match(server, ancestor),
        !mutator::ptrs_match(client, server),
    ensures
        ({
            let r = plan(client, ancestor, server, mode);
            &&& server is None ==> r == (if mode.outbound.create.on() {
                Reconciliation::Upload
            } else {
                Reconciliation::Nop
            })
            &&& client is None ==> r == (if mode.inbound.create.on() {
                Reconciliation::Download
            } else {
                Reconciliation::Nop
            })
            &&& client is Some && server is Some ==> {
                let (i, o) = (mode.inbound.update.on(), mode.outbound.update.on());
                if client->0.typ == DirPtrType::Directory && server->0.typ
                    == DirPtrType::Directory {
                    r is Recurse
                } else if i && o {
                    r is Conflict
                } else if i {
                    r is Download
                } else if o {
                    r is Upload
                } else {
                    r is Nop
                }
            }
        }),
{
}

/// Nothing is deleted unless the other side has deleted what it had in common with
/// this one, nothing is overwritten that both sides do not have, and no direction
/// is used that is not permitted.
pub proof fn law_plan_sparing(
    client: Option<PtrModel>,
    ancestor: Option<PtrModel>,
    server: Option<PtrModel>,
    mode: SyncMode,
)
    ensures
        ({
            let r = plan(client, ancestor, server, mode);
            &&& r is DeleteClient ==> mutator::ptrs_match(client, ancestor) && server is None
                && mode.inbound.delete.on()
            &&& r is DeleteServer ==> mutator::ptrs_match(server, ancestor) && client is None
                && mode.outbound.delete.on()
            &&& r is Download ==> mode.inbound.create.on() || mode.inbound.update.on()
            &&& r is Upload ==> mode.outbound.create.on() || mode.outbound.update.on()
            &&& r is Conflict ==> mode.inbound.update.on() && mode.outbound.update.on()
        }),
{
}

/// What both sides agree on is remembered, and nothing else.
pub proof fn law_both(client: Option<PtrModel>, server: Option<PtrModel>)
    ensures
        both(client, server).client == client && both(client, server).server == server,
        both(client, server).ancestor is Some <==> client is Some && server is Some
            && client->0.matches(server->0),
        both(client, server).ancestor is Some ==> both(client, server).ancestor == server,
{
}

/// The entry that a table has by a name is the last one of that name in the list;
/// there is none exactly if the list has none.
pub proof fn law_table(l: Seq<PtrModel>, n: Seq<u8>)
    ensures
        match lookup(table(l), n) {
            Some(p) => exists|i: int| #[trigger] is_last(l, n, i) && l[i] == p,
            None => forall|i: int| 0 <= i < l.len() ==> (#[trigger] l[i]).name != n,
        },
    decreases l.len(),
{
    if l.len() > 0 {
        let most = l.drop_last();
        law_table(most, n);
        let k = l.len() - 1;
        if l.last().name == n {
            assert(is_last(l, n, k));
        } else {
            match lookup(table(most), n) {
                Some(p) => {
                    let i = choose|i: int| #[trigger] is_last(most, n, i) && most[i] == p;
                    assert forall|j: int| i < j < l.len() implies (#[trigger] l[j]).name != n by {
                        if j < k {
                            assert(most[j].name != n);
                        }
                    }
                    assert(is_last(l, n, i));
                },
                None => {
                    assert forall|j: int| 0 <= j < l.len() implies (#[trigger] l[j]).name != n by {
                        if j < k {
                            assert(most[j].name != n);
                        }
                    }
                },
            }
        }
    }
}

/// Whether the `i`th entry is the last one of a name.
pub open spec fn is_last(l: Seq<PtrModel>, n: Seq<u8>, i: int) -> bool {
    &&& 0 <= i < l.len() && l[i].name == n
    &&& forall|j: int| i < j < l.len() ==> (#[trigger] l[j]).name != n
}

/// Every alternate for a name is another one: it is the name, a tilde and a number.
pub proof fn law_numbered(name: Seq<u8>, i: nat, j: nat)
    ensures
        numbered(name, i) == numbered(name, j) ==> i == j,
        bytes::begins_with(numbered(name, i), name),
        numbered(name, i).len() > name.len() + 1,
        numbered(name, i)[name.len() as int] as char == '~',
        numbered(name, i).skip(name.len() as int + 1) == text::digit_bytes(i),
{
    let l = name.len() + 1;
    assert(numbered(name, i).skip(l as int) =~= text::digit_bytes(i));
    assert(numbered(name, j).skip(l as int) =~= text::digit_bytes(j));
    if numbered(name, i) == numbered(name, j) {
        text::lemma_digit_bytes_injective(i, j);
    }
    assert(numbered(name, i).take(name.len() as int) =~= name);
    text::law_digits(i, 10);
}

/// Where everything is permitted, a name that has been reconciled is the same on
/// both sides and in the ancestor, and so are those that it gives rise to. Two
/// versions in conflict are both kept: the one of the client by its own name, the
/// one of the server by another that was not in use.
pub proof fn law_one_done<L: Location>(
    calls: Seq<Call<L>>,
    at: L,
    e: Entries,
    used: Set<Seq<u8>>,
    out: Seq<Entries>,
    left: Set<Seq<u8>>,
    tries: nat,
    depth: nat,
)
    requires
        one_done(calls, at, e, used, out, left, tries, depth),
        all_permitted(at.mode()),
    ensures
        forall|i: int| 0 <= i < out.len() ==> settled(#[trigger] out[i]),
        plan(e.client, e.ancestor, e.server, at.mode()) is Conflict ==> {
            &&& out.len() == 2
            &&& out[0].client matches Some(p) && p.name == e.client->0.name && p.typ
                == e.client->0.typ && p.mode == e.client->0.mode
            &&& out[1].server matches Some(p) && p.matches(e.server->0) && !used.contains(p.name)
        },
        !(plan(e.client, e.ancestor, e.server, at.mode()) is Conflict) ==> out.len() == 1 && left
            == used,
{
    reveal(one_done);
    reveal(all_modified);
    reveal(directory_done);
    match plan(e.client, e.ancestor, e.server, at.mode()) {
        Reconciliation::Upload => {
            let h = choose|h: HashId|
                calls == seq![#[trigger] uploaded(at, e.client->0, h)] && out == seq![
                    agreed(e.client->0, h@),
                ];
            assert(out[0] == agreed(e.client->0, h@));
        },
        Reconciliation::Recurse => {
            let x = choose|x: Entered<L>|
                {
                    &&& calls == #[trigger] x.all(at, e.client->0)
                    &&& x.tried.len() <= tries
                    &&& all_modified(x.tried, tries, (depth - 1) as nat)
                    &&& out == seq![agreed(e.client->0, x.hash@)]
                    &&& directory_done(x.calls, x.sub, x.hash, tries, (depth - 1) as nat)
                };
            assert(out[0] == agreed(e.client->0, x.hash@));
        },
        Reconciliation::Conflict => {
            let (n, mid) = choose|n: Seq<u8>, mid: int|
                {
                    &&& #[trigger] is_next(e.server->0.name, used, n)
                    &&& left == used.insert(n)
                    &&& 0 <= mid <= calls.len()
                    &&& one_done(
                        #[trigger] calls.take(mid),
                        at,
                        Entries { client: e.client, ancestor: None, server: None },
                        left,
                        seq![out[0]],
                        left,
                        tries,
                        depth,
                    )
                    &&& one_done(
                        calls.skip(mid),
                        at,
                        Entries {
                            client: None,
                            ancestor: None,
                            server: Some(
                                PtrModel {
                                    name: n,
                                    typ: e.server->0.typ,
                                    mode: e.server->0.mode,
                                    value: e.server->0.value,
                                },
                            ),
                        },
                        left,
                        seq![out[1]],
                        left,
                        tries,
                        depth,
                    )
                };
            let h = choose|h: HashId|
                calls.take(mid) == seq![#[trigger] uploaded(at, e.client->0, h)] && seq![out[0]]
                    == seq![agreed(e.client->0, h@)];
            assert(seq![out[0]][0] == agreed(e.client->0, h@));
            let q = PtrModel {
                name: n,
                typ: e.server->0.typ,
                mode: e.server->0.mode,
                value: e.server->0.value,
            };
            assert(seq![out[1]] == seq![both(Some(q), Some(q))]);
            assert(seq![out[1]][0] == both(Some(q), Some(q)));
        },
        _ => {
            assert(out.len() == 1);
        },
    }
}

/// Whether an entry is the same on both sides and in the ancestor.
pub open spec fn settled(e: Entries) -> bool {
    mutator::ptrs_match(e.client, e.server) && mutator::ptrs_match(e.ancestor, e.server)
}

/// Whether everything is propagated in both directions.
pub open spec fn all_permitted(mode: SyncMode) -> bool {
    &&& mode.inbound.create.on() && mode.inbound.update.on() && mode.inbound.delete.on()
    &&& mode.outbound.create.on() && mode.outbound.update.on() && mode.outbound.delete.on()
}

/// Whether some of the work is about a name, or gives rise to it.
pub open spec fn concerns<L>(work: Seq<Work<L>>, n: Seq<u8>) -> bool {
    exists|i: int| 0 <= i < work.len() && #[trigger] involves(work[i], n)
}

/// Whether what is done about one name is about `n`, or gives rise to it.
pub open spec fn involves<L>(w: Work<L>, n: Seq<u8>) -> bool {
    w.name == n || exists|j: int| 0 <= j < w.out.len() && #[trigger] named(w.out[j], n)
}

/// Whether an entry has the name on one of the sides.
pub open spec fn named(e: Entries, n: Seq<u8>) -> bool {
    ||| e.client matches Some(p) && p.name == n
    ||| e.ancestor matches Some(p) && p.name == n
    ||| e.server matches Some(p) && p.name == n
}

/// What the work is not about, and does not give rise to, is as it was.
pub proof fn law_after<L>(t: Tables, work: Seq<Work<L>>, n: Seq<u8>)
    requires
        !concerns(work, n),
    ensures
        after(t, work).at(n) == t.at(n),
    decreases work.len(),
{
    if work.len() > 0 {
        let most = work.drop_last();
        let w = work.last();
        assert(work[work.len() - 1] == w);
        assert(!involves(w, n));
        assert forall|i: int| 0 <= i < most.len() implies !#[trigger] involves(most[i], n) by {
            assert(!involves(work[i], n));
        }
        law_after(t, most, n);
        let x = after(t, most);
        assert(x.without(w.name).at(n) =~= x.at(n));
        lemma_with_others(x.without(w.name), w.out, n);
    }
}

proof fn lemma_with_others(t: Tables, l: Seq<Entries>, n: Seq<u8>)
    requires
        forall|j: int| 0 <= j < l.len() ==> !#[trigger] named(l[j], n),
    ensures
        t.with(l).at(n) == t.at(n),
    decreases l.len(),
{
    if l.len() > 0 {
        let most = l.drop_last();
        assert forall|j: int| 0 <= j < most.len() implies !#[trigger] named(most[j], n) by {
            assert(!named(l[j], n));
        }
        lemma_with_others(t, most, n);
        assert(!named(l[l.len() - 1], n));
    }
}

} // verus!
