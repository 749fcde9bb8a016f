//! Running a synchronisation.

use vstd::prelude::*;

use crate::bytes;
use crate::bytes::Name;
use crate::defs;
use crate::defs::HashId;
use crate::errors;
use crate::errors::{Error, Result};
use crate::interrupt::Interrupt;
use crate::log;
use crate::log::{Log, LogLevel, LogModel, Logger};
use crate::path;
use crate::reconcile::context::Context;
use crate::reconcile::descend;
use crate::reconcile::model;
use crate::reconcile::mutate;
use crate::reconcile::tree_walk;
use crate::reconcile::tree_walk::DirState;
use crate::reconcile::trees::Path;
use crate::replica;
use crate::replica::{Chore, Condemn, NullTransfer, PrepareType, Replica, WatchHandle};
use crate::rules::SyncRules;
use crate::text;

use super::setup;

verus! {

/// Whether something is shown that is wanted as the setting says.
pub open spec fn shown_when(setting: Seq<char>, is_terminal: bool) -> bool {
    if is_terminal {
        setting == "always"@ || setting == "auto"@
    } else {
        setting == "always"@
    }
}

/// Returns whether something is shown that can be wanted always, never, or
/// only on a terminal.
pub fn is_wanted(setting: &str, is_terminal: bool) -> (r: bool)
    ensures
        r == (setting@ == "always"@ || (setting@ == "auto"@ && is_terminal)),
        r == shown_when(setting@, is_terminal),
{
    text::same(setting, "always") || (text::same(setting, "auto") && is_terminal)
}

/// How thoroughly to look for changes, by the name of a strategy. If the sync
/// mode is overridden, it takes a closer look by default.
pub open spec fn strategy(name: Seq<char>, overridden: bool) -> PrepareType {
    if name == "clean"@ || (name == "auto"@ && overridden) {
        PrepareType::Clean
    } else if name == "scrub"@ {
        PrepareType::Scrub
    } else {
        PrepareType::Fast
    }
}

/// Returns how thoroughly to look for changes, by the name of a strategy.
pub fn parse_strategy(name: &str, overridden: bool) -> (r: PrepareType)
    ensures
        r == strategy(name@, overridden),
{
    if text::same(name, "clean") || (overridden && text::same(name, "auto")) {
        PrepareType::Clean
    } else if text::same(name, "scrub") {
        PrepareType::Scrub
    } else {
        PrepareType::Fast
    }
}

/// What is logged.
#[derive(Clone, Copy, Debug, PartialEq, Eq, Structural)]
pub struct Verbosity {
    pub level: LogLevel,
    /// Whether operations under directories that are themselves created or
    /// deleted are logged. This makes up for a virtual log level between `EDIT`
    /// and `INFO`.
    pub include_ops_under_opped_directory: bool,
}

/// The verbosity for the number of times that the user has asked for more, and
/// for less. The default is `EDIT`.
pub open spec fn verbosity_for(more: int, less: int) -> (int, bool) {
    let nominal = log::EDIT + more - less;
    let deep = nominal > log::EDIT;
    let level = if deep {
        nominal - 1
    } else {
        nominal
    };
    (
        if level < log::FATAL {
            log::FATAL as int
        } else if level > 255 {
            255
        } else {
            level
        },
        deep,
    )
}

/// Returns the verbosity for the number of times that the user has asked for
/// more, and for less.
pub fn verbosity(more: i32, less: i32) -> (r: Verbosity)
    ensures
        (r.level as int, r.include_ops_under_opped_directory) == verbosity_for(
            more as int,
            less as int,
        ),
{
    let mut nominal: i64 = 4 + more as i64 - less as i64;
    let include_ops_under_opped_directory = nominal > 4;
    if include_ops_under_opped_directory {
        nominal -= 1;
    }
    let level: LogLevel = if nominal < 1 {
        log::FATAL
    } else if nominal > 255 {
        255
    } else {
        nominal as u8
    };
    Verbosity { level, include_ops_under_opped_directory }
}

/// Asking for more never shows less; asking for less never shows more; and
/// fatal errors cannot be turned off.
pub proof fn law_verbosity(more: int, less: int)
    ensures
        verbosity_for(more, less).0 <= verbosity_for(more + 1, less).0,
        verbosity_for(more, less).1 ==> verbosity_for(more + 1, less).1,
        verbosity_for(more, less + 1).0 <= verbosity_for(more, less).0,
        verbosity_for(more, less).0 >= log::FATAL,
        verbosity_for(0, 0) == (log::EDIT as int, false),
        verbosity_for(1, 0) == (log::EDIT as int, true),
        verbosity_for(2, 0) == (log::INFO as int, true),
{
}

/// The level up to which operations are itemised.
pub open spec fn itemised_up_to(itemise: bool, itemise_unchanged: bool) -> LogLevel {
    match (itemise, itemise_unchanged) {
        (true, true) => log::INFO,
        (true, false) => log::EDIT,
        _ => 0,
    }
}

/// Returns the level up to which operations are itemised.
pub fn itemise_level(itemise: bool, itemise_unchanged: bool) -> (r: LogLevel)
    ensures
        r == if !itemise {
            0
        } else if !itemise_unchanged {
            log::EDIT
        } else {
            log::INFO
        },
        r == itemised_up_to(itemise, itemise_unchanged),
{
    if !itemise {
        0
    } else if !itemise_unchanged {
        log::EDIT
    } else {
        log::INFO
    }
}

/// What there is of the hash of the configuration used last.
#[derive(Debug, PartialEq, Eq)]
pub enum LastConfig {
    Hash(HashId),
    NotFound,
    /// It could not be read, for this reason.
    Unreadable(String),
}

/// How thoroughly one has to look for changes, given the configuration used
/// last: if it was, or may have been, another one, everything has to be
/// considered dirty.
pub open spec fn least_strategy(last: LastConfig, current: Seq<u8>) -> PrepareType {
    match last {
        LastConfig::Hash(h) => if h@ == current {
            PrepareType::Fast
        } else {
            PrepareType::Clean
        },
        _ => PrepareType::Clean,
    }
}

/// What the user is told about the configuration used last, if anything.
pub open spec fn last_config_text(last: LastConfig, current: Seq<u8>, file: Seq<u8>) -> Option<
    Seq<char>,
> {
    match last {
        LastConfig::Hash(h) => if h@ == current {
            None
        } else {
            Some(
                "Configuration changed since last sync; all directories will be re-scanned."@,
            )
        },
        LastConfig::NotFound => None,
        LastConfig::Unreadable(why) => Some(
            "Error reading '"@ + text::utf8_lossy(file) + "': "@ + why@
                + ".\nAssuming configuration may have changed; all directories will be re-scanned."@,
        ),
    }
}

/// Returns how thoroughly one has to look for changes, and what the user is
/// told about that, given what there is of the configuration used last in the
/// given file.
pub fn min_prepare_type(last: &LastConfig, current: &HashId, file: &[u8]) -> (r: (
    PrepareType,
    Option<String>,
))
    ensures
        r.0 == least_strategy(*last, current@),
        match r.1 {
            Some(s) => last_config_text(*last, current@, file@) == Some(s@),
            None => last_config_text(*last, current@, file@) is None,
        },
{
    match last {
        LastConfig::Hash(h) => {
            if defs::same_hash(h, current) {
                (PrepareType::Fast, None)
            } else {
                (
                    PrepareType::Clean,
                    Some(
                        "Configuration changed since last sync; all directories will be re-scanned.".to_owned(),
                    ),
                )
            }
        },
        LastConfig::NotFound => (PrepareType::Clean, None),
        LastConfig::Unreadable(why) => {
            let mut s: String = String::new();
            s.append("Error reading '");
            s.append(text::from_utf8_lossy(file).as_str());
            s.append("': ");
            s.append(why.as_str());
            s.append(
                ".\nAssuming configuration may have changed; all directories will be re-scanned.",
            );
            assert(s@ =~= last_config_text(*last, current@, file@)->0);
            (PrepareType::Clean, Some(s))
        },
    }
}

/// How thorough a way of looking for changes is.
pub open spec fn thoroughness(t: PrepareType) -> int {
    match t {
        PrepareType::Watched => 0,
        PrepareType::Fast => 1,
        PrepareType::Clean => 2,
        PrepareType::Scrub => 3,
    }
}

fn rank(t: PrepareType) -> (r: u8)
    ensures
        r == thoroughness(t),
{
    match t {
        PrepareType::Watched => 0,
        PrepareType::Fast => 1,
        PrepareType::Clean => 2,
        PrepareType::Scrub => 3,
    }
}

/// The more thorough of two ways of looking for changes.
pub open spec fn more_thorough_of(a: PrepareType, b: PrepareType) -> PrepareType {
    if thoroughness(a) < thoroughness(b) {
        b
    } else {
        a
    }
}

/// Returns the more thorough of two ways of looking for changes.
pub fn more_thorough(a: PrepareType, b: PrepareType) -> (r: PrepareType)
    ensures
        r == more_thorough_of(a, b),
        thoroughness(r) >= thoroughness(a),
        thoroughness(r) >= thoroughness(b),
{
    if rank(a) < rank(b) {
        b
    } else {
        a
    }
}

/// Returns how to look for changes after having been notified of some.
pub fn watched_prepare_type(context_lost: bool) -> (r: PrepareType)
    ensures
        r == if context_lost {
            PrepareType::Fast
        } else {
            PrepareType::Watched
        },
{
    if context_lost {
        PrepareType::Fast
    } else {
        PrepareType::Watched
    }
}

/// What the user is told about how a synchronisation ended, if anything.
pub open spec fn closing_text(
    interrupted: bool,
    success: bool,
    level: LogLevel,
    show_messages: bool,
) -> Option<Seq<char>> {
    let (words, from, always) = if interrupted {
        ("Syncing interrupted"@, log::ERROR, true)
    } else if success {
        ("Syncing completed successfully"@, log::EDIT, false)
    } else {
        ("Syncing completed, but not clean"@, log::ERROR, false)
    };
    if level >= from && (always || show_messages) {
        Some(words)
    } else {
        None
    }
}

/// Returns what the user is told about how a synchronisation ended.
pub fn closing_message(
    interrupted: bool,
    success: bool,
    level: LogLevel,
    show_messages: bool,
) -> (r: Option<&'static str>)
    ensures
        match r {
            Some(s) => if interrupted {
                level >= log::ERROR && s@ == "Syncing interrupted"@
            } else if success {
                level >= log::EDIT && show_messages && s@ == "Syncing completed successfully"@
            } else {
                level >= log::ERROR && show_messages && s@ == "Syncing completed, but not clean"@
            },
            None => if interrupted {
                level < log::ERROR
            } else if success {
                level < log::EDIT || !show_messages
            } else {
                level < log::ERROR || !show_messages
            },
        },
        closing_text(interrupted, success, level, show_messages) == match r {
            Some(s) => Some(s@),
            None => None,
        },
{
    if interrupted {
        if level >= log::ERROR {
            Some("Syncing interrupted")
        } else {
            None
        }
    } else if success {
        if level >= log::EDIT && show_messages {
            Some("Syncing completed successfully")
        } else {
            None
        }
    } else {
        if level >= log::ERROR && show_messages {
            Some("Syncing completed, but not clean")
        } else {
            None
        }
    }
}

/// What the marker of the private directory begins with.
pub const FSID_VERSION: &'static str = "FSID2:";

/// The marker of a private directory, which holds the inode of the ancestor
/// store. The device is not part of it, since device ids are not stable on all
/// systems.
pub open spec fn marker(inode: u64) -> Seq<u8> {
    vstd::utf8::encode_utf8(FSID_VERSION@) + text::digit_bytes(inode as nat)
}

/// What the user is told if the private directory has been copied.
pub open spec fn copied_text(private_dir: Seq<u8>, parent: Seq<u8>) -> Seq<char> {
    "It looks like the ensync internal state was copied from somewhere else.\nAborting syncing since this could lead to catastrophic results.\n\nYou should probably delete "@
        + text::utf8_lossy(private_dir)
        + "\nand then run `ensync sync` again. At worst, this will simply result in a much\nslower and more conservative sync.\n\nIf you copied "@
        + text::utf8_lossy(parent)
        + "\nfrom another machine in its entirety, please only copy the `config.toml` file\nin the future.\n\nIf you are sure that the internal state corresponds to the state of your local\nfile system, you can instead disable this safety check by deleting\n"@
        + text::utf8_lossy(path::joined(private_dir, vstd::utf8::encode_utf8("fsid"@)))
}

/// Whether a private directory whose marker holds `found` has been copied from
/// somewhere else.
pub open spec fn was_copied(found: Seq<u8>, inode: u64) -> bool {
    bytes::begins_with(found, vstd::utf8::encode_utf8(FSID_VERSION@)) && found != marker(inode)
}

/// Decides whether the private directory has been copied from somewhere else,
/// given what its marker holds and the inode of its ancestor store. Returns
/// what is to be written to the marker; fails with what the user is told.
pub fn check_for_copied_private_dir(private_dir: &[u8], found: &[u8], inode: u64) -> (r:
    core::result::Result<Name, String>)
    ensures
        match r {
            Ok(content) => content@ == marker(inode) && !(bytes::begins_with(
                found@,
                vstd::utf8::encode_utf8(FSID_VERSION@),
            ) && found@ != marker(inode)),
            Err(s) => bytes::begins_with(found@, vstd::utf8::encode_utf8(FSID_VERSION@)) && found@
                != marker(inode) && s@ == copied_text(
                private_dir@,
                match path::parent_of(private_dir@) {
                    Some(p) => p,
                    None => Seq::empty(),
                },
            ),
        },
        r is Err <==> was_copied(found@, inode),
{
    let mut content: Name = bytes::copy(FSID_VERSION.as_bytes());
    text::push_digit_bytes(&mut content, inode);
    if bytes::starts_with(found, FSID_VERSION.as_bytes()) && !bytes::same(found, content.as_slice()) {
        let parent: Name = match path::parent(private_dir) {
            Some(p) => p,
            None => {
                let nowhere: Name = Vec::new();
                assert(nowhere@ =~= Seq::empty());
                nowhere
            },
        };
        let mut s: String = String::new();
        s.append(
            "It looks like the ensync internal state was copied from somewhere else.\nAborting syncing since this could lead to catastrophic results.\n\nYou should probably delete ",
        );
        s.append(text::from_utf8_lossy(private_dir).as_str());
        s.append(
            "\nand then run `ensync sync` again. At worst, this will simply result in a much\nslower and more conservative sync.\n\nIf you copied ",
        );
        s.append(text::from_utf8_lossy(parent.as_slice()).as_str());
        s.append(
            "\nfrom another machine in its entirety, please only copy the `config.toml` file\nin the future.\n\nIf you are sure that the internal state corresponds to the state of your local\nfile system, you can instead disable this safety check by deleting\n",
        );
        s.append(
            text::from_utf8_lossy(path::join(private_dir, "fsid".as_bytes()).as_slice()).as_str(),
        );
        assert(s@ =~= copied_text(private_dir@, parent@));
        return Err(s);
    }
    Ok(content)
}

/// A directory whose marker has just been written has not been copied.
pub proof fn law_marker(inode: u64)
    ensures
        bytes::begins_with(marker(inode), vstd::utf8::encode_utf8(FSID_VERSION@)),
        forall|other: u64| #[trigger] marker(other) == marker(inode) ==> other == inode,
{
    let v = vstd::utf8::encode_utf8(FSID_VERSION@);
    assert(marker(inode).take(v.len() as int) =~= v);
    assert forall|other: u64| #[trigger] marker(other) == marker(inode) implies other == inode by {
        assert(marker(other).skip(v.len() as int) =~= text::digit_bytes(other as nat));
        assert(marker(inode).skip(v.len() as int) =~= text::digit_bytes(inode as nat));
        text::lemma_digit_bytes_injective(other as nat, inode as nat);
    }
}

/// What went wrong when the replicas were cleaned up.
#[derive(Debug, PartialEq, Eq)]
pub struct Cleanup {
    pub client: Option<Error>,
    pub server: Option<Error>,
}

/// How a synchronisation ended.
#[derive(Debug, PartialEq, Eq)]
pub struct SyncOutcome {
    pub state: DirState,
    pub cleanup: Cleanup,
}

/// Whether both replicas have looked for changes in the given way, and what they
/// failed with, while nothing was reconciled.
pub open spec fn prepared<CLI: Replica, ANC: Replica, SRV: Replica, LOG: Logger, INT>(
    before: &Context<CLI, ANC, SRV, LOG, INT>,
    after: &Context<CLI, ANC, SRV, LOG, INT>,
    typ: PrepareType,
    client: Option<Error>,
    server: Option<Error>,
) -> bool {
    &&& after.cli.chores() == before.cli.chores().push(Chore::Prepare(typ, client))
    &&& after.srv.chores() == before.srv.chores().push(Chore::Prepare(typ, server))
    &&& replica::unthawed(before.cli.frozen(), after.cli.frozen())
    &&& replica::unthawed(before.srv.frozen(), after.srv.frozen())
    &&& after.anc == before.anc
    &&& after.interrupt == before.interrupt
    &&& after.log.logged() == before.log.logged().push((log::INFO, LogModel::SyncStarted))
    &&& before.cli.ideal() ==> rescanned(&before.cli, &after.cli, typ, client is None)
    &&& before.srv.ideal() ==> rescanned(&before.srv, &after.srv, typ, server is None)
}

/// Whether an ideal replica holds what it held before it looked for changes. If
/// it has looked at everything, it takes every directory to be dirty.
pub open spec fn rescanned<R: Replica>(before: &R, after: &R, typ: PrepareType, ok: bool) -> bool {
    &&& after.ideal()
    &&& after.state().tree == before.state().tree
    &&& after.state().condemned == before.state().condemned
    &&& after.state().faultless == before.state().faultless
    &&& after.state().clean.subset_of(before.state().clean)
    &&& ok && (typ is Clean || typ is Scrub) ==> after.state().clean == Set::<Path>::empty()
}

/// What becomes of an attempt to have both replicas look for changes.
pub open spec fn prepare_result(
    r: Result<()>,
    client: Option<Error>,
    server: Option<Error>,
) -> bool {
    match (client, server) {
        (Some(cause), _) => r matches Err(e) && errors::blames(
            e,
            "Scanning for local changes failed"@,
            cause,
        ),
        (None, Some(cause)) => r matches Err(e) && errors::blames(
            e,
            "Scanning for remote changes failed"@,
            cause,
        ),
        (None, None) => r is Ok,
    }
}

/// Whether both replicas have cleaned up, and nothing else has been done.
pub open spec fn finished<CLI: Replica, ANC: Replica, SRV: Replica, LOG: Logger, INT>(
    before: &Context<CLI, ANC, SRV, LOG, INT>,
    after: &Context<CLI, ANC, SRV, LOG, INT>,
    cleanup: Cleanup,
) -> bool {
    &&& after.cli.chores() == before.cli.chores().push(Chore::CleanUp(cleanup.client))
    &&& after.srv.chores() == before.srv.chores().push(Chore::CleanUp(cleanup.server))
    &&& replica::unthawed(before.cli.frozen(), after.cli.frozen())
    &&& replica::unthawed(before.srv.frozen(), after.srv.frozen())
    &&& after.anc == before.anc
    &&& after.interrupt == before.interrupt
    &&& after.log.logged() == before.log.logged().push((log::INFO, LogModel::SyncFinished))
    &&& before.cli.ideal() ==> after.cli.ideal() && after.cli.state() == before.cli.state()
    &&& before.srv.ideal() ==> after.srv.ideal() && after.srv.state() == before.srv.state()
}

impl<
    CLI: Replica,
    ANC: Replica + NullTransfer + Condemn,
    SRV: Replica<TransferIn = CLI::TransferOut, TransferOut = CLI::TransferIn>,
    LOG: Logger,
    INT: Interrupt,
> Context<CLI, ANC, SRV, LOG, INT> {
    /// Has both replicas look for changes, as thoroughly as asked for and as the
    /// configuration used last calls for.
    pub fn prepare_sync(&mut self, asked: PrepareType, last: &LastConfig, current: &HashId) -> (r:
        Result<()>)
        ensures
            ({
                let typ = more_thorough_of(asked, least_strategy(*last, current@));
                exists|client: Option<Error>, server: Option<Error>| #[trigger]
                    prepared(old(self), final(self), typ, client, server) && prepare_result(
                        r,
                        client,
                        server,
                    )
            }),
            old(self).untroubled() ==> r is Ok && final(self).untroubled(),
    {
        let (least, _) = min_prepare_type(last, current, &[]);
        let typ = more_thorough(asked, least);
        self.log.log(log::INFO, &Log::SyncStarted);
        let client = self.cli.prepare(typ);
        let server = self.srv.prepare(typ);
        let ghost (e_client, e_server) = (errors::failure(client), errors::failure(server));
        assert(prepared(old(self), self, typ, e_client, e_server));
        match client {
            Ok(_) => {},
            Err(e) => {
                return Err(Error::because("Scanning for local changes failed".to_owned(), e));
            },
        }
        match server {
            Ok(_) => Ok(()),
            Err(e) => Err(Error::because("Scanning for remote changes failed".to_owned(), e)),
        }
    }

    /// Synchronises the replicas once they have been prepared.
    pub fn start_sync<R: SyncRules>(&mut self, rules: R) -> (r: Result<DirState>)
        ensures
            old(self).keeps(*final(self)),
            log::grown(old(self).log.logged(), final(self).log.logged()),
            r is Ok && r->Ok_0.success ==> log::flawless(
                old(self).log.logged(),
                final(self).log.logged(),
            ) && exists|dir: Seq<u8>, names: Set<Seq<u8>>| #[trigger]
                log::swept(old(self).log.logged(), final(self).log.logged(), dir, names) && (
                descend::can_sync(old(self)) ==> names == model::names(
                    descend::trees_of(old(self)),
                )),
            final(self).interrupt == old(self).interrupt,
            r matches Err(e) ==> exists|cause: Error| #[trigger]
                errors::blames(e, "Failed to start sync process"@, cause),
            old(self).untroubled() ==> r is Ok,
            tree_walk::spares_client(rules.policy()) && mutate::sane(&old(self).cli)
                ==> mutate::sane(&final(self).cli) && final(self).cli.state().tree
                == old(self).cli.state().tree,
            descend::can_sync(old(self)) ==> (rules.policy() matches Some(policy) ==> {
                let t = descend::trees_of(old(self));
                &&& r is Ok && r->Ok_0.success ==> {
                    &&& exists|skip: Set<Path>| #[trigger]
                        descend::synchronised(
                            old(self),
                            final(self),
                            policy,
                            r->Ok_0.empty,
                            skip,
                        )
                    &&& final(self).cli.state().clean.contains(Seq::empty())
                    &&& final(self).srv.state().clean.contains(Seq::empty())
                }
                &&& model::smooth_below(t, policy, usize::MAX as nat)
                    && old(self).untroubled() && mutate::within(t.a, usize::MAX as nat)
                    && model::synced(t, policy, usize::MAX as nat) is Some ==> r is Ok && r->Ok_0.success
            }),
    {
        match self.start_root(rules) {
            Ok(state) => Ok(state),
            Err(cause) => {
                let ghost c = cause;
                let e = Error::because("Failed to start sync process".to_owned(), cause);
                assert(errors::blames(e, "Failed to start sync process"@, c));
                Err(e)
            },
        }
    }

    /// Has both replicas clean up.
    pub fn finish_sync(&mut self) -> (r: Cleanup)
        ensures
            finished(old(self), final(self), r),
            old(self).cli.ideal() && old(self).cli.state().faultless ==> r.client is None,
            old(self).srv.ideal() && old(self).srv.state().faultless ==> r.server is None,
    {
        let client = match self.cli.clean_up() {
            Ok(_) => None,
            Err(e) => Some(e),
        };
        let server = match self.srv.clean_up() {
            Ok(_) => None,
            Err(e) => Some(e),
        };
        self.log.log(log::INFO, &Log::SyncFinished);
        Cleanup { client, server }
    }

    /// Has both replicas look for changes, as thoroughly as asked for and as the
    /// configuration used last calls for. If that works out, synchronises the
    /// replicas, then has both of them clean up.
    pub fn run_sync<R: SyncRules>(
        &mut self,
        asked: PrepareType,
        last: &LastConfig,
        current: &HashId,
        rules: R,
    ) -> (r: Result<SyncOutcome>)
        ensures
            ({
                let typ = more_thorough_of(asked, least_strategy(*last, current@));
                let (c0, c1) = (old(self).cli.chores(), final(self).cli.chores());
                let (s0, s1) = (old(self).srv.chores(), final(self).srv.chores());
                match r {
                    Ok(o) => {
                        &&& c1 == c0.push(Chore::Prepare(typ, None)).push(
                            Chore::CleanUp(o.cleanup.client),
                        )
                        &&& s1 == s0.push(Chore::Prepare(typ, None)).push(
                            Chore::CleanUp(o.cleanup.server),
                        )
                    },
                    Err(_) => {
                        ||| c1 == c0.push(Chore::Prepare(typ, None)) && s1 == s0.push(
                            Chore::Prepare(typ, None),
                        ) && setup::fails_with(r, "Failed to start sync process"@)
                        ||| exists|client: Option<Error>, server: Option<Error>| #[trigger]
                            prepared(old(self), final(self), typ, client, server) && (client
                                is Some || server is Some) && prepare_result(
                                Err(r->Err_0),
                                client,
                                server,
                            )
                    },
                }
            }),
            final(self).anc.chores() == old(self).anc.chores(),
            replica::unthawed(old(self).cli.frozen(), final(self).cli.frozen()),
            replica::unthawed(old(self).anc.frozen(), final(self).anc.frozen()),
            replica::unthawed(old(self).srv.frozen(), final(self).srv.frozen()),
            log::grown(
                old(self).log.logged().push((log::INFO, LogModel::SyncStarted)),
                final(self).log.logged(),
            ),
            r is Ok ==> final(self).log.logged().last() == (log::INFO, LogModel::SyncFinished),
            r is Ok && r->Ok_0.state.success ==> log::flawless(
                old(self).log.logged(),
                final(self).log.logged(),
            ),
            final(self).interrupt == old(self).interrupt,
            old(self).untroubled() ==> r is Ok,
            tree_walk::spares_client(rules.policy()) && mutate::sane(&old(self).cli)
                ==> mutate::sane(&final(self).cli) && final(self).cli.state().tree
                == old(self).cli.state().tree,
            descend::can_sync(old(self)) ==> (rules.policy() matches Some(policy) ==> {
                let t = descend::trees_of(old(self));
                let typ = more_thorough_of(asked, least_strategy(*last, current@));
                &&& r is Ok && r->Ok_0.state.success ==> {
                    &&& exists|skip: Set<Path>| #[trigger]
                        descend::synchronised(
                            old(self),
                            final(self),
                            policy,
                            r->Ok_0.state.empty,
                            skip,
                        ) && (typ is Clean || typ is Scrub ==> skip == Set::<Path>::empty())
                    &&& final(self).cli.state().clean.contains(Seq::empty())
                    &&& final(self).srv.state().clean.contains(Seq::empty())
                    &&& final(self).cli.state().faultless ==> r->Ok_0.cleanup.client is None
                    &&& final(self).srv.state().faultless ==> r->Ok_0.cleanup.server is None
                }
                &&& model::smooth_below(t, policy, usize::MAX as nat)
                    && old(self).untroubled() && mutate::within(t.a, usize::MAX as nat)
                    && model::synced(t, policy, usize::MAX as nat) is Some ==> r is Ok && r->Ok_0.state.success
            }),
    {
        let ghost typ = more_thorough_of(asked, least_strategy(*last, current@));
        let ghost l0 = self.log.logged();
        match self.prepare_sync(asked, last, current) {
            Ok(_) => {},
            Err(e) => {
                let ghost (client, server) = choose|
                    client: Option<Error>,
                    server: Option<Error>,
                | #[trigger]
                    prepared(old(self), self, typ, client, server) && prepare_result(
                        Err(e),
                        client,
                        server,
                    );
                assert(prepared(old(self), self, typ, client, server));
                return Err(e);
            },
        }
        let ghost self1 = *self;
        assert(prepared(old(self), self, typ, None, None));
        let state = match self.start_sync(rules) {
            Ok(state) => state,
            Err(e) => {
                return Err(e);
            },
        };
        let ghost self2 = *self;
        let cleanup = self.finish_sync();
        proof {
            let l1 = self1.log.logged();
            let l2 = self2.log.logged();
            let l3 = self.log.logged();
            log::lemma_added(l0, (log::INFO, LogModel::SyncStarted));
            log::lemma_added(l2, (log::INFO, LogModel::SyncFinished));
            log::lemma_added_twice(l0, l1, l2);
            log::lemma_added_twice(l0, l2, l3);
            if descend::can_sync(old(self)) && rules.policy() is Some && state.success {
                let policy = rules.policy()->0;
                let skip = choose|skip: Set<Path>| #[trigger]
                    descend::synchronised(&self1, &self2, policy, state.empty, skip);
                assert(descend::trees_of(&self1) == descend::trees_of(old(self)));
                if typ is Clean || typ is Scrub {
                    assert(skip =~= Set::<Path>::empty());
                }
                assert(descend::synchronised(old(self), self, policy, state.empty, skip));
            }
        }
        Ok(SyncOutcome { state, cleanup })
    }
}

/// What the user is told when the connection has been lost and will be made
/// again.
pub open spec fn reconnect_text(error: Seq<char>, seconds: u64) -> Seq<char> {
    "Connection terminated due to error: "@ + error + "\nAttempting reconnect in "@
        + text::digits(seconds as nat, 10) + " seconds..."@
}

/// Returns the message for when the connection has been lost and will be made
/// again.
pub fn reconnect_message(error: &str, seconds: u64) -> (r: String)
    ensures
        r@ == reconnect_text(error@, seconds),
{
    let mut s: String = String::new();
    s.append("Connection terminated due to error: ");
    s.append(error);
    s.append("\nAttempting reconnect in ");
    text::push_digits(&mut s, seconds, 10);
    s.append(" seconds...");
    assert(s@ =~= reconnect_text(error@, seconds));
    s
}

/// What is done after everything has been run.
pub enum AfterRun {
    /// That was all.
    Done(Result<()>),
    /// The user is told the message, and everything is run again after the given
    /// number of seconds.
    Reconnect(String, u64),
}

/// Decides what is done after everything has been run with the given result,
/// where the user may want it to be run again after some seconds if it failed.
pub fn after_run(result: Result<()>, reconnect: Option<u64>) -> (r: AfterRun)
    ensures
        match (result, reconnect) {
            (Err(e), Some(seconds)) => r matches AfterRun::Reconnect(words, after) && words@
                == reconnect_text(errors::kind_text(e.kind), seconds) && after == seconds,
            _ => r == AfterRun::Done(result),
        },
{
    match (result, reconnect) {
        (Err(e), Some(seconds)) => AfterRun::Reconnect(
            reconnect_message(e.kind.message().as_str(), seconds),
            seconds,
        ),
        (result, _) => AfterRun::Done(result),
    }
}

/// Decides whether there is something to be synchronised once notifications have
/// come in, and if so, how to look for it.
pub fn after_notice(handle: &mut WatchHandle) -> (r: Option<PrepareType>)
    ensures
        !final(handle).dirty(),
        final(handle).notices() == old(handle).notices(),
        if old(handle).dirty() {
            &&& !final(handle).context_lost()
            &&& r == Some(
                if old(handle).context_lost() {
                    PrepareType::Fast
                } else {
                    PrepareType::Watched
                },
            )
        } else {
            &&& final(handle).context_lost() == old(handle).context_lost()
            &&& r is None
        },
{
    if handle.check_dirty() {
        Some(watched_prepare_type(handle.check_context_lost()))
    } else {
        None
    }
}

/// What each name of a strategy means: the thorough ones are never weakened, and
/// without a choice the mode decides.
pub proof fn law_strategy(name: Seq<char>, overridden: bool)
    ensures
        strategy("clean"@, overridden) is Clean,
        strategy("scrub"@, overridden) is Scrub,
        strategy("fast"@, overridden) is Fast,
        strategy("auto"@, true) is Clean,
        strategy("auto"@, false) is Fast,
        name != "auto"@ ==> strategy(name, true) == strategy(name, false),
        thoroughness(strategy(name, false)) <= thoroughness(strategy(name, true)),
        !(strategy(name, overridden) is Watched),
{
    reveal_strlit("clean");
    reveal_strlit("scrub");
    reveal_strlit("fast");
    reveal_strlit("auto");
    assert("clean"@[0] == 'c' && "scrub"@[0] == 's' && "fast"@[0] == 'f' && "auto"@[0] == 'a');
}

/// Only what is asked for more often than less, or less often than more, counts.
/// Each step up shows one thing more, and each step down one thing less, as far as
/// there are levels.
pub proof fn law_verbosity_steps(more: int, less: int)
    ensures
        verbosity_for(more + 1, less + 1) == verbosity_for(more, less),
        more - less < -3 ==> verbosity_for(more, less) == (log::FATAL as int, false),
        -3 <= more - less <= 0 ==> verbosity_for(more, less) == (log::EDIT + (more - less), false),
        0 < more - less < 250 ==> verbosity_for(more, less) == (log::EDIT + (more - less) - 1, true),
        more - less >= 250 ==> verbosity_for(more, less).0 >= log::INFO && verbosity_for(
            more,
            less,
        ).1,
{
}

/// Unless the configuration is known to be the one used last, everything is looked
/// at again, however little was asked for. The user is told why if there was
/// something to be read.
pub proof fn law_changed_config(
    last: LastConfig,
    current: Seq<u8>,
    asked: PrepareType,
    file: Seq<u8>,
)
    ensures
        ({
            let typ = more_thorough_of(asked, least_strategy(last, current));
            let same = last is Hash && last->Hash_0@ == current;
            &&& !same ==> typ is Clean || typ is Scrub
            &&& same && !(asked is Watched) ==> typ == asked
            &&& same && asked is Watched ==> typ is Fast
            &&& asked is Scrub ==> typ is Scrub
            &&& same || last is NotFound <==> last_config_text(last, current, file) is None
            &&& last matches LastConfig::Unreadable(why) ==> {
                let t = last_config_text(last, current, file)->0;
                let f = text::utf8_lossy(file);
                text::stands(t, 15, f) && text::stands(t, 18int + f.len(), why@)
            }
        }),
{
    reveal_strlit("Error reading '");
    reveal_strlit("': ");
    if let LastConfig::Unreadable(why) = last {
        let t = last_config_text(last, current, file)->0;
        let f = text::utf8_lossy(file);
        assert(t.subrange(15, 15int + f.len()) =~= f);
        assert(t.subrange(18int + f.len(), 18int + f.len() + why@.len()) =~= why@);
    }
}

/// Of two ways of looking for changes, the more thorough one is one of them, at
/// least as thorough as either, and does not depend on their order. Watching is
/// less thorough than a fast look, that less than a clean one, and that less than
/// scrubbing.
pub proof fn law_more_thorough(a: PrepareType, b: PrepareType)
    ensures
        more_thorough_of(a, b) == a || more_thorough_of(a, b) == b,
        more_thorough_of(a, b) == more_thorough_of(b, a),
        thoroughness(more_thorough_of(a, b)) >= thoroughness(a),
        thoroughness(PrepareType::Watched) < thoroughness(PrepareType::Fast),
        thoroughness(PrepareType::Fast) < thoroughness(PrepareType::Clean),
        thoroughness(PrepareType::Clean) < thoroughness(PrepareType::Scrub),
{
}

/// What is said when the connection has been lost holds the error and the number
/// of seconds.
pub proof fn law_reconnect_text(error: Seq<char>, seconds: u64)
    ensures
        ({
            let t = reconnect_text(error, seconds);
            let d = text::digits(seconds as nat, 10);
            &&& text::stands(t, 36, error)
            &&& text::stands(t, 61int + error.len(), d)
            &&& text::number(d, 10) == seconds
        }),
{
    reveal_strlit("Connection terminated due to error: ");
    reveal_strlit("\nAttempting reconnect in ");
    text::law_digits(seconds as nat, 10);
    let t = reconnect_text(error, seconds);
    let d = text::digits(seconds as nat, 10);
    let l = error.len() as int;
    assert(t.subrange(36, 36 + l) =~= error);
    assert(t.subrange(61 + l, 61 + l + d.len()) =~= d);
}

/// What is always wanted is shown, what is never wanted is not, and what is left to
/// the program is shown on a terminal.
pub proof fn law_shown_when(setting: Seq<char>, is_terminal: bool)
    ensures
        shown_when("always"@, is_terminal),
        !shown_when("never"@, is_terminal),
        shown_when("auto"@, is_terminal) == is_terminal,
        shown_when(setting, false) ==> shown_when(setting, true),
{
    reveal_strlit("always");
    reveal_strlit("never");
    reveal_strlit("auto");
    assert("never"@[0] == 'n' && "always"@[0] == 'a' && "auto"@[0] == 'a');
    assert("always"@.len() != "auto"@.len());
}

/// Edits are itemised exactly if something is to be, and files that stay as they are
/// only if that is asked for, too.
pub proof fn law_itemised_up_to(itemise: bool, unchanged: bool)
    ensures
        log::EDIT <= itemised_up_to(itemise, unchanged) <==> itemise,
        log::INFO <= itemised_up_to(itemise, unchanged) <==> itemise && unchanged,
        !itemise ==> itemised_up_to(itemise, unchanged) < log::FATAL,
{
}

/// How a synchronisation ended is told the more often the more is to be told. An
/// interruption is told whatever else is to be shown, an unclean end earlier than
/// a success, and each is told in other words.
pub proof fn law_closing_text(
    interrupted: bool,
    success: bool,
    level: LogLevel,
    more: LogLevel,
    show: bool,
)
    ensures
        level <= more && closing_text(interrupted, success, level, show) is Some ==> closing_text(
            interrupted,
            success,
            more,
            show,
        ) == closing_text(interrupted, success, level, show),
        closing_text(true, success, level, show) is Some <==> level >= log::ERROR,
        closing_text(true, success, level, show) == closing_text(true, !success, level, !show),
        closing_text(false, false, level, show) is Some <==> level >= log::ERROR && show,
        closing_text(false, true, level, show) is Some <==> level >= log::EDIT && show,
        level >= log::EDIT ==> {
            let told = closing_text(true, success, level, true)->0;
            let good = closing_text(false, true, level, true)->0;
            let bad = closing_text(false, false, level, true)->0;
            told != good && good != bad && told != bad
        },
{
    reveal_strlit("Syncing interrupted");
    reveal_strlit("Syncing completed successfully");
    reveal_strlit("Syncing completed, but not clean");
    assert("Syncing interrupted"@.len() == 19);
    assert("Syncing completed successfully"@.len() == 30);
    assert("Syncing completed, but not clean"@.len() == 32);
}

/// A private directory with its own marker has not been copied, one with the marker
/// of any other has, and one without a marker of this version is taken not to have
/// been. What is written to the marker is not taken for that of another directory.
pub proof fn law_was_copied(found: Seq<u8>, inode: u64, other: u64)
    ensures
        !was_copied(marker(inode), inode),
        was_copied(marker(other), inode) <==> other != inode,
        !was_copied(Seq::empty(), inode),
        !bytes::begins_with(found, vstd::utf8::encode_utf8("FSID2:"@)) ==> !was_copied(
            found,
            inode,
        ),
{
    law_marker(inode);
    law_marker(other);
    reveal_strlit("FSID2:");
    let v = FSID_VERSION@;
    assert(vstd::utf8::is_ascii_chars(v));
    vstd::utf8::is_ascii_chars_encode_utf8(v);
}

/// What is said of a private directory that has been copied names that directory,
/// the one that it is in, and the marker that would have to be deleted.
pub proof fn law_copied_text(private_dir: Seq<u8>, parent: Seq<u8>)
    ensures
        ({
            let t = copied_text(private_dir, parent);
            let (a, b) = (text::utf8_lossy(private_dir), text::utf8_lossy(parent));
            &&& text::stands(t, 164, a)
            &&& text::stands(t, 293int + a.len(), b)
            &&& t.skip(534int + a.len() + b.len()) == text::utf8_lossy(
                path::joined(private_dir, vstd::utf8::encode_utf8("fsid"@)),
            )
        }),
{
    reveal_strlit("It looks like the ensync internal state was copied from somewhere else.\nAborting syncing since this could lead to catastrophic results.\n\nYou should probably delete ");
    reveal_strlit("\nand then run `ensync sync` again. At worst, this will simply result in a much\nslower and more conservative sync.\n\nIf you copied ");
    reveal_strlit("\nfrom another machine in its entirety, please only copy the `config.toml` file\nin the future.\n\nIf you are sure that the internal state corresponds to the state of your local\nfile system, you can instead disable this safety check by deleting\n");
    let t = copied_text(private_dir, parent);
    let (a, b) = (text::utf8_lossy(private_dir), text::utf8_lossy(parent));
    let (x, y) = (a.len() as int, b.len() as int);
    assert(t.subrange(164, 164 + x) =~= a);
    assert(t.subrange(293 + x, 293 + x + y) =~= b);
    assert(t.skip(534 + x + y) =~= text::utf8_lossy(
        path::joined(private_dir, vstd::utf8::encode_utf8("fsid"@)),
    ));
}

} // verus!
