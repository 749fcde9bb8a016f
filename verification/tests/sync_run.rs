//! Synchronisations from beginning to end.

use ensync::cli::config::Config;
use ensync::cli::sync_run::LastConfig;
use ensync::defs::{File, FileData};
use ensync::dry_run_replica::DryRunReplica;
use ensync::interrupt::Uninterrupted;
use ensync::log::{Log, LogLevel, Logger, INFO};
use ensync::memory_replica::{MemoryReplica, Op};
use ensync::posix::dao::enclosing_dirs;
use ensync::reconcile::context::Context;
use ensync::replica::{NullTransfer, PrepareType, Replica};
use ensync::rules::{ConstantRules, SyncMode};

/// Counts what is said about a synchronisation as a whole.
#[derive(Default)]
struct Count {
    started: u32,
    finished: u32,
    others: u32,
}

impl Logger for Count {
    fn log(&mut self, level: LogLevel, what: &Log) {
        match what {
            Log::SyncStarted => {
                assert_eq!(INFO, level);
                self.started += 1;
            }
            Log::SyncFinished => {
                assert_eq!(INFO, level);
                self.finished += 1;
            }
            _ => self.others += 1,
        }
    }
}

fn add(rep: &mut MemoryReplica, name: &str, hash: u8) {
    let mut root = rep.root().unwrap();
    let fd = FileData::Regular(0o644, 0, 0, [hash; 32]);
    let xfer = MemoryReplica::null_transfer(&fd);
    rep.create(&mut root, File(name.as_bytes(), &fd), xfer).unwrap();
}

fn names(rep: &mut MemoryReplica) -> Vec<String> {
    let mut root = rep.root().unwrap();
    let mut names: Vec<String> = rep
        .list(&mut root)
        .unwrap()
        .into_iter()
        .map(|(name, _)| String::from_utf8(name).unwrap())
        .collect();
    names.sort();
    names
}

fn context() -> Context<MemoryReplica, MemoryReplica, MemoryReplica, Count, Uninterrupted> {
    let mut context = Context {
        cli: MemoryReplica::empty(),
        anc: MemoryReplica::empty(),
        srv: MemoryReplica::empty(),
        log: Count::default(),
        interrupt: Uninterrupted,
    };
    add(&mut context.cli, "ours", 1);
    add(&mut context.cli, "both", 2);
    add(&mut context.srv, "both", 3);
    add(&mut context.srv, "theirs", 4);
    context
}

fn rules(mode: &str) -> ConstantRules {
    ConstantRules { mode: SyncMode::parse(mode).unwrap(), trust_client_unix_mode: true }
}

#[test]
fn a_run_brings_the_replicas_together() {
    let mut c = context();
    let outcome = c
        .run_sync(PrepareType::Fast, &LastConfig::NotFound, &[7; 32], rules("cud/cud"))
        .unwrap();
    assert!(outcome.state.success);
    assert!(!outcome.state.empty);
    assert_eq!(None, outcome.cleanup.client);
    assert_eq!(None, outcome.cleanup.server);
    assert_eq!((1, 1), (c.log.started, c.log.finished));
    assert_eq!(vec!["both", "both~1", "ours", "theirs"], names(&mut c.cli));
    assert_eq!(names(&mut c.cli), names(&mut c.srv));
    assert_eq!(names(&mut c.cli), names(&mut c.anc));
}

#[test]
fn a_mirror_leaves_the_client_alone() {
    let mut c = context();
    let before = names(&mut c.cli);
    let outcome = c
        .run_sync(PrepareType::Fast, &LastConfig::Hash([7; 32]), &[7; 32], rules("mirror"))
        .unwrap();
    assert!(outcome.state.success);
    assert_eq!(before, names(&mut c.cli));
    assert_eq!(before, names(&mut c.srv));
}

#[test]
fn a_run_that_cannot_start_says_so() {
    let mut c = context();
    c.srv.add_fault(Op::ReadRoot);
    let e = c.start_sync(rules("cud/cud")).unwrap_err();
    assert_eq!("Failed to start sync process", e.kind.message());
    assert_eq!(1, e.causes.len());
}

#[test]
fn a_directory_is_marked_dirty_with_those_it_is_in() {
    let dirty = enclosing_dirs(b"/a/b/");
    assert!(dirty.contains(&b"/a/".to_vec()));
    assert!(dirty.contains(&b"/".to_vec()));
    assert!(!dirty.contains(&b"/a/c/".to_vec()));
}

#[test]
fn the_location_of_a_configuration_is_where_it_is_looked_for() {
    let location = Config::file_location(b"conf", b"/home/u");
    assert_eq!(location, Config::file_location(&location, b"/elsewhere"));
}

#[test]
fn a_changed_configuration_has_everything_looked_at() {
    let mut c = context();
    let run = |c: &mut Context<_, _, _, _, _>, last| {
        c.run_sync(PrepareType::Fast, &last, &[7; 32], rules("cud/cud")).unwrap()
    };
    assert!(run(&mut c, LastConfig::NotFound).state.success);
    let root = c.cli.root().unwrap();
    assert!(!c.cli.is_dir_dirty(&root));
    c.cli.prepare(PrepareType::Fast).unwrap();
    assert!(!c.cli.is_dir_dirty(&root));
    c.cli.prepare(PrepareType::Clean).unwrap();
    assert!(c.cli.is_dir_dirty(&root));
    assert!(run(&mut c, LastConfig::Hash([8; 32])).state.success);
    assert_eq!((2, 2), (c.log.started, c.log.finished));
}

#[test]
fn a_dry_run_changes_nothing() {
    let c = context();
    let mut c = Context {
        cli: DryRunReplica(c.cli),
        anc: DryRunReplica(c.anc),
        srv: DryRunReplica(c.srv),
        log: c.log,
        interrupt: c.interrupt,
    };
    let (ours, theirs) = (names(&mut c.cli.0), names(&mut c.srv.0));
    c.run_sync(PrepareType::Fast, &LastConfig::NotFound, &[7; 32], rules("cud/cud")).unwrap();
    assert_eq!((1, 1), (c.log.started, c.log.finished));
    assert_eq!(ours, names(&mut c.cli.0));
    assert_eq!(theirs, names(&mut c.srv.0));
    assert!(names(&mut c.anc.0).is_empty());
}
