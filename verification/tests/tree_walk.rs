//! Whole synchronisations, on replicas in memory.

use std::collections::{HashMap, HashSet};

use ensync::defs::{File, FileData, FileMode};
use ensync::interrupt::Uninterrupted;
use ensync::log::{Log, LogLevel, Logger, ReplicaSide, EDIT, INFO};
use ensync::memory_replica::{catpath, DirHandle, MemoryReplica, Op};
use ensync::reconcile::compute::{Conflict, Reconciliation, ReconciliationSide};
use ensync::reconcile::context::{Context, DirContext, SingleDirContext};
use ensync::reconcile::tree_walk::DirState;
use ensync::replica::{Replica, ReplicaDirectory};
use ensync::rules::{ConstantRules, SyncMode, SyncRules};
use ensync::table::{NameMap, NameQueue};

/// Takes no notice of anything.
struct Quiet;

impl Logger for Quiet {
    fn log(&mut self, _level: LogLevel, _what: &Log) {}
}

type Fixture = Context<MemoryReplica, MemoryReplica, MemoryReplica, Quiet, Uninterrupted>;

/// Describes a file tree, for initialising and verifying the replicas.
#[derive(Clone, Debug)]
struct En(&'static str, FsFile, FsFile, FsFile, Vec<En>);

type FsFile = (FsFileE, Faults);

#[derive(Clone, Copy, Debug, PartialEq, Eq)]
enum FsFileE {
    Nil,
    Reg(FileMode, u8),
    Dir(FileMode),
}

use FsFileE::{Dir, Nil, Reg};

#[derive(Clone, Copy, Debug)]
struct Faults(u8);

const Z: Faults = Faults(0);
const F_CR: u8 = 1;
const F_UP: u8 = 2;
const F_RM: u8 = 4;
const F_MV: u8 = 8;
const F_CHDIR: u8 = 16;
const F_LS: u8 = 32;

fn populate_dir(
    replica: &mut MemoryReplica,
    dir: &mut DirHandle,
    ls: &Vec<En>,
    slot: &dyn Fn(&En) -> FsFile,
    faults: &mut Vec<Op>,
) {
    let dirname = dir.full_path().to_vec();
    for en in ls {
        let (f, fault) = slot(en);
        let name = en.0.as_bytes().to_vec();
        match f {
            Nil => (),
            Reg(mode, hash) => {
                replica
                    .create(
                        dir,
                        File(&name, &FileData::Regular(mode, 0, 0, [hash; 32])),
                        Some([hash; 32]),
                    )
                    .unwrap();
            }
            Dir(mode) => {
                replica
                    .create(dir, File(&name, &FileData::Directory(mode)), Some([0; 32]))
                    .unwrap();
                let mut subdir = replica.chdir(dir, &name).unwrap();
                populate_dir(replica, &mut subdir, &en.4, slot, faults);
            }
        }
        if 0 != fault.0 & F_CR {
            faults.push(Op::Create(dirname.clone(), name.clone()));
        }
        if 0 != fault.0 & F_UP {
            faults.push(Op::Update(dirname.clone(), name.clone()));
        }
        if 0 != fault.0 & F_RM {
            faults.push(Op::Remove(dirname.clone(), name.clone()));
        }
        if 0 != fault.0 & F_MV {
            faults.push(Op::Rename(dirname.clone(), name.clone()));
        }
        if 0 != fault.0 & F_LS {
            faults.push(Op::List(catpath(&dirname, &name)));
        }
        if 0 != fault.0 & F_CHDIR {
            faults.push(Op::Chdir(catpath(&dirname, &name)));
        }
    }
}

fn init_replica(fs: &Vec<En>, slot: &dyn Fn(&En) -> FsFile) -> MemoryReplica {
    let mut replica = MemoryReplica::empty();
    let mut root = replica.root().unwrap();
    let mut faults = Vec::new();
    populate_dir(&mut replica, &mut root, fs, slot, &mut faults);
    for fault in faults {
        replica.add_fault(fault);
    }
    replica
}

fn init(fs: &Vec<En>) -> Fixture {
    Context {
        cli: init_replica(fs, &|t| t.1),
        anc: init_replica(fs, &|t| t.2),
        srv: init_replica(fs, &|t| t.3),
        log: Quiet,
        interrupt: Uninterrupted,
    }
}

fn verify_dir(
    side: &str,
    replica: &mut MemoryReplica,
    dir: &mut DirHandle,
    fs: &Vec<En>,
    slot: &dyn Fn(&En) -> FsFile,
) {
    let dirname = String::from_utf8(dir.full_path().to_vec()).unwrap();
    let mut files = HashMap::new();
    for (name, data) in replica.list(dir).unwrap() {
        files.insert(String::from_utf8(name).unwrap(), data);
    }
    for en in fs {
        let data_en = match files.remove(en.0) {
            Some(FileData::Regular(mode, _, _, hash)) => {
                assert_eq!([hash[0]; 32], hash);
                Reg(mode, hash[0])
            }
            Some(FileData::Directory(mode)) => Dir(mode),
            None => Nil,
            other => panic!("{}: {}/{} unexpected file type: {:?}", side, dirname, en.0, other),
        };
        assert_eq!(slot(en).0, data_en, "{}: {}/{}", side, dirname, en.0);
        if let Dir(_) = slot(en).0 {
            let mut subdir = replica.chdir(dir, en.0.as_bytes()).unwrap();
            verify_dir(side, replica, &mut subdir, &en.4, slot);
        }
    }
    if let Some(unexpected) = files.keys().next() {
        panic!("{}: {}/{} not expected to exist, but it does", side, dirname, unexpected);
    }
}

fn verify_replica(
    side: &str,
    replica: &mut MemoryReplica,
    fs: &Vec<En>,
    slot: &dyn Fn(&En) -> FsFile,
) {
    // Clear all faults so we can walk the replica
    replica.clear_faults();
    let mut root = replica.root().unwrap();
    verify_dir(side, replica, &mut root, fs, slot);
}

fn verify(fx: &mut Fixture, fs: &Vec<En>) {
    verify_replica("client", &mut fx.cli, fs, &|t| t.1);
    verify_replica("server", &mut fx.srv, fs, &|t| t.3);
    verify_replica("ancestor", &mut fx.anc, fs, &|t| t.2);
}

fn dir_sig(dst: &mut String, replica: &mut MemoryReplica, dir: &mut DirHandle) {
    let mut contents = replica.list(dir).unwrap();
    contents.sort_by(|a, b| a.0.cmp(&b.0));
    for (ix, (name, child)) in contents.into_iter().enumerate() {
        if ix > 0 {
            dst.push_str("; ");
        }
        dst.push_str(&String::from_utf8(name.clone()).unwrap());
        dst.push_str(" = ");
        match child {
            FileData::Regular(mode, _, _, hash) => {
                dst.push_str(&format!("reg {}, {}", mode, hash[0]));
            }
            FileData::Directory(mode) => {
                dst.push_str(&format!("dir {} (", mode));
                let mut subdir = replica.chdir(dir, &name).unwrap();
                dir_sig(dst, replica, &mut subdir);
                dst.push_str(")");
            }
            _ => panic!("Unexpected file type"),
        }
    }
}

fn signature(replica: &mut MemoryReplica) -> String {
    // Clear all faults so we can walk the replica
    replica.clear_faults();
    let mut root = replica.root().unwrap();
    let mut res = String::new();
    dir_sig(&mut res, replica, &mut root);
    res
}

fn signatures(fx: &mut Fixture) -> (String, String, String) {
    (signature(&mut fx.cli), signature(&mut fx.anc), signature(&mut fx.srv))
}

fn constant_rules(mode: &str, trust: bool) -> ConstantRules {
    ConstantRules { mode: SyncMode::parse(mode).unwrap(), trust_client_unix_mode: trust }
}

fn run_once(fx: &mut Fixture, rules: &ConstantRules) -> DirState {
    fx.start_root(ConstantRules {
        mode: rules.mode,
        trust_client_unix_mode: rules.trust_client_unix_mode,
    })
    .unwrap()
}

fn run_full(fx: &mut Fixture, rules: &ConstantRules) {
    let res = run_once(fx, rules);
    if !res.success {
        assert!(
            fx.cli.has_faults() || fx.anc.has_faults() || fx.srv.has_faults(),
            "Result had error even though there were no faults"
        );
        // Clear all faults and let it run again
        fx.cli.clear_faults();
        fx.anc.clear_faults();
        fx.srv.clear_faults();
        let res2 = run_once(fx, rules);
        assert!(res2.success, "After clearing faults and rerunning, errors still occurred");
    }
}

trait IntoRules {
    fn into_rules(self) -> ConstantRules;
}

impl<'a> IntoRules for &'a str {
    fn into_rules(self) -> ConstantRules {
        constant_rules(self, true)
    }
}

impl<'a> IntoRules for (&'a str, bool) {
    fn into_rules(self) -> ConstantRules {
        constant_rules(self.0, self.1)
    }
}

fn test_single<R: IntoRules>(input: &Vec<En>, rules: R, output: &Vec<En>) {
    let mut fx = init(input);
    let rules = rules.into_rules();
    run_full(&mut fx, &rules);
    verify(&mut fx, output);

    let (cli_sig_a, anc_sig_a, srv_sig_a) = signatures(&mut fx);
    fx.cli.mark_all_dirty();
    fx.srv.mark_all_dirty();
    run_full(&mut fx, &rules);
    let (cli_sig_b, anc_sig_b, srv_sig_b) = signatures(&mut fx);

    assert_eq!(cli_sig_a, cli_sig_b, "Client reconciliation not idempotent");
    assert_eq!(srv_sig_a, srv_sig_b, "Server reconciliation not idempotent");
    assert_eq!(anc_sig_a, anc_sig_b, "Ancestor reconciliation not idempotent");
}

#[test]
fn sync_empty() {
    test_single(&vec![], "---/---", &vec![]);
}

#[test]
fn sync_flat() {
    test_single(
        &vec![
            En("foo", (Reg(7, 1), Z), (Nil, Z), (Nil, Z), vec![]),
            En("bar", (Nil, Z), (Nil, Z), (Reg(6, 2), Z), vec![]),
            En("baz", (Nil, Z), (Reg(7, 2), Z), (Reg(7, 2), Z), vec![]),
        ],
        "cud/cud",
        &vec![
            En(
                "foo",
                (Reg(7, 1), Z),
                (Reg(7, 1), Z),
                (Reg(7, 1), Z),
                vec![],
            ),
            En(
                "bar",
                (Reg(6, 2), Z),
                (Reg(6, 2), Z),
                (Reg(6, 2), Z),
                vec![],
            ),
        ],
    );
}

#[test]
fn sync_recursive() {
    test_single(
        &vec![
            En(
                "d1",
                (Dir(7), Z),
                (Nil, Z),
                (Nil, Z),
                vec![En("f1a", (Reg(7, 1), Z), (Nil, Z), (Nil, Z), vec![])],
            ),
            En(
                "orp",
                (Nil, Z),
                (Dir(7), Z),
                (Nil, Z),
                vec![En("o1", (Nil, Z), (Reg(7, 2), Z), (Nil, Z), vec![])],
            ),
            En(
                "d2",
                (Nil, Z),
                (Nil, Z),
                (Dir(6), Z),
                vec![En("f2a", (Nil, Z), (Nil, Z), (Reg(6, 3), Z), vec![])],
            ),
        ],
        "cud/cud",
        &vec![
            En(
                "d1",
                (Dir(7), Z),
                (Dir(7), Z),
                (Dir(7), Z),
                vec![En(
                    "f1a",
                    (Reg(7, 1), Z),
                    (Reg(7, 1), Z),
                    (Reg(7, 1), Z),
                    vec![],
                )],
            ),
            En(
                "d2",
                (Dir(6), Z),
                (Dir(6), Z),
                (Dir(6), Z),
                vec![En(
                    "f2a",
                    (Reg(6, 3), Z),
                    (Reg(6, 3), Z),
                    (Reg(6, 3), Z),
                    vec![],
                )],
            ),
        ],
    );
}

#[test]
fn sync_recursive_delete_complete() {
    test_single(
        &vec![En(
            "a",
            (Dir(7), Z),
            (Dir(7), Z),
            (Nil, Z),
            vec![
                En("af", (Reg(7, 1), Z), (Reg(7, 1), Z), (Nil, Z), vec![]),
                En(
                    "b",
                    (Dir(7), Z),
                    (Dir(7), Z),
                    (Nil, Z),
                    vec![En(
                        "bf",
                        (Reg(7, 2), Z),
                        (Reg(7, 2), Z),
                        (Nil, Z),
                        vec![],
                    )],
                ),
            ],
        )],
        "cud/cud",
        &vec![],
    );
}

#[test]
fn sync_recursive_delete_interrupted() {
    test_single(
        &vec![En(
            "a",
            (Dir(7), Z),
            (Dir(7), Z),
            (Nil, Z),
            vec![
                En("af", (Reg(7, 1), Z), (Reg(7, 1), Z), (Nil, Z), vec![]),
                En(
                    "b",
                    (Dir(7), Z),
                    (Dir(7), Z),
                    (Nil, Z),
                    vec![En(
                        "bf",
                        (Reg(7, 2), Z),
                        (Reg(7, 2), Z),
                        (Nil, Z),
                        vec![],
                    )],
                ),
                En("af2", (Reg(7, 2), Z), (Nil, Z), (Nil, Z), vec![]),
            ],
        )],
        "cud/cud",
        &vec![En(
            "a",
            (Dir(7), Z),
            (Dir(7), Z),
            (Dir(7), Z),
            vec![En(
                "af2",
                (Reg(7, 2), Z),
                (Reg(7, 2), Z),
                (Reg(7, 2), Z),
                vec![],
            )],
        )],
    );
}

#[test]
fn sync_edit_conflict() {
    test_single(
        &vec![En(
            "foo",
            (Reg(7, 1), Z),
            (Reg(7, 2), Z),
            (Reg(7, 3), Z),
            vec![],
        )],
        "cud/cud",
        &vec![
            En(
                "foo",
                (Reg(7, 1), Z),
                (Reg(7, 1), Z),
                (Reg(7, 1), Z),
                vec![],
            ),
            En(
                "foo~1",
                (Reg(7, 3), Z),
                (Reg(7, 3), Z),
                (Reg(7, 3), Z),
                vec![],
            ),
        ],
    );
}

#[test]
fn sync_replace_dir_with_reg() {
    test_single(
        &vec![En(
            "foo",
            (Dir(7), Z),
            (Dir(7), Z),
            (Reg(6, 1), Z),
            vec![En("a", (Reg(6, 2), Z), (Reg(6, 2), Z), (Nil, Z), vec![])],
        )],
        "cud/cud",
        &vec![En(
            "foo",
            (Reg(6, 1), Z),
            (Reg(6, 1), Z),
            (Reg(6, 1), Z),
            vec![],
        )],
    );
}

#[test]
fn sync_no_panic_on_failed_chdir() {
    test_single(
        &vec![En(
            "C8~1",
            (Nil, Z),
            (Nil, Z),
            (Dir(0), Faults(F_CHDIR)),
            vec![],
        )],
        "---/---",
        &vec![En("C8~1", (Nil, Z), (Nil, Z), (Dir(0), Z), vec![])],
    );
}

#[test]
fn sync_no_panic_on_dir_that_fails_to_chdir_after_creation() {
    test_single(
        &vec![En(
            "D3",
            (Nil, Faults(16)),
            (Dir(0), Z),
            (Dir(0), Z),
            vec![En("D4", (Nil, Z), (Nil, Z), (Dir(0), Z), vec![])],
        )],
        "cud/cud",
        &vec![En(
            "D3",
            (Dir(0), Z),
            (Dir(0), Z),
            (Dir(0), Z),
            vec![En("D4", (Dir(0), Z), (Dir(0), Z), (Dir(0), Z), vec![])],
        )],
    );
}

#[test]
fn sync_no_trust_client_unix_mode_steady_state() {
    test_single(
        &vec![
            En("foo", (Dir(0), Z), (Dir(7), Z), (Dir(7), Z), vec![]),
            En(
                "bar",
                (Reg(0, 9), Z),
                (Reg(6, 9), Z),
                (Reg(6, 9), Z),
                vec![],
            ),
        ],
        ("cud/cud", false),
        &vec![
            En("foo", (Dir(0), Z), (Dir(7), Z), (Dir(7), Z), vec![]),
            En(
                "bar",
                (Reg(0, 9), Z),
                (Reg(6, 9), Z),
                (Reg(6, 9), Z),
                vec![],
            ),
        ],
    );
}

#[test]
fn sync_no_trust_client_unix_mode_propagates_across_changes() {
    test_single(
        &vec![En(
            "bar",
            (Reg(0, 9), Z),
            (Reg(6, 0), Z),
            (Reg(6, 0), Z),
            vec![],
        )],
        ("cud/cud", false),
        &vec![En(
            "bar",
            (Reg(0, 9), Z),
            (Reg(6, 9), Z),
            (Reg(6, 9), Z),
            vec![],
        )],
    );
}

/// A simple source of numbers that look random.
struct Numbers(u64);

impl Numbers {
    fn below(&mut self, n: u64) -> u64 {
        self.0 = self.0.wrapping_mul(6364136223846793005).wrapping_add(1442695040888963407);
        (self.0 >> 33) % n
    }
}

const NAMES: [&str; 8] = ["A0", "A2", "B3", "C4", "A0~1", "A2~1", "B3~1", "C4~1"];

fn some_file(numbers: &mut Numbers, faulty: bool) -> FsFile {
    let mode = numbers.below(8) as FileMode;
    let file = match numbers.below(4) {
        0 | 1 => Reg(mode, numbers.below(16) as u8),
        2 => Dir(mode),
        _ => Nil,
    };
    let faults = if faulty { numbers.below(64) as u8 & numbers.below(64) as u8 } else { 0 };
    (file, Faults(faults))
}

fn some_files(numbers: &mut Numbers, depth: u64, faulty: bool) -> Vec<En> {
    let mut used = HashSet::new();
    let mut fs = Vec::new();
    for _ in 0..numbers.below(5) {
        let name = NAMES[numbers.below(8) as usize];
        if used.insert(name) {
            let kids = if depth > 0 { some_files(numbers, depth - 1, faulty) } else { vec![] };
            fs.push(En(
                name,
                some_file(numbers, faulty),
                some_file(numbers, faulty),
                some_file(numbers, faulty),
                kids,
            ));
        }
    }
    fs
}

fn some_mode(numbers: &mut Numbers) -> String {
    let mut s = String::new();
    for (i, (on, force)) in
        [('c', 'C'), ('u', 'U'), ('d', 'D'), ('c', 'C'), ('u', 'U'), ('d', 'D')].iter().enumerate()
    {
        if i == 3 {
            s.push('/');
        }
        s.push(match numbers.below(3) {
            0 => '-',
            1 => *on,
            _ => *force,
        });
    }
    s
}

#[test]
fn sync_converges_after_success() {
    let mut numbers = Numbers(1);
    for _ in 0..300 {
        let fs = some_files(&mut numbers, 2, true);
        let rules = constant_rules(&some_mode(&mut numbers), true);
        let mut fx = init(&fs);
        run_full(&mut fx, &rules);
        let a = signatures(&mut fx);
        fx.cli.mark_all_dirty();
        fx.srv.mark_all_dirty();
        run_full(&mut fx, &rules);
        assert_eq!(a, signatures(&mut fx), "{:?}", fs);
    }
}

fn hashes_in_dir(dst: &mut HashSet<u8>, replica: &mut MemoryReplica, dir: &mut DirHandle) {
    for (name, data) in replica.list(dir).unwrap() {
        match data {
            FileData::Regular(_, _, _, hash) => {
                dst.insert(hash[0]);
            }
            FileData::Directory(_) => {
                let mut subdir = replica.chdir(dir, &name).unwrap();
                hashes_in_dir(dst, replica, &mut subdir);
            }
            _ => panic!("Unexpected file data: {:?}", data),
        }
    }
}

fn hashes_in(replica: &mut MemoryReplica) -> HashSet<u8> {
    let mut dst = HashSet::new();
    replica.clear_faults();
    let mut root = replica.root().unwrap();
    hashes_in_dir(&mut dst, replica, &mut root);
    dst
}

#[test]
fn unforced_symmetric_sync_never_loses_data_and_makes_both_sides_identical() {
    let mut numbers = Numbers(2);
    for _ in 0..300 {
        let fs = some_files(&mut numbers, 2, true);
        let rules = constant_rules("cud/cud", true);
        let mut orig = init(&fs);
        let mut most = hashes_in(&mut orig.cli);
        most.extend(hashes_in(&mut orig.srv));
        let known = hashes_in(&mut orig.anc);
        let mut fx = init(&fs);
        run_full(&mut fx, &rules);
        let mut result = hashes_in(&mut fx.cli);
        result.extend(hashes_in(&mut fx.srv));
        for h in &most {
            assert!(known.contains(h) || result.contains(h), "lost {} of {:?}", h, fs);
        }
        for h in &result {
            assert!(most.contains(h), "created {} in {:?}", h, fs);
        }
        let (cli, _, srv) = signatures(&mut fx);
        assert_eq!(cli, srv, "{:?}", fs);
    }
}

#[test]
fn mirror_to_server_never_changes_client_and_makes_server_like_client() {
    let mut numbers = Numbers(3);
    for _ in 0..300 {
        let fs = some_files(&mut numbers, 2, true);
        let rules = constant_rules("---/CUD", true);
        let orig = signature(&mut init(&fs).cli);
        let mut fx = init(&fs);
        run_full(&mut fx, &rules);
        let (cli, _, srv) = signatures(&mut fx);
        assert_eq!(orig, cli, "Client modified: {:?}", fs);
        assert_eq!(orig, srv, "Server doesn't match the client: {:?}", fs);
    }
}

/// Mirrors what is named accordingly, or what is in a directory that also has a
/// file that asks for it.
struct ByName {
    mirror: bool,
}

impl SyncRules for ByName {
    fn contains(&mut self, file: File) {
        self.mirror = self.mirror || file.0 == b"mirror here";
    }

    fn sync_mode(&self, file: File) -> SyncMode {
        let mirror = self.mirror || file.0.starts_with(b"mirror");
        SyncMode::parse(if mirror { "---/CUD" } else { "cud/cud" }).unwrap()
    }

    fn trust_client_unix_mode(&self, _file: File) -> bool {
        true
    }

    fn subdir(&self, _file: File) -> ByName {
        ByName { mirror: false }
    }
}

#[test]
fn rules_may_differ_from_file_to_file() {
    let mut fx = init(&vec![
        En("kept", (Nil, Z), (Nil, Z), (Reg(6, 1), Z), vec![]),
        En("mirrored", (Nil, Z), (Nil, Z), (Reg(6, 2), Z), vec![]),
        En(
            "sub",
            (Dir(7), Z),
            (Nil, Z),
            (Dir(7), Z),
            vec![
                En("mirror here", (Nil, Z), (Nil, Z), (Reg(6, 3), Z), vec![]),
                En("other", (Nil, Z), (Nil, Z), (Reg(6, 4), Z), vec![]),
            ],
        ),
    ]);
    assert!(fx.start_root(ByName { mirror: false }).unwrap().success);
    verify(
        &mut fx,
        &vec![
            En("kept", (Reg(6, 1), Z), (Reg(6, 1), Z), (Reg(6, 1), Z), vec![]),
            En("sub", (Dir(7), Z), (Dir(7), Z), (Dir(7), Z), vec![]),
        ],
    );
}

#[test]
fn clean_directories_are_skipped() {
    let mut fx = init(&vec![En("sub", (Dir(7), Z), (Dir(7), Z), (Dir(7), Z), vec![])]);
    let rules = constant_rules("cud/cud", true);
    assert!(run_once(&mut fx, &rules).success);

    let mut root = fx.cli.root().unwrap();
    let mut sub = fx.cli.chdir(&mut root, b"sub").unwrap();
    let fd = FileData::Regular(6, 0, 0, [1; 32]);
    fx.cli.create(&mut sub, File(b"new", &fd), Some([1; 32])).unwrap();
    assert!(run_once(&mut fx, &rules).success);
    assert!(hashes_in(&mut fx.srv).is_empty());

    fx.cli.mark_all_dirty();
    assert!(run_once(&mut fx, &rules).success);
    assert!(hashes_in(&mut fx.srv).contains(&1));
}

/// Takes down what is said about one file.
struct Notes(Vec<(LogLevel, String)>);

impl Logger for Notes {
    fn log(&mut self, level: LogLevel, what: &Log) {
        let text = match what {
            Log::Inspect(dir, name, recon, conflict) => {
                assert_eq!(b"", *dir);
                assert_eq!(Conflict::NoConflict, *conflict);
                assert_eq!(Reconciliation::Use(ReconciliationSide::Client), *recon);
                format!("inspect {}", String::from_utf8_lossy(name))
            }
            Log::Create(ReplicaSide::Server, _, name, _) => {
                format!("create {}", String::from_utf8_lossy(name))
            }
            Log::RecursiveDelete(ReplicaSide::Server, path) => {
                format!("delete {}", String::from_utf8_lossy(path))
            }
            Log::Rmdir(side, path) => format!("rmdir {:?} {}", side, String::from_utf8_lossy(path)),
            other => panic!("Unexpected: {:?}", other),
        };
        self.0.push((level, text));
    }
}

#[test]
fn what_is_done_to_each_file_is_logged() {
    let fs = vec![
        En("a", (Reg(6, 1), Z), (Nil, Z), (Nil, Z), vec![]),
        En("b", (Nil, Z), (Dir(7), Z), (Dir(7), Z), vec![]),
    ];
    let quiet = init(&fs);
    let mut fx = Context {
        cli: quiet.cli,
        anc: quiet.anc,
        srv: quiet.srv,
        log: Notes(vec![]),
        interrupt: Uninterrupted,
    };
    let rules = constant_rules("cud/cud", true);
    assert!(fx.start_root(rules).unwrap().success);
    let expected = vec![
        (INFO, "inspect a".to_owned()),
        (EDIT, "create a".to_owned()),
        (INFO, "inspect b".to_owned()),
        (EDIT, "delete /b".to_owned()),
        (EDIT, "rmdir Ancestor /b".to_owned()),
        (EDIT, "rmdir Client /b".to_owned()),
        (EDIT, "rmdir Server /b".to_owned()),
    ];
    assert_eq!(expected, fx.log.0);
}

/// Takes down which files are inspected.
struct Inspected(Vec<(String, String)>);

impl Logger for Inspected {
    fn log(&mut self, _level: LogLevel, what: &Log) {
        if let Log::Inspect(dir, name, _, _) = what {
            let text = |s: &[u8]| String::from_utf8_lossy(s).into_owned();
            self.0.push((text(dir), text(name)));
        }
    }
}

#[test]
fn each_file_is_inspected_once_and_in_order() {
    let fs = vec![
        En("c", (Reg(6, 1), Z), (Nil, Z), (Nil, Z), vec![]),
        En("a", (Nil, Z), (Reg(6, 2), Z), (Nil, Z), vec![]),
        En("d", (Nil, Z), (Nil, Z), (Reg(6, 3), Z), vec![]),
        En(
            "b",
            (Dir(7), Z),
            (Dir(7), Z),
            (Dir(7), Z),
            vec![En("x", (Reg(6, 4), Z), (Nil, Z), (Nil, Z), vec![])],
        ),
    ];
    let quiet = init(&fs);
    let mut fx = Context {
        cli: quiet.cli,
        anc: quiet.anc,
        srv: quiet.srv,
        log: Inspected(vec![]),
        interrupt: Uninterrupted,
    };
    assert!(fx.start_root(constant_rules("cud/cud", true)).unwrap().success);
    let seen: Vec<&str> = fx.log.0.iter().map(|(_, name)| name.as_str()).collect();
    assert_eq!(vec!["a", "b", "c", "d", "x"], seen);
    assert_eq!("/b", fx.log.0[4].0);
}

#[test]
fn files_that_differ_in_time_alone_stay_the_same_files() {
    let mut fx = init(&vec![En("f", (Reg(6, 1), Z), (Nil, Z), (Nil, Z), vec![])]);
    let mut root = fx.srv.root().unwrap();
    let fd = FileData::Regular(6, 0, -5, [1; 32]);
    fx.srv.create(&mut root, File(b"f", &fd), Some([1; 32])).unwrap();
    let rules = constant_rules("cud/---", true);
    assert!(run_once(&mut fx, &rules).success);
    let first = signatures(&mut fx);
    fx.cli.mark_all_dirty();
    fx.srv.mark_all_dirty();
    assert!(run_once(&mut fx, &rules).success);
    assert_eq!(first, signatures(&mut fx));
}

#[test]
fn untrusted_modes_settle_down() {
    let fs = vec![
        En("f", (Reg(6, 1), Z), (Reg(6, 1), Z), (Reg(7, 1), Z), vec![]),
        En("g", (Reg(5, 2), Z), (Nil, Z), (Nil, Z), vec![]),
        En("h", (Nil, Z), (Reg(6, 3), Z), (Reg(4, 3), Z), vec![]),
        En(
            "d",
            (Dir(5), Z),
            (Nil, Z),
            (Dir(7), Z),
            vec![En("x", (Reg(6, 4), Z), (Nil, Z), (Nil, Z), vec![])],
        ),
    ];
    for mode in ["cud/cud", "cud/---", "---/cud", "CUD/CUD", "cUd/CuD", "---/CUD"] {
        let mut fx = init(&fs);
        let rules = constant_rules(mode, false);
        assert!(run_once(&mut fx, &rules).success);
        let first = signatures(&mut fx);
        fx.cli.mark_all_dirty();
        fx.srv.mark_all_dirty();
        assert!(run_once(&mut fx, &rules).success);
        assert_eq!(first, signatures(&mut fx), "{}", mode);
    }
}

#[test]
fn flags_of_a_file_do_not_depend_on_those_before() {
    let fs = vec![
        En("a", (Reg(6, 1), Z), (Reg(6, 1), Z), (Reg(6, 1), Z), vec![]),
        En("b", (Nil, Z), (Reg(6, 1), Z), (Nil, Z), vec![]),
    ];
    for success in [true, false] {
        for (name, left) in [(&b"a"[..], true), (b"b", false)] {
            let mut fx = init(&fs);
            let mut dir = DirContext {
                cli: listed(&mut fx.cli),
                anc: listed(&mut fx.anc),
                srv: listed(&mut fx.srv),
                todo: NameQueue::new(),
                rules: constant_rules("cud/cud", true),
            };
            let mut state = DirState { success, empty: true };
            fx.process_file(&mut dir, b"", name, &mut state, &mut Vec::new());
            assert_eq!(DirState { success, empty: !left }, state);
        }
    }
}

fn listed(rep: &mut MemoryReplica) -> SingleDirContext<DirHandle> {
    let mut dir = rep.root().unwrap();
    let mut files = NameMap::new();
    for (name, fd) in rep.list(&mut dir).unwrap() {
        files.insert(name, fd);
    }
    SingleDirContext { dir, files }
}
