//! Changing one file in all replicas.

use ensync::defs::{File, FileData, FileMode, UNKNOWN_HASH};
use ensync::interrupt::Uninterrupted;
use ensync::log::{Log, LogLevel, Logger, ReplicaSide};
use ensync::memory_replica::{DirHandle, MemoryReplica, Op};
use ensync::reconcile::compute::{Reconciliation, ReconciliationSide, SplitAncestorState};
use ensync::reconcile::context::{Context, DirContext, SingleDirContext};
use ensync::reconcile::mutate::{
    replace_ancestor, replace_replica, try_rename_replica, ApplyResult,
};
use ensync::replica::{NullTransfer, Replica};
use ensync::rules::{ConstantRules, SyncMode};
use ensync::table::{NameMap, NameQueue};

/// Takes no notice of anything.
struct Quiet;

impl Logger for Quiet {
    fn log(&mut self, _level: LogLevel, _what: &Log) {}
}

fn oss(s: &str) -> Vec<u8> {
    s.as_bytes().to_vec()
}

struct Fixture {
    client: MemoryReplica,
    ancestor: MemoryReplica,
    server: MemoryReplica,
}

impl Fixture {
    fn new() -> Self {
        Fixture {
            client: MemoryReplica::empty(),
            ancestor: MemoryReplica::empty(),
            server: MemoryReplica::empty(),
        }
    }

    fn context(
        self,
    ) -> Context<MemoryReplica, MemoryReplica, MemoryReplica, Quiet, Uninterrupted> {
        Context {
            cli: self.client,
            anc: self.ancestor,
            srv: self.server,
            log: Quiet,
            interrupt: Uninterrupted,
        }
    }
}

fn replica() -> (MemoryReplica, DirHandle) {
    let mut mr = MemoryReplica::empty();
    let root = mr.root().unwrap();
    (mr, root)
}

fn root_dir_context(
    fx: &mut Fixture,
) -> DirContext<DirHandle, DirHandle, DirHandle, ConstantRules> {
    DirContext {
        cli: SingleDirContext { dir: fx.client.root().unwrap(), files: NameMap::new() },
        anc: SingleDirContext { dir: fx.ancestor.root().unwrap(), files: NameMap::new() },
        srv: SingleDirContext { dir: fx.server.root().unwrap(), files: NameMap::new() },
        todo: NameQueue::new(),
        rules: ConstantRules {
            mode: SyncMode::parse("---/---").unwrap(),
            trust_client_unix_mode: true,
        },
    }
}

fn queued(todo: &mut NameQueue) -> usize {
    let mut count = 0;
    while todo.pop().is_some() {
        count += 1;
    }
    count
}

fn put(
    replica: &mut MemoryReplica,
    dir: &mut DirHandle,
    files: &mut NameMap<FileData>,
    name: &[u8],
    fd: FileData,
) -> FileData {
    replica.create(dir, File(name, &fd), MemoryReplica::null_transfer(&fd)).unwrap();
    files.insert(name.to_vec(), fd.clone());
    fd
}

fn genreg(replica: &mut MemoryReplica) -> FileData {
    FileData::Regular(0o777, 0, 0, replica.gen_hash())
}

fn mkreg(
    replica: &mut MemoryReplica,
    dir: &mut DirHandle,
    files: &mut NameMap<FileData>,
    name: &[u8],
) -> FileData {
    let fd = genreg(replica);
    put(replica, dir, files, name, fd)
}

fn mksym(
    replica: &mut MemoryReplica,
    dir: &mut DirHandle,
    files: &mut NameMap<FileData>,
    name: &[u8],
    target: &str,
) -> FileData {
    put(replica, dir, files, name, FileData::Symlink(oss(target)))
}

fn mkspec(
    replica: &mut MemoryReplica,
    dir: &mut DirHandle,
    files: &mut NameMap<FileData>,
    name: &[u8],
) -> FileData {
    put(replica, dir, files, name, FileData::Special)
}

fn mkdir(
    replica: &mut MemoryReplica,
    dir: &mut DirHandle,
    files: &mut NameMap<FileData>,
    name: &[u8],
    mode: FileMode,
) -> FileData {
    put(replica, dir, files, name, FileData::Directory(mode))
}

#[test]
fn replace_ancestor_trivial() {
    let (mut replica, mut root) = replica();
    let mut files = NameMap::new();

    replace_ancestor(&mut replica, &mut root, &mut files,
                     &oss("foo"), None, None).unwrap();
    assert_eq!(0, files.len());
}

#[test]
fn replace_ancestor_create_regular() {
    let (mut replica, mut root) = replica();
    let mut files = NameMap::new();

    let fd = genreg(&mut replica);
    let name = oss("foo");
    replace_ancestor(&mut replica, &mut root, &mut files,
                     &name, None, Some(&fd)).unwrap();
    assert_eq!(1, replica.list(&mut root).unwrap().len());
    assert_eq!(Some(&fd), files.get(&name));
}

#[test]
fn replace_ancestor_replace_regular() {
    let (mut replica, mut root) = replica();
    let mut files = NameMap::new();

    let name = oss("foo");
    let fd1 = mkreg(&mut replica, &mut root, &mut files, &name);
    let fd2 = genreg(&mut replica);

    replace_ancestor(&mut replica, &mut root, &mut files,
                     &name, Some(&fd1), Some(&fd2)).unwrap();
    assert_eq!(1, files.len());
    assert_eq!(Some(&fd2), files.get(&name));
    assert_eq!(fd2, replica.list(&mut root).unwrap()[0].1);
}

#[test]
fn replace_ancestor_remove_regular() {
    let (mut replica, mut root) = replica();
    let mut files = NameMap::new();
    let name = oss("foo");
    let fd = mkreg(&mut replica, &mut root, &mut files, &name);

    assert!(files.contains_key(&name));
    replace_ancestor(&mut replica, &mut root, &mut files,
                     &name, Some(&fd), None).unwrap();
    assert!(!files.contains_key(&name));
    assert!(replica.list(&mut root).unwrap().is_empty());
}

#[test]
fn replace_ancestor_delete_dir_tree() {
    let (mut replica, mut root) = replica();
    let mut files = NameMap::new();
    let foo = oss("foo");
    let bar = oss("bar");
    let plugh = oss("plugh");

    let fd_foo = mkdir(&mut replica, &mut root, &mut files, &foo, 0o777);
    let mut subdir_foo = replica.chdir(&root, &foo).unwrap();
    mkdir(&mut replica, &mut subdir_foo, &mut NameMap::new(), &bar, 0o777);
    let mut subdir_bar = replica.chdir(&subdir_foo, &bar).unwrap();
    mkreg(&mut replica, &mut subdir_bar, &mut NameMap::new(), &plugh);

    replace_ancestor(&mut replica, &mut root, &mut files, &foo,
                     Some(&fd_foo), None).unwrap();
    assert!(!files.contains_key(&foo));
    assert!(replica.list(&mut root).unwrap().is_empty());
}

#[test]
fn replace_ancestor_replace_dir_tree_with_file() {
    let (mut replica, mut root) = replica();
    let mut files = NameMap::new();
    let foo = oss("foo");
    let bar = oss("bar");
    let plugh = oss("plugh");
    let fd2 = genreg(&mut replica);

    let fd_foo = mkdir(&mut replica, &mut root, &mut files, &foo, 0o777);
    let mut subdir_foo = replica.chdir(&root, &foo).unwrap();
    mkdir(&mut replica, &mut subdir_foo, &mut NameMap::new(), &bar, 0o777);
    let mut subdir_bar = replica.chdir(&subdir_foo, &bar).unwrap();
    mkreg(&mut replica, &mut subdir_bar, &mut NameMap::new(), &plugh);

    replace_ancestor(&mut replica, &mut root, &mut files, &foo,
                     Some(&fd_foo), Some(&fd2)).unwrap();
    assert_eq!(Some(&fd2), files.get(&foo));
    assert!(replica.list(&mut subdir_foo).is_err());
}

#[test]
fn replace_ancestor_chmod_dir() {
    let (mut replica, mut root) = replica();
    let mut files = NameMap::new();
    let foo = oss("foo");
    let bar = oss("bar");
    let plugh = oss("plugh");
    let fd2 = FileData::Directory(0o700);

    let fd_foo = mkdir(&mut replica, &mut root, &mut files, &foo, 0o777);
    let mut subdir_foo = replica.chdir(&root, &foo).unwrap();
    mkdir(&mut replica, &mut subdir_foo, &mut NameMap::new(), &bar, 0o777);
    let mut subdir_bar = replica.chdir(&subdir_foo, &bar).unwrap();
    mkreg(&mut replica, &mut subdir_bar, &mut NameMap::new(), &plugh);

    replace_ancestor(&mut replica, &mut root, &mut files, &foo,
                     Some(&fd_foo), Some(&fd2)).unwrap();
    assert_eq!(Some(&fd2), files.get(&foo));
    assert!(replica.list(&mut subdir_foo).is_ok());
    assert_eq!(plugh, replica.list(&mut subdir_bar).unwrap()[0].0);
}

#[test]
fn replace_ancestor_replace_regular_with_dir() {
    let (mut replica, mut root) = replica();
    let mut files = NameMap::new();
    let foo = oss("foo");

    let fd1 = mkdir(&mut replica, &mut root, &mut files, &foo, 0o777);
    let fd2 = genreg(&mut replica);

    replace_ancestor(&mut replica, &mut root, &mut files, &foo,
                     Some(&fd1), Some(&fd2)).unwrap();
    assert_eq!(Some(&fd2), files.get(&foo));
    assert_eq!(fd2, replica.list(&mut root).unwrap()[0].1);
}

#[test]
fn replace_replica_noop() {
    let (mut dst, mut dst_root) = replica();
    let (mut src, mut src_root) = replica();
    let mut files = NameMap::new();
    let foo = oss("foo");

    let fd = mkreg(&mut dst, &mut dst_root, &mut files, &foo);
    let fd2 = mkreg(&mut src, &mut src_root, &mut NameMap::new(), &foo);
    assert_eq!(fd, fd2);

    dst.add_fault(Op::Update(oss(""), foo.clone()));
    assert_eq!(Some(fd.clone()), replace_replica(
        &mut dst, &mut dst_root, &mut files, &mut src, &mut src_root,
        &oss(""), &foo, Some(&fd), Some(&fd2),
        &mut Quiet, ReplicaSide::Server).unwrap());
}

#[test]
fn replace_replica_create_regular() {
    let (mut dst, mut dst_root) = replica();
    let (mut src, mut src_root) = replica();
    let mut files = NameMap::new();
    let foo = oss("foo");

    let fd = mkreg(&mut src, &mut src_root, &mut NameMap::new(), &foo);
    src.set_hashes_unknown(&mut src_root);
    let actual_fd = src.list(&mut src_root).unwrap()[0].1.clone();
    assert_eq!(FileData::Regular(0o777, 0, 0, UNKNOWN_HASH), actual_fd);

    let result = replace_replica(
        &mut dst, &mut dst_root, &mut files,
        &mut src, &src_root, &oss(""), &foo,
        None, Some(&actual_fd), &mut Quiet,
        ReplicaSide::Client)
        .unwrap();
    assert_eq!(Some(&fd), result.as_ref());
    assert_eq!(Some(&fd), files.get(&foo));
}

#[test]
fn replace_replica_update_regular() {
    let (mut dst, mut dst_root) = replica();
    let (mut src, mut src_root) = replica();
    let mut files = NameMap::new();
    let foo = oss("foo");

    genreg(&mut dst); // Discard first hash
    let to_replace = mkreg(&mut dst, &mut dst_root, &mut files, &foo);

    let fd = mkreg(&mut src, &mut src_root, &mut NameMap::new(), &foo);
    src.set_hashes_unknown(&mut src_root);
    let actual_fd = src.list(&mut src_root).unwrap()[0].1.clone();
    assert_eq!(FileData::Regular(0o777, 0, 0, UNKNOWN_HASH), actual_fd);

    let result = replace_replica(
        &mut dst, &mut dst_root, &mut files,
        &mut src, &src_root, &oss(""), &foo,
        Some(&to_replace), Some(&actual_fd),
        &mut Quiet, ReplicaSide::Client)
        .unwrap();
    assert_eq!(Some(&fd), result.as_ref());
    assert_eq!(Some(&fd), files.get(&foo));
}

#[test]
fn replace_replica_delete_regular() {
    let (mut dst, mut dst_root) = replica();
    let (mut src, src_root) = replica();
    let mut files = NameMap::new();
    let foo = oss("foo");

    let fd = mkreg(&mut dst, &mut dst_root, &mut files, &foo);

    let result = replace_replica(
        &mut dst, &mut dst_root, &mut files,
        &mut src, &src_root, &oss(""), &foo,
        Some(&fd), None, &mut Quiet, ReplicaSide::Client)
        .unwrap();
    assert_eq!(None, result);
    assert_eq!(0, files.len());
}

#[test]
fn try_replace_replica_success() {
    let (mut replica, mut root) = replica();
    let mut files = NameMap::new();
    let foo = oss("foo");
    let bar = oss("bar");

    mkreg(&mut replica, &mut root, &mut files, &foo);
    assert!(try_rename_replica(&mut replica, &mut root, &mut files,
                               &oss(""), &foo, &bar,
                               &mut Quiet,
                               ReplicaSide::Client));
    assert_eq!(1, files.len());
    assert!(files.contains_key(&bar));
    assert_eq!(&bar, &replica.list(&mut root).unwrap()[0].0);
}

#[test]
fn try_replace_replica_error() {
    let (mut replica, mut root) = replica();
    let mut files = NameMap::new();
    let foo = oss("foo");
    let bar = oss("bar");

    mkreg(&mut replica, &mut root, &mut files, &foo);

    replica.add_fault(Op::Rename(oss(""), foo.clone()));
    assert!(!try_rename_replica(&mut replica, &mut root, &mut files,
                                &oss(""), &foo, &bar,
                                &mut Quiet,
                                ReplicaSide::Server));
    assert_eq!(1, files.len());
    assert!(files.contains_key(&foo));
    assert_eq!(&foo, &replica.list(&mut root).unwrap()[0].0);
}

#[test]
fn apply_recon_unsync() {
    let mut fx = Fixture::new();
    let mut root = root_dir_context(&mut fx);
    let foo = oss("foo");

    let cfd = mkdir(&mut fx.client, &mut root.cli.dir, &mut root.cli.files,
                    &foo, 0o777);
    let sfd = mkdir(&mut fx.server, &mut root.srv.dir, &mut root.srv.files,
                    &foo, 0o666);

    let mut c = fx.context();
    assert_eq!(ApplyResult::Clean(false), c.apply_reconciliation(
        &mut root, &oss(""), &foo, Reconciliation::Unsync,
        Some(&cfd), Some(&sfd)));

    assert_eq!(Some(&cfd), root.cli.files.get(&foo));
    assert_eq!(None, root.anc.files.get(&foo));
    assert_eq!(Some(&sfd), root.srv.files.get(&foo));
}

#[test]
fn apply_recon_insync_creates_ancestor() {
    let mut fx = Fixture::new();
    let mut root = root_dir_context(&mut fx);
    let foo = oss("foo");

    let cfd = mkspec(&mut fx.client, &mut root.cli.dir,
                     &mut root.cli.files, &foo);
    let sfd = mkspec(&mut fx.server, &mut root.srv.dir,
                     &mut root.srv.files, &foo);

    let mut c = fx.context();
    assert_eq!(ApplyResult::Clean(false), c.apply_reconciliation(
        &mut root, &oss(""), &foo, Reconciliation::InSync,
        Some(&cfd), Some(&sfd)));

    assert_eq!(Some(&cfd), root.cli.files.get(&foo));
    assert_eq!(Some(&cfd), root.anc.files.get(&foo));
    assert_eq!(Some(&sfd), root.srv.files.get(&foo));
}

#[test]
fn apply_recon_insync_ancestor_create_fail() {
    let mut fx = Fixture::new();
    let mut root = root_dir_context(&mut fx);
    let foo = oss("foo");

    let cfd = mkspec(&mut fx.client, &mut root.cli.dir,
                     &mut root.cli.files, &foo);
    let sfd = mkspec(&mut fx.server, &mut root.srv.dir,
                     &mut root.srv.files, &foo);

    fx.ancestor.add_fault(Op::Create(oss(""), foo.clone()));

    let mut c = fx.context();
    assert_eq!(ApplyResult::Fail, c.apply_reconciliation(
        &mut root, &oss(""), &foo, Reconciliation::InSync,
        Some(&cfd), Some(&sfd)));

    assert_eq!(Some(&cfd), root.cli.files.get(&foo));
    assert_eq!(None, root.anc.files.get(&foo));
    assert_eq!(Some(&sfd), root.srv.files.get(&foo));
}

#[test]
fn apply_recon_insync_recurses_into_directories() {
    let mut fx = Fixture::new();
    let mut root = root_dir_context(&mut fx);
    let foo = oss("foo");

    let cfd = mkdir(&mut fx.client, &mut root.cli.dir,
                    &mut root.cli.files, &foo, 0o777);
    mkdir(&mut fx.ancestor, &mut root.anc.dir, &mut root.anc.files,
          &foo, 0o777);
    let sfd = mkdir(&mut fx.server, &mut root.srv.dir,
                    &mut root.srv.files, &foo, 0o777);

    let mut c = fx.context();
    assert_eq!(ApplyResult::Clean(true), c.apply_reconciliation(
        &mut root, &oss(""), &foo, Reconciliation::InSync,
        Some(&cfd), Some(&sfd)));
}

#[test]
fn apply_recon_use_client_normal_success() {
    let mut fx = Fixture::new();
    let mut root = root_dir_context(&mut fx);
    let foo = oss("foo");

    let cfd = mksym(&mut fx.client, &mut root.cli.dir,
                    &mut root.cli.files, &foo, "client");
    mksym(&mut fx.ancestor, &mut root.anc.dir,
          &mut root.anc.files, &foo, "ancestor");
    let sfd = mksym(&mut fx.server, &mut root.srv.dir,
                    &mut root.srv.files, &foo, "server");

    let mut c = fx.context();
    assert_eq!(ApplyResult::Clean(false), c.apply_reconciliation(
        &mut root,
        &oss(""), &foo, Reconciliation::Use(ReconciliationSide::Client),
        Some(&cfd), Some(&sfd)));

    assert_eq!(Some(&cfd), root.cli.files.get(&foo));
    assert_eq!(Some(&cfd), root.anc.files.get(&foo));
    assert_eq!(Some(&cfd), root.srv.files.get(&foo));
}

#[test]
fn apply_recon_use_client_create_dir() {
    let mut fx = Fixture::new();
    let mut root = root_dir_context(&mut fx);
    let foo = oss("foo");

    let cfd = mkdir(&mut fx.client, &mut root.cli.dir,
                    &mut root.cli.files, &foo, 0o777);
    mksym(&mut fx.ancestor, &mut root.anc.dir,
          &mut root.anc.files, &foo, "ancestor");
    let sfd = mksym(&mut fx.server, &mut root.srv.dir,
                    &mut root.srv.files, &foo, "server");

    let mut c = fx.context();
    assert_eq!(ApplyResult::Clean(true), c.apply_reconciliation(
        &mut root,
        &oss(""), &foo, Reconciliation::Use(ReconciliationSide::Client),
        Some(&cfd), Some(&sfd)));

    assert_eq!(Some(&cfd), root.cli.files.get(&foo));
    assert_eq!(Some(&cfd), root.anc.files.get(&foo));
    assert_eq!(Some(&cfd), root.srv.files.get(&foo));
}

#[test]
fn apply_recon_use_client_mutate_server_error() {
    let mut fx = Fixture::new();
    let mut root = root_dir_context(&mut fx);
    let foo = oss("foo");

    let cfd = mkdir(&mut fx.client, &mut root.cli.dir,
                    &mut root.cli.files, &foo, 0o777);

    fx.server.add_fault(Op::Create(oss(""), foo.clone()));

    let mut context = fx.context();
    assert_eq!(ApplyResult::Fail, context.apply_reconciliation(
        &mut root,
        &oss(""), &foo, Reconciliation::Use(ReconciliationSide::Client),
        Some(&cfd), None));

    assert_eq!(Some(&cfd), root.cli.files.get(&foo));
    assert_eq!(None, root.anc.files.get(&foo));
    assert_eq!(None, root.srv.files.get(&foo));
    assert!(context.anc.list(&mut root.anc.dir).unwrap().is_empty());
    assert!(context.srv.list(&mut root.srv.dir).unwrap().is_empty());
}

#[test]
fn apply_recon_use_client_mutate_ancestor_error() {
    let mut fx = Fixture::new();
    let mut root = root_dir_context(&mut fx);
    let foo = oss("foo");

    let cfd = mkdir(&mut fx.client, &mut root.cli.dir,
                    &mut root.cli.files, &foo, 0o777);

    fx.ancestor.add_fault(Op::Create(oss(""), foo.clone()));

    let mut context = fx.context();
    assert_eq!(ApplyResult::Fail, context.apply_reconciliation(
        &mut root,
        &oss(""), &foo, Reconciliation::Use(ReconciliationSide::Client),
        Some(&cfd), None));

    assert_eq!(Some(&cfd), root.cli.files.get(&foo));
    assert_eq!(None, root.anc.files.get(&foo));
    assert_eq!(Some(&cfd), root.srv.files.get(&foo));
    assert!(context.anc.list(&mut root.anc.dir).unwrap().is_empty());
    assert_eq!(cfd, context.srv.list(&mut root.srv.dir).unwrap()[0].1);
}

#[test]
fn apply_recon_use_client_recursive_delete_success() {
    let mut fx = Fixture::new();
    let mut root = root_dir_context(&mut fx);
    let foo = oss("foo");

    mkspec(&mut fx.ancestor, &mut root.anc.dir,
           &mut root.anc.files, &foo);
    let sfd = mkdir(&mut fx.server, &mut root.srv.dir,
                    &mut root.srv.files, &foo, 0o777);

    assert_eq!(ApplyResult::RecursiveDelete(ReconciliationSide::Server,
                                            0o777),
               fx.context().apply_reconciliation(
                   &mut root, &oss(""), &foo,
                   Reconciliation::Use(ReconciliationSide::Client),
                   None, Some(&sfd)));
    assert_eq!(None, root.cli.files.get(&foo));
    assert_eq!(Some(&sfd), root.anc.files.get(&foo));
    assert_eq!(Some(&sfd), root.srv.files.get(&foo));
}

#[test]
fn apply_recon_use_client_recursive_delete_ancestor_error() {
    let mut fx = Fixture::new();
    let mut root = root_dir_context(&mut fx);
    let foo = oss("foo");

    let afd = mkspec(&mut fx.ancestor, &mut root.anc.dir,
                     &mut root.anc.files, &foo);
    let sfd = mkdir(&mut fx.server, &mut root.srv.dir,
                    &mut root.srv.files, &foo, 0o777);

    fx.ancestor.add_fault(Op::Update(oss(""), foo.clone()));

    assert_eq!(ApplyResult::Fail,
               fx.context().apply_reconciliation(
                   &mut root, &oss(""), &foo,
                   Reconciliation::Use(ReconciliationSide::Client),
                   None, Some(&sfd)));
    assert_eq!(None, root.cli.files.get(&foo));
    assert_eq!(Some(&afd), root.anc.files.get(&foo));
    assert_eq!(Some(&sfd), root.srv.files.get(&foo));
}

#[test]
fn apply_recon_use_server() {
    let mut fx = Fixture::new();
    let mut root = root_dir_context(&mut fx);
    let foo = oss("foo");

    let sfd = mkdir(&mut fx.server, &mut root.srv.dir,
                    &mut root.srv.files, &foo, 0o777);

    let mut c = fx.context();
    assert_eq!(ApplyResult::Clean(true), c.apply_reconciliation(
        &mut root, &oss(""), &foo,
        Reconciliation::Use(ReconciliationSide::Server),
        None, Some(&sfd)));

    assert_eq!(Some(&sfd), root.cli.files.get(&foo));
    assert_eq!(Some(&sfd), root.anc.files.get(&foo));
    assert_eq!(Some(&sfd), root.srv.files.get(&foo));
}

#[test]
fn apply_recon_split_client_delete_success() {
    let mut fx = Fixture::new();
    let mut root = root_dir_context(&mut fx);
    let foo = oss("foo");
    let foo1 = oss("foo~1");

    let cfd = mkdir(&mut fx.client, &mut root.cli.dir,
                    &mut root.cli.files, &foo, 0o777);
    mkdir(&mut fx.ancestor, &mut root.anc.dir,
          &mut root.anc.files, &foo, 0o770);
    let sfd = mkdir(&mut fx.server, &mut root.srv.dir,
                    &mut root.srv.files, &foo, 0o700);

    let mut context = fx.context();
    assert_eq!(ApplyResult::Clean(false), context.apply_reconciliation(
        &mut root, &oss(""), &foo,
        Reconciliation::Split(ReconciliationSide::Client,
                              SplitAncestorState::Delete),
        Some(&cfd), Some(&sfd)));

    assert_eq!(1, root.cli.files.len());
    assert_eq!(Some(&cfd), root.cli.files.get(&foo1));
    assert_eq!(&foo1, &context.cli.list(&mut root.cli.dir).unwrap()[0].0);
    assert_eq!(0, root.anc.files.len());
    assert!(context.anc.list(&mut root.anc.dir).unwrap().is_empty());
    assert_eq!(1, root.srv.files.len());
    assert_eq!(Some(&sfd), root.srv.files.get(&foo));
    assert_eq!(&foo, &context.srv.list(&mut root.srv.dir).unwrap()[0].0);
}

#[test]
fn apply_recon_split_server_delete_success() {
    let mut fx = Fixture::new();
    let mut root = root_dir_context(&mut fx);
    let foo = oss("foo");
    let foo1 = oss("foo~1");

    let cfd = mkdir(&mut fx.client, &mut root.cli.dir,
                    &mut root.cli.files, &foo, 0o777);
    mkdir(&mut fx.ancestor, &mut root.anc.dir,
          &mut root.anc.files, &foo, 0o770);
    let sfd = mkdir(&mut fx.server, &mut root.srv.dir,
                    &mut root.srv.files, &foo, 0o700);

    let mut context = fx.context();
    assert_eq!(ApplyResult::Clean(false), context.apply_reconciliation(
        &mut root, &oss(""), &foo,
        Reconciliation::Split(ReconciliationSide::Server,
                              SplitAncestorState::Delete),
        Some(&cfd), Some(&sfd)));

    assert_eq!(1, root.cli.files.len());
    assert_eq!(Some(&cfd), root.cli.files.get(&foo));
    assert_eq!(&foo, &context.cli.list(&mut root.cli.dir).unwrap()[0].0);
    assert_eq!(0, root.anc.files.len());
    assert!(context.anc.list(&mut root.anc.dir).unwrap().is_empty());
    assert_eq!(1, root.srv.files.len());
    assert_eq!(Some(&sfd), root.srv.files.get(&foo1));
    assert_eq!(&foo1, &context.srv.list(&mut root.srv.dir).unwrap()[0].0);
}

#[test]
fn apply_recon_split_client_delete_client_error() {
    let mut fx = Fixture::new();
    let mut root = root_dir_context(&mut fx);
    let foo = oss("foo");

    let cfd = mkdir(&mut fx.client, &mut root.cli.dir,
                    &mut root.cli.files, &foo, 0o777);
    mkdir(&mut fx.ancestor, &mut root.anc.dir,
          &mut root.anc.files, &foo, 0o770);
    let sfd = mkdir(&mut fx.server, &mut root.srv.dir,
                    &mut root.srv.files, &foo, 0o700);

    fx.client.add_fault(Op::Rename(oss(""), foo.clone()));

    let mut context = fx.context();
    assert_eq!(ApplyResult::Fail, context.apply_reconciliation(
        &mut root, &oss(""), &foo,
        Reconciliation::Split(ReconciliationSide::Client,
                              SplitAncestorState::Delete),
        Some(&cfd), Some(&sfd)));

    assert_eq!(1, root.cli.files.len());
    assert_eq!(Some(&cfd), root.cli.files.get(&foo));
    assert_eq!(&foo, &context.cli.list(&mut root.cli.dir).unwrap()[0].0);
    assert_eq!(0, root.anc.files.len());
    assert!(context.anc.list(&mut root.anc.dir).unwrap().is_empty());
    assert_eq!(1, root.srv.files.len());
    assert_eq!(Some(&sfd), root.srv.files.get(&foo));
    assert_eq!(&foo, &context.srv.list(&mut root.srv.dir).unwrap()[0].0);
}

#[test]
fn apply_recon_split_client_delete_ancestor_error() {
    let mut fx = Fixture::new();
    let mut root = root_dir_context(&mut fx);
    let foo = oss("foo");

    let cfd = mkdir(&mut fx.client, &mut root.cli.dir,
                    &mut root.cli.files, &foo, 0o777);
    mkdir(&mut fx.ancestor, &mut root.anc.dir,
          &mut root.anc.files, &foo, 0o770);
    let sfd = mkdir(&mut fx.server, &mut root.srv.dir,
                    &mut root.srv.files, &foo, 0o700);

    fx.ancestor.add_fault(Op::Remove(oss(""), foo.clone()));

    let mut context = fx.context();
    assert_eq!(ApplyResult::Fail, context.apply_reconciliation(
        &mut root, &oss(""), &foo,
        Reconciliation::Split(ReconciliationSide::Client,
                              SplitAncestorState::Delete),
        Some(&cfd), Some(&sfd)));

    assert_eq!(1, root.cli.files.len());
    assert_eq!(Some(&cfd), root.cli.files.get(&foo));
    assert_eq!(&foo, &context.cli.list(&mut root.cli.dir).unwrap()[0].0);
    assert_eq!(1, root.srv.files.len());
    assert_eq!(Some(&sfd), root.srv.files.get(&foo));
    assert_eq!(&foo, &context.srv.list(&mut root.srv.dir).unwrap()[0].0);
}

#[test]
fn apply_recon_split_client_move_ancestor_success() {
    let mut fx = Fixture::new();
    let mut root = root_dir_context(&mut fx);
    let foo = oss("foo");
    let foo1 = oss("foo~1");

    let cfd = mkdir(&mut fx.client, &mut root.cli.dir,
                    &mut root.cli.files, &foo, 0o777);
    let afd = mkdir(&mut fx.ancestor, &mut root.anc.dir,
                    &mut root.anc.files, &foo, 0o770);
    let sfd = mkdir(&mut fx.server, &mut root.srv.dir,
                    &mut root.srv.files, &foo, 0o700);

    let mut context = fx.context();
    assert_eq!(ApplyResult::Clean(false), context.apply_reconciliation(
        &mut root, &oss(""), &foo,
        Reconciliation::Split(ReconciliationSide::Client,
                              SplitAncestorState::Move),
        Some(&cfd), Some(&sfd)));
    assert_eq!(2, queued(&mut root.todo));

    assert_eq!(1, root.cli.files.len());
    assert_eq!(Some(&cfd), root.cli.files.get(&foo1));
    assert_eq!(&foo1, &context.cli.list(&mut root.cli.dir).unwrap()[0].0);
    assert_eq!(1, root.anc.files.len());
    assert_eq!(Some(&afd), root.anc.files.get(&foo1));
    assert_eq!(1, context.anc.list(&mut root.anc.dir).unwrap().len());
    assert_eq!(&foo1, &context.anc.list(&mut root.anc.dir).unwrap()[0].0);
    assert_eq!(1, root.srv.files.len());
    assert_eq!(Some(&sfd), root.srv.files.get(&foo));
    assert_eq!(&foo, &context.srv.list(&mut root.srv.dir).unwrap()[0].0);
}

#[test]
fn apply_recon_split_client_move_ancestor_client_error() {
    let mut fx = Fixture::new();
    let mut root = root_dir_context(&mut fx);
    let foo = oss("foo");

    let cfd = mkdir(&mut fx.client, &mut root.cli.dir,
                    &mut root.cli.files, &foo, 0o777);
    mkdir(&mut fx.ancestor, &mut root.anc.dir,
          &mut root.anc.files, &foo, 0o770);
    let sfd = mkdir(&mut fx.server, &mut root.srv.dir,
                    &mut root.srv.files, &foo, 0o700);

    fx.client.add_fault(Op::Rename(oss(""), foo.clone()));

    let mut context = fx.context();
    assert_eq!(ApplyResult::Fail, context.apply_reconciliation(
        &mut root, &oss(""), &foo,
        Reconciliation::Split(ReconciliationSide::Client,
                              SplitAncestorState::Move),
        Some(&cfd), Some(&sfd)));
    assert_eq!(0, queued(&mut root.todo));

    assert_eq!(1, root.cli.files.len());
    assert_eq!(Some(&cfd), root.cli.files.get(&foo));
    assert_eq!(&foo, &context.cli.list(&mut root.cli.dir).unwrap()[0].0);
    // root.anc.files will be out of date, but listing the ancestor will
    // effect the condemnation of the old name.
    assert_eq!(1, root.anc.files.len());
    assert!(context.anc.list(&mut root.anc.dir).unwrap().is_empty());
    assert_eq!(1, root.srv.files.len());
    assert_eq!(Some(&sfd), root.srv.files.get(&foo));
    assert_eq!(&foo, &context.srv.list(&mut root.srv.dir).unwrap()[0].0);
}

#[test]
fn apply_recon_split_client_move_ancestor_ancestor_error() {
    let mut fx = Fixture::new();
    let mut root = root_dir_context(&mut fx);
    let foo = oss("foo");
    let foo1 = oss("foo~1");

    let cfd = mkdir(&mut fx.client, &mut root.cli.dir,
                    &mut root.cli.files, &foo, 0o777);
    mkdir(&mut fx.ancestor, &mut root.anc.dir,
          &mut root.anc.files, &foo, 0o770);
    let sfd = mkdir(&mut fx.server, &mut root.srv.dir,
                    &mut root.srv.files, &foo, 0o700);

    fx.ancestor.add_fault(Op::Rename(oss(""), foo.clone()));

    let mut context = fx.context();
    assert_eq!(ApplyResult::Fail, context.apply_reconciliation(
        &mut root, &oss(""), &foo,
        Reconciliation::Split(ReconciliationSide::Client,
                              SplitAncestorState::Move),
        Some(&cfd), Some(&sfd)));
    assert_eq!(0, queued(&mut root.todo));

    assert_eq!(1, root.cli.files.len());
    assert_eq!(Some(&cfd), root.cli.files.get(&foo1));
    assert_eq!(&foo1, &context.cli.list(&mut root.cli.dir).unwrap()[0].0);
    // root.anc.files will be out of date, but listing the ancestor will
    // effect the condemnation of the old name.
    assert_eq!(1, root.anc.files.len());
    assert!(context.anc.list(&mut root.anc.dir).unwrap().is_empty());
    assert_eq!(1, root.srv.files.len());
    assert_eq!(Some(&sfd), root.srv.files.get(&foo));
    assert_eq!(&foo, &context.srv.list(&mut root.srv.dir).unwrap()[0].0);
}

/// Takes down which operations failed.
struct Failures(Vec<String>);

impl Logger for Failures {
    fn log(&mut self, _level: LogLevel, what: &Log) {
        if let Log::Error(side, dir, op, _) = what {
            self.0.push(format!("{:?} {} {:?}", side, String::from_utf8_lossy(dir), op));
        }
    }
}

#[test]
fn failed_transfers_are_logged() {
    let (mut src, src_dir) = replica();
    let (mut dst, mut dst_dir) = replica();
    let mut files = NameMap::new();
    let old = mkreg(&mut dst, &mut dst_dir, &mut files, &oss("old"));
    src.add_fault(Op::Transfer(oss(""), oss("new")));
    src.add_fault(Op::Transfer(oss(""), oss("old")));
    let fd = FileData::Regular(0o777, 0, 0, [9; 32]);
    let mut log = Failures(vec![]);
    for (name, before) in [("new", None), ("old", Some(&old))] {
        assert!(replace_replica(
            &mut dst, &mut dst_dir, &mut files, &mut src, &src_dir, b"dir",
            name.as_bytes(), before, Some(&fd), &mut log, ReplicaSide::Server,
        )
        .is_err());
    }
    assert_eq!(2, log.0.len());
    assert!(log.0[0].starts_with("Server dir Create("));
    assert!(log.0[1].starts_with("Server dir Update("));
    assert_eq!(Some(&old), files.get(&oss("old")));
    assert!(files.get(&oss("new")).is_none());
}
