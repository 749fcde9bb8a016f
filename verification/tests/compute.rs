//! Deciding what to do about one file.

use std::collections::HashSet;

use ensync::defs::FileData;
use ensync::reconcile::compute::Conflict::{EditDelete, EditEdit, NoConflict};
use ensync::reconcile::compute::Reconciliation::{InSync, Irreconcilable, Split, Unsync, Use};
use ensync::reconcile::compute::ReconciliationSide::{Client, Server};
use ensync::reconcile::compute::{
    choose_reconciliation, gen_alternate_name, Conflict, ConflictingEdit, Reconciliation,
    SplitAncestorState,
};
use ensync::rules::SyncMode;

fn oss(s: &str) -> Vec<u8> {
    s.as_bytes().to_vec()
}

fn mode(s: &str) -> SyncMode {
    SyncMode::parse(s).unwrap()
}

#[test]
fn simple_gen_alternate_name() {
    let mut names = HashSet::new();
    names.insert(oss("foo"));

    let result = gen_alternate_name(&oss("foo"), |n| names.contains(n));
    assert_eq!(oss("foo~1"), result);
}

#[test]
fn gen_alternate_name_with_extension() {
    let mut names = HashSet::new();
    names.insert(oss("foo.txt"));

    let result = gen_alternate_name(&oss("foo.txt"), |n| names.contains(n));
    assert_eq!(oss("foo~1.txt"), result);
}

#[test]
fn gen_alternate_name_with_collision() {
    let mut names = HashSet::new();
    names.insert(oss("foo.txt"));
    names.insert(oss("foo~1.txt"));

    let result = gen_alternate_name(&oss("foo.txt"), |n| names.contains(n));
    assert_eq!(oss("foo~2.txt"), result);
}

#[test]
fn gen_alternate_name_reuses_existing_tilde() {
    let mut names = HashSet::new();

    names.insert(oss("foo.txt"));
    names.insert(oss("foo~1.txt"));

    let result =
        gen_alternate_name(&oss("foo~1.txt"), |n| names.contains(n));
    assert_eq!(oss("foo~2.txt"), result);
}

fn for_every_sync_triple<
    F: Fn(Option<&FileData>, Option<&FileData>, Option<&FileData>),
>(
    f: F,
) {
    let files = vec![
        FileData::Directory(0o777),
        FileData::Directory(0o770),
        FileData::Directory(0o700),
        FileData::Regular(0o777, 0, 0, [0; 32]),
        FileData::Regular(0o770, 0, 0, [0; 32]),
        FileData::Regular(0o700, 0, 0, [0; 32]),
        FileData::Regular(0o777, 0, 0, [1; 32]),
        FileData::Regular(0o770, 0, 0, [1; 32]),
        FileData::Regular(0o700, 0, 0, [1; 32]),
        FileData::Regular(0o777, 0, 0, [2; 32]),
        FileData::Regular(0o770, 0, 0, [2; 32]),
        FileData::Regular(0o700, 0, 0, [2; 32]),
        FileData::Symlink(oss("foo")),
        FileData::Symlink(oss("bar")),
        FileData::Symlink(oss("baz")),
        FileData::Special,
    ];
    let mut options = vec![None];
    for f in &files {
        options.push(Some(f))
    }

    for cli in &options {
        for anc in &options {
            for srv in &options {
                f(*cli, *anc, *srv)
            }
        }
    }
}

fn panic_reconciliation(
    result: Reconciliation,
    cli: Option<&FileData>,
    anc: Option<&FileData>,
    srv: Option<&FileData>,
) {
    panic!(
        "Reconciled to {:?}:\n{:?}\n{:?}\n{:?}",
        result, cli, anc, srv
    )
}

#[test]
fn always_insync_or_unsync_for_null_sync_mode() {
    let mode = mode("---/---");
    for_every_sync_triple(|c, a, s| {
        match choose_reconciliation(c, a, s, mode).0 {
            InSync | Unsync => (),
            other => panic_reconciliation(other, c, a, s),
        }
    });
}

#[test]
fn never_modifies_client_if_client_sync_off() {
    let mode = mode("---/cud");
    for_every_sync_triple(|c, a, s| {
        match choose_reconciliation(c, a, s, mode).0 {
            InSync | Unsync | Irreconcilable => (),
            Use(side) if Client == side => (),
            Split(side, _) if Server == side => (),

            other => panic_reconciliation(other, c, a, s),
        }
    });
}

#[test]
fn never_modifies_server_if_server_sync_off() {
    let mode = mode("cud/---");
    for_every_sync_triple(|c, a, s| {
        match choose_reconciliation(c, a, s, mode).0 {
            InSync | Unsync | Irreconcilable => (),
            Use(side) if Server == side => (),
            Split(side, _) if Client == side => (),

            other => panic_reconciliation(other, c, a, s),
        }
    });
}

#[test]
fn never_unsync_or_irreconcilable_if_outbound_force_all() {
    let mode = mode("---/CUD");
    for_every_sync_triple(|c, a, s| {
        match choose_reconciliation(c, a, s, mode).0 {
            r @ Unsync | r @ Irreconcilable => match (c, s) {
                (Some(&FileData::Special), _)
                | (_, Some(&FileData::Special)) => (),
                _ => panic_reconciliation(r, c, a, s),
            },

            InSync => (),
            Use(side) if Client == side => (),
            Split(side, _) if Server == side => (),

            other => panic_reconciliation(other, c, a, s),
        }
    });
}

struct AssertReconcilliation<'a> {
    cli: Option<&'a FileData>,
    anc: Option<&'a FileData>,
    srv: Option<&'a FileData>,
    expected_conflict: Conflict,
}

fn assert_reconciliation<'a>(
    cli: Option<&'a FileData>,
    anc: Option<&'a FileData>,
    srv: Option<&'a FileData>,
    expected_conflict: Conflict,
) -> AssertReconcilliation<'a> {
    AssertReconcilliation {
        cli: cli,
        anc: anc,
        srv: srv,
        expected_conflict: expected_conflict,
    }
}

impl<'a> AssertReconcilliation<'a> {
    fn f(&self, mode: &str, expected_recon: Reconciliation) -> &Self {
        let actual = choose_reconciliation(
            self.cli,
            self.anc,
            self.srv,
            SyncMode::parse(mode).unwrap(),
        );

        if actual != (expected_recon, self.expected_conflict) {
            panic!(
                "Unexpected reconciliation result.\n\
                    Client  : {:?}\n\
                    Ancestor: {:?}\n\
                    Server  : {:?}\n\
                    Mode    : {}\n\
                    Expected: {:?}\n\
                    Actual  : {:?}",
                self.cli,
                self.anc,
                self.srv,
                mode,
                (expected_recon, self.expected_conflict),
                actual
            );
        }

        self
    }
}

#[test]
fn individual_reconciliation_cases() {
    let reg777_1_data = FileData::Regular(0o777, 0, 1, [1; 32]);
    let reg770_1_data = FileData::Regular(0o770, 0, 1, [1; 32]);
    let reg700_1_data = FileData::Regular(0o700, 0, 1, [1; 32]);
    let reg777_1b_data = FileData::Regular(0o777, 0, 1, [4; 32]);
    let reg777_2_data = FileData::Regular(0o777, 0, 2, [2; 32]);
    let reg777_3_data = FileData::Regular(0o777, 0, 3, [3; 32]);
    let reg777_4t1_data = FileData::Regular(0o777, 0, 1, [0; 32]);
    let reg777_4t2_data = FileData::Regular(0o777, 0, 2, [0; 32]);
    let reg777_4t3_data = FileData::Regular(0o777, 0, 3, [0; 32]);
    let reg777_1 = Some(&reg777_1_data);
    let reg770_1 = Some(&reg770_1_data);
    let reg700_1 = Some(&reg700_1_data);
    let reg777_2 = Some(&reg777_2_data);
    let reg777_3 = Some(&reg777_3_data);
    let reg777_1b = Some(&reg777_1b_data);
    let reg777_4t1 = Some(&reg777_4t1_data);
    let reg777_4t2 = Some(&reg777_4t2_data);
    let reg777_4t3 = Some(&reg777_4t3_data);

    let dir777_data = FileData::Directory(0o777);
    let dir770_data = FileData::Directory(0o770);
    let dir700_data = FileData::Directory(0o700);
    let dir777 = Some(&dir777_data);
    let dir770 = Some(&dir770_data);
    let dir700 = Some(&dir700_data);

    let special_data = FileData::Special;
    let special = Some(&special_data);

    assert_reconciliation(reg777_1, reg777_1, reg777_1, NoConflict)
        .f("---/---", InSync);
    assert_reconciliation(reg777_1, None, reg777_1, NoConflict)
        .f("---/---", InSync);
    assert_reconciliation(None, reg777_1, None, NoConflict)
        .f("---/---", InSync);
    assert_reconciliation(None, None, None, NoConflict)
        .f("---/---", InSync);

    assert_reconciliation(special, None, None, NoConflict)
        .f("CUD/CUD", Unsync);
    assert_reconciliation(None, None, special, NoConflict)
        .f("CUD/CUD", Unsync);

    assert_reconciliation(reg777_1, None, None, NoConflict)
        .f("---/---", Unsync)
        .f("cud/---", Unsync)
        .f("--d/---", Unsync)
        .f("--D/---", Use(Server))
        .f("---/c--", Use(Client))
        .f("---/CUD", Use(Client))
        .f("cud/cud", Use(Client))
        .f("CUD/CUD", Use(Client));
    assert_reconciliation(dir777, None, None, NoConflict)
        .f("cud/cud", Use(Client))
        .f("---/CUD", Use(Client))
        .f("CUD/---", Use(Server));

    assert_reconciliation(None, None, reg777_1, NoConflict)
        .f("---/---", Unsync)
        .f("cud/---", Use(Server))
        .f("---/--d", Unsync)
        .f("---/--D", Use(Client))
        .f("---/CUD", Use(Client))
        .f("CUD/---", Use(Server))
        .f("cud/cud", Use(Server))
        .f("CUD/CUD", Use(Server));

    assert_reconciliation(reg777_1, reg777_1, None, NoConflict)
        .f("---/---", Unsync)
        .f("--d/---", Use(Server))
        .f("---/C--", Use(Client))
        .f("---/cud", Unsync)
        .f("---/CUD", Use(Client))
        .f("cud/cud", Use(Server))
        .f("CUD/CUD", Use(Server));
    assert_reconciliation(reg777_1, reg700_1, None, NoConflict)
        .f("cud/cud", Use(Server))
        .f("cu-/cu-", Unsync);

    assert_reconciliation(None, reg777_1, reg777_1, NoConflict)
        .f("---/---", Unsync)
        .f("---/--d", Use(Client))
        .f("C--/---", Use(Server))
        .f("---/cud", Use(Client))
        .f("---/CUD", Use(Client))
        .f("CUD/---", Use(Server))
        .f("cud/cud", Use(Client))
        .f("CUD/CUD", Use(Client));
    assert_reconciliation(None, reg700_1, reg700_1, NoConflict)
        .f("cud/cud", Use(Client))
        .f("cu-/cu-", Unsync);

    assert_reconciliation(reg777_1, reg777_2, None, EditDelete(Server))
        .f("---/---", Unsync)
        .f("--d/---", Irreconcilable)
        .f("---/-u-", Irreconcilable)
        .f("--D/---", Use(Server))
        .f("---/C--", Use(Client))
        .f("---/c--", Use(Client))
        .f("---/cud", Use(Client))
        .f("---/CUD", Use(Client))
        .f("cud/cud", Use(Client))
        .f("cud/CUD", Use(Client))
        .f("CUD/cud", Use(Client))
        .f("CUD/CUD", Use(Client));

    assert_reconciliation(None, reg777_1, reg777_2, EditDelete(Client))
        .f("---/---", Unsync)
        .f("---/cud", Irreconcilable)
        .f("-u-/---", Irreconcilable)
        .f("---/--D", Use(Client))
        .f("C--/---", Use(Server))
        .f("cud/---", Use(Server))
        .f("---/CUD", Use(Client))
        .f("cud/cud", Use(Server))
        .f("CUD/CUD", Use(Server));

    assert_reconciliation(reg700_1, reg777_1, reg777_1, NoConflict)
        .f("---/---", Unsync)
        .f("cud/---", Unsync)
        .f("---/cud", Use(Client))
        .f("CUD/---", Use(Server))
        .f("---/CUD", Use(Client))
        .f("cud/cud", Use(Client))
        .f("CUD/cud", Use(Client))
        .f("cud/CUD", Use(Client))
        .f("CUD/CUD", Use(Client));

    assert_reconciliation(reg777_1, reg777_1, reg700_1, NoConflict)
        .f("---/---", Unsync)
        .f("cud/---", Use(Server))
        .f("---/cud", Unsync)
        .f("CUD/---", Use(Server))
        .f("---/CUD", Use(Client))
        .f("cud/CUD", Use(Server))
        .f("CUD/cud", Use(Server))
        .f("cud/cud", Use(Server))
        .f("CUD/CUD", Use(Server));

    assert_reconciliation(
        reg700_1,
        reg777_1,
        reg770_1,
        EditEdit(ConflictingEdit::Mode, ConflictingEdit::Mode),
    )
    .f("---/---", Unsync)
    .f("-u-/---", Use(Server))
    .f("---/-u-", Use(Client))
    .f("-u-/-u-", Use(Client))
    .f("-U-/-u-", Use(Server))
    .f("-u-/-U-", Use(Client))
    .f("-U-/-U-", Use(Client));

    assert_reconciliation(
        reg777_2,
        reg777_1,
        reg700_1,
        EditEdit(ConflictingEdit::Content, ConflictingEdit::Mode),
    )
    .f("---/---", Unsync)
    .f("-u-/---", Irreconcilable)
    .f("---/-u-", Use(Client))
    .f("-U-/---", Use(Server))
    .f("---/-U-", Use(Client))
    .f("-u-/-u-", Use(Client))
    .f("-U-/-u-", Use(Client))
    .f("-u-/-U-", Use(Client))
    .f("-U-/-U-", Use(Client))
    .f("cud/cud", Use(Client))
    .f("cud/c--", Split(Server, SplitAncestorState::Delete));

    assert_reconciliation(
        reg700_1,
        reg777_1,
        reg777_2,
        EditEdit(ConflictingEdit::Mode, ConflictingEdit::Content),
    )
    .f("---/---", Unsync)
    .f("-u-/---", Use(Server))
    .f("---/-u-", Irreconcilable)
    .f("-U-/---", Use(Server))
    .f("---/-U-", Use(Client))
    .f("-U-/-u-", Use(Server))
    .f("-u-/-U-", Use(Server))
    .f("-U-/-U-", Use(Server))
    .f("cud/cud", Use(Server))
    .f("c--/cud", Split(Server, SplitAncestorState::Delete));

    assert_reconciliation(
        reg777_3,
        reg777_1,
        reg777_2,
        EditEdit(ConflictingEdit::Content, ConflictingEdit::Content),
    )
    .f("---/---", Unsync)
    .f("cud/---", Irreconcilable)
    .f("---/cud", Irreconcilable)
    .f("cud/cud", Split(Server, SplitAncestorState::Delete))
    .f("CUD/cud", Use(Server))
    .f("cud/CUD", Use(Client))
    .f("CUD/CUD", Use(Client)); // Client is newer
    assert_reconciliation(
        reg777_2,
        reg777_1,
        reg777_3,
        EditEdit(ConflictingEdit::Content, ConflictingEdit::Content),
    )
    .f("CUD/CUD", Use(Server)); // Server is newer
    assert_reconciliation(
        reg777_1b,
        reg777_2,
        reg777_1,
        EditEdit(ConflictingEdit::Content, ConflictingEdit::Content),
    )
    .f("CUD/CUD", Use(Client)); // Client wins ties

    // mtime changed to earlier date
    assert_reconciliation(reg777_4t2, reg777_4t2, reg777_4t1, NoConflict)
        .f("---/---", InSync)
        .f("cud/---", Use(Server))
        .f("---/cud", InSync)
        .f("CUD/---", Use(Server))
        .f("---/CUD", Use(Client))
        .f("cud/cud", Use(Server))
        .f("CUD/cud", Use(Server))
        .f("cud/CUD", Use(Server))
        .f("CUD/CUD", Use(Server));
    assert_reconciliation(reg777_4t1, reg777_4t2, reg777_4t2, NoConflict)
        .f("---/---", InSync)
        .f("cud/---", InSync)
        .f("---/cud", Use(Client))
        .f("CUD/---", Use(Server))
        .f("---/CUD", Use(Client))
        .f("cud/cud", Use(Client))
        .f("CUD/cud", Use(Client))
        .f("cud/CUD", Use(Client))
        .f("CUD/CUD", Use(Client));
    // mtime changed on both
    assert_reconciliation(reg777_4t1, reg777_4t2, reg777_4t3, NoConflict)
        .f("---/---", InSync)
        .f("cud/---", Use(Server))
        .f("---/cud", InSync)
        .f("CUD/---", Use(Server))
        .f("---/CUD", Use(Client))
        .f("cud/cud", Use(Server))
        .f("CUD/cud", Use(Server))
        .f("cud/CUD", Use(Server))
        .f("CUD/CUD", Use(Server));
    assert_reconciliation(reg777_4t3, reg777_4t2, reg777_4t1, NoConflict)
        .f("---/---", InSync)
        .f("cud/---", InSync)
        .f("---/cud", Use(Client))
        .f("CUD/---", Use(Server))
        .f("---/CUD", Use(Client))
        .f("cud/cud", Use(Client))
        .f("CUD/cud", Use(Client))
        .f("cud/CUD", Use(Client))
        .f("CUD/CUD", Use(Client));

    assert_reconciliation(
        dir777,
        dir770,
        dir700,
        EditEdit(ConflictingEdit::Mode, ConflictingEdit::Mode),
    )
    .f("---/---", Unsync)
    .f("cud/---", Use(Server))
    .f("---/cud", Use(Client))
    .f("cud/cud", Use(Client))
    .f("cud/CUD", Use(Client))
    .f("CUD/cud", Use(Server))
    .f("CUD/CUD", Use(Client));

    assert_reconciliation(
        dir777,
        None,
        reg777_1,
        EditEdit(ConflictingEdit::Content, ConflictingEdit::Content),
    )
    .f("---/---", Unsync)
    .f("cud/---", Irreconcilable)
    .f("---/cud", Irreconcilable)
    .f("cud/cud", Split(Server, SplitAncestorState::Delete))
    .f("CUD/---", Split(Client, SplitAncestorState::Move))
    .f("---/CUD", Use(Client))
    .f("cud/cUd", Use(Client));

    assert_reconciliation(dir777, dir777, reg777_1, NoConflict)
        .f("---/---", Unsync)
        .f("cud/---", Split(Client, SplitAncestorState::Move))
        .f("---/cud", Unsync)
        .f("---/CUD", Use(Client))
        .f("cud/cud", Split(Client, SplitAncestorState::Move));

    assert_reconciliation(reg777_1, dir777, dir777, NoConflict)
        .f("---/---", Unsync)
        .f("cud/---", Unsync)
        .f("---/cud", Split(Server, SplitAncestorState::Move))
        .f("CUD/---", Use(Server))
        .f("cud/cud", Split(Server, SplitAncestorState::Move));

    assert_reconciliation(dir777, dir777, None, NoConflict)
        .f("---/---", Unsync)
        .f("cud/---", Use(Server))
        .f("---/cud", Unsync)
        .f("---/CUD", Use(Client))
        .f("cud/cud", Use(Server))
        .f("CUD/CUD", Use(Server));
}

#[test]
fn sides_are_reversed() {
    assert_eq!(Server, Client.rev());
    assert_eq!(Client, Server.rev());
}

#[test]
fn alternate_names_of_names_that_are_hidden_or_odd() {
    let taken = |n: &[u8]| n == b".bashrc" || n == b".bashrc~1" || n == b"a.b~3.c";
    assert_eq!(oss(".bashrc~2"), gen_alternate_name(b".bashrc", taken));
    assert_eq!(oss("a.b~1.c"), gen_alternate_name(b"a.b~3.c", taken));
    assert_eq!("\u{fffd}~1".as_bytes().to_vec(), gen_alternate_name(b"\xff", taken));
}

#[test]
fn named_modes() {
    assert_eq!(mode("cud/cud"), mode("conservative-sync"));
    assert_eq!(mode("CUD/CUD"), mode("aggressive-sync"));
    assert!(SyncMode::parse("cud").is_none());
    assert!(SyncMode::parse("cud/cu").is_none());
    assert!(SyncMode::parse("dud/cud").is_none());
    assert!(SyncMode::parse("cud cud").is_none());
}

#[test]
fn modes_conflict_where_contents_agree() {
    let reg = |mode, time, hash| FileData::Regular(mode, 0, time, [hash; 32]);
    let (c, s) = (reg(0o777, 1, 1), reg(0o700, 2, 1));
    let modes = EditEdit(ConflictingEdit::Mode, ConflictingEdit::Mode);
    for a in [None, Some(reg(0o777, 1, 2))] {
        let choose = |m| choose_reconciliation(Some(&c), a.as_ref(), Some(&s), mode(m));
        assert_eq!((Unsync, modes), choose("---/---"));
        assert_eq!((Split(Server, SplitAncestorState::Delete), modes), choose("cud/cud"));
        assert_eq!((Irreconcilable, modes), choose("cud/---"));
        assert_eq!((Use(Server), modes), choose("cUd/cud"));
        assert_eq!((Use(Server), modes), choose("CUD/CUD"));
    }
    let a = reg(0o644, 1, 1);
    let choose = |m| choose_reconciliation(Some(&c), Some(&a), Some(&s), mode(m));
    assert_eq!((Unsync, modes), choose("---/---"));
    assert_eq!((Use(Client), modes), choose("cud/cud"));
    assert_eq!((Use(Server), modes), choose("cud/---"));
    let other = reg(0o777, 1, 3);
    let contents = EditEdit(ConflictingEdit::Content, ConflictingEdit::Content);
    assert_eq!(
        (Unsync, contents),
        choose_reconciliation(Some(&c), None, Some(&other), mode("---/---"))
    );
}
