//! Managing the keys on a server.

use vstd::prelude::*;

use crate::bytes;
use crate::errors::{Error, Result};
use crate::path;
use crate::text;

use super::config::{Config, PassphraseConfig};
use super::format_date;
use super::setup;
use super::sync_log;

verus! {

/// What a passphrase is asked for.
#[derive(Clone, Copy, Debug, PartialEq, Eq, Structural)]
pub enum Purpose {
    /// The key to act with.
    Act,
    /// A key in the `root` group, to change the key store with.
    Root,
    /// The key to derive another from, or to be changed.
    Old,
    /// The key to be created.
    New,
    /// The key whose groups are granted.
    Grant,
    /// The key that receives groups.
    Receive,
}

/// What the user is asked for.
pub open spec fn purpose_text(purpose: Purpose) -> Seq<char> {
    match purpose {
        Purpose::Act => "passphrase"@,
        Purpose::Root => "passphrase in `root` group"@,
        Purpose::Old => "old passphrase"@,
        Purpose::New => "new passphrase"@,
        Purpose::Grant => "passphrase with these groups"@,
        Purpose::Receive => "passphrase to receive groups"@,
    }
}

/// Returns what the user is asked for, and whether it has to be typed twice.
pub fn wanted(purpose: Purpose) -> (r: (&'static str, bool))
    ensures
        r.0@ == match purpose {
            Purpose::Act => "passphrase"@,
            Purpose::Root => "passphrase in `root` group"@,
            Purpose::Old => "old passphrase"@,
            Purpose::New => "new passphrase"@,
            Purpose::Grant => "passphrase with these groups"@,
            Purpose::Receive => "passphrase to receive groups"@,
        },
        r.1 == (purpose is New),
        r.0@ == purpose_text(purpose),
{
    match purpose {
        Purpose::Act => ("passphrase", false),
        Purpose::Root => ("passphrase in `root` group", false),
        Purpose::Old => ("old passphrase", false),
        Purpose::New => ("new passphrase", true),
        Purpose::Grant => ("passphrase with these groups", false),
        Purpose::Receive => ("passphrase to receive groups", false),
    }
}

/// Returns the name of the first key, unless one is given.
pub fn first_key_name(given: Option<&str>) -> (r: String)
    ensures
        r@ == match given {
            Some(n) => n@,
            None => "original"@,
        },
{
    match given {
        Some(n) => n.to_owned(),
        None => "original".to_owned(),
    }
}

/// What is known of a key.
pub struct KeyInfo {
    pub name: String,
    pub groups: Vec<String>,
    pub algorithm: String,
    /// When the key was created, and last changed, in seconds since the Epoch.
    pub created: i64,
    pub updated: Option<i64>,
}

/// The groups of a key as they are shown.
pub open spec fn groups_text(groups: Seq<String>) -> Seq<char>
    decreases groups.len(),
{
    if groups.len() == 0 {
        Seq::empty()
    } else {
        groups_text(groups.drop_last()) + " "@ + groups.last()@
    }
}

/// A key as it is shown.
pub open spec fn key_text(key: KeyInfo) -> Seq<char> {
    key.name@ + ":"@ + groups_text(key.groups@) + "\n  algorithm:    "@ + key.algorithm@
        + "\n  created:      "@ + sync_log::time_text(key.created) + "\n  last changed: "@ + (
    match key.updated {
        Some(date) => sync_log::time_text(date),
        None => "never"@,
    }) + "\n\n"@
}

/// Keys as they are shown.
pub open spec fn keys_text(keys: Seq<KeyInfo>) -> Seq<char>
    decreases keys.len(),
{
    if keys.len() == 0 {
        Seq::empty()
    } else {
        keys_text(keys.drop_last()) + key_text(keys.last())
    }
}

fn push_date(s: &mut String, date: i64)
    ensures
        final(s)@ == old(s)@ + sync_log::time_text(date),
{
    match format_date::format_timestamp(date) {
        Some(t) => {
            s.append(t.as_str());
        },
        None => {
            text::push_signed(s, date);
        },
    }
}

fn push_groups(s: &mut String, groups: &Vec<String>)
    ensures
        final(s)@ == old(s)@ + groups_text(groups@),
{
    let ghost start = s@;
    let mut i: usize = 0;
    assert(groups@.take(0) =~= Seq::empty());
    assert(s@ =~= start + groups_text(groups@.take(0)));
    while i < groups.len()
        invariant
            i <= groups@.len(),
            s@ == start + groups_text(groups@.take(i as int)),
        decreases groups@.len() - i,
    {
        s.append(" ");
        s.append(groups[i].as_str());
        i += 1;
        proof {
            assert(groups@.take(i as int).drop_last() =~= groups@.take(i - 1));
            assert(s@ =~= start + groups_text(groups@.take(i as int)));
        }
    }
    assert(groups@.take(i as int) =~= groups@);
}

fn push_key(s: &mut String, key: &KeyInfo)
    ensures
        final(s)@ == old(s)@ + key_text(*key),
{
    let ghost start = s@;
    s.append(key.name.as_str());
    s.append(":");
    push_groups(s, &key.groups);
    s.append("\n  algorithm:    ");
    s.append(key.algorithm.as_str());
    let ghost head = key.name@ + ":"@ + groups_text(key.groups@) + "\n  algorithm:    "@
        + key.algorithm@;
    assert(s@ =~= start + head);
    s.append("\n  created:      ");
    push_date(s, key.created);
    s.append("\n  last changed: ");
    match key.updated {
        Some(date) => push_date(s, date),
        None => s.append("never"),
    }
    s.append("\n\n");
    assert(s@ =~= start + (head + "\n  created:      "@ + sync_log::time_text(key.created)
        + "\n  last changed: "@ + (match key.updated {
        Some(date) => sync_log::time_text(date),
        None => "never"@,
    }) + "\n\n"@));
}

/// Returns the given keys as they are shown.
pub fn list_keys(keys: &Vec<KeyInfo>) -> (r: String)
    ensures
        r@ == keys_text(keys@),
{
    let mut s: String = String::new();
    let mut i: usize = 0;
    assert(keys@.take(0) =~= Seq::empty());
    while i < keys.len()
        invariant
            i <= keys@.len(),
            s@ == keys_text(keys@.take(i as int)),
        decreases keys@.len() - i,
    {
        push_key(&mut s, &keys[i]);
        i += 1;
        assert(keys@.take(i as int).drop_last() =~= keys@.take(i - 1));
    }
    assert(keys@.take(i as int) =~= keys@);
    s
}

fn same_place(a: &Option<Vec<u8>>, b: &Option<Vec<u8>>) -> (r: bool)
    ensures
        r == (super::config::opt_name(*a) == super::config::opt_name(*b)),
{
    match (a, b) {
        (Some(a), Some(b)) => bytes::same(a.as_slice(), b.as_slice()),
        (None, None) => true,
        _ => false,
    }
}

/// Returns whether two passphrases are obtained in the same way.
pub fn same_passphrase(a: &PassphraseConfig, b: &PassphraseConfig) -> (r: bool)
    ensures
        r == (a@ == b@),
{
    match (a, b) {
        (PassphraseConfig::Prompt, PassphraseConfig::Prompt) => true,
        (PassphraseConfig::String(a), PassphraseConfig::String(b)) => text::same(
            a.as_str(),
            b.as_str(),
        ),
        (PassphraseConfig::File(a), PassphraseConfig::File(b)) => bytes::same(
            a.as_slice(),
            b.as_slice(),
        ),
        (PassphraseConfig::Shell(a, x), PassphraseConfig::Shell(b, y)) => text::same(
            a.as_str(),
            b.as_str(),
        ) && same_place(x, y),
        _ => false,
    }
}

/// The path of the configuration file beside the private directory.
pub open spec fn config_path(private_root: Seq<u8>) -> Seq<u8> {
    path::joined(
        path::parent_of(private_root)->0,
        vstd::utf8::encode_utf8(super::config::CONFIG_FILE_NAME@),
    )
}

/// Returns what the user is told after having changed a key, if the key was
/// the configured one and the configuration does not fit it any more.
pub fn change_reminder(config: &Config, old_key: &PassphraseConfig, new_key: &PassphraseConfig) -> (r:
    Option<String>)
    requires
        path::parent_of(config.private_root@) is Some,
    ensures
        match r {
            Some(s) => config.passphrase@ == old_key@ && config.passphrase@ != new_key@ && s@
                == "Don't forget to update the passphrase configuration in "@ + text::utf8_lossy(
                config_path(config.private_root@),
            ),
            None => config.passphrase@ != old_key@ || config.passphrase@ == new_key@,
        },
{
    if same_passphrase(&config.passphrase, old_key) && !same_passphrase(
        &config.passphrase,
        new_key,
    ) {
        let mut s: String = String::new();
        s.append("Don't forget to update the passphrase configuration in ");
        s.append(text::from_utf8_lossy(config.full_path().as_slice()).as_str());
        assert(s@ =~= "Don't forget to update the passphrase configuration in "@
            + text::utf8_lossy(config_path(config.private_root@)));
        Some(s)
    } else {
        None
    }
}

/// What the user is asked before a group is destroyed.
pub const DESTROY_WARNING: &'static str =
    "WARNING: If there are any directories protected by any of these groups, they \nwill no longer be accessible. This cannot be undone. This means that if you \nhave a write-protected directory with one of these groups, it will be \nimpossible to remove it. If you have a read-protected directory with one of \nthese groups, it and its contents WILL BE RENDERED UNRECOVERABLE FOREVER.\n\nIf you are certain you want to do this, type \"yes\": ";

/// Whether a group is to be destroyed.
pub open spec fn may_destroy(dont_ask: bool, reply: Seq<char>) -> bool {
    dont_ask || setup::trimmed_text(reply) == "yes"@
}

/// Goes on with the destruction of a group only if the user has typed "yes", or
/// does not want to be asked.
pub fn confirm_destruction(dont_ask: bool, reply: &str) -> (r: Result<()>)
    ensures
        if dont_ask || setup::trimmed_text(reply@) == "yes"@ {
            r is Ok
        } else {
            setup::fails_with(r, "Not confirmed"@)
        },
        r is Ok <==> may_destroy(dont_ask, reply@),
{
    if dont_ask {
        return Ok(());
    }
    let typed = setup::trim(reply);
    decide_destruction(typed.as_str())
}

/// Goes on with the destruction of a group only if what the user has typed,
/// without the white space around it, is "yes".
pub fn decide_destruction(typed: &str) -> (r: Result<()>)
    ensures
        if typed@ == "yes"@ {
            r is Ok
        } else {
            setup::fails_with(r, "Not confirmed"@)
        },
{
    if text::same(typed, "yes") {
        Ok(())
    } else {
        Err(Error::say("Not confirmed".to_owned()))
    }
}

/// Keys are shown one after the other, in their order, and so are the groups of a
/// key.
pub proof fn law_keys_text(a: Seq<KeyInfo>, b: Seq<KeyInfo>, key: KeyInfo)
    ensures
        keys_text(a + b) == keys_text(a) + keys_text(b),
        keys_text(seq![key]) == key_text(key),
    decreases b.len(),
{
    let one = seq![key];
    assert(one.drop_last() =~= Seq::empty());
    assert(keys_text(one.drop_last()) =~= Seq::empty());
    assert(keys_text(one) =~= key_text(key));
    if b.len() == 0 {
        assert(a + b =~= a);
        assert(keys_text(a) + keys_text(b) =~= keys_text(a));
    } else {
        law_keys_text(a, b.drop_last(), key);
        assert((a + b).drop_last() =~= a + b.drop_last());
        assert((a + b).last() == b.last());
        assert(keys_text(a + b) =~= keys_text(a) + keys_text(b));
    }
}

/// The groups of a key are shown one after the other, in their order, with a space
/// before each.
pub proof fn law_groups_text(a: Seq<String>, b: Seq<String>, group: String)
    ensures
        groups_text(a + b) == groups_text(a) + groups_text(b),
        groups_text(seq![group]).len() == 1 + group@.len() && groups_text(seq![group])[0] == ' '
            && groups_text(seq![group]).skip(1) == group@,
    decreases b.len(),
{
    reveal_strlit(" ");
    let one = seq![group];
    assert(one.drop_last() =~= Seq::empty());
    assert(groups_text(one.drop_last()) =~= Seq::empty());
    assert(groups_text(one).skip(1) =~= group@);
    if b.len() == 0 {
        assert(a + b =~= a);
        assert(groups_text(a) + groups_text(b) =~= groups_text(a));
    } else {
        law_groups_text(a, b.drop_last(), group);
        assert((a + b).drop_last() =~= a + b.drop_last());
        assert((a + b).last() == b.last());
        assert(groups_text(a + b) =~= groups_text(a) + groups_text(b));
    }
}

/// Where each thing that is known of a key is shown: its name and its groups on
/// the first line, then its algorithm, when it was created, and when it was last
/// changed, on a line each.
pub proof fn law_key_text(key: KeyInfo)
    ensures
        ({
            let t = key_text(key);
            let n = key.name@.len();
            let g = groups_text(key.groups@).len();
            let a = key.algorithm@.len();
            let c = sync_log::time_text(key.created).len();
            &&& text::stands(t, 0, key.name@)
            &&& text::stands(t, 1int + n, groups_text(key.groups@))
            &&& text::stands(t, 4int + n + g, "algorithm:"@)
            &&& text::stands(t, 18int + n + g, key.algorithm@)
            &&& text::stands(t, 21int + n + g + a, "created:"@)
            &&& text::stands(t, 35int + n + g + a, sync_log::time_text(key.created))
            &&& text::stands(t, 38int + n + g + a + c, "last changed:"@)
            &&& text::stands(
                t,
                52int + n + g + a + c,
                match key.updated {
                    Some(date) => sync_log::time_text(date),
                    None => "never"@,
                },
            )
        }),
{
    reveal_strlit(":");
    reveal_strlit("algorithm:");
    reveal_strlit("created:");
    reveal_strlit("last changed:");
    reveal_strlit("\n  algorithm:    ");
    reveal_strlit("\n  created:      ");
    reveal_strlit("\n  last changed: ");
    reveal_strlit("\n\n");
    let t = key_text(key);
    let n = key.name@.len() as int;
    let g = groups_text(key.groups@).len() as int;
    let a = key.algorithm@.len() as int;
    let made = sync_log::time_text(key.created);
    let c = made.len() as int;
    let changed = match key.updated {
        Some(date) => sync_log::time_text(date),
        None => "never"@,
    };
    assert(t.subrange(0, n) =~= key.name@);
    assert(t.subrange(1 + n, 1 + n + g) =~= groups_text(key.groups@));
    assert(t.subrange(4 + n + g, 14 + n + g) =~= "algorithm:"@);
    assert(t.subrange(18 + n + g, 18 + n + g + a) =~= key.algorithm@);
    assert(t.subrange(21 + n + g + a, 29 + n + g + a) =~= "created:"@);
    assert(t.subrange(35 + n + g + a, 35 + n + g + a + c) =~= made);
    assert(t.subrange(38 + n + g + a + c, 51 + n + g + a + c) =~= "last changed:"@);
    assert(t.subrange(52 + n + g + a + c, 52 + n + g + a + c + changed.len()) =~= changed);
}

/// The user can tell what each passphrase is asked for, and is asked for a
/// passphrase each time.
pub proof fn law_purpose_text(a: Purpose, b: Purpose)
    ensures
        purpose_text(a) == purpose_text(b) <==> a == b,
        exists|at: int| #[trigger] text::stands(purpose_text(a), at, "passphrase"@),
        a is New ==> text::stands(purpose_text(a), 0, "new"@),
        a is Old ==> text::stands(purpose_text(a), 0, "old"@),
        a is Root ==> text::stands(purpose_text(a), 15, "root"@),
        a is Receive ==> text::stands(purpose_text(a), 14, "receive"@),
        a is Grant ==> text::stands(purpose_text(a), 11, "with"@),
{
    reveal_strlit("passphrase");
    reveal_strlit("passphrase in `root` group");
    reveal_strlit("old passphrase");
    reveal_strlit("new passphrase");
    reveal_strlit("passphrase with these groups");
    reveal_strlit("passphrase to receive groups");
    reveal_strlit("new");
    reveal_strlit("old");
    reveal_strlit("root");
    reveal_strlit("receive");
    reveal_strlit("with");
    let t = purpose_text(a);
    match a {
        Purpose::New => {
            assert(t.subrange(0, 3) =~= "new"@);
        },
        Purpose::Old => {
            assert(t.subrange(0, 3) =~= "old"@);
        },
        Purpose::Root => {
            assert(t.subrange(15, 19) =~= "root"@);
        },
        Purpose::Receive => {
            assert(t.subrange(14, 21) =~= "receive"@);
        },
        Purpose::Grant => {
            assert(t.subrange(11, 15) =~= "with"@);
        },
        Purpose::Act => {},
    }
    assert(purpose_text(Purpose::Act).len() == 10);
    assert(purpose_text(Purpose::Root).len() == 26);
    assert(purpose_text(Purpose::Old).len() == 14 && purpose_text(Purpose::Old)[0] == 'o');
    assert(purpose_text(Purpose::New).len() == 14 && purpose_text(Purpose::New)[0] == 'n');
    assert(purpose_text(Purpose::Grant).len() == 28 && purpose_text(Purpose::Grant)[11] == 'w');
    assert(purpose_text(Purpose::Receive).len() == 28 && purpose_text(Purpose::Receive)[11] == 't');
    let at: int = if a is Old || a is New {
        4
    } else {
        0
    };
    assert(t.subrange(at, at + 10) =~= "passphrase"@);
    assert(text::stands(t, at, "passphrase"@));
}

/// Unless the user does not want to be asked, a group is destroyed only if "yes" was
/// typed, in small letters and in full, with at most white space around it. An empty
/// reply is a refusal.
pub proof fn law_may_destroy(reply: Seq<char>)
    ensures
        may_destroy(true, reply),
        may_destroy(false, reply) ==> exists|i: int| #[trigger]
            text::stands(reply, i, "yes"@) && forall|j: int|
                0 <= j < reply.len() && !(i <= j < i + 3) ==> setup::is_white(#[trigger] reply[j]),
        !may_destroy(false, Seq::empty()),
{
    reveal_strlit("yes");
    setup::law_trimmed(reply);
    setup::law_trimmed(Seq::empty());
    if may_destroy(false, reply) {
        let i = choose|i: int| #[trigger]
            setup::trimmed_at(reply, "yes"@, i) && forall|j: int|
                0 <= j < reply.len() && !(i <= j < i + 3) ==> setup::is_white(#[trigger] reply[j]);
        assert(text::stands(reply, i, "yes"@));
    }
}

/// The configuration file that the user is reminded of is the one that the private
/// directory is beside.
pub proof fn law_config_path(filename: Seq<u8>)
    requires
        super::config::names_config(filename),
    ensures
        path::same_path(
            config_path(
                path::joined(
                    path::parent_of(filename)->0,
                    vstd::utf8::encode_utf8("internal.ensync"@),
                ),
            ),
            filename,
        ),
{
    super::config::law_full_path(filename);
}

} // verus!
