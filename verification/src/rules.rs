//! Sync modes: what may be propagated in which direction.

use vstd::prelude::*;

use crate::defs::{File, FileModel};
use crate::text;

verus! {

/// Whether one kind of change is propagated.
#[derive(Clone, Copy, Debug, PartialEq, Eq, PartialOrd, Ord, Structural)]
pub enum SyncModeSetting {
    /// The change is not propagated.
    Off,
    /// The change is propagated.
    On,
    /// The change is propagated, and opposing changes are reverted.
    Force,
}

impl SyncModeSetting {
    /// Returns whether the change is propagated at all.
    #[verifier::allow_in_spec]
    pub fn on(self) -> bool
        returns
            self != SyncModeSetting::Off,
    {
        match self {
            SyncModeSetting::Off => false,
            _ => true,
        }
    }

    /// Returns whether the change is forced.
    #[verifier::allow_in_spec]
    pub fn force(self) -> bool
        returns
            self == SyncModeSetting::Force,
    {
        match self {
            SyncModeSetting::Force => true,
            _ => false,
        }
    }
}

/// What is propagated in one direction.
#[derive(Clone, Copy, Debug, PartialEq, Eq, Structural)]
pub struct HalfSyncMode {
    pub create: SyncModeSetting,
    pub update: SyncModeSetting,
    pub delete: SyncModeSetting,
}

/// What is propagated in each direction.
///
/// `inbound` is the direction from the server to the client, `outbound` that
/// from the client to the server.
#[derive(Clone, Copy, Debug, PartialEq, Eq, Structural)]
pub struct SyncMode {
    pub inbound: HalfSyncMode,
    pub outbound: HalfSyncMode,
}

/// The setting written by `c` where `on` turns the change on, `force` forces
/// it and a hyphen turns it off.
pub open spec fn setting_of(c: char, on: char, force: char) -> Option<SyncModeSetting> {
    if c == '-' {
        Some(SyncModeSetting::Off)
    } else if c == on {
        Some(SyncModeSetting::On)
    } else if c == force {
        Some(SyncModeSetting::Force)
    } else {
        None
    }
}

/// The half mode written by three characters: create, update and delete.
pub open spec fn half_of(s: Seq<char>) -> Option<HalfSyncMode> {
    if s.len() != 3 {
        None
    } else {
        match (setting_of(s[0], 'c', 'C'), setting_of(s[1], 'u', 'U'), setting_of(s[2], 'd', 'D')) {
            (Some(create), Some(update), Some(delete)) => Some(
                HalfSyncMode { create, update, delete },
            ),
            _ => None,
        }
    }
}

/// The mode written by the inbound half, a slash and the outbound half, or by
/// the name of one of the common modes.
pub open spec fn mode_of(s: Seq<char>) -> Option<SyncMode> {
    if s == "conservative-sync"@ {
        Some(SyncMode { inbound: uniform(SyncModeSetting::On), outbound: uniform(SyncModeSetting::On) })
    } else if s == "aggressive-sync"@ {
        Some(
            SyncMode {
                inbound: uniform(SyncModeSetting::Force),
                outbound: uniform(SyncModeSetting::Force),
            },
        )
    } else if s == "mirror"@ {
        Some(
            SyncMode {
                inbound: uniform(SyncModeSetting::Off),
                outbound: uniform(SyncModeSetting::Force),
            },
        )
    } else if s.len() == 7 && s[3] == '/' {
        match (half_of(s.take(3)), half_of(s.skip(4))) {
            (Some(inbound), Some(outbound)) => Some(SyncMode { inbound, outbound }),
            _ => None,
        }
    } else {
        None
    }
}

/// The half mode with the same setting for every kind of change.
pub open spec fn uniform(s: SyncModeSetting) -> HalfSyncMode {
    HalfSyncMode { create: s, update: s, delete: s }
}

/// The character that writes a setting.
pub open spec fn setting_char(s: SyncModeSetting, on: char, force: char) -> char {
    match s {
        SyncModeSetting::Off => '-',
        SyncModeSetting::On => on,
        SyncModeSetting::Force => force,
    }
}

/// The three characters that write a half mode.
pub open spec fn half_text(h: HalfSyncMode) -> Seq<char> {
    seq![
        setting_char(h.create, 'c', 'C'),
        setting_char(h.update, 'u', 'U'),
        setting_char(h.delete, 'd', 'D'),
    ]
}

/// The seven characters that write a mode.
pub open spec fn mode_text(m: SyncMode) -> Seq<char> {
    half_text(m.inbound) + seq!['/'] + half_text(m.outbound)
}

fn parse_setting(c: char, on: char, force: char) -> (r: Option<SyncModeSetting>)
    ensures
        r == setting_of(c, on, force),
{
    if c == '-' {
        Some(SyncModeSetting::Off)
    } else if c == on {
        Some(SyncModeSetting::On)
    } else if c == force {
        Some(SyncModeSetting::Force)
    } else {
        None
    }
}

impl HalfSyncMode {
    /// Returns the half mode with the same setting for every kind of change.
    pub fn uniform(s: SyncModeSetting) -> (r: HalfSyncMode)
        ensures
            r == uniform(s),
    {
        HalfSyncMode { create: s, update: s, delete: s }
    }
}

impl SyncMode {
    /// Parses a sync mode.
    ///
    /// The general form is that of `cud/cud`: three characters each for the
    /// inbound and the outbound direction. A lower-case letter turns the
    /// change on, an upper-case letter forces it, and a hyphen turns it off.
    /// The common modes may also be given by name.
    pub fn parse(s: &str) -> (r: Option<SyncMode>)
        ensures
            r == mode_of(s@),
    {
        if text::same(s, "conservative-sync") {
            let on = HalfSyncMode::uniform(SyncModeSetting::On);
            return Some(SyncMode { inbound: on, outbound: on });
        }
        if text::same(s, "aggressive-sync") {
            let force = HalfSyncMode::uniform(SyncModeSetting::Force);
            return Some(SyncMode { inbound: force, outbound: force });
        }
        if text::same(s, "mirror") {
            return Some(
                SyncMode {
                    inbound: HalfSyncMode::uniform(SyncModeSetting::Off),
                    outbound: HalfSyncMode::uniform(SyncModeSetting::Force),
                },
            );
        }
        let cs: Vec<char> = text::chars_of(s);
        if cs.len() != 7 || cs[3] != '/' {
            return None;
        }
        assert(s@.take(3) =~= seq![s@[0], s@[1], s@[2]]);
        assert(s@.skip(4) =~= seq![s@[4], s@[5], s@[6]]);
        let inbound = match (
            parse_setting(cs[0], 'c', 'C'),
            parse_setting(cs[1], 'u', 'U'),
            parse_setting(cs[2], 'd', 'D'),
        ) {
            (Some(create), Some(update), Some(delete)) => HalfSyncMode { create, update, delete },
            _ => {
                return None;
            },
        };
        match (
            parse_setting(cs[4], 'c', 'C'),
            parse_setting(cs[5], 'u', 'U'),
            parse_setting(cs[6], 'd', 'D'),
        ) {
            (Some(create), Some(update), Some(delete)) => Some(
                SyncMode { inbound, outbound: HalfSyncMode { create, update, delete } },
            ),
            _ => None,
        }
    }
}

/// What rules have been told on the way to a directory.
pub struct Way {
    /// Each directory above, from the topmost one on: the files that it was
    /// said to hold, and the name and data of the subdirectory that was
    /// descended into.
    pub above: Seq<(Set<(Seq<u8>, FileModel)>, (Seq<u8>, FileModel))>,
    /// The files that the directory was said to hold.
    pub holds: Set<(Seq<u8>, FileModel)>,
}

/// How a file is to be synchronised.
pub struct Ruling {
    /// The mode by which it is to be synchronised.
    pub mode: SyncMode,
    /// Whether its unix mode on the client is to be trusted.
    pub trust: bool,
}

/// How rules want each file of a directory and of those below it to be
/// synchronised.
pub enum Policy {
    /// Every file in the same way.
    Constant(Ruling),
    /// In a way that depends on the file and on what was told on the way to it.
    Varying(spec_fn(Way, Seq<u8>, FileModel) -> Ruling, Way),
}

impl Policy {
    /// How the file of the directory with the given name and data is to be
    /// synchronised.
    pub open spec fn ruling(self, n: Seq<u8>, d: FileModel) -> Ruling {
        match self {
            Policy::Constant(x) => x,
            Policy::Varying(decide, way) => decide(way, n, d),
        }
    }

    /// The policy after the directory was said to hold `files`.
    pub open spec fn told(self, files: Set<(Seq<u8>, FileModel)>) -> Policy {
        match self {
            Policy::Constant(_) => self,
            Policy::Varying(decide, way) => Policy::Varying(
                decide,
                Way { above: way.above, holds: way.holds.union(files) },
            ),
        }
    }

    /// The policy for a subdirectory.
    pub open spec fn below(self, n: Seq<u8>, d: FileModel) -> Policy {
        match self {
            Policy::Constant(_) => self,
            Policy::Varying(decide, way) => Policy::Varying(
                decide,
                Way { above: way.above.push((way.holds, (n, d))), holds: Set::empty() },
            ),
        }
    }

    /// Whether some file, somewhere, is to be synchronised in the way `x`.
    pub open spec fn gives(self, x: Ruling) -> bool {
        match self {
            Policy::Constant(y) => x == y,
            Policy::Varying(decide, _) => exists|way: Way, n: Seq<u8>, d: FileModel| #[trigger]
                decide(way, n, d) == x,
        }
    }

    /// Whether the unix modes of client files are to be trusted throughout.
    pub open spec fn trusting(self) -> bool {
        forall|x: Ruling| #[trigger] self.gives(x) ==> x.trust
    }
}

/// Whether two policies differ at most in what has been told on the way.
pub open spec fn kin(p: Policy, q: Policy) -> bool {
    match (p, q) {
        (Policy::Constant(x), Policy::Constant(y)) => x == y,
        (Policy::Varying(x, _), Policy::Varying(y, _)) => x == y,
        _ => false,
    }
}

/// Policies that differ at most in what has been told give the same rulings.
pub proof fn lemma_kin(p: Policy, q: Policy)
    requires
        kin(p, q),
    ensures
        forall|x: Ruling| #[trigger] p.gives(x) == q.gives(x),
{
}

/// Rules may be told of files one by one.
pub proof fn lemma_told(
    p: Policy,
    files: Set<(Seq<u8>, FileModel)>,
    more: Set<(Seq<u8>, FileModel)>,
)
    ensures
        p.told(Set::empty()) == p,
        p.told(files).told(more) == p.told(files.union(more)),
{
    if let Policy::Varying(_, way) = p {
        assert(way.holds.union(Set::empty()) =~= way.holds);
        assert(way.holds.union(files).union(more) =~= way.holds.union(files.union(more)));
    }
}

/// Tells by which mode each file is to be synchronised.
///
/// A value of this type stands for one directory. It is told of the files in
/// the directory first, and can then be asked about each of them.
pub trait SyncRules: Sized {
    /// How each file is to be synchronised, if that is known.
    open spec fn policy(&self) -> Option<Policy> {
        None
    }

    /// Notes that there is a file in the directory.
    fn contains(&mut self, file: File)
        ensures
            old(self).policy() matches Some(p) ==> final(self).policy() == Some(
                p.told(set![(file.0@, file.1@)]),
            ),
    ;

    /// Returns the mode by which a file is to be synchronised.
    fn sync_mode(&self, file: File) -> (r: SyncMode)
        ensures
            self.policy() matches Some(p) ==> r == p.ruling(file.0@, file.1@).mode,
    ;

    /// Returns whether the mode of the file on the client is to be trusted.
    fn trust_client_unix_mode(&self, file: File) -> (r: bool)
        ensures
            self.policy() matches Some(p) ==> r == p.ruling(file.0@, file.1@).trust,
    ;

    /// Returns the rules for a subdirectory.
    fn subdir(&self, file: File) -> (r: Self)
        ensures
            self.policy() matches Some(p) ==> r.policy() == Some(p.below(file.0@, file.1@)),
    ;
}

/// The same mode for every file.
#[derive(Clone, Copy, Debug, PartialEq, Eq, Structural)]
pub struct ConstantRules {
    pub mode: SyncMode,
    pub trust_client_unix_mode: bool,
}

impl SyncRules for ConstantRules {
    open spec fn policy(&self) -> Option<Policy> {
        Some(
            Policy::Constant(Ruling { mode: self.mode, trust: self.trust_client_unix_mode }),
        )
    }

    fn contains(&mut self, file: File)
        ensures
            *final(self) == *old(self),
    {
    }

    fn sync_mode(&self, file: File) -> (r: SyncMode)
        ensures
            r == self.mode,
    {
        self.mode
    }

    fn trust_client_unix_mode(&self, file: File) -> (r: bool)
        ensures
            r == self.trust_client_unix_mode,
    {
        self.trust_client_unix_mode
    }

    fn subdir(&self, file: File) -> (r: Self)
        ensures
            r == *self,
    {
        *self
    }
}

/// Every mode can be written, and reading what was written gives it back.
pub proof fn law_mode_text(m: SyncMode)
    ensures
        mode_of(mode_text(m)) == Some(m),
{
    reveal_strlit("conservative-sync");
    reveal_strlit("aggressive-sync");
    reveal_strlit("mirror");
    let s = mode_text(m);
    assert(s.len() == 7);
    assert("conservative-sync"@.len() == 17);
    assert("aggressive-sync"@.len() == 15);
    assert("mirror"@.len() == 6);
    assert(s.take(3) =~= half_text(m.inbound));
    assert(s.skip(4) =~= half_text(m.outbound));
    assert(s[3] == '/');
}

/// Only the names of the common modes, and what a mode is written as, are read as
/// a mode.
pub proof fn law_mode_read(s: Seq<char>)
    ensures
        mode_of(s) matches Some(m) ==> s == mode_text(m) || s == "conservative-sync"@ || s
            == "aggressive-sync"@ || s == "mirror"@,
{
    if let Some(m) = mode_of(s) {
        if s.len() == 7 {
            reveal_strlit("conservative-sync");
            reveal_strlit("aggressive-sync");
            reveal_strlit("mirror");
            assert("conservative-sync"@.len() == 17);
            assert("aggressive-sync"@.len() == 15);
            assert("mirror"@.len() == 6);
            assert(s =~= s.take(3) + seq!['/'] + s.skip(4));
            assert(half_text(m.inbound) =~= s.take(3));
            assert(half_text(m.outbound) =~= s.skip(4));
        }
    }
}

/// A mode is written as what comes in, a slash, and what goes out. Each half has
/// its settings for what is created, updated and deleted in this order: a hyphen
/// if nothing is propagated, a small letter if it is, a capital letter if it is
/// forced.
pub proof fn law_mode_letters(m: SyncMode)
    ensures
        ({
            let s = mode_text(m);
            &&& s.len() == 7 && s[3] == '/'
            &&& written(s[0], m.inbound.create, 'c', 'C')
            &&& written(s[1], m.inbound.update, 'u', 'U')
            &&& written(s[2], m.inbound.delete, 'd', 'D')
            &&& written(s[4], m.outbound.create, 'c', 'C')
            &&& written(s[5], m.outbound.update, 'u', 'U')
            &&& written(s[6], m.outbound.delete, 'd', 'D')
        }),
{
}

/// Whether a letter stands for a setting.
pub open spec fn written(c: char, s: SyncModeSetting, small: char, capital: char) -> bool {
    &&& c == '-' <==> !s.on()
    &&& c == small <==> s.on() && !s.force()
    &&& c == capital <==> s.force()
}

/// The common modes: a conservative one propagates everything and forces nothing,
/// an aggressive one forces everything, and a mirror forces everything on the
/// server and changes nothing on the client.
pub proof fn law_common_modes()
    ensures
        mode_of("conservative-sync"@) matches Some(m) && mode_text(m) == "cud/cud"@,
        mode_of("aggressive-sync"@) matches Some(m) && mode_text(m) == "CUD/CUD"@,
        mode_of("mirror"@) matches Some(m) && mode_text(m) == "---/CUD"@,
{
    reveal_strlit("conservative-sync");
    reveal_strlit("aggressive-sync");
    reveal_strlit("mirror");
    reveal_strlit("cud/cud");
    reveal_strlit("CUD/CUD");
    reveal_strlit("---/CUD");
    assert("conservative-sync"@.len() == 17);
    assert("aggressive-sync"@.len() == 15);
    assert("mirror"@.len() == 6);
    assert(mode_text(mode_of("conservative-sync"@)->0) =~= "cud/cud"@);
    assert(mode_text(mode_of("aggressive-sync"@)->0) =~= "CUD/CUD"@);
    assert(mode_text(mode_of("mirror"@)->0) =~= "---/CUD"@);
}

} // verus!
