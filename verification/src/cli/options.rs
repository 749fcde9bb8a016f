//! What is given on the command line.

use vstd::prelude::*;

use crate::defs::FileMode;
use crate::errors::{Error, ErrorKind, Result};
use crate::text;

use super::config::PassphraseConfig;
use super::setup;

verus! {

/// How often the user has asked for more, and for less, output.
#[derive(Clone, Copy, Debug, PartialEq, Eq, Structural)]
pub struct VerbosityArgs {
    /// Be more verbose.
    pub verbose: i32,
    /// Be less verbose.
    pub quiet: i32,
}

impl VerbosityArgs {
    pub fn is_verbose(&self) -> (r: bool)
        ensures
            r == (self.verbose > self.quiet),
    {
        self.verbose > self.quiet
    }
}

/// For commands of which no more output can be asked for.
#[derive(Clone, Copy, Debug, PartialEq, Eq, Structural)]
pub struct NonVerbose;

impl NonVerbose {
    pub fn is_verbose(&self) -> (r: bool)
        ensures
            !r,
    {
        false
    }
}

/// The value of an octal digit.
pub open spec fn octal_digit(c: char) -> Option<nat> {
    if '0' <= c <= '7' {
        Some((c as nat - '0' as nat) as nat)
    } else {
        None
    }
}

/// The number that octal digits stand for.
pub open spec fn octal(s: Seq<char>) -> Option<nat>
    decreases s.len(),
{
    if s.len() == 0 {
        Some(0)
    } else {
        match (octal(s.drop_last()), octal_digit(s.last())) {
            (Some(n), Some(d)) => Some(n * 8 + d),
            _ => None,
        }
    }
}

/// The mode that a string stands for: octal digits, which may follow a plus
/// sign, for a number below 2^32, of which the permission bits count.
pub open spec fn mode_of(s: Seq<char>) -> Option<FileMode> {
    let t = if s.len() > 0 && s[0] == '+' {
        s.skip(1)
    } else {
        s
    };
    if t.len() == 0 {
        None
    } else {
        match octal(t) {
            Some(n) => if n <= u32::MAX {
                Some((n % 0o10000) as u32)
            } else {
                None
            },
            None => None,
        }
    }
}

proof fn lemma_octal_prefix(s: Seq<char>, i: int)
    requires
        0 <= i <= s.len(),
    ensures
        octal(s.take(i)) is None ==> octal(s) is None,
        octal(s.take(i)) is Some && octal(s) is Some ==> octal(s.take(i))->0 <= octal(s)->0,
    decreases s.len() - i,
{
    if i < s.len() {
        assert(s.take(i + 1).drop_last() =~= s.take(i));
        lemma_octal_prefix(s, i + 1);
    } else {
        assert(s.take(i) =~= s);
    }
}

/// Parses a mode.
pub fn parse_mode(s: &str) -> (r: Result<FileMode>)
    ensures
        match mode_of(s@) {
            Some(m) => r == Ok::<FileMode, Error>(m),
            None => setup::fails_with(r, "Invalid mode '"@ + s@ + "'"@),
        },
{
    match octal_mode(s) {
        Some(m) => Ok(m),
        None => {
            let mut e: String = String::new();
            e.append("Invalid mode '");
            e.append(s);
            e.append("'");
            assert(e@ =~= "Invalid mode '"@ + s@ + "'"@);
            Err(Error::new(ErrorKind::Other(e)))
        },
    }
}

fn octal_mode(s: &str) -> (r: Option<FileMode>)
    ensures
        r == mode_of(s@),
{
    let cs: Vec<char> = text::chars_of(s);
    let start: usize = if cs.len() > 0 && cs[0] == '+' {
        1
    } else {
        0
    };
    let ghost t = s@.skip(start as int);
    if start == 0 {
        assert(t =~= s@);
    }
    if start == cs.len() {
        return None;
    }
    let mut n: u64 = 0;
    let mut i: usize = start;
    assert(t.take(0) =~= Seq::empty());
    while i < cs.len()
        invariant
            start <= i <= cs@.len(),
            cs@ == s@,
            t == s@.skip(start as int),
            octal(t.take(i - start)) == Some(n as nat),
            n <= u32::MAX,
            mode_of(s@) == match octal(t) {
                Some(n) => if n <= u32::MAX {
                    Some((n % 0o10000) as u32)
                } else {
                    None
                },
                None => None,
            },
        decreases cs@.len() - i,
    {
        let c = cs[i];
        proof {
            let p = t.take(i - start + 1);
            assert(p.drop_last() =~= t.take(i - start));
            assert(p.last() == c);
            lemma_octal_prefix(t, i - start + 1);
        }
        if c < '0' || c > '7' {
            return None;
        }
        let d: u64 = (c as u32 - 48) as u64;
        n = n * 8 + d;
        if n > 0xffff_ffff {
            return None;
        }
        i += 1;
    }
    assert(t.take(i - start) =~= t);
    Some((n % 0o10000) as u32)
}

/// What is given for a passphrase takes precedence over the configuration.
pub fn passphrase_or_config(given: Option<PassphraseConfig>, config: PassphraseConfig) -> (r:
    PassphraseConfig)
    ensures
        r == match given {
            Some(c) => c,
            None => config,
        },
{
    match given {
        Some(c) => c,
        None => config,
    }
}

/// The number of threads to use, if the one that is given can be.
pub open spec fn threads(given: Option<u32>, cpus: nat) -> Option<nat> {
    match given {
        None => Some(cpus + 2),
        Some(n) => if n >= 1 {
            Some(n as nat)
        } else {
            None
        },
    }
}

/// Returns the number of threads to use: two more than there are processors,
/// unless another number is given.
pub fn thread_count(given: Option<u32>, cpus: u32) -> (r: Result<u32>)
    requires
        cpus <= u32::MAX - 2,
    ensures
        match given {
            Some(0) => setup::fails_with(r, "Thread count must be at least 1"@),
            Some(n) => r == Ok::<u32, Error>(n),
            None => r == Ok::<u32, Error>((cpus + 2) as u32),
        },
        match r {
            Ok(n) => threads(given, cpus as nat) == Some(n as nat),
            Err(_) => threads(given, cpus as nat) is None,
        },
{
    match given {
        Some(n) => {
            if n == 0 {
                return Err(
                    Error::new(ErrorKind::Other("Thread count must be at least 1".to_owned())),
                );
            }
            Ok(n)
        },
        None => Ok(cpus + 2),
    }
}

/// What the program is run as.
#[derive(Clone, Copy, Debug, PartialEq, Eq, Structural)]
pub enum Invocation {
    /// As the login shell, or by `ssh` as the shell.
    Shell,
    Command,
}

/// Whether the program is run as a shell.
pub open spec fn is_shell(arg0: Option<Seq<char>>, arg1: Option<Seq<char>>) -> bool {
    let login = arg0 is Some && arg0->0.len() > 0 && arg0->0[0] == '-';
    let command = arg1 == Some("-c"@);
    login || command
}

/// Returns what the program is run as, by its own name and its first argument.
pub fn invocation(arg0: Option<&str>, arg1: Option<&str>) -> (r: Invocation)
    ensures
        r is Shell <==> (arg0 matches Some(a) && a@.len() > 0 && a@[0] == '-') || (
        arg1 matches Some(a) && a@ == "-c"@),
        r is Shell <==> is_shell(
            match arg0 {
                Some(a) => Some(a@),
                None => None,
            },
            match arg1 {
                Some(a) => Some(a@),
                None => None,
            },
        ),
{
    if let Some(a) = arg0 {
        let cs: Vec<char> = text::chars_of(a);
        if cs.len() > 0 && cs[0] == '-' {
            return Invocation::Shell;
        }
    }
    if let Some(a) = arg1 {
        if text::same(a, "-c") {
            return Invocation::Shell;
        }
    }
    Invocation::Command
}

/// The causes of an error, one after the other.
pub open spec fn causes_report(causes: Seq<String>) -> Seq<char>
    decreases causes.len(),
{
    if causes.len() == 0 {
        Seq::empty()
    } else {
        causes_report(causes.drop_last()) + "caused by: "@ + causes.last()@ + "\n"@
    }
}

/// What the user is told if a command has failed.
pub open spec fn report_text(e: Error) -> Seq<char> {
    "error: "@ + crate::errors::kind_text(e.kind) + "\n"@ + causes_report(e.causes@) + (
    match e.backtrace {
        Some(bt) => bt@ + "\n"@,
        None => Seq::empty(),
    })
}

/// Returns what the user is told if a command has failed.
pub fn failure_report(e: &Error) -> (r: String)
    ensures
        r@ == report_text(*e),
{
    let mut s: String = String::new();
    s.append("error: ");
    s.append(e.kind.message().as_str());
    s.append("\n");
    let ghost head = "error: "@ + crate::errors::kind_text(e.kind) + "\n"@;
    let mut i: usize = 0;
    assert(e.causes@.take(0) =~= Seq::empty());
    assert(s@ =~= head + causes_report(e.causes@.take(0)));
    while i < e.causes.len()
        invariant
            i <= e.causes@.len(),
            s@ == head + causes_report(e.causes@.take(i as int)),
        decreases e.causes@.len() - i,
    {
        s.append("caused by: ");
        s.append(e.causes[i].as_str());
        s.append("\n");
        i += 1;
        proof {
            assert(e.causes@.take(i as int).drop_last() =~= e.causes@.take(i - 1));
            assert(s@ =~= head + causes_report(e.causes@.take(i as int)));
        }
    }
    assert(e.causes@.take(i as int) =~= e.causes@);
    match &e.backtrace {
        Some(bt) => {
            s.append(bt.as_str());
            s.append("\n");
        },
        None => {},
    }
    assert(s@ =~= report_text(*e));
    s
}

/// A mode is read from the octal digits that it is written with, whether or not
/// there are zeros or a plus sign before them. Bits that are not for permissions
/// are dropped.
pub proof fn law_mode_read(n: u32, zeros: nat)
    ensures
        ({
            let written = Seq::new(zeros, |i: int| '0') + text::digits(n as nat, 8);
            &&& mode_of(written) == Some((n % 4096) as u32)
            &&& mode_of(seq!['+'] + written) == Some((n % 4096) as u32)
        }),
{
    let d = text::digits(n as nat, 8);
    let written = Seq::new(zeros, |i: int| '0') + d;
    lemma_octal_digits(n as nat);
    lemma_leading_zeros(d, zeros);
    text::law_digits(n as nat, 8);
    assert(written[0] != '+') by {
        if zeros == 0 {
            assert(written[0] == d[0]);
        }
    }
    assert((seq!['+'] + written).skip(1) =~= written);
}

/// What does not hold an octal digit and nothing else, but for a plus sign in
/// front, is no mode, and neither is what takes more than 32 bits.
pub proof fn law_no_mode(s: Seq<char>, i: int)
    ensures
        s.len() == 0 ==> mode_of(s) is None,
        s == seq!['+'] ==> mode_of(s) is None,
        0 <= i < s.len() && !('0' <= s[i] <= '7') && (i > 0 || s[i] != '+') ==> mode_of(s) is None,
        mode_of(s) matches Some(m) ==> m < 4096,
{
    if 0 <= i < s.len() && !('0' <= s[i] <= '7') {
        if s[0] == '+' {
            if i > 0 {
                let t = s.skip(1);
                assert(t[i - 1] == s[i]);
                assert(t.take(i).last() == s[i]);
                lemma_octal_prefix(t, i);
            }
        } else {
            assert(s.take(i + 1).last() == s[i]);
            lemma_octal_prefix(s, i + 1);
        }
    }
    if s == seq!['+'] {
        assert(s.skip(1).len() == 0);
    }
}

/// Too large a number is no mode.
pub proof fn law_large_mode(n: nat)
    requires
        n > u32::MAX,
    ensures
        mode_of(text::digits(n, 8)) is None,
{
    lemma_octal_digits(n);
    text::law_digits(n, 8);
}

proof fn lemma_octal_digits(n: nat)
    ensures
        octal(text::digits(n, 8)) == Some(n),
        text::digits(n, 8).len() > 0,
        '0' <= text::digits(n, 8)[0] <= '7',
    decreases n,
{
    let s = text::digits(n, 8);
    if n < 8 {
        assert(s.drop_last() =~= Seq::empty());
        assert(octal(s.drop_last()) == Some(0nat));
        assert(s.last() as nat == '0' as nat + n);
    } else {
        lemma_octal_digits(n / 8);
        assert(s.drop_last() =~= text::digits(n / 8, 8));
        assert(s.last() as nat == '0' as nat + n % 8);
        assert(s[0] == text::digits(n / 8, 8)[0]);
    }
}

proof fn lemma_zeros(zeros: nat)
    ensures
        octal(Seq::new(zeros, |i: int| '0')) == Some(0nat),
    decreases zeros,
{
    let z = Seq::new(zeros, |i: int| '0');
    if zeros > 0 {
        lemma_zeros((zeros - 1) as nat);
        assert(z.drop_last() =~= Seq::new((zeros - 1) as nat, |i: int| '0'));
    }
}

proof fn lemma_leading_zeros(d: Seq<char>, zeros: nat)
    ensures
        octal(Seq::new(zeros, |i: int| '0') + d) == octal(d),
    decreases d.len(),
{
    let z = Seq::new(zeros, |i: int| '0');
    if d.len() == 0 {
        assert(z + d =~= z);
        lemma_zeros(zeros);
    } else {
        lemma_leading_zeros(d.drop_last(), zeros);
        assert((z + d).drop_last() =~= z + d.drop_last());
    }
}

/// If a command has failed, the user is told what went wrong, then the causes in
/// their order, each on a line of its own, then the backtrace if there is one.
pub proof fn law_report(e: Error, a: Seq<String>, b: Seq<String>, cause: String)
    ensures
        causes_report(a + b) == causes_report(a) + causes_report(b),
        causes_report(seq![cause]).len() == 12 + cause@.len() && text::stands(
            causes_report(seq![cause]),
            11,
            cause@,
        ) && causes_report(seq![cause]).last() == '\n',
        ({
            let t = report_text(e);
            let k = crate::errors::kind_text(e.kind).len();
            let c = causes_report(e.causes@).len();
            &&& text::stands(t, 0, "error: "@)
            &&& text::stands(t, 7, crate::errors::kind_text(e.kind)) && t[7int + k] == '\n'
            &&& text::stands(t, 8int + k, causes_report(e.causes@))
            &&& e.backtrace is None ==> t.len() == 8 + k + c
            &&& e.backtrace matches Some(bt) ==> text::stands(t, 8int + k + c, bt@)
        }),
    decreases b.len(),
{
    reveal_strlit("caused by: ");
    reveal_strlit("error: ");
    reveal_strlit("\n");
    let one = seq![cause];
    assert(one.drop_last() =~= Seq::empty());
    assert(causes_report(one.drop_last()).len() == 0);
    assert(causes_report(one).subrange(11, 11int + cause@.len()) =~= cause@);
    if b.len() == 0 {
        assert(a + b =~= a);
        assert(causes_report(a) + causes_report(b) =~= causes_report(a));
    } else {
        law_report(e, a, b.drop_last(), cause);
        assert((a + b).drop_last() =~= a + b.drop_last());
        assert((a + b).last() == b.last());
        assert(causes_report(a + b) =~= causes_report(a) + causes_report(b));
    }
    let t = report_text(e);
    let (x, y) = (crate::errors::kind_text(e.kind), causes_report(e.causes@));
    let (k, c) = (x.len() as int, y.len() as int);
    assert(t.subrange(0, 7) =~= "error: "@);
    assert(t.subrange(7, 7 + k) =~= x);
    assert(t.subrange(8 + k, 8 + k + c) =~= y);
    if let Some(bt) = e.backtrace {
        assert(t.subrange(8 + k + c, 8 + k + c + bt@.len()) =~= bt@);
    }
}

/// A number of threads that is given is used as it is, whatever the machine, unless
/// it is zero. Otherwise there are more threads than processors. There is always
/// one.
pub proof fn law_threads(n: u32, cpus: nat, given: Option<u32>)
    ensures
        n > 0 ==> threads(Some(n), cpus) == Some(n as nat),
        threads(Some(0u32), cpus) is None,
        threads(None, cpus) matches Some(t) && t == cpus + 2,
        threads(given, cpus) matches Some(t) ==> t >= 1,
        threads(given, cpus) is None ==> given == Some(0u32),
{
}

/// A name that begins with a hyphen is that of a login shell, whatever the
/// arguments; the argument by which `ssh` has a shell run a command makes a shell of
/// the program, whatever its name. Nothing else does.
pub proof fn law_is_shell(name: Seq<char>, arg0: Option<Seq<char>>, arg1: Option<Seq<char>>)
    ensures
        is_shell(Some(seq!['-'] + name), arg1),
        is_shell(arg0, Some("-c"@)),
        !is_shell(None, None),
        is_shell(arg0, arg1) ==> is_shell(arg0, None) || arg1 == Some("-c"@),
        is_shell(Some(name), None) ==> name.len() > 0 && name[0] == '-',
{
}

} // verus!
