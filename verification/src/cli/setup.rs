//! Setting the program up.

use vstd::prelude::*;

use crate::bytes::Name;
use crate::errors::{Error, ErrorKind, Result};
use crate::path;
use crate::text;

use super::config;

verus! {

/// What a server that runs the program as a shell says of itself.
pub const SHELL_IDENTITY: &'static str = "I am ensync shell";

/// What an ordinary shell is made to answer.
pub const PLAIN_SHELL: &'static str = "0";

/// The command that finds an installation of the program on the server.
pub const FIND_ENSYNC: &'static str = "(which ensync >/dev/null && printf 'ensync\\0') || (test -f .cargo/bin/ensync && printf '.cargo/bin/ensync\\0') || (test -f ./ensync && printf './ensync\\0') || printf 'nothing\\0'";

/// What the configuration file begins with, up to the local path.
pub const CONFIG_HEAD: &'static str = "# Ensync configuration file\n# Generated by `ensync setup`.\n\n# Relative file names in this file are relative to the directory containing\n# this file.\n#\n# Fields which are references to directory trees to be synced are not generally\n# safe to edit after syncing to point to a different directory tree. If you\n# really want to do so, make sure to remove the `internal.ensync` directory in\n# the same directory as this configuration, which will prevent the state from\n# carrying over to the altered configuration.\n\n[general]\n\n# The path to the local files being synced. Only edit this if you actually move\n# the directory tree itself; if you simply point it at another directory,\n# ensync will think all the contents of the prior location had been deleted.\npath = ";

/// What stands between the local path and the server.
pub const CONFIG_SERVER: &'static str = "\n\n# What to use as the remote side of syncing. This can have the format\n#     `path:/some/path`\n# to write to another path on the local filesystem, or\n#     `shell:some shell command`\n# to execute a shell command. In the latter case, ensync will communicate with\n# the remote process via standard input and output. `ensync server` is an\n# appropriate command to run on the remote side; typically, this is used in\n# conjunction with `ssh` to run the server component on a remote host.\n#\n# As with the `path` configuration, this should not be edited in a way that\n# causes it to point to different content.\nserver = ";

/// What stands between the server and the logical root.
pub const CONFIG_SERVER_ROOT: &'static str = "\n# The name of the logical root to use as the effective remote root. The same\n# caveat for editing `server` also applies here.\nserver_root = ";

/// What stands between the logical root and the passphrase.
pub const CONFIG_PASSPHRASE: &'static str = "\n\n# How to obtain the passphrase. Can be one of the following:\n#       `prompt`        Read interactively from the controlling terminal\n#       `string:xxx`    Use `xxx` as the passphrase\n#       `file:somefile` Use the content of `somefile` as the passphrase\n#       `shell:cmd`     Execute `cmd` in this directory and use its standard\n#                       output as the passphrase.\npassphrase = ";

/// What stands between the passphrase and the compression.
pub const CONFIG_COMPRESSION: &'static str = "\n\n# Whether to use compression, and if so, at what level.\ncompression = ";

/// What stands between the compression and the sync mode.
pub const CONFIG_MODE: &'static str = "\n\n# The sync rules output by `ensync setup` simply apply one sync mode to all\n# files. The sync rules configuration is much more flexible than this; see\n# the documentation for how to better control this if so desired.\n[[rules.root.files]]\nmode = ";

/// What the configuration file ends with.
pub const CONFIG_END: &'static str = "\n\n";

/// Whether a character means only itself to a shell, by a very conservative
/// definition.
pub open spec fn is_safe(c: char) -> bool {
    ||| 'a' <= c <= 'z'
    ||| 'A' <= c <= 'Z'
    ||| '0' <= c <= '9'
    ||| c == '.'
    ||| c == '/'
    ||| c == ':'
    ||| c == '@'
    ||| c == '-'
    ||| c == '_'
}

/// Whether all characters mean only themselves to a shell.
pub open spec fn all_safe(s: Seq<char>) -> bool {
    forall|i: int| 0 <= i < s.len() ==> is_safe(#[trigger] s[i])
}

/// `s` for use inside single quotes.
pub open spec fn quoted_body(s: Seq<char>) -> Seq<char>
    decreases s.len(),
{
    if s.len() == 0 {
        Seq::empty()
    } else if s.last() == '\'' {
        quoted_body(s.drop_last()) + seq!['\'', '"', '\'', '"', '\'']
    } else {
        quoted_body(s.drop_last()).push(s.last())
    }
}

/// `s` as a word of a shell command.
pub open spec fn shell_text(s: Seq<char>) -> Seq<char> {
    if s.len() > 0 && all_safe(s) {
        s
    } else {
        seq!['\''] + quoted_body(s) + seq!['\'']
    }
}

/// Returns `s` as a word of a shell command.
pub fn shell_escape(s: &str) -> (r: String)
    ensures
        r@ == shell_text(s@),
{
    let cs: Vec<char> = text::chars_of(s);
    let mut safe = cs.len() > 0;
    let mut i: usize = 0;
    while i < cs.len()
        invariant
            i <= cs@.len(),
            cs@ == s@,
            safe == (s@.len() > 0 && forall|j: int| 0 <= j < i ==> is_safe(#[trigger] s@[j])),
        decreases cs@.len() - i,
    {
        let c = cs[i];
        let ok = ('a' <= c && c <= 'z') || ('A' <= c && c <= 'Z') || ('0' <= c && c <= '9') || c
            == '.' || c == '/' || c == ':' || c == '@' || c == '-' || c == '_';
        assert(ok == is_safe(s@[i as int]));
        if !ok {
            safe = false;
        }
        i += 1;
    }
    if safe {
        return s.to_owned();
    }
    let mut escaped: String = String::new();
    escaped.push('\'');
    proof {
        assert(s@.take(0) =~= Seq::empty());
        assert(escaped@ =~= seq!['\''] + quoted_body(s@.take(0)));
    }
    i = 0;
    while i < cs.len()
        invariant
            i <= cs@.len(),
            cs@ == s@,
            escaped@ == seq!['\''] + quoted_body(s@.take(i as int)),
        decreases cs@.len() - i,
    {
        let ghost before = escaped@;
        if cs[i] == '\'' {
            escaped.push('\'');
            escaped.push('"');
            escaped.push('\'');
            escaped.push('"');
            escaped.push('\'');
        } else {
            escaped.push(cs[i]);
        }
        proof {
            let t = s@.take(i + 1);
            assert(t.drop_last() =~= s@.take(i as int));
            assert(t.last() == s@[i as int]);
            assert(escaped@ =~= seq!['\''] + quoted_body(t));
        }
        i += 1;
    }
    assert(s@.take(i as int) =~= s@);
    escaped.push('\'');
    assert(escaped@ =~= shell_text(s@));
    escaped
}

/// How a shell takes the next character.
pub enum Quoting {
    Outside,
    Single,
    Double,
}

/// The word that a shell has read.
pub struct Word {
    pub quoting: Quoting,
    pub value: Seq<char>,
}

/// What a POSIX shell makes of the characters of one word: in single quotes
/// every character but the quote stands for itself, in double quotes every one
/// but the quote and those that start an expansion or an escape, and outside
/// quotes the safe ones. `None` where the characters are not such a word.
pub open spec fn shell_reads(t: Seq<char>) -> Option<Word>
    decreases t.len(),
{
    if t.len() == 0 {
        Some(Word { quoting: Quoting::Outside, value: Seq::empty() })
    } else {
        match shell_reads(t.drop_last()) {
            None => None,
            Some(w) => {
                let c = t.last();
                match w.quoting {
                    Quoting::Outside => if c == '\'' {
                        Some(Word { quoting: Quoting::Single, value: w.value })
                    } else if c == '"' {
                        Some(Word { quoting: Quoting::Double, value: w.value })
                    } else if is_safe(c) {
                        Some(Word { quoting: Quoting::Outside, value: w.value.push(c) })
                    } else {
                        None
                    },
                    Quoting::Single => if c == '\'' {
                        Some(Word { quoting: Quoting::Outside, value: w.value })
                    } else {
                        Some(Word { quoting: Quoting::Single, value: w.value.push(c) })
                    },
                    Quoting::Double => if c == '"' {
                        Some(Word { quoting: Quoting::Outside, value: w.value })
                    } else if c == '$' || c == '`' || c == '\\' {
                        None
                    } else {
                        Some(Word { quoting: Quoting::Double, value: w.value.push(c) })
                    },
                }
            },
        }
    }
}

/// A shell that reads an escaped string gets the string back.
pub proof fn law_shell_escape(s: Seq<char>)
    ensures
        shell_reads(shell_text(s)) matches Some(w) && w.quoting is Outside && w.value == s,
        shell_text(s).len() > 0,
{
    if s.len() > 0 && all_safe(s) {
        lemma_reads_safe(s);
    } else {
        lemma_reads_body(s);
        let t = seq!['\''] + quoted_body(s);
        assert(shell_text(s) == t.push('\'')) by {
            assert(shell_text(s) =~= t.push('\''));
        }
        assert(t.push('\'').drop_last() =~= t);
    }
}

proof fn lemma_reads_safe(s: Seq<char>)
    requires
        all_safe(s),
    ensures
        shell_reads(s) matches Some(w) && w.quoting is Outside && w.value == s,
    decreases s.len(),
{
    if s.len() > 0 {
        let t = s.drop_last();
        assert forall|i: int| 0 <= i < t.len() implies is_safe(#[trigger] t[i]) by {
            assert(is_safe(s[i]));
        }
        lemma_reads_safe(t);
        assert(is_safe(s[s.len() - 1]));
        assert(t.push(s.last()) =~= s);
    } else {
        assert(s =~= Seq::empty());
    }
}

proof fn lemma_reads_body(s: Seq<char>)
    ensures
        shell_reads(seq!['\''] + quoted_body(s)) matches Some(w) && w.quoting is Single && w.value
            == s,
    decreases s.len(),
{
    let q = seq!['\''];
    if s.len() == 0 {
        assert(q + quoted_body(s) =~= q);
        assert(q.drop_last() =~= Seq::empty());
        assert(shell_reads(Seq::empty()) is Some);
        assert(s =~= Seq::empty());
    } else {
        let b = q + quoted_body(s.drop_last());
        lemma_reads_body(s.drop_last());
        assert(s.drop_last().push(s.last()) =~= s);
        if s.last() == '\'' {
            let b1 = b.push('\'');
            let b2 = b1.push('"');
            let b3 = b2.push('\'');
            let b4 = b3.push('"');
            let b5 = b4.push('\'');
            assert(q + quoted_body(s) =~= b5);
            assert(b1.drop_last() =~= b);
            assert(b2.drop_last() =~= b1);
            assert(b3.drop_last() =~= b2);
            assert(b4.drop_last() =~= b3);
            assert(b5.drop_last() =~= b4);
            let v = s.drop_last();
            assert(shell_reads(b1) == Some(Word { quoting: Quoting::Outside, value: v }));
            assert(shell_reads(b2) == Some(Word { quoting: Quoting::Double, value: v }));
            assert(shell_reads(b3) == Some(Word { quoting: Quoting::Double, value: s }));
            assert(shell_reads(b4) == Some(Word { quoting: Quoting::Outside, value: s }));
        } else {
            let b1 = b.push(s.last());
            assert(q + quoted_body(s) =~= b1);
            assert(b1.drop_last() =~= b);
        }
    }
}

/// What a reply to a question says.
#[derive(Clone, Copy, Debug, PartialEq, Eq, Structural)]
pub enum Answer {
    Yes,
    No,
    /// The question is to be asked again.
    Unclear,
}

/// What a line typed in reply to a question says. The end of the input counts
/// as a refusal.
pub open spec fn answer_of(line: Seq<char>) -> Answer {
    if line.len() == 0 {
        Answer::No
    } else if line[0] == 'y' || line[0] == 'Y' {
        Answer::Yes
    } else if line[0] == 'n' || line[0] == 'N' {
        Answer::No
    } else {
        Answer::Unclear
    }
}

/// Returns what a line typed in reply to a question says.
pub fn ask(line: &str) -> (r: Answer)
    ensures
        r == answer_of(line@),
{
    let cs: Vec<char> = text::chars_of(line);
    if cs.len() == 0 {
        Answer::No
    } else if cs[0] == 'y' || cs[0] == 'Y' {
        Answer::Yes
    } else if cs[0] == 'n' || cs[0] == 'N' {
        Answer::No
    } else {
        Answer::Unclear
    }
}

/// Returns an error with the given text.
fn error(s: &str) -> (r: Error)
    ensures
        r.kind is Other && r.kind->Other_0@ == s@,
{
    Error::new(ErrorKind::Other(s.to_owned()))
}

/// Whether `r` fails with the given text.
pub open spec fn fails_with<T>(r: Result<T>, words: Seq<char>) -> bool {
    r matches Err(e) && e.kind is Other && e.kind->Other_0@ == words
}

/// Goes on only if the user has agreed.
pub fn confirm(yes: bool) -> (r: Result<()>)
    ensures
        yes ==> r is Ok,
        !yes ==> fails_with(r, "Cancelled"@),
{
    if yes {
        Ok(())
    } else {
        Err(error("Cancelled"))
    }
}

/// Whether a character is white space.
pub uninterp spec fn is_white(c: char) -> bool;

/// `char::is_whitespace` says whether a character is white space. Which
/// characters are is fixed by Unicode.
pub assume_specification[ char::is_whitespace ](c: char) -> (r: bool)
    ensures
        r == is_white(c),
;

/// `s` without the white space at its beginning.
pub open spec fn led_text(s: Seq<char>) -> Seq<char>
    decreases s.len(),
{
    if s.len() > 0 && is_white(s[0]) {
        led_text(s.drop_first())
    } else {
        s
    }
}

/// `s` without the white space at its end.
pub open spec fn ended_text(s: Seq<char>) -> Seq<char>
    decreases s.len(),
{
    if s.len() > 0 && is_white(s.last()) {
        ended_text(s.drop_last())
    } else {
        s
    }
}

/// `s` without the white space at its ends.
pub open spec fn trimmed_text(s: Seq<char>) -> Seq<char> {
    ended_text(led_text(s))
}

/// Returns a text without the white space at its ends.
pub fn trim(s: &str) -> (r: String)
    ensures
        r@ == trimmed_text(s@),
{
    let cs: Vec<char> = text::chars_of(s);
    let mut start: usize = 0;
    assert(cs@.skip(0) =~= s@);
    while start < cs.len() && cs[start].is_whitespace()
        invariant
            start <= cs@.len(),
            led_text(cs@.skip(start as int)) == led_text(s@),
        decreases cs@.len() - start,
    {
        assert(cs@.skip(start as int).drop_first() =~= cs@.skip(start + 1));
        start += 1;
    }
    let ghost led = cs@.skip(start as int);
    assert(start < cs@.len() ==> led[0] == cs@[start as int]);
    let mut end: usize = cs.len();
    assert(cs@.subrange(start as int, end as int) =~= led);
    while end > start && cs[end - 1].is_whitespace()
        invariant
            start <= end <= cs@.len(),
            ended_text(cs@.subrange(start as int, end as int)) == ended_text(led),
        decreases end,
    {
        assert(cs@.subrange(start as int, end as int).drop_last() =~= cs@.subrange(
            start as int,
            end - 1,
        ));
        end -= 1;
    }
    let mut r: String = String::new();
    let mut i: usize = start;
    assert(r@ =~= cs@.subrange(start as int, i as int));
    while i < end
        invariant
            start <= i <= end <= cs@.len(),
            r@ == cs@.subrange(start as int, i as int),
        decreases end - i,
    {
        r.push(cs[i]);
        i += 1;
        assert(r@ =~= cs@.subrange(start as int, i as int));
    }
    r
}

/// Returns what was typed, or the default if that was nothing but white space.
pub fn prompt_line(default: &str, reply: &str) -> (r: String)
    ensures
        r@ == if trimmed_text(reply@).len() == 0 {
            default@
        } else {
            trimmed_text(reply@)
        },
{
    line_or_default(default, trim(reply))
}

/// Returns a reply, or the default if the reply is empty.
pub fn line_or_default(default: &str, reply: String) -> (r: String)
    ensures
        r@ == if reply@.len() == 0 {
            default@
        } else {
            reply@
        },
{
    if reply.as_str().is_empty() {
        default.to_owned()
    } else {
        reply
    }
}

/// Returns the response of a shell, which ends at a null byte, given what has
/// been read up to there.
pub fn read_shell_response(buf: Vec<u8>) -> (r: Result<String>)
    ensures
        ({
            let end = buf@.len() - 1;
            if end < 0 || buf@[end] != 0 {
                fails_with(r, "Unexpected EOF from server"@)
            } else if !vstd::utf8::valid_utf8(buf@.take(end)) {
                fails_with(r, "Failed to decode shell response from server"@)
            } else {
                r matches Ok(s) && vstd::utf8::encode_utf8(s@) == buf@.take(end)
            }
        }),
{
    let mut buf = buf;
    let ghost all = buf@;
    match buf.pop() {
        Some(0) => {
            assert(buf@ =~= all.take(all.len() - 1));
            match text::decode_utf8(buf) {
                Some(s) => Ok(s),
                None => Err(error("Failed to decode shell response from server")),
            }
        },
        _ => Err(error("Unexpected EOF from server")),
    }
}

/// Returns the line that is sent to a shell to have it run a command.
pub fn remote_shell_command(command: &str) -> (r: String)
    ensures
        r@ == command@.push('\n'),
{
    let mut s: String = command.to_owned();
    s.push('\n');
    s
}

/// The command that tests a path on the server.
pub open spec fn test_text(flag: Seq<char>, p: Seq<char>) -> Seq<char> {
    "test "@ + flag + " "@ + shell_text(p) + " && printf 'y\\0' || printf 'n\\0'"@
}

/// Returns the command that tests a path on the server, with the flag `-d` for
/// whether it is a directory and `-e` for whether it exists.
pub fn test_command(flag: &str, p: &str) -> (r: String)
    ensures
        r@ == test_text(flag@, p@),
{
    let mut s: String = String::new();
    s.append("test ");
    s.append(flag);
    s.append(" ");
    s.append(shell_escape(p).as_str());
    s.append(" && printf 'y\\0' || printf 'n\\0'");
    assert(s@ =~= test_text(flag@, p@));
    s
}

/// Returns whether a response to a test is affirmative.
pub fn is_affirmative(response: &str) -> (r: bool)
    ensures
        r == (response@ == "y"@),
{
    text::same(response, "y")
}

/// Returns whether the server runs the program as a shell, given the first
/// response from there.
pub fn check_shell(response: &str, remote_path: &str) -> (r: Result<bool>)
    ensures
        if response@ == SHELL_IDENTITY@ {
            if remote_path@.len() > 0 {
                fails_with(
                    r,
                    "The server is running ensync as a shell; you cannot specify the server-side path (just write `host:` or `user@host:`"@,
                )
            } else {
                r == Ok::<bool, Error>(true)
            }
        } else if response@ == PLAIN_SHELL@ {
            r == Ok::<bool, Error>(false)
        } else {
            fails_with(r, "Unexpected response from server shell"@)
        },
{
    if text::same(response, SHELL_IDENTITY) {
        if !remote_path.is_empty() {
            return Err(
                error(
                    "The server is running ensync as a shell; you cannot specify the server-side path (just write `host:` or `user@host:`",
                ),
            );
        }
        Ok(true)
    } else if text::same(response, PLAIN_SHELL) {
        Ok(false)
    } else {
        Err(error("Unexpected response from server shell"))
    }
}

/// Returns the path of the program on the server, given the response to
/// `FIND_ENSYNC`.
pub fn check_installation(found: String) -> (r: Result<String>)
    ensures
        if found@ == "nothing"@ {
            fails_with(r, "ensync does not appear to be installed on the server"@)
        } else {
            r matches Ok(s) && s@ == found@
        },
{
    if text::same(found.as_str(), "nothing") {
        Err(error("ensync does not appear to be installed on the server"))
    } else {
        Ok(found)
    }
}

/// What is known of the place where the server is to keep its data.
#[derive(Clone, Copy, Debug, PartialEq, Eq, Structural)]
pub struct RemoteFacts {
    pub exists: bool,
    pub is_dir: bool,
    /// Whether it looks like something that the server has written.
    pub has_dirs: bool,
    /// Whether the directory that it is in exists; true if there is none.
    pub parent_exists: bool,
}

/// What is to be done about it.
#[derive(Debug, PartialEq, Eq)]
pub enum RemoteVerdict {
    /// The place can be used.
    Fine,
    /// The place can be used if the user agrees to this.
    Ask(String),
    /// The place cannot be used, for this reason.
    Refuse(String),
}

/// The question about a place that is in use for something else.
pub open spec fn strange_place_text(remote: Seq<u8>) -> Seq<char> {
    "Sync remote location '"@ + text::utf8_lossy(remote)
        + "' already exists and does not look like an ensync\nserver directory.\nReally use this location as the remote? "@
}

/// The question about a directory that has to be created too.
pub open spec fn missing_parent_text(what: Seq<char>, parent: Seq<u8>) -> Seq<char> {
    "Parent of "@ + what + ", '"@ + text::utf8_lossy(parent)
        + "', does not exist;\nShould it be created too? "@
}

fn missing_parent(what: &str, parent: &[u8]) -> (r: String)
    ensures
        r@ == missing_parent_text(what@, parent@),
{
    let mut s: String = String::new();
    s.append("Parent of ");
    s.append(what);
    s.append(", '");
    s.append(text::from_utf8_lossy(parent).as_str());
    s.append("', does not exist;\nShould it be created too? ");
    assert(s@ =~= missing_parent_text(what@, parent@));
    s
}

/// A verdict about a place, without the words that it comes in.
#[derive(Clone, Copy, PartialEq, Eq, Structural)]
pub enum Judgement {
    Fine,
    Ask,
    Refuse,
}

/// What a verdict comes down to.
pub open spec fn judged(v: RemoteVerdict) -> Judgement {
    match v {
        RemoteVerdict::Fine => Judgement::Fine,
        RemoteVerdict::Ask(_) => Judgement::Ask,
        RemoteVerdict::Refuse(_) => Judgement::Refuse,
    }
}

/// Whether the server can keep its data in the given place.
pub open spec fn remote_verdict(remote: Seq<u8>, facts: RemoteFacts) -> Judgement {
    if remote.len() == 0 || (facts.exists && !facts.is_dir) {
        Judgement::Refuse
    } else if facts.exists {
        if facts.has_dirs {
            Judgement::Fine
        } else {
            Judgement::Ask
        }
    } else if facts.parent_exists || path::parent_of(remote) is None {
        Judgement::Fine
    } else {
        Judgement::Ask
    }
}

/// Decides whether the server can keep its data in the given place.
pub fn sanity_check_remote(remote: &[u8], facts: RemoteFacts) -> (r: RemoteVerdict)
    ensures
        if remote@.len() == 0 {
            r matches RemoteVerdict::Refuse(s) && s@ == "Remote path is empty"@
        } else if facts.exists && !facts.is_dir {
            r matches RemoteVerdict::Refuse(s) && s@ == "Sync remote path '"@ + text::utf8_lossy(
                remote@,
            ) + "' is not a directory"@
        } else if facts.exists && !facts.has_dirs {
            r matches RemoteVerdict::Ask(s) && s@ == strange_place_text(remote@)
        } else if !facts.exists && !facts.parent_exists && path::parent_of(remote@) is Some {
            r matches RemoteVerdict::Ask(s) && s@ == missing_parent_text(
                "sync remote location"@,
                path::parent_of(remote@)->0,
            )
        } else {
            r is Fine
        },
        judged(r) == remote_verdict(remote@, facts),
{
    let mut s: String = String::new();
    if remote.len() == 0 {
        return RemoteVerdict::Refuse("Remote path is empty".to_owned());
    }
    if facts.exists {
        if !facts.is_dir {
            s.append("Sync remote path '");
            s.append(text::from_utf8_lossy(remote).as_str());
            s.append("' is not a directory");
            assert(s@ =~= "Sync remote path '"@ + text::utf8_lossy(remote@)
                + "' is not a directory"@);
            return RemoteVerdict::Refuse(s);
        }
        if !facts.has_dirs {
            s.append("Sync remote location '");
            s.append(text::from_utf8_lossy(remote).as_str());
            s.append(
                "' already exists and does not look like an ensync\nserver directory.\nReally use this location as the remote? ",
            );
            assert(s@ =~= strange_place_text(remote@));
            return RemoteVerdict::Ask(s);
        }
        return RemoteVerdict::Fine;
    }
    if !facts.parent_exists {
        if let Some(parent) = path::parent(remote) {
            return RemoteVerdict::Ask(missing_parent("sync remote location", parent.as_slice()));
        }
    }
    RemoteVerdict::Fine
}

/// Whether the name that a path leads to has an extension.
pub open spec fn has_extension(p: Seq<u8>) -> bool {
    path::file_name_of(p) matches Some(n) && exists|i: int|
        0 < i < n.len() && #[trigger] n[i] == path::DOT
}

/// Returns whether the name that a path leads to has an extension.
fn looks_like_file(p: &[u8]) -> (r: bool)
    ensures
        r == has_extension(p@),
{
    let n: Name = match path::file_name(p) {
        Some(n) => n,
        None => {
            return false;
        },
    };
    let mut i: usize = 1;
    while i < n.len()
        invariant
            1 <= i,
            path::file_name_of(p@) == Some::<Seq<u8>>(n@),
            forall|j: int| 0 < j < i && j < n@.len() ==> n@[j] != path::DOT,
        decreases n@.len() - i,
    {
        if n[i] == path::DOT {
            assert(0 < i < n@.len() && n@[i as int] == path::DOT);
            assert(path::file_name_of(p@)->0 == n@);
            return true;
        }
        i += 1;
    }
    false
}

/// What is known of the paths that the user has given.
#[derive(Clone, Copy, Debug, PartialEq, Eq, Structural)]
pub struct SetupFacts {
    pub config_exists: bool,
    /// Whether the directory that the configuration will be in exists; true
    /// if there is none.
    pub config_parent_exists: bool,
    pub local_is_dir: bool,
}

/// The question about a configuration location with an extension.
pub open spec fn file_name_text(config: Seq<u8>) -> Seq<char> {
    "The path '"@ + text::utf8_lossy(config)
        + "' looks like it was intended as a file name rather than a directory\nname. You can go ahead with this name anyway, which would result in the\nconfiguration being stored at '"@
        + text::utf8_lossy(
        path::joined(config, vstd::utf8::encode_utf8(config::CONFIG_FILE_NAME@)),
    ) + "'.\nUse this configuration path? "@
}

/// What is wrong with a configuration location that exists.
pub open spec fn config_exists_text(config: Seq<u8>) -> Seq<char> {
    "Configuration location '"@ + text::utf8_lossy(config)
        + "' already exists.\nThe configuration location should be the name of a directory to be created\nunder an already existing directory."@
}

/// Texts, over mathematical values.
pub open spec fn texts(l: Seq<String>) -> Seq<Seq<char>> {
    l.map_values(|s: String| s@)
}

/// The questions that the user has to agree to about the path for the
/// configuration, unless that cannot be used.
pub open spec fn config_questions(config: Seq<u8>, facts: SetupFacts) -> Option<Seq<Seq<char>>> {
    let about_name = if has_extension(config) {
        seq![file_name_text(config)]
    } else {
        Seq::empty()
    };
    let about_parent = if facts.config_parent_exists || path::parent_of(config) is None {
        Seq::empty()
    } else {
        seq![missing_parent_text("configuration location"@, path::parent_of(config)->0)]
    };
    if facts.config_exists {
        None
    } else {
        Some(about_name + about_parent)
    }
}

/// Decides about the path for the configuration: the questions that the user
/// has to agree to.
pub fn check_config_location(config: &[u8], facts: SetupFacts) -> (r: Result<Vec<String>>)
    ensures
        if facts.config_exists {
            fails_with(r, config_exists_text(config@))
        } else {
            r matches Ok(l) && {
                let ext = has_extension(config@);
                let par = !facts.config_parent_exists && path::parent_of(config@) is Some;
                &&& l@.len() == (if ext { 1int } else { 0 }) + (if par { 1int } else { 0 })
                &&& ext ==> l@[0]@ == file_name_text(config@)
                &&& par ==> l@.last()@ == missing_parent_text(
                    "configuration location"@,
                    path::parent_of(config@)->0,
                )
            }
        },
        match r {
            Ok(l) => config_questions(config@, facts) == Some(texts(l@)),
            Err(_) => config_questions(config@, facts) is None,
        },
{
    let mut s: String = String::new();
    if facts.config_exists {
        s.append("Configuration location '");
        s.append(text::from_utf8_lossy(config).as_str());
        s.append(
            "' already exists.\nThe configuration location should be the name of a directory to be created\nunder an already existing directory.",
        );
        assert(s@ =~= config_exists_text(config@));
        return Err(error(s.as_str()));
    }
    let mut l: Vec<String> = Vec::new();
    if looks_like_file(config) {
        s.append("The path '");
        s.append(text::from_utf8_lossy(config).as_str());
        s.append(
            "' looks like it was intended as a file name rather than a directory\nname. You can go ahead with this name anyway, which would result in the\nconfiguration being stored at '",
        );
        s.append(
            text::from_utf8_lossy(
                path::join(config, config::CONFIG_FILE_NAME.as_bytes()).as_slice(),
            ).as_str(),
        );
        s.append("'.\nUse this configuration path? ");
        assert(s@ =~= file_name_text(config@));
        l.push(s);
    }
    if !facts.config_parent_exists {
        if let Some(parent) = path::parent(config) {
            l.push(missing_parent("configuration location", parent.as_slice()));
        }
    }
    assert(texts(l@) =~= config_questions(config@, facts)->0);
    Ok(l)
}

/// Fails unless the local path can be synchronised.
pub fn check_local(local: &[u8], facts: SetupFacts) -> (r: Result<()>)
    ensures
        facts.local_is_dir ==> r is Ok,
        !facts.local_is_dir ==> fails_with(
            r,
            "Local path '"@ + text::utf8_lossy(local@) + "' does not exist"@,
        ),
{
    if facts.local_is_dir {
        Ok(())
    } else {
        let mut s: String = String::new();
        s.append("Local path '");
        s.append(text::from_utf8_lossy(local).as_str());
        s.append("' does not exist");
        assert(s@ =~= "Local path '"@ + text::utf8_lossy(local@) + "' does not exist"@);
        Err(error(s.as_str()))
    }
}

/// Returns the host and the path of a remote location, if it names a host.
pub fn split_remote(remote: &str) -> (r: Option<(String, String)>)
    ensures
        match r {
            Some((host, p)) => config::parts(remote@) == Some((host@, p@)),
            None => config::parts(remote@) is None,
        },
{
    config::split_setting(remote)
}

/// What is going to be set up with a server on another host.
pub open spec fn remote_plan_text(
    local: Seq<u8>,
    host: Seq<char>,
    remote_path: Seq<char>,
    config: Seq<u8>,
) -> Seq<char> {
    "This will set up the following configuration:\nFiles synced to/from: "@ + text::utf8_lossy(
        local,
    ) + "\nEncrypted data written to REMOTE path: "@ + remote_path + " on "@ + host
        + "\nServer accessed via: ssh "@ + shell_text(host)
        + "\nConfiguration and state stored in: "@ + text::utf8_lossy(config)
        + "\n\nDoes this look reasonable? "@
}

/// Returns what is going to be set up with a server on another host.
pub fn remote_plan(local: &[u8], host: &str, remote_path: &str, config: &[u8]) -> (r: String)
    ensures
        r@ == remote_plan_text(local@, host@, remote_path@, config@),
{
    let mut s: String = String::new();
    s.append("This will set up the following configuration:\nFiles synced to/from: ");
    s.append(text::from_utf8_lossy(local).as_str());
    s.append("\nEncrypted data written to REMOTE path: ");
    s.append(remote_path);
    s.append(" on ");
    s.append(host);
    s.append("\nServer accessed via: ssh ");
    s.append(shell_escape(host).as_str());
    s.append("\nConfiguration and state stored in: ");
    s.append(text::from_utf8_lossy(config).as_str());
    s.append("\n\nDoes this look reasonable? ");
    assert(s@ =~= remote_plan_text(local@, host@, remote_path@, config@));
    s
}

/// What is going to be set up with a server on this host.
pub open spec fn local_plan_text(local: Seq<u8>, remote: Seq<u8>, config: Seq<u8>) -> Seq<char> {
    "This will set up the following configuration:\nFiles synced to/from: "@ + text::utf8_lossy(
        local,
    ) + "\nEncrypted data written to LOCAL path: "@ + text::utf8_lossy(remote)
        + "\nConfiguration and state stored in: "@ + text::utf8_lossy(config)
        + "\n\nDoes this look reasonable? "@
}

/// Returns what is going to be set up with a server on this host.
pub fn local_plan(local: &[u8], remote: &[u8], config: &[u8]) -> (r: String)
    ensures
        r@ == local_plan_text(local@, remote@, config@),
{
    let mut s: String = String::new();
    s.append("This will set up the following configuration:\nFiles synced to/from: ");
    s.append(text::from_utf8_lossy(local).as_str());
    s.append("\nEncrypted data written to LOCAL path: ");
    s.append(text::from_utf8_lossy(remote).as_str());
    s.append("\nConfiguration and state stored in: ");
    s.append(text::from_utf8_lossy(config).as_str());
    s.append("\n\nDoes this look reasonable? ");
    assert(s@ =~= local_plan_text(local@, remote@, config@));
    s
}

/// The command that has a shell on the server become the server.
pub open spec fn start_text(ensync_path: Seq<char>, remote_path: Seq<char>) -> Seq<char> {
    "printf . && exec "@ + shell_text(ensync_path) + " server "@ + shell_text(remote_path)
}

/// Returns the command that has a shell on the server become the server.
///
/// Using `exec` ensures that if the process fails to start, the shell exits
/// anyway and is not fed binary data. The `printf` is in the same statement so
/// that once that byte comes in, the shell has relinquished its input.
pub fn start_command(ensync_path: &str, remote_path: &str) -> (r: String)
    ensures
        r@ == start_text(ensync_path@, remote_path@),
{
    let mut s: String = String::new();
    s.append("printf . && exec ");
    s.append(shell_escape(ensync_path).as_str());
    s.append(" server ");
    s.append(shell_escape(remote_path).as_str());
    assert(s@ =~= start_text(ensync_path@, remote_path@));
    s
}

/// The setting for a server on another host. The paths are escaped twice since
/// they get passed to `sh -c`.
pub open spec fn ssh_setting(
    host: Seq<char>,
    ensync_path: Option<Seq<char>>,
    remote_path: Seq<char>,
) -> Seq<char> {
    match ensync_path {
        Some(p) => "shell:ssh -T "@ + shell_text(host) + " "@ + shell_text(shell_text(p))
            + " server "@ + shell_text(shell_text(remote_path)),
        None => "shell:ssh -T "@ + shell_text(host),
    }
}

/// Returns the setting for a server on another host, where the program is at
/// the given path or runs as a shell.
pub fn ssh_server(host: &str, ensync_path: Option<&str>, remote_path: &str) -> (r: String)
    ensures
        r@ == ssh_setting(
            host@,
            match ensync_path {
                Some(p) => Some(p@),
                None => None,
            },
            remote_path@,
        ),
{
    let mut s: String = String::new();
    s.append("shell:ssh -T ");
    s.append(shell_escape(host).as_str());
    if let Some(p) = ensync_path {
        s.append(" ");
        s.append(shell_escape(shell_escape(p).as_str()).as_str());
        s.append(" server ");
        s.append(shell_escape(shell_escape(remote_path).as_str()).as_str());
    }
    assert(s@ =~= ssh_setting(
        host@,
        match ensync_path {
            Some(p) => Some(p@),
            None => None,
        },
        remote_path@,
    ));
    s
}

/// Returns the setting for a server on this host.
pub fn path_server(full_remote: &str) -> (r: String)
    ensures
        r@ == "path:"@ + full_remote@,
{
    let mut s: String = String::new();
    s.append("path:");
    s.append(full_remote);
    assert(s@ =~= "path:"@ + full_remote@);
    s
}

/// A hexadecimal digit in upper case.
pub open spec fn hex_digit(d: nat) -> char {
    if d < 10 {
        ('0' as nat + d) as char
    } else {
        ('A' as nat + (d - 10)) as char
    }
}

/// A character as it is written in a string of a TOML document.
pub open spec fn toml_char(c: char) -> Seq<char> {
    if c == '\u{8}' {
        seq!['\\', 'b']
    } else if c == '\t' {
        seq!['\\', 't']
    } else if c == '\n' {
        seq!['\\', 'n']
    } else if c == '\u{c}' {
        seq!['\\', 'f']
    } else if c == '\r' {
        seq!['\\', 'r']
    } else if c == '"' || c == '\\' {
        seq!['\\', c]
    } else if (c as u32) < 0x20 || c == '\u{7f}' {
        seq!['\\', 'u', '0', '0', hex_digit(c as nat / 16), hex_digit(c as nat % 16)]
    } else {
        seq![c]
    }
}

/// Characters as they are written in a string of a TOML document.
pub open spec fn toml_chars(s: Seq<char>) -> Seq<char>
    decreases s.len(),
{
    if s.len() == 0 {
        Seq::empty()
    } else {
        toml_chars(s.drop_last()) + toml_char(s.last())
    }
}

/// A string as it is written in a TOML document.
pub open spec fn toml_text(s: Seq<char>) -> Seq<char> {
    seq!['"'] + toml_chars(s) + seq!['"']
}

/// `toml::Value::String` shown by its `Display` implementation, which writes a
/// string on one line between double quotes, and what cannot stand there as
/// escape sequences.
#[verifier::external_body]
fn toml_string(s: &str) -> (r: String)
    ensures
        r@ == toml_text(s@),
{
    toml::Value::String(s.to_owned()).to_string()
}

/// The choices that make up a configuration file.
#[derive(Debug, PartialEq, Eq)]
pub struct Choices {
    pub path: String,
    pub server: String,
    pub server_root: String,
    pub passphrase: String,
    pub compression: String,
    pub sync_mode: String,
}

/// A configuration file, given each choice as it is written in it.
pub open spec fn assembled(
    local: Seq<char>,
    server: Seq<char>,
    server_root: Seq<char>,
    passphrase: Seq<char>,
    compression: Seq<char>,
    sync_mode: Seq<char>,
) -> Seq<char> {
    CONFIG_HEAD@ + local + CONFIG_SERVER@ + server + CONFIG_SERVER_ROOT@ + server_root
        + CONFIG_PASSPHRASE@ + passphrase + CONFIG_COMPRESSION@ + compression + CONFIG_MODE@
        + sync_mode + CONFIG_END@
}

/// Returns a configuration file, given each choice as it is written in it.
pub fn assemble(written: &Choices) -> (r: String)
    ensures
        r@ == assembled(
            written.path@,
            written.server@,
            written.server_root@,
            written.passphrase@,
            written.compression@,
            written.sync_mode@,
        ),
{
    let mut s: String = String::new();
    s.append(CONFIG_HEAD);
    s.append(written.path.as_str());
    s.append(CONFIG_SERVER);
    s.append(written.server.as_str());
    s.append(CONFIG_SERVER_ROOT);
    s.append(written.server_root.as_str());
    s.append(CONFIG_PASSPHRASE);
    s.append(written.passphrase.as_str());
    s.append(CONFIG_COMPRESSION);
    s.append(written.compression.as_str());
    s.append(CONFIG_MODE);
    s.append(written.sync_mode.as_str());
    s.append(CONFIG_END);
    assert(s@ =~= assembled(
        written.path@,
        written.server@,
        written.server_root@,
        written.passphrase@,
        written.compression@,
        written.sync_mode@,
    ));
    s
}

/// Returns the configuration file for the choices that have been made.
pub fn config_text(choices: &Choices) -> (r: String)
    ensures
        r@ == assembled(
            toml_text(choices.path@),
            toml_text(choices.server@),
            toml_text(choices.server_root@),
            toml_text(choices.passphrase@),
            toml_text(choices.compression@),
            toml_text(choices.sync_mode@),
        ),
{
    assemble(
        &Choices {
            path: toml_string(choices.path.as_str()),
            server: toml_string(choices.server.as_str()),
            server_root: toml_string(choices.server_root.as_str()),
            passphrase: toml_string(choices.passphrase.as_str()),
            compression: toml_string(choices.compression.as_str()),
            sync_mode: toml_string(choices.sync_mode.as_str()),
        },
    )
}

/// Whether a logical root is among those that exist.
pub open spec fn is_among(roots: Seq<String>, name: Seq<char>) -> bool {
    exists|i: int| 0 <= i < roots.len() && (#[trigger] roots[i])@ == name
}

/// Returns whether a logical root has to be created.
pub fn is_new_root(roots: &Vec<String>, name: &str) -> (r: bool)
    ensures
        r == !is_among(roots@, name@),
{
    let mut i: usize = 0;
    while i < roots.len()
        invariant
            i <= roots@.len(),
            forall|j: int| 0 <= j < i ==> (#[trigger] roots@[j])@ != name@,
        decreases roots@.len() - i,
    {
        if text::same(roots[i].as_str(), name) {
            assert(roots@[i as int]@ == name@);
            return false;
        }
        i += 1;
    }
    true
}

/// Fails if a command that talks to another program is run in a terminal.
pub fn check_not_interactive(stdin_is_tty: bool, stdout_is_tty: bool, what: &str) -> (r: Result<()>)
    ensures
        !stdin_is_tty && !stdout_is_tty ==> r is Ok,
        stdin_is_tty || stdout_is_tty ==> fails_with(r, what@ + " is not for interactive use"@),
{
    if stdin_is_tty || stdout_is_tty {
        let mut s: String = what.to_owned();
        s.append(" is not for interactive use");
        return Err(error(s.as_str()));
    }
    Ok(())
}

/// What is trimmed from a text is all of the white space at its ends and nothing
/// else.
pub proof fn law_trimmed(s: Seq<char>)
    ensures
        ({
            let t = trimmed_text(s);
            &&& t.len() > 0 ==> !is_white(t[0]) && !is_white(t.last())
            &&& exists|i: int| #[trigger]
                trimmed_at(s, t, i) && forall|j: int|
                    0 <= j < s.len() && !(i <= j < i + t.len()) ==> is_white(#[trigger] s[j])
        }),
{
    let a = led_text(s);
    let t = trimmed_text(s);
    lemma_led(s);
    lemma_ended(a);
    let i = s.len() - a.len();
    assert(t =~= s.subrange(i, i + t.len())) by {
        assert forall|k: int| 0 <= k < t.len() implies t[k] == s[i + k] by {
            assert(a.take(t.len() as int)[k] == a[k]);
            assert(s.skip(i)[k] == s[i + k]);
        }
    }
    assert(trimmed_at(s, t, i));
    assert forall|j: int| 0 <= j < s.len() && !(i <= j < i + t.len()) implies is_white(
        #[trigger] s[j],
    ) by {
        if j >= i {
            assert(s.skip(i)[j - i] == s[j]);
            assert(is_white(a[j - i]));
        }
    }
    if t.len() > 0 {
        assert(a.take(t.len() as int)[0] == a[0]);
    }
}

/// Whether a text is found within another at the given place.
pub open spec fn trimmed_at(s: Seq<char>, t: Seq<char>, i: int) -> bool {
    0 <= i && i + t.len() <= s.len() && t == s.subrange(i, i + t.len())
}

proof fn lemma_led(s: Seq<char>)
    ensures
        ({
            let a = led_text(s);
            let i = s.len() - a.len();
            &&& 0 <= i
            &&& a == s.skip(i)
            &&& a.len() > 0 ==> !is_white(a[0])
            &&& forall|j: int| 0 <= j < i ==> is_white(#[trigger] s[j])
        }),
    decreases s.len(),
{
    if s.len() > 0 && is_white(s[0]) {
        lemma_led(s.drop_first());
        let a = led_text(s);
        let i = s.len() - a.len();
        assert(s.drop_first().skip(i - 1) =~= s.skip(i));
        assert forall|j: int| 0 <= j < i implies is_white(#[trigger] s[j]) by {
            if j > 0 {
                assert(s.drop_first()[j - 1] == s[j]);
            }
        }
    } else {
        assert(s.skip(0) =~= s);
    }
}

proof fn lemma_ended(s: Seq<char>)
    ensures
        ({
            let a = ended_text(s);
            &&& a.len() <= s.len()
            &&& a == s.take(a.len() as int)
            &&& a.len() > 0 ==> !is_white(a.last())
            &&& forall|j: int| a.len() <= j < s.len() ==> is_white(#[trigger] s[j])
        }),
    decreases s.len(),
{
    if s.len() > 0 && is_white(s.last()) {
        lemma_ended(s.drop_last());
        let a = ended_text(s);
        assert(s.drop_last().take(a.len() as int) =~= s.take(a.len() as int));
        assert forall|j: int| a.len() <= j < s.len() implies is_white(#[trigger] s[j]) by {
            if j < s.len() - 1 {
                assert(s.drop_last()[j] == s[j]);
            }
        }
    } else {
        assert(s.take(s.len() as int) =~= s);
    }
}

/// A reply is told by its first letter, in either case. Without one, the question
/// is not agreed to.
pub proof fn law_answer(rest: Seq<char>, c: char)
    ensures
        answer_of(Seq::empty()) is No,
        answer_of(seq!['y'] + rest) is Yes && answer_of(seq!['Y'] + rest) is Yes,
        answer_of(seq!['n'] + rest) is No && answer_of(seq!['N'] + rest) is No,
        answer_of(seq![c] + rest) == answer_of(seq![c]),
        answer_of(seq![c]) is Unclear <==> c != 'y' && c != 'Y' && c != 'n' && c != 'N',
{
}

/// The command that tests a path holds the flag, and the path as a word that a
/// shell reads as it was.
pub proof fn law_test_text(flag: Seq<char>, p: Seq<char>)
    ensures
        ({
            let t = test_text(flag, p);
            let w = shell_text(p);
            &&& text::stands(t, 0, "test "@) && text::stands(t, 5, flag)
            &&& text::stands(t, 6int + flag.len(), w)
            &&& t.skip(6int + flag.len() + w.len()) == " && printf 'y\\0' || printf 'n\\0'"@
            &&& shell_reads(w) matches Some(x) && x.value == p
        }),
{
    reveal_strlit("test ");
    reveal_strlit(" ");
    law_shell_escape(p);
    let t = test_text(flag, p);
    let w = shell_text(p);
    let l = flag.len() as int;
    assert(t.subrange(0, 5) =~= "test "@);
    assert(t.subrange(5, 5 + l) =~= flag);
    assert(t.subrange(6 + l, 6 + l + w.len()) =~= w);
    assert(t.skip(6 + l + w.len()) =~= " && printf 'y\\0' || printf 'n\\0'"@);
}

/// The command that starts the server holds the path of the program and the path
/// of the data, in this order, each as a word that a shell reads as it was.
pub proof fn law_start_text(ensync_path: Seq<char>, remote_path: Seq<char>)
    ensures
        ({
            let t = start_text(ensync_path, remote_path);
            let (a, b) = (shell_text(ensync_path), shell_text(remote_path));
            &&& text::stands(t, 0, "printf . && exec "@) && text::stands(t, 17, a)
            &&& text::stands(t, 17int + a.len(), " server "@)
            &&& t.skip(25int + a.len()) == b
            &&& shell_reads(a) matches Some(x) && x.value == ensync_path
            &&& shell_reads(b) matches Some(x) && x.value == remote_path
        }),
{
    reveal_strlit("printf . && exec ");
    reveal_strlit(" server ");
    law_shell_escape(ensync_path);
    law_shell_escape(remote_path);
    let t = start_text(ensync_path, remote_path);
    let (a, b) = (shell_text(ensync_path), shell_text(remote_path));
    let l = a.len() as int;
    assert(t.subrange(0, 17) =~= "printf . && exec "@);
    assert(t.subrange(17, 17 + l) =~= a);
    assert(t.subrange(17 + l, 25 + l) =~= " server "@);
    assert(t.skip(25 + l) =~= b);
}

/// The setting for a server on another host is that of a command. A shell reads
/// the host from it; the paths are read as they were by a second shell, from what
/// the first one reads.
pub proof fn law_ssh_setting(
    host: Seq<char>,
    ensync_path: Option<Seq<char>>,
    remote_path: Seq<char>,
)
    ensures
        ({
            let t = ssh_setting(host, ensync_path, remote_path);
            let h = shell_text(host);
            &&& config::server_of(t) == Ok::<config::ServerModel, Seq<char>>(
                config::ServerModel::Shell(t.skip(6), None),
            )
            &&& text::stands(t, 6, "ssh -T "@) && text::stands(t, 13, h)
            &&& shell_reads(h) matches Some(x) && x.value == host
            &&& ensync_path is None ==> t.len() == 13 + h.len()
            &&& ensync_path matches Some(p) ==> {
                let (a, b) = (shell_text(p), shell_text(remote_path));
                let l = 14 + h.len() + shell_text(a).len();
                &&& text::stands(t, 14int + h.len(), shell_text(a))
                &&& text::stands(t, l as int, " server "@)
                &&& t.skip(l as int + 8) == shell_text(b)
                &&& shell_reads(shell_text(a)) matches Some(x) && x.value == a
                &&& shell_reads(shell_text(b)) matches Some(x) && x.value == b
                &&& shell_reads(a) matches Some(x) && x.value == p
                &&& shell_reads(b) matches Some(x) && x.value == remote_path
            }
        }),
{
    reveal_strlit("shell:ssh -T ");
    reveal_strlit("shell:");
    reveal_strlit("ssh -T ");
    reveal_strlit(" ");
    reveal_strlit(" server ");
    law_shell_escape(host);
    let t = ssh_setting(host, ensync_path, remote_path);
    let h = shell_text(host);
    let k = h.len() as int;
    assert(t =~= "shell:"@ + t.skip(6));
    config::law_server_setting(t, t.skip(6));
    assert(t.subrange(6, 13) =~= "ssh -T "@);
    assert(t.subrange(13, 13 + k) =~= h);
    if let Some(p) = ensync_path {
        let (a, b) = (shell_text(p), shell_text(remote_path));
        law_shell_escape(p);
        law_shell_escape(remote_path);
        law_shell_escape(a);
        law_shell_escape(b);
        let l = (14 + k + shell_text(a).len()) as int;
        assert(t.subrange(14 + k, l) =~= shell_text(a));
        assert(t.subrange(l, l + 8) =~= " server "@);
        assert(t.skip(l + 8) =~= shell_text(b));
    }
}

/// What is going to be set up is told in full: the files, the place of the data,
/// and where the configuration is kept.
pub proof fn law_plan_texts(
    local: Seq<u8>,
    host: Seq<char>,
    remote_path: Seq<char>,
    remote: Seq<u8>,
    config: Seq<u8>,
)
    ensures
        ({
            let t = remote_plan_text(local, host, remote_path, config);
            let a = text::utf8_lossy(local).len();
            let b = remote_path.len();
            let c = host.len();
            let d = shell_text(host).len();
            &&& text::stands(t, 68, text::utf8_lossy(local))
            &&& text::stands(t, 108int + a, remote_path)
            &&& text::stands(t, 112int + a + b, host)
            &&& text::stands(t, 138int + a + b + c, shell_text(host))
            &&& text::stands(t, 174int + a + b + c + d, text::utf8_lossy(config))
        }),
        ({
            let t = local_plan_text(local, remote, config);
            let a = text::utf8_lossy(local).len();
            let b = text::utf8_lossy(remote).len();
            &&& text::stands(t, 68, text::utf8_lossy(local))
            &&& text::stands(t, 107int + a, text::utf8_lossy(remote))
            &&& text::stands(t, 143int + a + b, text::utf8_lossy(config))
        }),
{
    reveal_strlit("This will set up the following configuration:\nFiles synced to/from: ");
    reveal_strlit("\nEncrypted data written to REMOTE path: ");
    reveal_strlit("\nEncrypted data written to LOCAL path: ");
    reveal_strlit(" on ");
    reveal_strlit("\nServer accessed via: ssh ");
    reveal_strlit("\nConfiguration and state stored in: ");
    let t = remote_plan_text(local, host, remote_path, config);
    let u = local_plan_text(local, remote, config);
    let (l, r, k) = (text::utf8_lossy(local), text::utf8_lossy(remote), text::utf8_lossy(config));
    let h = shell_text(host);
    let a = l.len() as int;
    let b = a + remote_path.len();
    let c = b + host.len();
    let d = c + h.len();
    assert(t.subrange(68, 68 + a) =~= l);
    assert(t.subrange(108 + a, 108 + b) =~= remote_path);
    assert(t.subrange(112 + b, 112 + c) =~= host);
    assert(t.subrange(138 + c, 138 + d) =~= h);
    assert(t.subrange(174 + d, 174 + d + k.len()) =~= k);
    assert(u.subrange(68, 68 + a) =~= l);
    assert(u.subrange(107 + a, 107 + a + r.len()) =~= r);
    assert(u.subrange(143 + a + r.len(), 143 + a + r.len() + k.len()) =~= k);
}

/// Whether a text holds a line that gives a key the value that is written.
pub open spec fn has_setting(t: Seq<char>, key: Seq<char>, value: Seq<char>) -> bool {
    exists|at: int| #[trigger] text::stands(t, at, "\n"@ + key + " = "@ + value + "\n"@)
}

proof fn lemma_ends_path()
    ensures
        ends_with(CONFIG_HEAD@, "path"@),
{
    reveal_strlit("# Ensync configuration file\n# Generated by `ensync setup`.\n\n# Relative file names in this file are relative to the directory containing\n# this file.\n#\n# Fields which are references to directory trees to be synced are not generally\n# safe to edit after syncing to point to a different directory tree. If you\n# really want to do so, make sure to remove the `internal.ensync` directory in\n# the same directory as this configuration, which will prevent the state from\n# carrying over to the altered configuration.\n\n[general]\n\n# The path to the local files being synced. Only edit this if you actually move\n# the directory tree itself; if you simply point it at another directory,\n# ensync will think all the contents of the prior location had been deleted.\npath = ");
    reveal_strlit("path");
    let c = CONFIG_HEAD@;
    assert(c.skip(c.len() - 8) =~= "\n"@ + "path"@ + " = "@) by {
        reveal_strlit("\n");
        reveal_strlit(" = ");
    }
}

proof fn lemma_ends_server()
    ensures
        ends_with(CONFIG_SERVER@, "server"@),
        CONFIG_SERVER@[0] == '\n',
{
    reveal_strlit("\n\n# What to use as the remote side of syncing. This can have the format\n#     `path:/some/path`\n# to write to another path on the local filesystem, or\n#     `shell:some shell command`\n# to execute a shell command. In the latter case, ensync will communicate with\n# the remote process via standard input and output. `ensync server` is an\n# appropriate command to run on the remote side; typically, this is used in\n# conjunction with `ssh` to run the server component on a remote host.\n#\n# As with the `path` configuration, this should not be edited in a way that\n# causes it to point to different content.\nserver = ");
    reveal_strlit("server");
    let c = CONFIG_SERVER@;
    assert(c.skip(c.len() - 10) =~= "\n"@ + "server"@ + " = "@) by {
        reveal_strlit("\n");
        reveal_strlit(" = ");
    }
}

proof fn lemma_ends_server_root()
    ensures
        ends_with(CONFIG_SERVER_ROOT@, "server_root"@),
        CONFIG_SERVER_ROOT@[0] == '\n',
{
    reveal_strlit("\n# The name of the logical root to use as the effective remote root. The same\n# caveat for editing `server` also applies here.\nserver_root = ");
    reveal_strlit("server_root");
    let c = CONFIG_SERVER_ROOT@;
    assert(c.skip(c.len() - 15) =~= "\n"@ + "server_root"@ + " = "@) by {
        reveal_strlit("\n");
        reveal_strlit(" = ");
    }
}

proof fn lemma_ends_passphrase()
    ensures
        ends_with(CONFIG_PASSPHRASE@, "passphrase"@),
        CONFIG_PASSPHRASE@[0] == '\n',
{
    reveal_strlit("\n\n# How to obtain the passphrase. Can be one of the following:\n#       `prompt`        Read interactively from the controlling terminal\n#       `string:xxx`    Use `xxx` as the passphrase\n#       `file:somefile` Use the content of `somefile` as the passphrase\n#       `shell:cmd`     Execute `cmd` in this directory and use its standard\n#                       output as the passphrase.\npassphrase = ");
    reveal_strlit("passphrase");
    let c = CONFIG_PASSPHRASE@;
    assert(c.skip(c.len() - 14) =~= "\n"@ + "passphrase"@ + " = "@) by {
        reveal_strlit("\n");
        reveal_strlit(" = ");
    }
}

proof fn lemma_ends_compression()
    ensures
        ends_with(CONFIG_COMPRESSION@, "compression"@),
        CONFIG_COMPRESSION@[0] == '\n',
{
    reveal_strlit("\n\n# Whether to use compression, and if so, at what level.\ncompression = ");
    reveal_strlit("compression");
    let c = CONFIG_COMPRESSION@;
    assert(c.skip(c.len() - 15) =~= "\n"@ + "compression"@ + " = "@) by {
        reveal_strlit("\n");
        reveal_strlit(" = ");
    }
}

proof fn lemma_ends_mode()
    ensures
        ends_with(CONFIG_MODE@, "mode"@),
        CONFIG_MODE@[0] == '\n',
{
    reveal_strlit("\n\n# The sync rules output by `ensync setup` simply apply one sync mode to all\n# files. The sync rules configuration is much more flexible than this; see\n# the documentation for how to better control this if so desired.\n[[rules.root.files]]\nmode = ");
    reveal_strlit("mode");
    let c = CONFIG_MODE@;
    assert(c.skip(c.len() - 8) =~= "\n"@ + "mode"@ + " = "@) by {
        reveal_strlit("\n");
        reveal_strlit(" = ");
    }
}

/// Whether a text ends where the value of a key begins.
pub open spec fn ends_with(c: Seq<char>, key: Seq<char>) -> bool {
    c.len() >= key.len() + 4 && c.skip(c.len() - (key.len() + 4)) == "\n"@ + key + " = "@
}

/// The value behind a key makes up a line of its own.
proof fn lemma_setting(t: Seq<char>, a: Seq<char>, key: Seq<char>, v: Seq<char>, b: Seq<char>)
    requires
        ends_with(a, key),
        t == a + v + b,
        b.len() > 0,
        b[0] == '\n',
    ensures
        has_setting(t, key, v),
{
    reveal_strlit("\n");
    reveal_strlit(" = ");
    let line = "\n"@ + key + " = "@ + v + "\n"@;
    let at = a.len() - (key.len() + 4);
    let head = a.skip(at);
    assert(t.subrange(at, at + line.len()) =~= line) by {
        assert forall|k: int| 0 <= k < line.len() implies t[at + k] == line[k] by {
            if k < key.len() + 4 {
                assert(head[k] == a[at + k]);
                assert(("\n"@ + key + " = "@)[k] == line[k]);
            }
        }
    }
    assert(text::stands(t, at, line));
}

/// A configuration file gives each choice on a line of its own, behind the key
/// that it is looked for under.
pub proof fn law_assembled(
    local: Seq<char>,
    server: Seq<char>,
    server_root: Seq<char>,
    passphrase: Seq<char>,
    compression: Seq<char>,
    sync_mode: Seq<char>,
)
    ensures
        ({
            let t = assembled(local, server, server_root, passphrase, compression, sync_mode);
            &&& has_setting(t, "path"@, local)
            &&& has_setting(t, "server"@, server)
            &&& has_setting(t, "server_root"@, server_root)
            &&& has_setting(t, "passphrase"@, passphrase)
            &&& has_setting(t, "compression"@, compression)
            &&& has_setting(t, "mode"@, sync_mode)
        }),
{
    let t = assembled(local, server, server_root, passphrase, compression, sync_mode);
    reveal_strlit("\n\n");
    let b6 = CONFIG_END@;
    let b5 = CONFIG_MODE@ + sync_mode + b6;
    let b4 = CONFIG_COMPRESSION@ + compression + b5;
    let b3 = CONFIG_PASSPHRASE@ + passphrase + b4;
    let b2 = CONFIG_SERVER_ROOT@ + server_root + b3;
    let b1 = CONFIG_SERVER@ + server + b2;
    let a1 = CONFIG_HEAD@;
    let a2 = a1 + local + CONFIG_SERVER@;
    let a3 = a2 + server + CONFIG_SERVER_ROOT@;
    let a4 = a3 + server_root + CONFIG_PASSPHRASE@;
    let a5 = a4 + passphrase + CONFIG_COMPRESSION@;
    let a6 = a5 + compression + CONFIG_MODE@;
    assert(t =~= a1 + local + b1);
    assert(t =~= a2 + server + b2);
    assert(t =~= a3 + server_root + b3);
    assert(t =~= a4 + passphrase + b4);
    assert(t =~= a5 + compression + b5);
    assert(t =~= a6 + sync_mode + b6);
    lemma_ends_path();
    lemma_ends_server();
    lemma_ends_server_root();
    lemma_ends_passphrase();
    lemma_ends_compression();
    lemma_ends_mode();
    lemma_ends_behind(a1 + local, CONFIG_SERVER@, "server"@);
    lemma_ends_behind(a2 + server, CONFIG_SERVER_ROOT@, "server_root"@);
    lemma_ends_behind(a3 + server_root, CONFIG_PASSPHRASE@, "passphrase"@);
    lemma_ends_behind(a4 + passphrase, CONFIG_COMPRESSION@, "compression"@);
    lemma_ends_behind(a5 + compression, CONFIG_MODE@, "mode"@);
    lemma_setting(t, a1, "path"@, local, b1);
    lemma_setting(t, a2, "server"@, server, b2);
    lemma_setting(t, a3, "server_root"@, server_root, b3);
    lemma_setting(t, a4, "passphrase"@, passphrase, b4);
    lemma_setting(t, a5, "compression"@, compression, b5);
    lemma_setting(t, a6, "mode"@, sync_mode, b6);
}

proof fn lemma_ends_behind(a: Seq<char>, c: Seq<char>, key: Seq<char>)
    requires
        ends_with(c, key),
    ensures
        ends_with(a + c, key),
{
    let l = key.len() + 4;
    assert((a + c).skip((a + c).len() - l) =~= c.skip(c.len() - l));
}

/// Without asking, data is kept only where the server has kept some before, or in a
/// new place whose parent is there. No place is refused but one without a path and
/// one that is no directory; and what is known of a place that does not exist, or
/// of the parent of one that does, makes no difference.
pub proof fn law_remote_verdict(remote: Seq<u8>, facts: RemoteFacts, other: RemoteFacts)
    ensures
        ({
            let v = remote_verdict(remote, facts);
            &&& v is Fine ==> remote.len() > 0 && (facts.exists ==> facts.is_dir && facts.has_dirs)
                && (!facts.exists ==> facts.parent_exists || path::parent_of(remote) is None)
            &&& v is Refuse <==> remote.len() == 0 || facts.exists && !facts.is_dir
            &&& remote.len() > 0 && facts.exists && facts.is_dir && facts.has_dirs ==> v is Fine
            &&& remote.len() > 0 && !facts.exists && facts.parent_exists ==> v is Fine
            &&& !facts.exists && !other.exists && facts.parent_exists == other.parent_exists ==> v
                == remote_verdict(remote, other)
            &&& facts.exists && other.exists && facts.is_dir == other.is_dir && facts.has_dirs
                == other.has_dirs ==> v == remote_verdict(remote, other)
        }),
{
}

/// What exists is never made a configuration location. Nothing is asked about a name
/// without an extension in a directory that exists; each of the two things that can
/// be amiss is asked about once, with the path that it is about.
pub proof fn law_config_questions(config: Seq<u8>, facts: SetupFacts)
    ensures
        config_questions(config, facts) is None <==> facts.config_exists,
        config_questions(config, facts) matches Some(l) ==> {
            &&& l.len() == 0 <==> !has_extension(config) && (facts.config_parent_exists
                || path::parent_of(config) is None)
            &&& l.len() <= 2
            &&& has_extension(config) ==> l.len() > 0 && text::stands(
                l[0],
                10,
                text::utf8_lossy(config),
            )
            &&& !facts.config_parent_exists && path::parent_of(config) is Some ==> l.len() > 0
                && text::stands(l.last(), 35, text::utf8_lossy(path::parent_of(config)->0))
        },
{
    reveal_strlit("The path '");
    reveal_strlit("Parent of ");
    reveal_strlit("configuration location");
    reveal_strlit(", '");
    let c = text::utf8_lossy(config);
    let t = file_name_text(config);
    assert(t.subrange(10, 10int + c.len()) =~= c);
    if let Some(parent) = path::parent_of(config) {
        let p = text::utf8_lossy(parent);
        let u = missing_parent_text("configuration location"@, parent);
        assert(u.subrange(35, 35int + p.len()) =~= p);
    }
}

/// No character that means something else to a shell is safe: none that separates
/// words or commands, quotes, expands, redirects or begins a comment. Letters and
/// digits are safe.
pub proof fn law_is_safe(c: char)
    ensures
        is_safe(c) ==> {
            &&& c != ' ' && c != '\t' && c != '\n' && c != '\'' && c != '"' && c != '\\'
            &&& c != '$' && c != '`' && c != '&' && c != '|' && c != ';' && c != '<' && c != '>'
            &&& c != '(' && c != ')' && c != '*' && c != '?' && c != '[' && c != ']' && c != '#'
            &&& c != '~' && c != '=' && c != '%' && c != '!' && c != '{' && c != '}' && c != '^'
            &&& (c as u32) > 0x20 && (c as u32) < 0x7f
        },
        'a' <= c <= 'z' || 'A' <= c <= 'Z' || '0' <= c <= '9' ==> is_safe(c),
{
}

/// A name has an extension if there is a dot within it; a dot at its beginning does
/// not make one.
pub proof fn law_has_extension(p: Seq<u8>, stem: Seq<u8>, extension: Seq<u8>)
    ensures
        path::file_name_of(p) is None ==> !has_extension(p),
        stem.len() > 0 && path::file_name_of(p) == Some(stem.push(path::DOT) + extension)
            ==> has_extension(p),
        path::file_name_of(p) == Some(seq![path::DOT] + extension) && !extension.contains(path::DOT)
            ==> !has_extension(p),
        path::file_name_of(p) == Some(extension) && !extension.contains(path::DOT)
            ==> !has_extension(p),
{
    if stem.len() > 0 && path::file_name_of(p) == Some(stem.push(path::DOT) + extension) {
        let n = stem.push(path::DOT) + extension;
        let i = stem.len() as int;
        assert(0 < i < n.len() && n[i] == path::DOT);
        assert(path::file_name_of(p)->0[i] == path::DOT);
    }
    if path::file_name_of(p) == Some(seq![path::DOT] + extension) && !extension.contains(path::DOT) {
        let n = seq![path::DOT] + extension;
        assert forall|i: int| 0 < i < n.len() implies #[trigger] n[i] != path::DOT by {
            assert(n[i] == extension[i - 1]);
            assert(extension.contains(extension[i - 1]));
        }
    }
    if path::file_name_of(p) == Some(extension) && !extension.contains(path::DOT) {
        assert forall|i: int| 0 < i < extension.len() implies #[trigger] extension[i]
            != path::DOT by {
            assert(extension.contains(extension[i]));
        }
    }
}

/// What the user is asked or told about a place names that place.
pub proof fn law_place_texts(what: Seq<char>, p: Seq<u8>)
    ensures
        text::stands(strange_place_text(p), 22, text::utf8_lossy(p)),
        text::stands(missing_parent_text(what, p), 10, what),
        text::stands(missing_parent_text(what, p), 13int + what.len(), text::utf8_lossy(p)),
        text::stands(config_exists_text(p), 24, text::utf8_lossy(p)),
        text::stands(file_name_text(p), 10, text::utf8_lossy(p)),
        text::stands(
            file_name_text(p),
            181int + text::utf8_lossy(p).len(),
            text::utf8_lossy(path::joined(p, vstd::utf8::encode_utf8("config.toml"@))),
        ),
{
    reveal_strlit("Sync remote location '");
    reveal_strlit("Parent of ");
    reveal_strlit(", '");
    reveal_strlit("Configuration location '");
    reveal_strlit("The path '");
    reveal_strlit("' looks like it was intended as a file name rather than a directory\nname. You can go ahead with this name anyway, which would result in the\nconfiguration being stored at '");
    let n = text::utf8_lossy(p);
    let l = n.len() as int;
    assert(strange_place_text(p).subrange(22, 22 + l) =~= n);
    let m = missing_parent_text(what, p);
    assert(m.subrange(10, 10int + what.len()) =~= what);
    assert(m.subrange(13int + what.len(), 13int + what.len() + l) =~= n);
    assert(config_exists_text(p).subrange(24, 24 + l) =~= n);
    let t = file_name_text(p);
    assert(t.subrange(10, 10 + l) =~= n);
    let c = text::utf8_lossy(path::joined(p, vstd::utf8::encode_utf8("config.toml"@)));
    assert(t.subrange(181 + l, 181 + l + c.len()) =~= c);
}

} // verus!
