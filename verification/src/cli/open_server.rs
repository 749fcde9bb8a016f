//! Connecting to a server.

use vstd::prelude::*;

use crate::errors;
use crate::errors::{Error, Result};
use crate::path;
use crate::text;

use super::setup;

verus! {

/// What the other side says of itself.
pub struct ImplementationInfo {
    pub name: String,
    pub version: (u32, u32, u32),
    pub protocol: (u32, u32),
}

/// What the user is told once connected.
pub open spec fn connected_text(info: ImplementationInfo, command: Seq<char>) -> Seq<char> {
    "Connected to "@ + info.name@ + " "@ + text::digits(info.version.0 as nat, 10) + "."@
        + text::digits(info.version.1 as nat, 10) + "."@ + text::digits(info.version.2 as nat, 10)
        + " (proto "@ + text::digits(info.protocol.0 as nat, 10) + "."@ + text::digits(
        info.protocol.1 as nat,
        10,
    ) + ") via `"@ + command + "`"@
}

/// Returns what the user is told once connected.
pub fn connected_message(info: &ImplementationInfo, command: &str) -> (r: String)
    ensures
        r@ == connected_text(*info, command@),
{
    let mut s: String = String::new();
    s.append("Connected to ");
    s.append(info.name.as_str());
    s.append(" ");
    text::push_digits(&mut s, info.version.0 as u64, 10);
    s.append(".");
    text::push_digits(&mut s, info.version.1 as u64, 10);
    s.append(".");
    text::push_digits(&mut s, info.version.2 as u64, 10);
    let ghost head = "Connected to "@ + info.name@ + " "@ + text::digits(info.version.0 as nat, 10)
        + "."@ + text::digits(info.version.1 as nat, 10) + "."@ + text::digits(
        info.version.2 as nat,
        10,
    );
    assert(s@ =~= head);
    s.append(" (proto ");
    text::push_digits(&mut s, info.protocol.0 as u64, 10);
    s.append(".");
    text::push_digits(&mut s, info.protocol.1 as u64, 10);
    s.append(") via `");
    s.append(command);
    s.append("`");
    assert(s@ =~= connected_text(*info, command@));
    s
}

/// How the command that talks to the server ended.
pub enum CommandEnd {
    Success,
    /// It failed, with the given status.
    Failure(String),
    /// It is not known how it ended.
    Unknown,
}

/// Returns the error for a server that could not be talked to. Most likely the
/// command failed to start for some reason, so it is better to say that rather
/// than some obscure protocol error, if possible.
pub fn connection_failure(command: &str, end: &CommandEnd, error: Error) -> (r: Error)
    ensures
        r.kind is Other,
        match *end {
            CommandEnd::Failure(status) => r.kind->Other_0@ == "Command `"@ + command@
                + "` failed with "@ + status@ && r.causes@.len() == 0,
            _ => errors::blames(
                r,
                "Protocol error communicating with `"@ + command@ + "`"@,
                error,
            ),
        },
{
    let mut s: String = String::new();
    match end {
        CommandEnd::Failure(status) => {
            s.append("Command `");
            s.append(command);
            s.append("` failed with ");
            s.append(status.as_str());
            assert(s@ =~= "Command `"@ + command@ + "` failed with "@ + status@);
            Error::say(s)
        },
        _ => {
            s.append("Protocol error communicating with `");
            s.append(command);
            s.append("`");
            assert(s@ =~= "Protocol error communicating with `"@ + command@ + "`"@);
            Error::because(s, error)
        },
    }
}

/// The file in which the state of the server is kept.
pub open spec fn state_file(private_root: Seq<u8>) -> Seq<u8> {
    path::joined(private_root, vstd::utf8::encode_utf8("server-state.sqlite"@))
}

/// Returns the file in which the state of the server is kept, which must have a
/// name that is valid UTF-8.
pub fn server_state_path(private_root: &[u8]) -> (r: Result<String>)
    ensures
        match r {
            Ok(s) => vstd::utf8::encode_utf8(s@) == state_file(private_root@),
            Err(_) => setup::fails_with(
                r,
                "Path '"@ + text::utf8_lossy(private_root@) + "' is not valid UTF-8"@,
            ),
        },
        r is Ok <==> vstd::utf8::valid_utf8(state_file(private_root@)),
{
    match text::decode_utf8(path::join(private_root, "server-state.sqlite".as_bytes())) {
        Some(s) => Ok(s),
        None => {
            let mut s: String = String::new();
            s.append("Path '");
            s.append(text::from_utf8_lossy(private_root).as_str());
            s.append("' is not valid UTF-8");
            assert(s@ =~= "Path '"@ + text::utf8_lossy(private_root@) + "' is not valid UTF-8"@);
            Err(Error::say(s))
        },
    }
}

/// What the user is told once connected holds the name of the other side, its
/// version, the version of the protocol, and the command.
pub proof fn law_connected_text(info: ImplementationInfo, command: Seq<char>)
    ensures
        ({
            let t = connected_text(info, command);
            let n = info.name@.len();
            let major = text::digits(info.version.0 as nat, 10);
            let minor = text::digits(info.version.1 as nat, 10);
            let patch = text::digits(info.version.2 as nat, 10);
            let p = text::digits(info.protocol.0 as nat, 10);
            let q = text::digits(info.protocol.1 as nat, 10);
            let v = n + major.len() + minor.len() + patch.len();
            &&& text::stands(t, 13, info.name@)
            &&& text::stands(t, 14int + n, major) && text::number(major, 10) == info.version.0
            &&& text::stands(t, 15int + n + major.len(), minor) && text::number(minor, 10)
                == info.version.1
            &&& text::stands(t, 16int + n + major.len() + minor.len(), patch) && text::number(
                patch,
                10,
            ) == info.version.2
            &&& text::stands(t, 24int + v, p) && text::number(p, 10) == info.protocol.0
            &&& text::stands(t, 25int + v + p.len(), q) && text::number(q, 10) == info.protocol.1
            &&& text::stands(t, 32int + v + p.len() + q.len(), command)
        }),
{
    reveal_strlit("Connected to ");
    reveal_strlit(" ");
    reveal_strlit(".");
    reveal_strlit(" (proto ");
    reveal_strlit(") via `");
    reveal_strlit("`");
    text::law_digits(info.version.0 as nat, 10);
    text::law_digits(info.version.1 as nat, 10);
    text::law_digits(info.version.2 as nat, 10);
    text::law_digits(info.protocol.0 as nat, 10);
    text::law_digits(info.protocol.1 as nat, 10);
    let t = connected_text(info, command);
    let n = info.name@.len() as int;
    let major = text::digits(info.version.0 as nat, 10);
    let minor = text::digits(info.version.1 as nat, 10);
    let patch = text::digits(info.version.2 as nat, 10);
    let p = text::digits(info.protocol.0 as nat, 10);
    let q = text::digits(info.protocol.1 as nat, 10);
    let (a, b, c) = (n + major.len(), n + major.len() + minor.len(), n + major.len()
        + minor.len() + patch.len());
    assert(t.subrange(13, 13 + n) =~= info.name@);
    assert(t.subrange(14 + n, 14 + a) =~= major);
    assert(t.subrange(15 + a, 15 + b) =~= minor);
    assert(t.subrange(16 + b, 16 + c) =~= patch);
    assert(t.subrange(24 + c, 24 + c + p.len()) =~= p);
    assert(t.subrange(25 + c + p.len(), 25 + c + p.len() + q.len()) =~= q);
    let d = c + p.len() + q.len();
    assert(t.subrange(32 + d, 32 + d + command.len()) =~= command);
}

/// The state of the server is kept in a file of the private directory.
pub proof fn law_state_file(private_root: Seq<u8>)
    ensures
        private_root.len() > 0 ==> path::relative(private_root, state_file(private_root)) == Some(
            vstd::utf8::encode_utf8("server-state.sqlite"@),
        ),
{
    reveal_strlit("server-state.sqlite");
    let c = "server-state.sqlite"@;
    assert(vstd::utf8::is_ascii_chars(c));
    vstd::utf8::is_ascii_chars_encode_utf8(c);
    let n = vstd::utf8::encode_utf8(c);
    assert(n.len() == c.len() && n[0] == c[0] as u8);
    if private_root.len() > 0 {
        path::law_join_strip(private_root, n);
    }
}

} // verus!
