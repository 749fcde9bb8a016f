//! The configuration.

use vstd::prelude::*;

use crate::bytes;
use crate::bytes::Name;
use crate::defs::{HashId, PRIVATE_DIR_NAME};
use crate::digest;
use crate::errors;
use crate::errors::{Error, ErrorKind, Result};
use crate::path;
use crate::rules;
use crate::rules::SyncMode;
use crate::text;

use super::toml_table;
use super::toml_table::{Found, SettingModel};

verus! {

/// The name of the configuration file.
pub const CONFIG_FILE_NAME: &'static str = "config.toml";

/// The block size for new transfers if none is given. This shaves a bit off of
/// 1MB to account for gzip headers, so if there are a lot of large
/// uncompressible blocks, they do not just barely spill over into another
/// allocation unit.
pub const DEFAULT_BLOCK_SIZE: i64 = 1_048_064;

/// There is strictly speaking nothing preventing use of really tiny or really
/// large blocks, but it is not useful either, so these are mostly arbitrary
/// bounds as a sanity check.
pub const MIN_BLOCK_SIZE: i64 = 256;

pub const MAX_BLOCK_SIZE: i64 = 1_073_741_824;

/// Where or how to run the server.
#[derive(Debug, PartialEq, Eq)]
pub enum ServerConfig {
    /// Use the given path on the local filesystem as the server.
    Path(Name),
    /// Invoke the given shell command to launch the server, using its stdin
    /// and stdout as input and output for `RemoteStorage`. If the second path
    /// is present, the child process should be started in that directory.
    Shell(String, Option<Name>),
}

/// How to obtain the passphrase.
#[derive(Debug, PartialEq, Eq)]
pub enum PassphraseConfig {
    /// Prompt the controlling terminal for the passphrase. Fail if there is no
    /// controlling terminal or an empty string is read.
    Prompt,
    /// Use the given exact string as the passphrase.
    String(String),
    /// Use the binary content, excluding any trailing LF or CR characters, of
    /// the named file as the passphrase. Fail if the file cannot be read.
    File(Name),
    /// Invoke the given shell command and use its full binary output,
    /// excluding any trailing LF or CR characters, as the passphrase. Fail if
    /// the command does not exit successfully or emits no output.
    Shell(String, Option<Name>),
}

/// What a `ServerConfig` says, over mathematical values.
pub enum ServerModel {
    Path(Seq<u8>),
    Shell(Seq<char>, Option<Seq<u8>>),
}

/// What a `PassphraseConfig` says, over mathematical values.
pub enum PassphraseModel {
    Prompt,
    String(Seq<char>),
    File(Seq<u8>),
    Shell(Seq<char>, Option<Seq<u8>>),
}

/// A name, if there is one, over mathematical values.
pub open spec fn opt_name(n: Option<Name>) -> Option<Seq<u8>> {
    match n {
        Some(n) => Some(n@),
        None => None,
    }
}

impl View for ServerConfig {
    type V = ServerModel;

    open spec fn view(&self) -> ServerModel {
        match *self {
            ServerConfig::Path(p) => ServerModel::Path(p@),
            ServerConfig::Shell(command, dir) => ServerModel::Shell(command@, opt_name(dir)),
        }
    }
}

impl View for PassphraseConfig {
    type V = PassphraseModel;

    open spec fn view(&self) -> PassphraseModel {
        match *self {
            PassphraseConfig::Prompt => PassphraseModel::Prompt,
            PassphraseConfig::String(s) => PassphraseModel::String(s@),
            PassphraseConfig::File(p) => PassphraseModel::File(p@),
            PassphraseConfig::Shell(command, dir) => PassphraseModel::Shell(
                command@,
                opt_name(dir),
            ),
        }
    }
}

/// The type and the value of a `type:value` setting.
pub open spec fn parts(s: Seq<char>) -> Option<(Seq<char>, Seq<char>)> {
    if s.contains(':') {
        let i = s.index_of_first(':')->0;
        Some((s.take(i), s.skip(i + 1)))
    } else {
        None
    }
}

/// The server that a setting names, or what is wrong with the setting.
pub open spec fn server_of(s: Seq<char>) -> core::result::Result<ServerModel, Seq<char>> {
    match parts(s) {
        None => Err(
            "Invalid server config; syntax is `type:value` (write `path:"@ + s
                + "` if you want to sync to the local path `"@ + s + "`)"@,
        ),
        Some((typ, value)) => if typ == "path"@ {
            Ok(ServerModel::Path(vstd::utf8::encode_utf8(value)))
        } else if typ == "shell"@ {
            Ok(ServerModel::Shell(value, None))
        } else {
            Err(
                "Invalid server config type '"@ + typ + "' (if `"@ + s
                    + "` is intended to be an scp-style path, write something like `shell:ssh "@
                    + typ + " ensync server '"@ + value + "'` instead)"@,
            )
        },
    }
}

/// The passphrase that a setting names, or what is wrong with the setting.
pub open spec fn passphrase_of(s: Seq<char>) -> core::result::Result<PassphraseModel, Seq<char>> {
    if s == "prompt"@ {
        Ok(PassphraseModel::Prompt)
    } else {
        match parts(s) {
            None => Err(
                "Invalid passphrase config; syntax is `type` or `type:value`, and '"@ + s
                    + "' is not a valid bare type"@,
            ),
            Some((typ, value)) => if typ == "string"@ {
                Ok(PassphraseModel::String(value))
            } else if typ == "file"@ {
                Ok(PassphraseModel::File(vstd::utf8::encode_utf8(value)))
            } else if typ == "shell"@ {
                Ok(PassphraseModel::Shell(value, None))
            } else {
                Err("Invalid passphrase config type '"@ + typ + "'"@)
            },
        }
    }
}

/// Returns the type and the value of a `type:value` setting.
pub(crate) fn split_setting(s: &str) -> (r: Option<(String, String)>)
    ensures
        match r {
            Some((typ, value)) => parts(s@) == Some((typ@, value@)),
            None => parts(s@) is None,
        },
{
    let cs: Vec<char> = text::chars_of(s);
    let mut i: usize = 0;
    while i < cs.len()
        invariant
            i <= cs@.len(),
            cs@ == s@,
            forall|j: int| 0 <= j < i ==> s@[j] != ':',
        decreases cs@.len() - i,
    {
        if cs[i] == ':' {
            proof {
                assert(s@.contains(':'));
                s@.index_of_first_ensures(':');
            }
            let typ = text::piece(&cs, 0, i);
            let value = text::piece(&cs, i + 1, cs.len());
            assert(s@.subrange(0, i as int) =~= s@.take(i as int));
            assert(s@.subrange(i + 1, s@.len() as int) =~= s@.skip(i + 1));
            return Some((typ, value));
        }
        i += 1;
    }
    None
}

impl ServerConfig {
    /// Parses the setting that names the server.
    pub fn from_str(s: &str) -> (r: core::result::Result<ServerConfig, String>)
        ensures
            match r {
                Ok(c) => server_of(s@) == Ok::<ServerModel, Seq<char>>(c@),
                Err(e) => server_of(s@) == Err::<ServerModel, Seq<char>>(e@),
            },
    {
        let mut e: String = String::new();
        match split_setting(s) {
            None => {
                e.append("Invalid server config; syntax is `type:value` (write `path:");
                e.append(s);
                e.append("` if you want to sync to the local path `");
                e.append(s);
                e.append("`)");
                assert(e@ =~= server_of(s@)->Err_0);
                Err(e)
            },
            Some((typ, value)) => {
                if text::same(typ.as_str(), "path") {
                    Ok(ServerConfig::Path(bytes::copy(value.as_str().as_bytes())))
                } else if text::same(typ.as_str(), "shell") {
                    Ok(ServerConfig::Shell(value, None))
                } else {
                    e.append("Invalid server config type '");
                    e.append(typ.as_str());
                    e.append("' (if `");
                    e.append(s);
                    e.append(
                        "` is intended to be an scp-style path, write something like `shell:ssh ",
                    );
                    e.append(typ.as_str());
                    e.append(" ensync server '");
                    e.append(value.as_str());
                    e.append("'` instead)");
                    assert(e@ =~= server_of(s@)->Err_0);
                    Err(e)
                }
            },
        }
    }

    /// Adjusts this `ServerConfig` such that relative filenames are resolved
    /// against `parent`.
    pub fn relativise(self, parent: &[u8]) -> (r: ServerConfig)
        ensures
            r@ == relative_server(self@, parent@),
    {
        match self {
            ServerConfig::Path(suffix) => ServerConfig::Path(path::join(parent, suffix.as_slice())),
            ServerConfig::Shell(command, _) => ServerConfig::Shell(
                command,
                Some(bytes::copy(parent)),
            ),
        }
    }
}

/// A server with its filenames resolved against `parent`.
pub open spec fn relative_server(c: ServerModel, parent: Seq<u8>) -> ServerModel {
    match c {
        ServerModel::Path(suffix) => ServerModel::Path(path::joined(parent, suffix)),
        ServerModel::Shell(command, _) => ServerModel::Shell(command, Some(parent)),
    }
}

/// A passphrase with its filenames resolved against `parent`.
pub open spec fn relative_passphrase(c: PassphraseModel, parent: Seq<u8>) -> PassphraseModel {
    match c {
        PassphraseModel::File(basename) => PassphraseModel::File(path::joined(parent, basename)),
        PassphraseModel::Shell(command, _) => PassphraseModel::Shell(command, Some(parent)),
        _ => c,
    }
}

/// What has to be done to obtain a passphrase.
#[derive(Debug, PartialEq, Eq)]
pub enum PassphraseRequest {
    /// Nothing.
    Nothing,
    /// Show the first prompt and read a line, then do the same for the second
    /// if there is one.
    Prompt(String, Option<String>),
    /// Read the file.
    Read(Name),
    /// Run the shell command, in the given directory if there is one.
    Run(String, Option<Name>),
}

/// What has to be done to obtain a passphrase, over mathematical values.
pub enum RequestModel {
    Nothing,
    Prompt(Seq<char>, Option<Seq<char>>),
    Read(Seq<u8>),
    Run(Seq<char>, Option<Seq<u8>>),
}

impl View for PassphraseRequest {
    type V = RequestModel;

    open spec fn view(&self) -> RequestModel {
        match *self {
            PassphraseRequest::Nothing => RequestModel::Nothing,
            PassphraseRequest::Prompt(first, second) => RequestModel::Prompt(
                first@,
                match second {
                    Some(s) => Some(s@),
                    None => None,
                },
            ),
            PassphraseRequest::Read(p) => RequestModel::Read(p@),
            PassphraseRequest::Run(command, dir) => RequestModel::Run(command@, opt_name(dir)),
        }
    }
}

/// What has to be done to obtain a passphrase, which is spoken of as `what`.
pub open spec fn request_for(c: PassphraseModel, what: Seq<char>, confirm: bool) -> RequestModel {
    match c {
        PassphraseModel::Prompt => RequestModel::Prompt(
            "Enter "@ + what + ": "@,
            if confirm {
                Some("Retype "@ + what + ": "@)
            } else {
                None
            },
        ),
        PassphraseModel::String(_) => RequestModel::Nothing,
        PassphraseModel::File(p) => RequestModel::Read(p),
        PassphraseModel::Shell(command, dir) => RequestModel::Run(command, dir),
    }
}

/// What came of it.
#[derive(Debug, PartialEq, Eq)]
pub enum PassphraseReply {
    /// There was nothing to be done.
    Nothing,
    /// What was typed at the prompts.
    Typed(String, Option<String>),
    /// What was read from a file, or written by a command that succeeded.
    Data(Vec<u8>),
    /// The file could not be read, the command not started, or there was
    /// nothing to prompt.
    Failed(Error),
    /// The command did not succeed but ended with the given status.
    Unsuccessful(String),
}

/// The bytes without the line feeds and carriage returns at their end.
pub open spec fn without_newlines(data: Seq<u8>) -> Seq<u8>
    decreases data.len(),
{
    if data.len() > 0 && (data.last() == 10 || data.last() == 13) {
        without_newlines(data.drop_last())
    } else {
        data
    }
}

/// The passphrase that a reply holds, before the line ends are stripped.
pub open spec fn raw_passphrase(c: PassphraseModel, reply: PassphraseReply) -> Option<Seq<u8>> {
    match (c, reply) {
        (PassphraseModel::String(s), _) => Some(vstd::utf8::encode_utf8(s)),
        (PassphraseModel::Prompt, PassphraseReply::Typed(first, None)) => Some(
            vstd::utf8::encode_utf8(first@),
        ),
        (PassphraseModel::Prompt, PassphraseReply::Typed(first, Some(second))) => if first@
            == second@ {
            Some(vstd::utf8::encode_utf8(first@))
        } else {
            None
        },
        (PassphraseModel::File(_), PassphraseReply::Data(data)) => Some(data@),
        (PassphraseModel::Shell(_, _), PassphraseReply::Data(data)) => Some(data@),
        _ => None,
    }
}

/// The passphrase that comes of a reply, if one does.
pub open spec fn passphrase_read(c: PassphraseModel, reply: PassphraseReply) -> Option<Seq<u8>> {
    match raw_passphrase(c, reply) {
        Some(data) => if without_newlines(data).len() == 0 {
            None
        } else {
            Some(without_newlines(data))
        },
        None => None,
    }
}

/// Whether `e` says why there is no passphrase. Where something failed, that is
/// its cause.
pub open spec fn explains(e: Error, c: PassphraseModel, reply: PassphraseReply) -> bool {
    if c is Prompt && reply is Failed {
        e == reply->Failed_0
    } else {
        &&& e.kind is Other && e.kind->Other_0@ == passphrase_error(c, reply)
        &&& reply matches PassphraseReply::Failed(cause) ==> e.causes@.len() == cause.causes@.len()
            + 1 && e.causes@[0]@ == errors::kind_text(cause.kind)
    }
}

/// What is wrong with a reply that holds no passphrase.
pub open spec fn passphrase_error(c: PassphraseModel, reply: PassphraseReply) -> Seq<char> {
    match (c, reply) {
        (PassphraseModel::Prompt, PassphraseReply::Typed(_, _)) => "Passwords do not match"@,
        (PassphraseModel::File(p), _) => "Failed to read passphrase from "@ + text::utf8_lossy(p),
        (PassphraseModel::Shell(command, _), PassphraseReply::Unsuccessful(status)) => "Command `"@
            + command + "` failed with "@ + status@,
        (PassphraseModel::Shell(command, _), _) => "Failed to execute command `"@ + command + "`"@,
        _ => "Failed to read the passphrase from the terminal"@,
    }
}

fn message(s: String) -> (r: Error)
    ensures
        r.kind is Other && r.kind->Other_0@ == s@,
        r.causes@.len() == 0,
{
    Error::new(ErrorKind::Other(s))
}

fn words(s: &str) -> (r: Error)
    ensures
        r.kind is Other && r.kind->Other_0@ == s@,
        r.causes@.len() == 0,
{
    message(s.to_owned())
}

/// Returns an error with the given text, caused by what failed.
fn failure(s: String, reply: PassphraseReply) -> (r: Error)
    ensures
        r.kind is Other && r.kind->Other_0@ == s@,
        reply matches PassphraseReply::Failed(cause) ==> r.causes@.len() == cause.causes@.len() + 1
            && r.causes@[0]@ == errors::kind_text(cause.kind),
{
    match reply {
        PassphraseReply::Failed(cause) => Error::caused_by(ErrorKind::Other(s), cause),
        _ => message(s),
    }
}

impl PassphraseConfig {
    /// Parses the setting that names the passphrase.
    pub fn from_str(s: &str) -> (r: core::result::Result<PassphraseConfig, String>)
        ensures
            match r {
                Ok(c) => passphrase_of(s@) == Ok::<PassphraseModel, Seq<char>>(c@),
                Err(e) => passphrase_of(s@) == Err::<PassphraseModel, Seq<char>>(e@),
            },
    {
        if text::same(s, "prompt") {
            return Ok(PassphraseConfig::Prompt);
        }
        let mut e: String = String::new();
        match split_setting(s) {
            None => {
                e.append("Invalid passphrase config; syntax is `type` or `type:value`, and '");
                e.append(s);
                e.append("' is not a valid bare type");
                assert(e@ =~= passphrase_of(s@)->Err_0);
                Err(e)
            },
            Some((typ, value)) => {
                if text::same(typ.as_str(), "string") {
                    Ok(PassphraseConfig::String(value))
                } else if text::same(typ.as_str(), "file") {
                    Ok(PassphraseConfig::File(bytes::copy(value.as_str().as_bytes())))
                } else if text::same(typ.as_str(), "shell") {
                    Ok(PassphraseConfig::Shell(value, None))
                } else {
                    e.append("Invalid passphrase config type '");
                    e.append(typ.as_str());
                    e.append("'");
                    assert(e@ =~= passphrase_of(s@)->Err_0);
                    Err(e)
                }
            },
        }
    }

    /// Returns what has to be done to obtain the passphrase.
    ///
    /// `what` will be printed in interactive prompts; it should be a noun
    /// phrase like "new password". If `confirm` is true, the password is to be
    /// typed twice.
    pub fn request(&self, what: &str, confirm: bool) -> (r: PassphraseRequest)
        ensures
            match self@ {
                PassphraseModel::String(_) => r is Nothing,
                PassphraseModel::Prompt => r matches PassphraseRequest::Prompt(first, second)
                    && first@ == "Enter "@ + what@ + ": "@ && (second is Some <==> confirm) && (
                second matches Some(s) ==> s@ == "Retype "@ + what@ + ": "@),
                PassphraseModel::File(p) => r matches PassphraseRequest::Read(name) && name@ == p,
                PassphraseModel::Shell(command, dir) => r matches PassphraseRequest::Run(c, d)
                    && c@ == command && opt_name(d) == dir,
            },
            r@ == request_for(self@, what@, confirm),
    {
        match self {
            PassphraseConfig::Prompt => {
                let mut first: String = String::new();
                first.append("Enter ");
                first.append(what);
                first.append(": ");
                assert(first@ =~= "Enter "@ + what@ + ": "@);
                let second = if confirm {
                    let mut second: String = String::new();
                    second.append("Retype ");
                    second.append(what);
                    second.append(": ");
                    assert(second@ =~= "Retype "@ + what@ + ": "@);
                    Some(second)
                } else {
                    None
                };
                PassphraseRequest::Prompt(first, second)
            },
            PassphraseConfig::String(_) => PassphraseRequest::Nothing,
            PassphraseConfig::File(name) => PassphraseRequest::Read(bytes::copy(name.as_slice())),
            PassphraseConfig::Shell(command, dir) => PassphraseRequest::Run(
                command.as_str().to_owned(),
                match dir {
                    Some(d) => Some(bytes::copy(d.as_slice())),
                    None => None,
                },
            ),
        }
    }

    /// Returns the passphrase, given what came of the request for it.
    ///
    /// Any trailing newlines on the passphrase are implicitly stripped. Empty
    /// passphrases are forbidden.
    pub fn read_passphrase(&self, reply: PassphraseReply) -> (r: Result<Vec<u8>>)
        ensures
            match raw_passphrase(self@, reply) {
                Some(data) => if without_newlines(data).len() == 0 {
                    r matches Err(e) && e.kind is Other && e.kind->Other_0@ == "Password is empty"@
                } else {
                    r matches Ok(p) && p@ == without_newlines(data)
                },
                None => r matches Err(e) && explains(e, self@, reply),
            },
            match r {
                Ok(p) => passphrase_read(self@, reply) == Some(p@),
                Err(_) => passphrase_read(self@, reply) is None,
            },
    {
        let mut data: Vec<u8> = match self.read_passphrase_impl(reply) {
            Ok(data) => data,
            Err(e) => {
                return Err(e);
            },
        };
        let ghost raw = data@;
        // Strip any trailing newlines since these are often left at the end of
        // text files or process output and aren't intended to be part of the
        // password.
        while data.len() > 0 && (data[data.len() - 1] == 10 || data[data.len() - 1] == 13)
            invariant
                without_newlines(data@) == without_newlines(raw),
            decreases data@.len(),
        {
            let ghost before = data@;
            let _ = data.pop();
            assert(data@ =~= before.drop_last());
        }
        if data.len() == 0 {
            return Err(words("Password is empty"));
        }
        Ok(data)
    }

    fn read_passphrase_impl(&self, reply: PassphraseReply) -> (r: Result<Vec<u8>>)
        ensures
            match raw_passphrase(self@, reply) {
                Some(data) => r matches Ok(p) && p@ == data,
                None => r matches Err(e) && explains(e, self@, reply),
            },
    {
        let mut e: String = String::new();
        match self {
            PassphraseConfig::Prompt => match reply {
                PassphraseReply::Typed(first, second) => do_prompt_passphrase(first, second),
                PassphraseReply::Failed(error) => Err(error),
                _ => Err(words("Failed to read the passphrase from the terminal")),
            },
            PassphraseConfig::String(s) => Ok(bytes::copy(s.as_str().as_bytes())),
            PassphraseConfig::File(name) => match reply {
                PassphraseReply::Data(data) => Ok(data),
                _ => {
                    e.append("Failed to read passphrase from ");
                    e.append(text::from_utf8_lossy(name.as_slice()).as_str());
                    assert(e@ =~= passphrase_error(self@, reply));
                    Err(failure(e, reply))
                },
            },
            PassphraseConfig::Shell(command, _) => match reply {
                PassphraseReply::Data(data) => Ok(data),
                PassphraseReply::Unsuccessful(status) => {
                    e.append("Command `");
                    e.append(command.as_str());
                    e.append("` failed with ");
                    e.append(status.as_str());
                    assert(e@ =~= passphrase_error(self@, PassphraseReply::Unsuccessful(status)));
                    Err(message(e))
                },
                _ => {
                    e.append("Failed to execute command `");
                    e.append(command.as_str());
                    e.append("`");
                    assert(e@ =~= passphrase_error(self@, reply));
                    Err(failure(e, reply))
                },
            },
        }
    }

    /// Adjusts this configuration so that relative filenames are resolved
    /// against `parent`.
    pub fn relativise(self, parent: &[u8]) -> (r: PassphraseConfig)
        ensures
            r@ == relative_passphrase(self@, parent@),
    {
        match self {
            PassphraseConfig::Prompt => PassphraseConfig::Prompt,
            PassphraseConfig::String(s) => PassphraseConfig::String(s),
            PassphraseConfig::File(basename) => PassphraseConfig::File(
                path::join(parent, basename.as_slice()),
            ),
            PassphraseConfig::Shell(command, _) => PassphraseConfig::Shell(
                command,
                Some(bytes::copy(parent)),
            ),
        }
    }

    /// Returns the string representation of this passphrase configuration.
    ///
    /// Some information such as non-UTF8 strings and the working directory of
    /// `Shell` are lost.
    pub fn to_string_lossy(&self) -> (r: String)
        ensures
            r@ == passphrase_text(self@),
            can_be_written(self@) ==> passphrase_of(r@) == Ok::<PassphraseModel, Seq<char>>(self@),
    {
        let mut s: String = String::new();
        match self {
            PassphraseConfig::Prompt => {
                s.append("prompt");
            },
            PassphraseConfig::String(t) => {
                s.append("string:");
                s.append(t.as_str());
            },
            PassphraseConfig::File(name) => {
                s.append("file:");
                s.append(text::from_utf8_lossy(name.as_slice()).as_str());
            },
            PassphraseConfig::Shell(command, _) => {
                s.append("shell:");
                s.append(command.as_str());
            },
        }
        assert(s@ =~= passphrase_text(self@));
        proof {
            if let PassphraseModel::File(p) = self@ {
                lemma_file_text(text::utf8_lossy(p), s@);
            } else if can_be_written(self@) {
                law_passphrase_text(self@);
            }
        }
        s
    }
}

/// The setting for a passphrase.
pub open spec fn passphrase_text(c: PassphraseModel) -> Seq<char> {
    match c {
        PassphraseModel::Prompt => "prompt"@,
        PassphraseModel::String(s) => "string:"@ + s,
        PassphraseModel::File(p) => "file:"@ + text::utf8_lossy(p),
        PassphraseModel::Shell(command, _) => "shell:"@ + command,
    }
}

/// Returns the passphrase that was typed, unless it was typed differently the
/// second time.
pub fn do_prompt_passphrase(first: String, second: Option<String>) -> (r: Result<Vec<u8>>)
    ensures
        match r {
            Ok(data) => data@ == vstd::utf8::encode_utf8(first@) && (second matches Some(s) ==> s@
                == first@),
            Err(e) => e.kind is Other && e.kind->Other_0@ == "Passwords do not match"@ && second
                is Some && second->0@ != first@,
        },
{
    if let Some(s) = &second {
        if !text::same(first.as_str(), s.as_str()) {
            return Err(words("Passwords do not match"));
        }
    }
    Ok(bytes::copy(first.as_str().as_bytes()))
}

/// `flate2::Compression::none`, the level at which nothing is compressed.
#[verifier::external_body]
fn no_compression() -> (r: u32)
    ensures
        r == 0,
{
    flate2::Compression::none().level()
}

/// `flate2::Compression::fast`, the level for the best speed of encoding.
#[verifier::external_body]
fn fast_compression() -> (r: u32)
    ensures
        r == 1,
{
    flate2::Compression::fast().level()
}

/// `flate2::Compression::default`, the level for everyday use.
#[verifier::external_body]
fn default_compression() -> (r: u32)
    ensures
        r == 6,
{
    flate2::Compression::default().level()
}

/// `flate2::Compression::best`, the level for the smallest result.
#[verifier::external_body]
fn best_compression() -> (r: u32)
    ensures
        r == 9,
{
    flate2::Compression::best().level()
}

/// The level that the name of a compression stands for.
pub open spec fn compression_level(name: Seq<char>) -> Option<u32> {
    if name == "none"@ || name == "off"@ {
        Some(0)
    } else if name == "default"@ || name == "on"@ {
        Some(6)
    } else if name == "best"@ {
        Some(9)
    } else if name == "fast"@ {
        Some(1)
    } else {
        None
    }
}

/// `what`, said of the file named `file`.
pub open spec fn about(file: Seq<u8>, what: Seq<char>) -> Seq<char> {
    text::utf8_lossy(file) + ": "@ + what
}

fn said_of(file: &[u8], what: &str) -> (r: String)
    ensures
        r@ == about(file@, what@),
{
    let mut s: String = text::from_utf8_lossy(file);
    s.append(": ");
    s.append(what);
    assert(s@ =~= about(file@, what@));
    s
}

/// Returns the mode of the only sync rule that there is, given what it says.
pub fn rule_mode(filename: &[u8], mode: Option<&str>) -> (r: Result<SyncMode>)
    ensures
        match mode {
            Some(m) => match rules::mode_of(m@) {
                Some(x) => r == Ok::<SyncMode, Error>(x),
                None => r matches Err(e) && e.kind is Other && e.kind->Other_0@ == about(
                    filename@,
                    "Invalid sync rules configuration"@,
                ),
            },
            None => r matches Err(e) && e.kind is Other && e.kind->Other_0@ == about(
                filename@,
                "Invalid sync rules configuration"@,
            ),
        },
{
    let found: Option<SyncMode> = match mode {
        Some(m) => SyncMode::parse(m),
        None => None,
    };
    match found {
        Some(x) => Ok(x),
        None => Err(message(said_of(filename, "Invalid sync rules configuration"))),
    }
}

/// Parses the given string as a compression level.
pub fn parse_compression_name(filename: &[u8], name: &str) -> (r: Result<u32>)
    ensures
        match compression_level(name@) {
            Some(level) => r == Ok::<u32, Error>(level),
            None => r matches Err(e) && e.kind is Other && e.kind->Other_0@ == about(
                filename@,
                "Invalid compression type '"@ + name@ + "'"@,
            ),
        },
{
    match level_of(name) {
        Ok(level) => Ok(level),
        Err(e) => Err(message(said_of(filename, e.as_str()))),
    }
}

/// The configuration.
#[derive(Debug, PartialEq, Eq)]
pub struct Config {
    /// The path in the local filesystem to use as the client root.
    pub client_root: Name,
    /// The path in the local filesystem to use as the private directory. This
    /// is derived from the path to the configuration.
    pub private_root: Name,
    /// Where or how to run the server.
    pub server: ServerConfig,
    /// The named root to use within the server storage.
    pub server_root: String,
    /// How to obtain the passphrase for the server storage.
    pub passphrase: PassphraseConfig,
    /// The block size to use for new transfers.
    pub block_size: u32,
    /// The compression level to use.
    pub compression: u32,
    /// The hash of the raw configuration text.
    pub hash: HashId,
}

/// What a `Config` says, over mathematical values.
pub struct ConfigModel {
    pub client_root: Seq<u8>,
    pub private_root: Seq<u8>,
    pub server: ServerModel,
    pub server_root: Seq<char>,
    pub passphrase: PassphraseModel,
    pub block_size: u32,
    pub compression: u32,
    pub hash: Seq<u8>,
}

impl View for Config {
    type V = ConfigModel;

    open spec fn view(&self) -> ConfigModel {
        ConfigModel {
            client_root: self.client_root@,
            private_root: self.private_root@,
            server: self.server@,
            server_root: self.server_root@,
            passphrase: self.passphrase@,
            block_size: self.block_size,
            compression: self.compression,
            hash: self.hash@,
        }
    }
}

/// The settings of the section `[general]`.
#[derive(Debug, PartialEq, Eq)]
pub struct GeneralSettings {
    pub path: Found<String>,
    pub server: Found<String>,
    pub server_root: Found<String>,
    pub passphrase: Found<String>,
    pub block_size: Found<i64>,
    pub compression: Found<String>,
}

/// What a `GeneralSettings` says, over mathematical values.
pub struct GeneralModel {
    pub path: Found<Seq<char>>,
    pub server: Found<Seq<char>>,
    pub server_root: Found<Seq<char>>,
    pub passphrase: Found<Seq<char>>,
    pub block_size: Found<i64>,
    pub compression: Found<Seq<char>>,
}

/// A text that was looked up, over mathematical values.
pub open spec fn found_text(f: Found<String>) -> Found<Seq<char>> {
    match f {
        Found::Missing => Found::Missing,
        Found::WrongType => Found::WrongType,
        Found::Value(s) => Found::Value(s@),
    }
}

impl View for GeneralSettings {
    type V = GeneralModel;

    open spec fn view(&self) -> GeneralModel {
        GeneralModel {
            path: found_text(self.path),
            server: found_text(self.server),
            server_root: found_text(self.server_root),
            passphrase: found_text(self.passphrase),
            block_size: self.block_size,
            compression: found_text(self.compression),
        }
    }
}

/// The settings of a configuration file.
#[derive(Debug, PartialEq, Eq)]
pub struct Settings {
    pub general: Found<GeneralSettings>,
    /// Whether there is a section `[rules]`.
    pub rules: Found<()>,
}

/// What a `Settings` says, over mathematical values.
pub struct SettingsModel {
    pub general: Found<GeneralModel>,
    pub rules: Found<()>,
}

impl View for Settings {
    type V = SettingsModel;

    open spec fn view(&self) -> SettingsModel {
        SettingsModel {
            general: match self.general {
                Found::Missing => Found::Missing,
                Found::WrongType => Found::WrongType,
                Found::Value(g) => Found::Value(g@),
            },
            rules: self.rules,
        }
    }
}

/// The text under a key of a table.
pub open spec fn text_in(t: Map<Seq<char>, SettingModel>, key: Seq<char>) -> Found<Seq<char>> {
    if !t.dom().contains(key) {
        Found::Missing
    } else {
        match t[key] {
            SettingModel::Text(s) => Found::Value(s),
            _ => Found::WrongType,
        }
    }
}

/// The integer under a key of a table.
pub open spec fn integer_in(t: Map<Seq<char>, SettingModel>, key: Seq<char>) -> Found<i64> {
    if !t.dom().contains(key) {
        Found::Missing
    } else {
        match t[key] {
            SettingModel::Integer(i) => Found::Value(i),
            _ => Found::WrongType,
        }
    }
}

/// The settings of the section `[general]`.
pub open spec fn general_in(t: Map<Seq<char>, SettingModel>) -> GeneralModel {
    GeneralModel {
        path: text_in(t, "path"@),
        server: text_in(t, "server"@),
        server_root: text_in(t, "server_root"@),
        passphrase: text_in(t, "passphrase"@),
        block_size: integer_in(t, "block_size"@),
        compression: text_in(t, "compression"@),
    }
}

/// The settings of a document.
pub open spec fn settings_in(t: Map<Seq<char>, SettingModel>) -> SettingsModel {
    SettingsModel {
        general: if !t.dom().contains("general"@) {
            Found::Missing
        } else {
            match t["general"@] {
                SettingModel::Table(g) => Found::Value(general_in(g)),
                _ => Found::WrongType,
            }
        },
        rules: if !t.dom().contains("rules"@) {
            Found::Missing
        } else {
            match t["rules"@] {
                SettingModel::Table(_) => Found::Value(()),
                _ => Found::WrongType,
            }
        },
    }
}

/// What is wrong where a key, or a section, is missing.
pub open spec fn missing_text(what: Seq<char>, section: Seq<char>) -> Seq<char> {
    "Missing "@ + what + " under "@ + section
}

/// What is wrong where there is something else.
pub open spec fn wrong_type_text(key: Seq<char>, section: Seq<char>, kind: Seq<char>) -> Seq<char> {
    "Key '"@ + key + "' under "@ + section + " must be "@ + kind
}

/// A key in quotes.
pub open spec fn quoted_key(key: Seq<char>) -> Seq<char> {
    "key \""@ + key + "\""@
}

/// The text under a key of the section `[general]`.
pub open spec fn need_text(key: Seq<char>, f: Found<Seq<char>>) -> core::result::Result<
    Seq<char>,
    Seq<char>,
> {
    match f {
        Found::Missing => Err(missing_text(quoted_key(key), "[general]"@)),
        Found::WrongType => Err(wrong_type_text(key, "[general]"@, "a string"@)),
        Found::Value(s) => Ok(s),
    }
}

/// The block size, or what is wrong with it.
pub open spec fn block_size_of(f: Found<i64>) -> core::result::Result<u32, Seq<char>> {
    let size = match f {
        Found::Value(i) => i,
        _ => DEFAULT_BLOCK_SIZE,
    };
    if f is WrongType {
        Err(wrong_type_text("block_size"@, "[general]"@, "an integer"@))
    } else if size < MIN_BLOCK_SIZE {
        Err("Block size "@ + text::signed_digits(size as int) + " too small (minimum 256)"@)
    } else if size > MAX_BLOCK_SIZE {
        Err("Block size "@ + text::signed_digits(size as int) + " too large (maximum 1GB)"@)
    } else {
        Ok(size as u32)
    }
}

/// The compression level, or what is wrong with it.
pub open spec fn compression_of(f: Found<Seq<char>>) -> core::result::Result<u32, Seq<char>> {
    match f {
        Found::WrongType => Err(wrong_type_text("compression"@, "[general]"@, "a string"@)),
        Found::Missing => Ok(6),
        Found::Value(name) => match compression_level(name) {
            Some(level) => Ok(level),
            None => Err("Invalid compression type '"@ + name + "'"@),
        },
    }
}

/// The configuration in the directory `parent` that the settings describe, or
/// the first thing that is wrong with them.
pub open spec fn config_of(
    parent: Seq<u8>,
    settings: SettingsModel,
    hash: Seq<u8>,
) -> core::result::Result<ConfigModel, Seq<char>> {
    match (settings.general, settings.rules) {
        (Found::Missing, _) => Err(missing_text("section [general]"@, "top level"@)),
        (Found::WrongType, _) => Err(wrong_type_text("general"@, "top level"@, "a table"@)),
        (_, Found::Missing) => Err(missing_text("section [rules]"@, "top level"@)),
        (_, Found::WrongType) => Err(wrong_type_text("rules"@, "top level"@, "a table"@)),
        (Found::Value(g), Found::Value(_)) => match need_text("path"@, g.path) {
            Err(e) => Err(e),
            Ok(client) => match need_text("server"@, g.server) {
                Err(e) => Err(e),
                Ok(server) => match server_of(server) {
                    Err(e) => Err(e),
                    Ok(server) => match need_text("server_root"@, g.server_root) {
                        Err(e) => Err(e),
                        Ok(server_root) => match need_text("passphrase"@, g.passphrase) {
                            Err(e) => Err(e),
                            Ok(passphrase) => match passphrase_of(passphrase) {
                                Err(e) => Err(e),
                                Ok(passphrase) => match block_size_of(g.block_size) {
                                    Err(e) => Err(e),
                                    Ok(block_size) => match compression_of(g.compression) {
                                        Err(e) => Err(e),
                                        Ok(compression) => Ok(
                                            ConfigModel {
                                                client_root: path::joined(
                                                    parent,
                                                    vstd::utf8::encode_utf8(client),
                                                ),
                                                private_root: path::joined(
                                                    parent,
                                                    vstd::utf8::encode_utf8(PRIVATE_DIR_NAME@),
                                                ),
                                                server: relative_server(server, parent),
                                                server_root,
                                                passphrase: relative_passphrase(passphrase, parent),
                                                block_size,
                                                compression,
                                                hash,
                                            },
                                        ),
                                    },
                                },
                            },
                        },
                    },
                },
            },
        },
    }
}

fn missing(what: &str, section: &str) -> (r: String)
    ensures
        r@ == missing_text(what@, section@),
{
    let mut s: String = String::new();
    s.append("Missing ");
    s.append(what);
    s.append(" under ");
    s.append(section);
    assert(s@ =~= missing_text(what@, section@));
    s
}

fn wrong_type(key: &str, section: &str, kind: &str) -> (r: String)
    ensures
        r@ == wrong_type_text(key@, section@, kind@),
{
    let mut s: String = String::new();
    s.append("Key '");
    s.append(key);
    s.append("' under ");
    s.append(section);
    s.append(" must be ");
    s.append(kind);
    assert(s@ =~= wrong_type_text(key@, section@, kind@));
    s
}

fn extract_text(key: &str, f: Found<String>) -> (r: core::result::Result<String, String>)
    ensures
        match r {
            Ok(s) => need_text(key@, found_text(f)) == Ok::<Seq<char>, Seq<char>>(s@),
            Err(e) => need_text(key@, found_text(f)) == Err::<Seq<char>, Seq<char>>(e@),
        },
{
    match f {
        Found::Missing => {
            let mut quoted: String = String::new();
            quoted.append("key \"");
            quoted.append(key);
            quoted.append("\"");
            assert(quoted@ =~= quoted_key(key@));
            Err(missing(quoted.as_str(), "[general]"))
        },
        Found::WrongType => Err(wrong_type(key, "[general]", "a string")),
        Found::Value(s) => Ok(s),
    }
}

fn extract_block_size(f: Found<i64>) -> (r: core::result::Result<u32, String>)
    ensures
        match r {
            Ok(n) => block_size_of(f) == Ok::<u32, Seq<char>>(n),
            Err(e) => block_size_of(f) == Err::<u32, Seq<char>>(e@),
        },
{
    let size: i64 = match f {
        Found::WrongType => {
            return Err(wrong_type("block_size", "[general]", "an integer"));
        },
        Found::Missing => DEFAULT_BLOCK_SIZE,
        Found::Value(i) => i,
    };
    let mut s: String = String::new();
    if size < MIN_BLOCK_SIZE {
        s.append("Block size ");
        text::push_signed(&mut s, size);
        s.append(" too small (minimum 256)");
        assert(s@ =~= block_size_of(f)->Err_0);
        Err(s)
    } else if size > MAX_BLOCK_SIZE {
        s.append("Block size ");
        text::push_signed(&mut s, size);
        s.append(" too large (maximum 1GB)");
        assert(s@ =~= block_size_of(f)->Err_0);
        Err(s)
    } else {
        Ok(size as u32)
    }
}

/// Looks the settings up in a document.
fn read_settings(t: &toml::map::Map<String, toml::Value>) -> (r: Settings)
    ensures
        r@ == settings_in(toml_table::settings(*t)),
{
    let general = match toml_table::get_table(t, "general") {
        Found::Missing => Found::Missing,
        Found::WrongType => Found::WrongType,
        Found::Value(g) => Found::Value(
            GeneralSettings {
                path: toml_table::get_text(g, "path"),
                server: toml_table::get_text(g, "server"),
                server_root: toml_table::get_text(g, "server_root"),
                passphrase: toml_table::get_text(g, "passphrase"),
                block_size: toml_table::get_integer(g, "block_size"),
                compression: toml_table::get_text(g, "compression"),
            },
        ),
    };
    let rules = match toml_table::get_table(t, "rules") {
        Found::Missing => Found::Missing,
        Found::WrongType => Found::WrongType,
        Found::Value(_) => Found::Value(()),
    };
    Settings { general, rules }
}

/// Whether the last component of a path is the name of the configuration file.
pub open spec fn names_config(p: Seq<u8>) -> bool {
    path::file_name_of(p) == Some(vstd::utf8::encode_utf8(CONFIG_FILE_NAME@))
}

/// Where the configuration file is that a path given by the user names: the
/// path may name its directory, and may be relative to the current directory.
pub open spec fn config_location(given: Seq<u8>, cwd: Seq<u8>) -> Seq<u8> {
    path::joined(
        cwd,
        if names_config(given) {
            given
        } else {
            path::joined(given, vstd::utf8::encode_utf8(CONFIG_FILE_NAME@))
        },
    )
}

fn is_config(p: &[u8]) -> (r: bool)
    ensures
        r == names_config(p@),
{
    match path::file_name(p) {
        Some(n) => bytes::same(n.as_slice(), CONFIG_FILE_NAME.as_bytes()),
        None => false,
    }
}

impl Config {
    /// Transform the given path (e.g., provided by the user) into the actual
    /// path for the configuration file, where `cwd` is the current directory.
    pub fn file_location(given: &[u8], cwd: &[u8]) -> (r: Name)
        ensures
            r@ == config_location(given@, cwd@),
    {
        if is_config(given) {
            path::join(cwd, given)
        } else {
            path::join(cwd, path::join(given, CONFIG_FILE_NAME.as_bytes()).as_slice())
        }
    }

    /// Returns the path to the configuration file itself.
    pub fn full_path(&self) -> (r: Name)
        requires
            path::parent_of(self.private_root@) is Some,
        ensures
            r@ == path::joined(
                path::parent_of(self.private_root@)->0,
                vstd::utf8::encode_utf8(CONFIG_FILE_NAME@),
            ),
    {
        match path::parent(self.private_root.as_slice()) {
            Some(parent) => path::join(parent.as_slice(), CONFIG_FILE_NAME.as_bytes()),
            None => Vec::new(),
        }
    }

    /// Makes a configuration in the directory `parent` out of its settings, or
    /// says what is wrong with them.
    pub fn from_settings(parent: &[u8], settings: Settings, hash: HashId) -> (r:
        core::result::Result<Config, String>)
        ensures
            match r {
                Ok(c) => config_of(parent@, settings@, hash@) == Ok::<ConfigModel, Seq<char>>(c@),
                Err(e) => config_of(parent@, settings@, hash@) == Err::<ConfigModel, Seq<char>>(e@),
            },
    {
        let Settings { general, rules } = settings;
        let g = match general {
            Found::Missing => {
                return Err(missing("section [general]", "top level"));
            },
            Found::WrongType => {
                return Err(wrong_type("general", "top level", "a table"));
            },
            Found::Value(g) => g,
        };
        match rules {
            Found::Missing => {
                return Err(missing("section [rules]", "top level"));
            },
            Found::WrongType => {
                return Err(wrong_type("rules", "top level", "a table"));
            },
            Found::Value(_) => {},
        }
        let client = match extract_text("path", g.path) {
            Ok(s) => s,
            Err(e) => {
                return Err(e);
            },
        };
        let server = match extract_text("server", g.server) {
            Ok(s) => s,
            Err(e) => {
                return Err(e);
            },
        };
        let server = match ServerConfig::from_str(server.as_str()) {
            Ok(s) => s,
            Err(e) => {
                return Err(e);
            },
        };
        let server_root = match extract_text("server_root", g.server_root) {
            Ok(s) => s,
            Err(e) => {
                return Err(e);
            },
        };
        let passphrase = match extract_text("passphrase", g.passphrase) {
            Ok(s) => s,
            Err(e) => {
                return Err(e);
            },
        };
        let passphrase = match PassphraseConfig::from_str(passphrase.as_str()) {
            Ok(s) => s,
            Err(e) => {
                return Err(e);
            },
        };
        let block_size: u32 = match extract_block_size(g.block_size) {
            Ok(n) => n,
            Err(e) => {
                return Err(e);
            },
        };
        let compression: u32 = match g.compression {
            Found::WrongType => {
                return Err(wrong_type("compression", "[general]", "a string"));
            },
            Found::Missing => default_compression(),
            Found::Value(name) => match level_of(name.as_str()) {
                Ok(level) => level,
                Err(e) => {
                    return Err(e);
                },
            },
        };
        Ok(
            Config {
                client_root: path::join(parent, client.as_str().as_bytes()),
                private_root: path::join(parent, PRIVATE_DIR_NAME.as_bytes()),
                server: server.relativise(parent),
                server_root,
                passphrase: passphrase.relativise(parent),
                block_size,
                compression,
                hash,
            },
        )
    }

    /// Parses the configuration in `s`. `filename` names the file from which
    /// the text was loaded and must end with `CONFIG_FILE_NAME`.
    pub fn parse(filename: &[u8], s: &str) -> (r: Result<Config>)
        requires
            names_config(filename@),
        ensures
            match toml_table::document(s@) {
                Err(e) => r matches Err(x) && x.kind is Other && x.kind->Other_0@ == about(
                    filename@,
                    "Syntax error: "@ + e,
                ),
                Ok(t) => match config_of(
                    path::parent_of(filename@)->0,
                    settings_in(t),
                    digest::sha3(vstd::utf8::encode_utf8(s@)),
                ) {
                    Err(e) => r matches Err(x) && x.kind is Other && x.kind->Other_0@ == about(
                        filename@,
                        e,
                    ),
                    Ok(c) => r matches Ok(x) && x@ == c,
                },
            },
    {
        let hash: HashId = digest::sha3_256(s.as_bytes());
        let parent: Name = match path::parent(filename) {
            Some(parent) => parent,
            None => Vec::new(),
        };
        let table = match toml_table::parse_toml(s) {
            Ok(table) => table,
            Err(e) => {
                let mut t: String = String::new();
                t.append("Syntax error: ");
                t.append(e.as_str());
                assert(t@ =~= "Syntax error: "@ + e@);
                return Err(message(said_of(filename, t.as_str())));
            },
        };
        let settings = read_settings(&table);
        match Config::from_settings(parent.as_slice(), settings, hash) {
            Ok(c) => Ok(c),
            Err(e) => Err(message(said_of(filename, e.as_str()))),
        }
    }
}

/// Returns the level that the name of a compression stands for.
fn level_of(name: &str) -> (r: core::result::Result<u32, String>)
    ensures
        match r {
            Ok(level) => compression_level(name@) == Some(level),
            Err(e) => compression_level(name@) is None && e@ == "Invalid compression type '"@ + name@
                + "'"@,
        },
{
    if text::same(name, "none") || text::same(name, "off") {
        Ok(no_compression())
    } else if text::same(name, "default") || text::same(name, "on") {
        Ok(default_compression())
    } else if text::same(name, "best") {
        Ok(best_compression())
    } else if text::same(name, "fast") {
        Ok(fast_compression())
    } else {
        let mut s: String = String::new();
        s.append("Invalid compression type '");
        s.append(name);
        s.append("'");
        assert(s@ =~= "Invalid compression type '"@ + name@ + "'"@);
        Err(s)
    }
}

/// What is stripped from a passphrase are line ends, and none is left.
pub proof fn law_passphrase_stripped(data: Seq<u8>)
    ensures
        ({
            let p = without_newlines(data);
            &&& p.len() <= data.len()
            &&& data.take(p.len() as int) == p
            &&& p.len() > 0 ==> p.last() != 10 && p.last() != 13
            &&& forall|i: int| p.len() <= i < data.len() ==> data[i] == 10 || data[i] == 13
        }),
    decreases data.len(),
{
    if data.len() > 0 && (data.last() == 10 || data.last() == 13) {
        law_passphrase_stripped(data.drop_last());
        let p = without_newlines(data);
        assert(data.take(p.len() as int) =~= data.drop_last().take(p.len() as int));
        assert forall|i: int| p.len() <= i < data.len() implies data[i] == 10 || data[i] == 13 by {
            if i < data.len() - 1 {
                assert(data.drop_last()[i] == data[i]);
            }
        }
    } else {
        assert(data.take(data.len() as int) =~= data);
    }
}

/// The name of the configuration file is a name.
proof fn lemma_config_name()
    ensures
        names_config(vstd::utf8::encode_utf8(CONFIG_FILE_NAME@)),
        vstd::utf8::encode_utf8(CONFIG_FILE_NAME@).len() > 0,
        vstd::utf8::encode_utf8(CONFIG_FILE_NAME@)[0] != path::SEPARATOR,
{
    reveal_strlit("config.toml");
    let c = CONFIG_FILE_NAME@;
    assert(vstd::utf8::is_ascii_chars(c));
    vstd::utf8::is_ascii_chars_encode_utf8(c);
    let n = vstd::utf8::encode_utf8(c);
    assert(n.len() == c.len());
    assert forall|j: int| 0 <= j < n.len() implies n[j] != path::SEPARATOR by {
        assert(n[j] == c[j] as u8);
    }
    path::law_file_name(n);
}

/// The location of the configuration is absolute if the current directory is,
/// and it always names what should be the configuration file itself.
pub proof fn law_config_location(given: Seq<u8>, cwd: Seq<u8>)
    ensures
        names_config(config_location(given, cwd)),
        cwd.len() > 0 && cwd[0] == path::SEPARATOR ==> config_location(given, cwd).len() > 0
            && config_location(given, cwd)[0] == path::SEPARATOR,
{
    lemma_config_name();
    let n = vstd::utf8::encode_utf8(CONFIG_FILE_NAME@);
    let b = if names_config(given) {
        given
    } else {
        path::joined(given, n)
    };
    if !names_config(given) {
        if given.len() == 0 || given.last() == path::SEPARATOR {
            path::law_file_name_behind(given, n);
        } else {
            path::law_file_name_behind(given.push(path::SEPARATOR), n);
        }
    }
    if !(b.len() > 0 && b[0] == path::SEPARATOR) {
        if cwd.len() == 0 || cwd.last() == path::SEPARATOR {
            path::law_file_name_behind(cwd, b);
        } else {
            path::law_file_name_behind(cwd.push(path::SEPARATOR), b);
        }
    }
}

/// The type of a setting ends at the first colon.
proof fn lemma_parts(typ: Seq<char>, value: Seq<char>, s: Seq<char>)
    requires
        !typ.contains(':'),
        s == typ.push(':') + value,
    ensures
        parts(s) == Some((typ, value)),
{
    let i = typ.len() as int;
    assert(s[i] == ':');
    assert(s.contains(':'));
    s.index_of_first_ensures(':');
    let j = s.index_of_first(':')->0;
    if j < i {
        assert(typ[j] == ':');
    }
    assert(s.take(i) =~= typ);
    assert(s.skip(i + 1) =~= value);
}

/// Whether nothing of a passphrase configuration is lost in its string
/// representation.
pub open spec fn can_be_written(c: PassphraseModel) -> bool {
    match c {
        PassphraseModel::File(p) => vstd::utf8::valid_utf8(p),
        PassphraseModel::Shell(_, dir) => dir is None,
        _ => true,
    }
}

/// The name of a file is parsed from behind its type.
proof fn lemma_file_text(name: Seq<char>, s: Seq<char>)
    requires
        s == "file:"@ + name,
    ensures
        passphrase_of(s) == Ok::<PassphraseModel, Seq<char>>(
            PassphraseModel::File(vstd::utf8::encode_utf8(name)),
        ),
{
    reveal_strlit("prompt");
    reveal_strlit("string");
    reveal_strlit("file");
    reveal_strlit("file:");
    assert("file:"@ =~= "file"@.push(':'));
    lemma_parts("file"@, name, s);
    assert(s[4] == ':');
    assert("prompt"@[4] == 'p');
    assert("file"@.len() != "string"@.len());
}

/// A passphrase configuration that holds no filename is parsed from its string
/// representation.
pub proof fn law_passphrase_text(c: PassphraseModel)
    requires
        !(c is File),
        c matches PassphraseModel::Shell(_, dir) ==> dir is None,
    ensures
        passphrase_of(passphrase_text(c)) == Ok::<PassphraseModel, Seq<char>>(c),
{
    reveal_strlit("prompt");
    reveal_strlit("string");
    reveal_strlit("string:");
    reveal_strlit("file");
    reveal_strlit("shell");
    reveal_strlit("shell:");
    let s = passphrase_text(c);
    match c {
        PassphraseModel::String(value) => {
            assert("string:"@ =~= "string"@.push(':'));
            lemma_parts("string"@, value, s);
            assert(s[6] == ':');
            assert(s != "prompt"@);
        },
        PassphraseModel::Shell(value, _) => {
            assert("shell:"@ =~= "shell"@.push(':'));
            lemma_parts("shell"@, value, s);
            assert(s[5] == ':');
            assert("prompt"@[5] == 't');
            assert("shell"@.len() != "string"@.len());
            assert("shell"@.len() != "file"@.len());
        },
        _ => {},
    }
}

/// Whether `p` is what is left of `data` without the line feeds and carriage
/// returns at its end.
pub open spec fn ends_stripped(p: Seq<u8>, data: Seq<u8>) -> bool {
    &&& p.len() <= data.len() && data.take(p.len() as int) == p
    &&& p.len() > 0 ==> p.last() != 10 && p.last() != 13
    &&& forall|i: int| p.len() <= i < data.len() ==> data[i] == 10 || data[i] == 13
}

/// Whether `p` is the passphrase that is found in `data`, if there is one: there
/// is, unless nothing is left without the line ends.
pub open spec fn passphrase_within(p: Option<Seq<u8>>, data: Seq<u8>) -> bool {
    match p {
        Some(p) => p.len() > 0 && ends_stripped(p, data),
        None => ends_stripped(Seq::empty(), data),
    }
}

/// There is one way to strip the line ends.
pub proof fn law_stripped_once(p: Seq<u8>, q: Seq<u8>, data: Seq<u8>)
    requires
        ends_stripped(p, data),
        ends_stripped(q, data),
    ensures
        p == q,
{
    if p.len() < q.len() {
        assert(data.take(q.len() as int)[q.len() - 1] == data[q.len() - 1]);
    }
    if q.len() < p.len() {
        assert(data.take(p.len() as int)[p.len() - 1] == data[p.len() - 1]);
    }
}

/// What is read is what is found without the line ends.
proof fn lemma_within(c: PassphraseModel, reply: PassphraseReply)
    requires
        raw_passphrase(c, reply) is Some,
    ensures
        passphrase_within(passphrase_read(c, reply), raw_passphrase(c, reply)->0),
{
    let data = raw_passphrase(c, reply)->0;
    law_passphrase_stripped(data);
    if without_newlines(data).len() == 0 {
        assert(without_newlines(data) =~= Seq::empty());
    }
}

/// What is typed at a prompt is the passphrase, unless it is to be confirmed and
/// is not typed again.
pub proof fn law_typed_passphrase(first: String, second: Option<String>)
    ensures
        ({
            let read = passphrase_read(
                PassphraseModel::Prompt,
                PassphraseReply::Typed(first, second),
            );
            &&& second is None ==> passphrase_within(read, vstd::utf8::encode_utf8(first@))
            &&& second is Some && second->0@ == first@ ==> passphrase_within(
                read,
                vstd::utf8::encode_utf8(first@),
            )
            &&& second is Some && second->0@ != first@ ==> read is None
        }),
{
    let reply = PassphraseReply::Typed(first, second);
    if raw_passphrase(PassphraseModel::Prompt, reply) is Some {
        lemma_within(PassphraseModel::Prompt, reply);
    }
}

/// What the file holds, or the command writes, is the passphrase.
pub proof fn law_data_passphrase(c: PassphraseModel, data: Vec<u8>)
    requires
        c is File || c is Shell,
    ensures
        passphrase_within(passphrase_read(c, PassphraseReply::Data(data)), data@),
{
    lemma_within(c, PassphraseReply::Data(data));
}

/// A passphrase that is configured is used, whatever is replied.
pub proof fn law_configured_passphrase(s: Seq<char>, reply: PassphraseReply)
    ensures
        passphrase_within(
            passphrase_read(PassphraseModel::String(s), reply),
            vstd::utf8::encode_utf8(s),
        ),
{
    lemma_within(PassphraseModel::String(s), reply);
}

/// Whether a reply is one to what is asked for.
pub open spec fn fits(c: PassphraseModel, reply: PassphraseReply) -> bool {
    match reply {
        PassphraseReply::Nothing => c is String,
        PassphraseReply::Typed(_, _) => c is Prompt,
        PassphraseReply::Data(_) => c is File || c is Shell,
        PassphraseReply::Failed(_) => !(c is String),
        PassphraseReply::Unsuccessful(_) => c is Shell,
    }
}

/// Unless it is configured, there is no passphrase exactly if something failed,
/// was typed differently the second time, or nothing is left without the line
/// ends.
pub proof fn law_no_passphrase(c: PassphraseModel, reply: PassphraseReply)
    requires
        fits(c, reply),
    ensures
        passphrase_read(c, reply) is None <==> match reply {
            PassphraseReply::Failed(_) => true,
            PassphraseReply::Unsuccessful(_) => true,
            PassphraseReply::Typed(first, second) => ends_stripped(
                Seq::empty(),
                vstd::utf8::encode_utf8(first@),
            ) || (second is Some && second->0@ != first@),
            PassphraseReply::Data(data) => ends_stripped(Seq::empty(), data@),
            PassphraseReply::Nothing => ends_stripped(
                Seq::empty(),
                vstd::utf8::encode_utf8(c->String_0),
            ),
        },
{
    if raw_passphrase(c, reply) is Some {
        lemma_within(c, reply);
        let data = raw_passphrase(c, reply)->0;
        if passphrase_read(c, reply) is Some && ends_stripped(Seq::empty(), data) {
            law_stripped_once(Seq::empty(), passphrase_read(c, reply)->0, data);
        }
    }
}

/// What is wrong is said in terms of what was asked for: the name of the file, or
/// the command and what became of it. Lines that do not match, a file, a command
/// and a terminal are told apart.
pub proof fn law_passphrase_errors(c: PassphraseModel, reply: PassphraseReply)
    requires
        !(c is String),
    ensures
        ({
            let e = passphrase_error(c, reply);
            &&& c matches PassphraseModel::File(p) ==> {
                let name = text::utf8_lossy(p);
                e.len() == name.len() + 31 && e.skip(31) == name && e[7] == 't' && e[10] == 'r'
            }
            &&& c matches PassphraseModel::Shell(command, _) ==> {
                let at: int = if reply is Unsuccessful {
                    9
                } else {
                    27
                };
                &&& e.len() > at + command.len() && e.subrange(at, at + command.len()) == command
                &&& e[at - 1] == '`' && e[at + command.len()] == '`'
                &&& reply matches PassphraseReply::Unsuccessful(status) ==> e.skip(
                    at + command.len() + 14,
                ) == status@
            }
            &&& c is Prompt ==> e == if reply is Typed {
                "Passwords do not match"@
            } else {
                "Failed to read the passphrase from the terminal"@
            }
        }),
{
    reveal_strlit("Failed to read passphrase from ");
    reveal_strlit("Command `");
    reveal_strlit("` failed with ");
    reveal_strlit("Failed to execute command `");
    reveal_strlit("`");
    let e = passphrase_error(c, reply);
    match c {
        PassphraseModel::File(p) => {
            assert(e.skip(31) =~= text::utf8_lossy(p));
        },
        PassphraseModel::Shell(command, _) => {
            if let PassphraseReply::Unsuccessful(status) = reply {
                assert(e.subrange(9, 9int + command.len()) =~= command);
                assert(e.skip(9int + command.len() + 14) =~= status@);
            } else {
                assert(e.subrange(27, 27int + command.len()) =~= command);
            }
        },
        _ => {},
    }
}

/// A setting has a type exactly if there is a colon; what is before the first one
/// is the type, what is behind it the value.
pub proof fn law_parts(s: Seq<char>)
    ensures
        parts(s) is Some <==> s.contains(':'),
        parts(s) matches Some((typ, value)) ==> !typ.contains(':') && s == typ.push(':') + value,
{
    if s.contains(':') {
        s.index_of_first_ensures(':');
        let i = s.index_of_first(':')->0;
        let (typ, value) = (s.take(i), s.skip(i + 1));
        assert(s =~= typ.push(':') + value);
        if typ.contains(':') {
            let k = typ.index_of(':');
            assert(s[k] == ':');
        }
    }
}

/// A server is a path or a command, and what is behind the type in the setting is
/// taken as it stands. Anything else is refused.
pub proof fn law_server_setting(s: Seq<char>, value: Seq<char>)
    ensures
        server_of("path:"@ + value) == Ok::<ServerModel, Seq<char>>(
            ServerModel::Path(vstd::utf8::encode_utf8(value)),
        ),
        server_of("shell:"@ + value) == Ok::<ServerModel, Seq<char>>(
            ServerModel::Shell(value, None),
        ),
        server_of(s) is Ok ==> s.len() >= 5 && s == "path:"@ + s.skip(5) || s.len() >= 6 && s
            == "shell:"@ + s.skip(6),
{
    reveal_strlit("path");
    reveal_strlit("shell");
    reveal_strlit("path:");
    reveal_strlit("shell:");
    assert("path"@.len() != "shell"@.len());
    assert("path:"@ =~= "path"@.push(':'));
    assert("shell:"@ =~= "shell"@.push(':'));
    lemma_parts("path"@, value, "path:"@ + value);
    lemma_parts("shell"@, value, "shell:"@ + value);
    if server_of(s) is Ok {
        law_parts(s);
        let (typ, v) = parts(s)->0;
        if typ == "path"@ {
            assert(s.skip(5) =~= v);
        } else {
            assert(s.skip(6) =~= v);
        }
    }
}

/// A passphrase is asked for, or is a string, in a file or written by a command,
/// and what is behind the type in the setting is taken as it stands. Anything else
/// is refused.
pub proof fn law_passphrase_setting(s: Seq<char>, value: Seq<char>)
    ensures
        passphrase_of("prompt"@) == Ok::<PassphraseModel, Seq<char>>(PassphraseModel::Prompt),
        passphrase_of("string:"@ + value) == Ok::<PassphraseModel, Seq<char>>(
            PassphraseModel::String(value),
        ),
        passphrase_of("file:"@ + value) == Ok::<PassphraseModel, Seq<char>>(
            PassphraseModel::File(vstd::utf8::encode_utf8(value)),
        ),
        passphrase_of("shell:"@ + value) == Ok::<PassphraseModel, Seq<char>>(
            PassphraseModel::Shell(value, None),
        ),
        passphrase_of(s) is Ok ==> {
            ||| s == "prompt"@
            ||| s.len() >= 7 && s == "string:"@ + s.skip(7)
            ||| s.len() >= 5 && s == "file:"@ + s.skip(5)
            ||| s.len() >= 6 && s == "shell:"@ + s.skip(6)
        },
{
    law_passphrase_text(PassphraseModel::String(value));
    law_passphrase_text(PassphraseModel::Shell(value, None));
    lemma_file_text(value, "file:"@ + value);
    reveal_strlit("string");
    reveal_strlit("string:");
    reveal_strlit("file");
    reveal_strlit("file:");
    reveal_strlit("shell");
    reveal_strlit("shell:");
    assert("string:"@ =~= "string"@.push(':'));
    assert("file:"@ =~= "file"@.push(':'));
    assert("shell:"@ =~= "shell"@.push(':'));
    if passphrase_of(s) is Ok && s != "prompt"@ {
        law_parts(s);
        let (typ, v) = parts(s)->0;
        if typ == "string"@ {
            assert(s.skip(7) =~= v);
        } else if typ == "file"@ {
            assert(s.skip(5) =~= v);
        } else {
            assert(s.skip(6) =~= v);
        }
    }
}

/// Of a server or a passphrase that is taken from a directory, an absolute path
/// stays as it is, any other is looked for in the directory, and a command stays
/// the same but is run there.
pub proof fn law_relative(s: ServerModel, p: PassphraseModel, parent: Seq<u8>)
    ensures
        match (s, relative_server(s, parent)) {
            (ServerModel::Path(was), ServerModel::Path(is)) => {
                &&& path::absolute(was) ==> is == was
                &&& !path::absolute(was) && was.len() > 0 && parent.len() > 0 ==> path::relative(
                    parent,
                    is,
                ) == Some(was)
                &&& parent.len() == 0 ==> is == was
            },
            (ServerModel::Shell(was, _), ServerModel::Shell(is, dir)) => is == was && dir == Some(
                parent,
            ),
            _ => false,
        },
        match (p, relative_passphrase(p, parent)) {
            (PassphraseModel::File(was), PassphraseModel::File(is)) => {
                &&& path::absolute(was) ==> is == was
                &&& !path::absolute(was) && was.len() > 0 && parent.len() > 0 ==> path::relative(
                    parent,
                    is,
                ) == Some(was)
                &&& parent.len() == 0 ==> is == was
            },
            (PassphraseModel::Shell(was, _), PassphraseModel::Shell(is, dir)) => is == was && dir
                == Some(parent),
            (PassphraseModel::String(was), PassphraseModel::String(is)) => is == was,
            (PassphraseModel::Prompt, PassphraseModel::Prompt) => true,
            _ => false,
        },
{
    if let ServerModel::Path(was) = s {
        if !path::absolute(was) && was.len() > 0 && parent.len() > 0 {
            path::law_join_strip(parent, was);
        }
        assert(parent.len() == 0 ==> parent + was =~= was);
    }
    if let PassphraseModel::File(was) = p {
        if !path::absolute(was) && was.len() > 0 && parent.len() > 0 {
            path::law_join_strip(parent, was);
        }
        assert(parent.len() == 0 ==> parent + was =~= was);
    }
}

/// What each name of a compression means next to the others. Nothing else is the
/// name of one.
pub proof fn law_compression_names(name: Seq<char>)
    ensures
        compression_of(Found::Value("none"@)) == compression_of(Found::Value("off"@)),
        compression_of(Found::Value("default"@)) == compression_of(Found::Value("on"@)),
        compression_of(Found::Value("default"@)) == compression_of(Found::Missing),
        compression_level("none"@) matches Some(none) && compression_level("fast"@) matches Some(
            fast,
        ) && compression_level("default"@) matches Some(usual) && compression_level(
            "best"@,
        ) matches Some(best) && none == 0 && fast == 1 && usual == 6 && best == 9,
        compression_level(name) is Some <==> name == "none"@ || name == "off"@ || name == "fast"@
            || name == "default"@ || name == "on"@ || name == "best"@,
        compression_of(Found::Value(name)) is Ok <==> compression_level(name) is Some,
        compression_of(Found::WrongType) is Err,
{
    reveal_strlit("none");
    reveal_strlit("off");
    reveal_strlit("default");
    reveal_strlit("on");
    reveal_strlit("fast");
    reveal_strlit("best");
    assert("none"@[0] == 'n' && "off"@[0] == 'o' && "default"@[0] == 'd' && "on"@[0] == 'o');
    assert("fast"@[0] == 'f' && "best"@[0] == 'b' && "off"@[1] == 'f' && "on"@[1] == 'n');
}

/// A block size that is given is the block size. It is refused exactly if it is
/// no integer, less than a quarter of a kilobyte or more than a gigabyte.
pub proof fn law_block_size(f: Found<i64>)
    ensures
        f matches Found::Value(i) ==> {
            &&& block_size_of(f) is Ok <==> 256 <= i <= 1024 * 1024 * 1024
            &&& block_size_of(f) matches Ok(n) ==> n == i
        },
        f is WrongType ==> block_size_of(f) is Err,
        f is Missing ==> (block_size_of(f) matches Ok(n) && n == 1024 * 1024 - 512),
{
}

/// Under which keys the settings of a document are.
pub proof fn law_settings(t: Map<Seq<char>, SettingModel>)
    ensures
        settings_in(t).general is Missing <==> !t.dom().contains("general"@),
        settings_in(t).general is Value <==> t.dom().contains("general"@) && t["general"@] is Table,
        settings_in(t).rules is Missing <==> !t.dom().contains("rules"@),
        settings_in(t).rules is Value <==> t.dom().contains("rules"@) && t["rules"@] is Table,
        settings_in(t).general matches Found::Value(g) ==> {
            let section = t["general"@]->Table_0;
            &&& has_text(section, "path"@, g.path)
            &&& has_text(section, "server"@, g.server)
            &&& has_text(section, "server_root"@, g.server_root)
            &&& has_text(section, "passphrase"@, g.passphrase)
            &&& has_text(section, "compression"@, g.compression)
            &&& g.block_size is Missing <==> !section.dom().contains("block_size"@)
            &&& section.dom().contains("block_size"@) ==> match section["block_size"@] {
                SettingModel::Integer(i) => g.block_size == Found::Value(i),
                _ => g.block_size is WrongType,
            }
        },
{
}

/// Whether the text that was found is the one under a key.
pub open spec fn has_text(
    section: Map<Seq<char>, SettingModel>,
    key: Seq<char>,
    f: Found<Seq<char>>,
) -> bool {
    &&& f is Missing <==> !section.dom().contains(key)
    &&& f is WrongType ==> !(section[key] is Text)
    &&& f matches Found::Value(s) ==> section[key] == SettingModel::Text(s)
}

/// A configuration is accepted exactly if each section and each setting that has
/// to be there is, and each is valid.
pub proof fn law_config_accepted(parent: Seq<u8>, settings: SettingsModel, hash: Seq<u8>)
    ensures
        config_of(parent, settings, hash) is Ok <==> {
            &&& settings.rules is Value
            &&& settings.general matches Found::Value(g) && {
                &&& g.path is Value && g.server_root is Value
                &&& g.server matches Found::Value(s) && server_of(s) is Ok
                &&& g.passphrase matches Found::Value(s) && passphrase_of(s) is Ok
                &&& g.compression is Missing || (g.compression is Value && compression_level(
                    g.compression->Value_0,
                ) is Some)
                &&& g.block_size is Missing || (g.block_size is Value && 256
                    <= g.block_size->Value_0 <= 1024 * 1024 * 1024)
            }
        },
{
}

/// A configuration that is accepted says what the settings say: each part of it is
/// what the setting of its name gives, with filenames taken from the directory of
/// the configuration.
pub proof fn law_config_values(parent: Seq<u8>, settings: SettingsModel, hash: Seq<u8>)
    ensures
        config_of(parent, settings, hash) matches Ok(c) ==> (settings.general matches Found::Value(
            g,
        ) && {
            &&& g.path matches Found::Value(s) && c.client_root == path::joined(
                parent,
                vstd::utf8::encode_utf8(s),
            )
            &&& c.private_root == path::joined(parent, vstd::utf8::encode_utf8("internal.ensync"@))
            &&& g.server matches Found::Value(s) && server_of(s) matches Ok(server) && c.server
                == relative_server(server, parent)
            &&& g.server_root == Found::Value(c.server_root)
            &&& g.passphrase matches Found::Value(s) && passphrase_of(s) matches Ok(passphrase)
                && c.passphrase == relative_passphrase(passphrase, parent)
            &&& g.block_size matches Found::Value(i) ==> c.block_size == i
            &&& g.block_size is Missing ==> c.block_size == 1024 * 1024 - 512
            &&& g.compression matches Found::Value(name) ==> compression_level(name) == Some(
                c.compression,
            )
            &&& g.compression is Missing ==> compression_level("default"@) == Some(c.compression)
            &&& c.hash == hash
        }),
{
    law_compression_names("default"@);
}

/// A change of one setting to another valid one changes what it is about and
/// nothing else.
pub proof fn law_settings_apart(
    parent: Seq<u8>,
    g: GeneralModel,
    size: i64,
    root: Seq<char>,
    hash: Seq<u8>,
)
    ensures
        config_of(
            parent,
            SettingsModel { general: Found::Value(g), rules: Found::Value(()) },
            hash,
        ) matches Ok(c) ==> {
            &&& 256 <= size <= 1024 * 1024 * 1024 ==> config_of(
                parent,
                SettingsModel {
                    general: Found::Value(GeneralModel { block_size: Found::Value(size), ..g }),
                    rules: Found::Value(()),
                },
                hash,
            ) == Ok::<ConfigModel, Seq<char>>(ConfigModel { block_size: size as u32, ..c })
            &&& config_of(
                parent,
                SettingsModel {
                    general: Found::Value(GeneralModel { server_root: Found::Value(root), ..g }),
                    rules: Found::Value(()),
                },
                hash,
            ) == Ok::<ConfigModel, Seq<char>>(ConfigModel { server_root: root, ..c })
        },
{
}

/// If the section `[general]` of a document holds an integer as the block size and
/// the configuration is accepted, that integer is its block size.
pub proof fn law_document_block_size(
    parent: Seq<u8>,
    t: Map<Seq<char>, SettingModel>,
    hash: Seq<u8>,
)
    requires
        t.dom().contains("general"@),
        t["general"@] is Table,
        t["general"@]->Table_0.dom().contains("block_size"@),
    ensures
        config_of(parent, settings_in(t), hash) matches Ok(c)
            ==> t["general"@]->Table_0["block_size"@] == SettingModel::Integer(c.block_size as i64)
            && 256 <= c.block_size <= 1024 * 1024 * 1024,
{
}

/// A path that names the configuration file is taken as it stands, from the
/// current directory if it is relative. Any other is taken as the directory that
/// the file is in.
pub proof fn law_config_found(given: Seq<u8>, cwd: Seq<u8>)
    ensures
        names_config(given) && path::absolute(given) ==> config_location(given, cwd) == given,
        names_config(given) && !path::absolute(given) && cwd.len() > 0 ==> path::relative(
            cwd,
            config_location(given, cwd),
        ) == Some(given),
        !names_config(given) && path::absolute(given) ==> path::relative(
            given,
            config_location(given, cwd),
        ) == Some(vstd::utf8::encode_utf8("config.toml"@)),
        !names_config(given) && !path::absolute(given) && given.len() > 0 ==> config_location(
            given,
            cwd,
        ) == path::joined(
            path::joined(cwd, given),
            vstd::utf8::encode_utf8("config.toml"@),
        ),
{
    lemma_config_name();
    let n = vstd::utf8::encode_utf8(CONFIG_FILE_NAME@);
    if names_config(given) {
        if !path::absolute(given) && cwd.len() > 0 {
            assert(given.len() > 0) by {
                if given.len() == 0 {
                    assert(path::components(given).len() == 0);
                }
            }
            path::law_join_strip(cwd, given);
        }
    } else if path::absolute(given) {
        path::law_join_strip(given, n);
    } else if given.len() > 0 {
        let inner = path::joined(given, n);
        assert(!path::absolute(inner));
        assert(path::joined(cwd, inner) =~= path::joined(path::joined(cwd, given), n));
    }
}

/// From the private directory beside it, the configuration file is found again.
pub proof fn law_full_path(filename: Seq<u8>)
    requires
        names_config(filename),
    ensures
        path::parent_of(filename) is Some,
        ({
            let dir = path::parent_of(filename)->0;
            let private = path::joined(dir, vstd::utf8::encode_utf8(PRIVATE_DIR_NAME@));
            &&& path::parent_of(private) is Some
            &&& path::same_path(
                path::joined(
                    path::parent_of(private)->0,
                    vstd::utf8::encode_utf8(CONFIG_FILE_NAME@),
                ),
                filename,
            )
        }),
{
    path::law_place(filename);
    let dir = path::parent_of(filename)->0;
    reveal_strlit("internal.ensync");
    let c = PRIVATE_DIR_NAME@;
    assert(vstd::utf8::is_ascii_chars(c));
    vstd::utf8::is_ascii_chars_encode_utf8(c);
    let n = vstd::utf8::encode_utf8(c);
    assert(n.len() == c.len());
    assert forall|j: int| 0 <= j < n.len() implies n[j] != path::SEPARATOR by {
        assert(n[j] == c[j] as u8);
    }
    assert(n != seq![path::DOT]);
    path::law_joined_name(dir, n);
    let private = path::joined(dir, n);
    path::law_parent(private);
    path::law_parent(filename);
    let d = path::parent_of(private)->0;
    assert(path::components(private).drop_last() =~= path::components(dir));
    let f = vstd::utf8::encode_utf8(CONFIG_FILE_NAME@);
    lemma_config_name();
    path::law_own_name(f);
    assert(path::file_name_of(f) == Some(f));
    path::law_joined_name(d, f);
    path::law_joined_name(dir, f);
}

/// What is asked for is what the configuration says, and can be told from it: the
/// user is prompted for a passphrase that is not to be had otherwise, twice if it is
/// to be confirmed, and told what it is for each time.
pub proof fn law_request(c: PassphraseModel, what: Seq<char>, confirm: bool)
    ensures
        match request_for(c, what, confirm) {
            RequestModel::Nothing => c is String,
            RequestModel::Prompt(first, second) => c is Prompt && text::stands(first, 6, what)
                && text::stands(first, 0, "Enter "@) && (second is Some <==> confirm) && (
            second matches Some(s) ==> text::stands(s, 7, what) && text::stands(s, 0, "Retype "@)),
            RequestModel::Read(p) => c == PassphraseModel::File(p),
            RequestModel::Run(command, dir) => c == PassphraseModel::Shell(command, dir),
        },
{
    reveal_strlit("Enter ");
    reveal_strlit("Retype ");
    reveal_strlit(": ");
    if let RequestModel::Prompt(first, second) = request_for(c, what, confirm) {
        assert(first.subrange(6, 6int + what.len()) =~= what);
        assert(first.subrange(0, 6) =~= "Enter "@);
        if let Some(s) = second {
            assert(s.subrange(7, 7int + what.len()) =~= what);
            assert(s.subrange(0, 7) =~= "Retype "@);
        }
    }
}

/// What is missing is named, and where it is looked for; what is of the wrong type is
/// named, too, with the type that it has to be of. What is said of a file begins with
/// its name.
pub proof fn law_complaint_texts(what: Seq<char>, section: Seq<char>, kind: Seq<char>, file: Seq<u8>)
    ensures
        ({
            let t = missing_text(what, section);
            &&& text::stands(t, 0, "Missing "@) && text::stands(t, 8, what)
            &&& text::stands(t, 8int + what.len(), " under "@)
            &&& t.skip(15int + what.len()) == section
        }),
        ({
            let t = wrong_type_text(what, section, kind);
            &&& text::stands(t, 5, what) && text::stands(t, 5int + what.len(), "' under "@)
            &&& text::stands(t, 13int + what.len(), section)
            &&& t.skip(22int + what.len() + section.len()) == kind
        }),
        quoted_key(what).len() == what.len() + 6 && text::stands(quoted_key(what), 5, what),
        ({
            let name = text::utf8_lossy(file);
            &&& text::stands(about(file, what), 0, name)
            &&& about(file, what).skip(2int + name.len()) == what
        }),
{
    reveal_strlit("Missing ");
    reveal_strlit(" under ");
    reveal_strlit("Key '");
    reveal_strlit("' under ");
    reveal_strlit(" must be ");
    reveal_strlit("key \"");
    reveal_strlit("\"");
    reveal_strlit(": ");
    let (w, l) = (what.len() as int, section.len() as int);
    let t = missing_text(what, section);
    assert(t.subrange(0, 8) =~= "Missing "@);
    assert(t.subrange(8, 8 + w) =~= what);
    assert(t.subrange(8 + w, 15 + w) =~= " under "@);
    assert(t.skip(15 + w) =~= section);
    let u = wrong_type_text(what, section, kind);
    assert(u.subrange(5, 5 + w) =~= what);
    assert(u.subrange(5 + w, 13 + w) =~= "' under "@);
    assert(u.subrange(13 + w, 13 + w + l) =~= section);
    assert(u.skip(22 + w + l) =~= kind);
    assert(quoted_key(what).subrange(5, 5 + w) =~= what);
    let name = text::utf8_lossy(file);
    assert(about(file, what).subrange(0, name.len() as int) =~= name);
    assert(about(file, what).skip(2int + name.len()) =~= what);
}

/// A block size that is refused is named, and it is said which limit it is beyond.
pub proof fn law_block_size_texts(i: i64)
    ensures
        block_size_of(Found::Value(i)) matches Err(e) ==> {
            let d = text::signed_digits(i as int);
            &&& text::stands(e, 0, "Block size "@) && text::stands(e, 11, d)
            &&& i < 256 ==> text::stands(e, 11int + d.len(), " too small"@)
            &&& i > 1024 * 1024 * 1024 ==> text::stands(e, 11int + d.len(), " too large"@)
        },
{
    reveal_strlit("Block size ");
    reveal_strlit(" too small");
    reveal_strlit(" too large");
    reveal_strlit(" too small (minimum 256)");
    reveal_strlit(" too large (maximum 1GB)");
    if let Err(e) = block_size_of(Found::Value(i)) {
        let d = text::signed_digits(i as int);
        let l = d.len() as int;
        assert(e.subrange(0, 11) =~= "Block size "@);
        assert(e.subrange(11, 11 + l) =~= d);
        if i < 256 {
            assert(e.subrange(11 + l, 21 + l) =~= " too small"@);
        } else {
            assert(e.subrange(11 + l, 21 + l) =~= " too large"@);
        }
    }
}

/// If a configuration is not accepted, what is said is wrong with it is: a section
/// or a setting that is missing, of the wrong type, or not valid.
pub proof fn law_config_refused(parent: Seq<u8>, settings: SettingsModel, hash: Seq<u8>)
    ensures
        config_of(parent, settings, hash) matches Err(e) ==> {
            ||| settings.general is Missing && e == missing_text(
                "section [general]"@,
                "top level"@,
            )
            ||| settings.general is WrongType && e == wrong_type_text(
                "general"@,
                "top level"@,
                "a table"@,
            )
            ||| settings.rules is Missing && e == missing_text("section [rules]"@, "top level"@)
            ||| settings.rules is WrongType && e == wrong_type_text(
                "rules"@,
                "top level"@,
                "a table"@,
            )
            ||| settings.general is Value && {
                let g = settings.general->Value_0;
                ||| amiss("path"@, g.path, e)
                ||| amiss("server"@, g.server, e)
                ||| amiss("server_root"@, g.server_root, e)
                ||| amiss("passphrase"@, g.passphrase, e)
                ||| g.server is Value && server_of(g.server->Value_0) == Err::<
                    ServerModel,
                    Seq<char>,
                >(e)
                ||| g.passphrase is Value && passphrase_of(g.passphrase->Value_0) == Err::<
                    PassphraseModel,
                    Seq<char>,
                >(e)
                ||| block_size_of(g.block_size) == Err::<u32, Seq<char>>(e)
                ||| compression_of(g.compression) == Err::<u32, Seq<char>>(e)
            }
        },
{
}

/// Whether a complaint is that a text is missing, or is something else.
pub open spec fn amiss(key: Seq<char>, f: Found<Seq<char>>, e: Seq<char>) -> bool {
    ||| f is Missing && e == missing_text(quoted_key(key), "[general]"@)
    ||| f is WrongType && e == wrong_type_text(key, "[general]"@, "a string"@)
}

} // verus!
