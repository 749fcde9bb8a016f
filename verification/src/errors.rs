//! Errors.

use vstd::prelude::*;

use crate::bytes::Name;
use crate::defs;
use crate::defs::{DisplayHash, HashId};
use crate::log;
use crate::log::LogLevel;
use crate::text;

verus! {

/// What went wrong.
#[derive(Debug, PartialEq, Eq)]
pub enum ErrorKind {
    ExpectationNotMatched,
    NotFound,
    CreateExists,
    RenameDestExists,
    DirNotEmpty,
    NotADirectory,
    InvalidHash,
    NulInString,
    AllSuffixesInUse,
    MissingXfer,
    RmdirRoot,
    AlreadyWatching,
    ChdirXDev,
    PrivateXDev,
    DirectoryTooLarge,
    InvalidRefVector,
    InvalidObjectId,
    InvalidServerDirEntry,
    DanglingServerDirectoryRef,
    ServerConnectionClosed,
    TooManyTxRetries,
    DirectoryMissing,
    SynthConflict,
    ServerContentDeleted,
    ServerContentUpdated,
    ReconciliationStopped,
    DirectoryTooDeep,
    SanityCheckFailed,
    KdfListAlreadyExists,
    KdfListNotExists,
    PassphraseNotInKdfList,
    WouldRemoveLastKdfEntry,
    AnonChangeKeyButMultipleKdfEntries,
    ChangeKeyWithPassphraseMismatch,
    /// The type of an entry in the ancestor store is not one there is.
    InvalidAncestorFileType(i64),
    /// The expected and the actual hash of a block.
    HmacMismatch(HashId, HashId),
    BadFilename(Name),
    NoSuchTransaction(u64),
    TransactionAlreadyInUse(u64),
    ServerError(String),
    /// The response, in the words that it is shown with.
    UnexpectedServerResponse(String),
    /// The directory; the latest known version and length; the version and length found.
    DirectoryVersionRecessed(Name, u64, u64, u64, u64),
    DirectoryEmbeddedIdMismatch(Name),
    DirectoryEmbeddedVerMismatch(Name),
    /// The directory, the newest format known, and the format found.
    UnsupportedServerDirectoryFormat(Name, u32, u32),
    ServerDirectoryCorrupt(Name, String),
    KeyNotInKdfList(String),
    KeyNameAlreadyInUse(String),
    /// An error of the system or of a library, in its own words.
    Other(String),
}

/// What an error says.
pub open spec fn kind_text(kind: ErrorKind) -> Seq<char> {
    match kind {
        ErrorKind::ExpectationNotMatched => "File not in expected state"@,
        ErrorKind::NotFound => "File not found"@,
        ErrorKind::CreateExists => "File already exists"@,
        ErrorKind::RenameDestExists => "Rename destination already exists"@,
        ErrorKind::DirNotEmpty => "Directory not empty"@,
        ErrorKind::NotADirectory => "Not a directory"@,
        ErrorKind::InvalidHash => "Invalid hash value in database"@,
        ErrorKind::NulInString => "NUL byte in string in database"@,
        ErrorKind::AllSuffixesInUse => "Shunt failed: All file suffixes in use"@,
        ErrorKind::MissingXfer => "BUG: No xfer provided for file transfer"@,
        ErrorKind::RmdirRoot => "Attempt to remove root directory"@,
        ErrorKind::AlreadyWatching => "Already watching for changes"@,
        ErrorKind::ChdirXDev => "Attempt to cross filesystem boundary"@,
        ErrorKind::PrivateXDev => "Private directory is on different filesystem from sync root"@,
        ErrorKind::DirectoryTooLarge => "Directory too large"@,
        ErrorKind::InvalidRefVector => "Invalid object reference vector"@,
        ErrorKind::InvalidObjectId => "Invalid object id"@,
        ErrorKind::InvalidServerDirEntry => "Invalid server directory entry"@,
        ErrorKind::DanglingServerDirectoryRef => "Dangling server directory reference"@,
        ErrorKind::ServerConnectionClosed => "Server connection closed"@,
        ErrorKind::TooManyTxRetries => "Transaction failed too many times"@,
        ErrorKind::DirectoryMissing => "Directory missing"@,
        ErrorKind::SynthConflict => "Conflict creating on-demand directory"@,
        ErrorKind::ServerContentDeleted => "Content deleted on server"@,
        ErrorKind::ServerContentUpdated => "Content changed on server"@,
        ErrorKind::ReconciliationStopped => "Reconciliation stopped"@,
        ErrorKind::DirectoryTooDeep => "Directory too deep"@,
        ErrorKind::SanityCheckFailed => "Sanity check failed"@,
        ErrorKind::KdfListAlreadyExists => "Key store already initialised (use `add-key` if you want to add more keys)"@,
        ErrorKind::KdfListNotExists => "Key store not yet initialised (use `init` to do that)"@,
        ErrorKind::PassphraseNotInKdfList => "Passphrase not found in key store"@,
        ErrorKind::WouldRemoveLastKdfEntry => "There is only one key in the key store, it cannot be removed"@,
        ErrorKind::AnonChangeKeyButMultipleKdfEntries => "`change-key` requires the name of the key to change because there are multiple keys in the key store"@,
        ErrorKind::ChangeKeyWithPassphraseMismatch => "The passphrase matches a key in the key store, but not the one named on the command-line; use `--force` if you really are sure you want to change the named key"@,
        ErrorKind::InvalidAncestorFileType(t) => "Bad file type in database: "@ + text::signed_digits(t as int),
        ErrorKind::HmacMismatch(expected, actual) => "Block HMAC does not match content (expected "@ + defs::hash_text(expected@) + ", got "@ + defs::hash_text(actual@) + ")"@,
        ErrorKind::BadFilename(name) => "Illegal file name: "@ + text::debug_text(text::utf8_lossy(name@)),
        ErrorKind::NoSuchTransaction(tx) => "No such transaction: "@ + text::digits(tx as nat, 10),
        ErrorKind::TransactionAlreadyInUse(tx) => "Transaction "@ + text::digits(tx as nat, 10) + " already in use"@,
        ErrorKind::ServerError(err) => "Server error: "@ + err@,
        ErrorKind::UnexpectedServerResponse(response) => "Unexpected server response: "@ + response@,
        ErrorKind::DirectoryVersionRecessed(dir, latest_ver, latest_len, actual_ver, actual_len) => "Server directory version recessed from ("@ + text::digits(latest_ver as nat, 10) + ", "@ + text::digits(latest_len as nat, 10) + ") to ("@ + text::digits(actual_ver as nat, 10) + ", "@ + text::digits(actual_len as nat, 10) + ") for '"@ + text::utf8_lossy(dir@) + "'"@,
        ErrorKind::DirectoryEmbeddedIdMismatch(dir) => "Server directory content does not correspond to directory id of '"@ + text::utf8_lossy(dir@) + "'"@,
        ErrorKind::DirectoryEmbeddedVerMismatch(dir) => "Server directory content does not correspond to directory version of '"@ + text::utf8_lossy(dir@) + "'"@,
        ErrorKind::UnsupportedServerDirectoryFormat(dir, supported, actual) => "Server directory uses unsupported format version ("@ + text::digits(actual as nat, 10) + "; this version of ensync only supports up to "@ + text::digits(supported as nat, 10) + ") for '"@ + text::utf8_lossy(dir@) + "'"@,
        ErrorKind::ServerDirectoryCorrupt(dir, message) => "Server directory '"@ + text::utf8_lossy(dir@) + "' corrupt: "@ + message@,
        ErrorKind::KeyNotInKdfList(name) => "Key "@ + name@ + " not found in key store"@,
        ErrorKind::KeyNameAlreadyInUse(name) => "Key name '"@ + name@ + "' already in use (use `change-key` if you want to edit it)"@,
        ErrorKind::Other(message) => message@,
    }
}

impl ErrorKind {
    /// Returns what the error says.
    pub fn message(&self) -> (r: String)
        ensures
            r@ == kind_text(*self),
    {
        let mut s: String = String::new();
        match self {
            ErrorKind::ExpectationNotMatched => {
                s.append("File not in expected state");
            },
            ErrorKind::NotFound => {
                s.append("File not found");
            },
            ErrorKind::CreateExists => {
                s.append("File already exists");
            },
            ErrorKind::RenameDestExists => {
                s.append("Rename destination already exists");
            },
            ErrorKind::DirNotEmpty => {
                s.append("Directory not empty");
            },
            ErrorKind::NotADirectory => {
                s.append("Not a directory");
            },
            ErrorKind::InvalidHash => {
                s.append("Invalid hash value in database");
            },
            ErrorKind::NulInString => {
                s.append("NUL byte in string in database");
            },
            ErrorKind::AllSuffixesInUse => {
                s.append("Shunt failed: All file suffixes in use");
            },
            ErrorKind::MissingXfer => {
                s.append("BUG: No xfer provided for file transfer");
            },
            ErrorKind::RmdirRoot => {
                s.append("Attempt to remove root directory");
            },
            ErrorKind::AlreadyWatching => {
                s.append("Already watching for changes");
            },
            ErrorKind::ChdirXDev => {
                s.append("Attempt to cross filesystem boundary");
            },
            ErrorKind::PrivateXDev => {
                s.append("Private directory is on different filesystem from sync root");
            },
            ErrorKind::DirectoryTooLarge => {
                s.append("Directory too large");
            },
            ErrorKind::InvalidRefVector => {
                s.append("Invalid object reference vector");
            },
            ErrorKind::InvalidObjectId => {
                s.append("Invalid object id");
            },
            ErrorKind::InvalidServerDirEntry => {
                s.append("Invalid server directory entry");
            },
            ErrorKind::DanglingServerDirectoryRef => {
                s.append("Dangling server directory reference");
            },
            ErrorKind::ServerConnectionClosed => {
                s.append("Server connection closed");
            },
            ErrorKind::TooManyTxRetries => {
                s.append("Transaction failed too many times");
            },
            ErrorKind::DirectoryMissing => {
                s.append("Directory missing");
            },
            ErrorKind::SynthConflict => {
                s.append("Conflict creating on-demand directory");
            },
            ErrorKind::ServerContentDeleted => {
                s.append("Content deleted on server");
            },
            ErrorKind::ServerContentUpdated => {
                s.append("Content changed on server");
            },
            ErrorKind::ReconciliationStopped => {
                s.append("Reconciliation stopped");
            },
            ErrorKind::DirectoryTooDeep => {
                s.append("Directory too deep");
            },
            ErrorKind::SanityCheckFailed => {
                s.append("Sanity check failed");
            },
            ErrorKind::KdfListAlreadyExists => {
                s.append("Key store already initialised (use `add-key` if you want to add more keys)");
            },
            ErrorKind::KdfListNotExists => {
                s.append("Key store not yet initialised (use `init` to do that)");
            },
            ErrorKind::PassphraseNotInKdfList => {
                s.append("Passphrase not found in key store");
            },
            ErrorKind::WouldRemoveLastKdfEntry => {
                s.append("There is only one key in the key store, it cannot be removed");
            },
            ErrorKind::AnonChangeKeyButMultipleKdfEntries => {
                s.append("`change-key` requires the name of the key to change because there are multiple keys in the key store");
            },
            ErrorKind::ChangeKeyWithPassphraseMismatch => {
                s.append("The passphrase matches a key in the key store, but not the one named on the command-line; use `--force` if you really are sure you want to change the named key");
            },
            ErrorKind::InvalidAncestorFileType(t) => {
                s.append("Bad file type in database: ");
                text::push_signed(&mut s, *t);
            },
            ErrorKind::HmacMismatch(expected, actual) => {
                s.append("Block HMAC does not match content (expected ");
                s.append(DisplayHash(*expected).to_hex().as_str());
                s.append(", got ");
                s.append(DisplayHash(*actual).to_hex().as_str());
                s.append(")");
            },
            ErrorKind::BadFilename(name) => {
                s.append("Illegal file name: ");
                s.append(text::quoted(text::from_utf8_lossy(name.as_slice()).as_str()).as_str());
            },
            ErrorKind::NoSuchTransaction(tx) => {
                s.append("No such transaction: ");
                text::push_digits(&mut s, *tx, 10);
            },
            ErrorKind::TransactionAlreadyInUse(tx) => {
                s.append("Transaction ");
                text::push_digits(&mut s, *tx, 10);
                s.append(" already in use");
            },
            ErrorKind::ServerError(err) => {
                s.append("Server error: ");
                s.append(err.as_str());
            },
            ErrorKind::UnexpectedServerResponse(response) => {
                s.append("Unexpected server response: ");
                s.append(response.as_str());
            },
            ErrorKind::DirectoryVersionRecessed(dir, latest_ver, latest_len, actual_ver, actual_len) => {
                s.append("Server directory version recessed from (");
                text::push_digits(&mut s, *latest_ver, 10);
                s.append(", ");
                text::push_digits(&mut s, *latest_len, 10);
                s.append(") to (");
                text::push_digits(&mut s, *actual_ver, 10);
                s.append(", ");
                text::push_digits(&mut s, *actual_len, 10);
                s.append(") for '");
                s.append(text::from_utf8_lossy(dir.as_slice()).as_str());
                s.append("'");
            },
            ErrorKind::DirectoryEmbeddedIdMismatch(dir) => {
                s.append("Server directory content does not correspond to directory id of '");
                s.append(text::from_utf8_lossy(dir.as_slice()).as_str());
                s.append("'");
            },
            ErrorKind::DirectoryEmbeddedVerMismatch(dir) => {
                s.append("Server directory content does not correspond to directory version of '");
                s.append(text::from_utf8_lossy(dir.as_slice()).as_str());
                s.append("'");
            },
            ErrorKind::UnsupportedServerDirectoryFormat(dir, supported, actual) => {
                s.append("Server directory uses unsupported format version (");
                text::push_digits(&mut s, *actual as u64, 10);
                s.append("; this version of ensync only supports up to ");
                text::push_digits(&mut s, *supported as u64, 10);
                s.append(") for '");
                s.append(text::from_utf8_lossy(dir.as_slice()).as_str());
                s.append("'");
            },
            ErrorKind::ServerDirectoryCorrupt(dir, message) => {
                s.append("Server directory '");
                s.append(text::from_utf8_lossy(dir.as_slice()).as_str());
                s.append("' corrupt: ");
                s.append(message.as_str());
            },
            ErrorKind::KeyNotInKdfList(name) => {
                s.append("Key ");
                s.append(name.as_str());
                s.append(" not found in key store");
            },
            ErrorKind::KeyNameAlreadyInUse(name) => {
                s.append("Key name '");
                s.append(name.as_str());
                s.append("' already in use (use `change-key` if you want to edit it)");
            },
            ErrorKind::Other(message) => {
                s.append(message.as_str());
            },
        }
        assert(s@ =~= kind_text(*self));
        s
    }
}

/// An error as it is reported: what went wrong, how grave that is, and what
/// lies behind it.
#[derive(Debug, PartialEq, Eq)]
pub struct Error {
    pub kind: ErrorKind,
    /// The level at which the error is logged.
    pub level: LogLevel,
    /// What caused the error, from the nearest cause to the farthest.
    pub causes: Vec<String>,
    /// Where the error came from, if that is known.
    pub backtrace: Option<String>,
}

pub type Result<T> = std::result::Result<T, Error>;

impl Error {
    /// Returns the level at which the error is logged.
    pub fn level(&self) -> (r: LogLevel)
        ensures
            r == self.level,
    {
        self.level
    }

    /// Returns a localised error without a known cause.
    pub fn new(kind: ErrorKind) -> (r: Error)
        ensures
            r.kind == kind,
            r.level == log::ERROR,
            r.causes@.len() == 0,
            r.backtrace is None,
    {
        Error { kind, level: log::ERROR, causes: Vec::new(), backtrace: None }
    }

    /// Returns an error of which the given text is all that is known.
    pub fn say(words: String) -> (r: Error)
        ensures
            r.kind == ErrorKind::Other(words),
            r.level == log::ERROR,
            r.causes@.len() == 0,
            r.backtrace is None,
    {
        Error::new(ErrorKind::Other(words))
    }

    /// Returns an error with the given text that was caused by another.
    pub fn because(words: String, cause: Error) -> (r: Error)
        ensures
            r.kind == ErrorKind::Other(words),
            r.level == cause.level,
            r.backtrace == cause.backtrace,
            r.causes@.len() == cause.causes@.len() + 1,
            r.causes@[0]@ == kind_text(cause.kind),
            r.causes@.skip(1) == cause.causes@,
    {
        Error::caused_by(ErrorKind::Other(words), cause)
    }

    /// Returns an error that was caused by another.
    pub fn caused_by(kind: ErrorKind, cause: Error) -> (r: Error)
        ensures
            r.kind == kind,
            r.level == cause.level,
            r.backtrace == cause.backtrace,
            r.causes@.len() == cause.causes@.len() + 1,
            r.causes@[0]@ == kind_text(cause.kind),
            r.causes@.skip(1) == cause.causes@,
    {
        let Error { kind: inner, level, causes, backtrace } = cause;
        let mut causes = causes;
        let ghost before = causes@;
        causes.insert(0, inner.message());
        assert(causes@.skip(1) =~= before);
        Error { kind, level, causes, backtrace }
    }
}

/// Whether an error with the given text was caused by another.
pub open spec fn blames(e: Error, words: Seq<char>, cause: Error) -> bool {
    &&& e.kind is Other && e.kind->Other_0@ == words
    &&& e.level == cause.level
    &&& e.backtrace == cause.backtrace
    &&& e.causes@.len() == cause.causes@.len() + 1
    &&& e.causes@[0]@ == kind_text(cause.kind)
    &&& e.causes@.skip(1) == cause.causes@
}

/// The failure that a result stands for.
pub open spec fn failure<T>(r: Result<T>) -> Option<Error> {
    match r {
        Ok(_) => None,
        Err(e) => Some(e),
    }
}

/// What an error is about is told with it, each thing in its place.
pub proof fn law_kind_text(kind: ErrorKind)
    ensures
        ({
            let t = kind_text(kind);
            match kind {
                ErrorKind::InvalidAncestorFileType(typ) => {
                    let a = text::signed_digits(typ as int);
                    text::stands(t, 27, a)
                },
                ErrorKind::HmacMismatch(expected, actual) => {
                    let a = defs::hash_text(expected@);
                    let b = defs::hash_text(actual@);
                    &&& text::stands(t, 44, a)
                    &&& text::stands(t, 50int + a.len(), b)
                },
                ErrorKind::BadFilename(name) => {
                    let a = text::debug_text(text::utf8_lossy(name@));
                    text::stands(t, 19, a)
                },
                ErrorKind::NoSuchTransaction(tx) => {
                    let a = text::digits(tx as nat, 10);
                    text::stands(t, 21, a)
                },
                ErrorKind::TransactionAlreadyInUse(tx) => {
                    let a = text::digits(tx as nat, 10);
                    text::stands(t, 12, a)
                },
                ErrorKind::ServerError(err) => {
                    let a = err@;
                    text::stands(t, 14, a)
                },
                ErrorKind::UnexpectedServerResponse(response) => {
                    let a = response@;
                    text::stands(t, 28, a)
                },
                ErrorKind::DirectoryVersionRecessed(dir, latest_ver, latest_len, actual_ver, actual_len) => {
                    let a = text::digits(latest_ver as nat, 10);
                    let b = text::digits(latest_len as nat, 10);
                    let c = text::digits(actual_ver as nat, 10);
                    let d = text::digits(actual_len as nat, 10);
                    let e = text::utf8_lossy(dir@);
                    &&& text::stands(t, 40, a)
                    &&& text::stands(t, 42int + a.len(), b)
                    &&& text::stands(t, 48int + a.len() + b.len(), c)
                    &&& text::stands(t, 50int + a.len() + b.len() + c.len(), d)
                    &&& text::stands(t, 57int + a.len() + b.len() + c.len() + d.len(), e)
                },
                ErrorKind::DirectoryEmbeddedIdMismatch(dir) => {
                    let a = text::utf8_lossy(dir@);
                    text::stands(t, 65, a)
                },
                ErrorKind::DirectoryEmbeddedVerMismatch(dir) => {
                    let a = text::utf8_lossy(dir@);
                    text::stands(t, 70, a)
                },
                ErrorKind::UnsupportedServerDirectoryFormat(dir, supported, actual) => {
                    let a = text::digits(actual as nat, 10);
                    let b = text::digits(supported as nat, 10);
                    let c = text::utf8_lossy(dir@);
                    &&& text::stands(t, 50, a)
                    &&& text::stands(t, 95int + a.len(), b)
                    &&& text::stands(t, 102int + a.len() + b.len(), c)
                },
                ErrorKind::ServerDirectoryCorrupt(dir, message) => {
                    let a = text::utf8_lossy(dir@);
                    let b = message@;
                    &&& text::stands(t, 18, a)
                    &&& text::stands(t, 29int + a.len(), b)
                },
                ErrorKind::KeyNotInKdfList(name) => {
                    let a = name@;
                    text::stands(t, 4, a)
                },
                ErrorKind::KeyNameAlreadyInUse(name) => {
                    let a = name@;
                    text::stands(t, 10, a)
                },
                ErrorKind::Other(message) => t == message@,
                _ => true,
            }
        }),
{
    reveal_strlit("Bad file type in database: ");
    reveal_strlit("Block HMAC does not match content (expected ");
    reveal_strlit(", got ");
    reveal_strlit(")");
    reveal_strlit("Illegal file name: ");
    reveal_strlit("No such transaction: ");
    reveal_strlit("Transaction ");
    reveal_strlit(" already in use");
    reveal_strlit("Server error: ");
    reveal_strlit("Unexpected server response: ");
    reveal_strlit("Server directory version recessed from (");
    reveal_strlit(", ");
    reveal_strlit(") to (");
    reveal_strlit(") for '");
    reveal_strlit("'");
    reveal_strlit("Server directory content does not correspond to directory id of '");
    reveal_strlit("Server directory content does not correspond to directory version of '");
    reveal_strlit("Server directory uses unsupported format version (");
    reveal_strlit("; this version of ensync only supports up to ");
    reveal_strlit("Server directory '");
    reveal_strlit("' corrupt: ");
    reveal_strlit("Key ");
    reveal_strlit(" not found in key store");
    reveal_strlit("Key name '");
    reveal_strlit("' already in use (use `change-key` if you want to edit it)");
    let t = kind_text(kind);
    match kind {
        ErrorKind::InvalidAncestorFileType(typ) => {
            let a = text::signed_digits(typ as int);
            assert(t.subrange(27, 27int + a.len()) =~= a);
        },
        ErrorKind::HmacMismatch(expected, actual) => {
            let a = defs::hash_text(expected@);
            let b = defs::hash_text(actual@);
            assert(t.subrange(44, 44int + a.len()) =~= a);
            assert(t.subrange(50int + a.len(), 50int + a.len() + b.len()) =~= b);
        },
        ErrorKind::BadFilename(name) => {
            let a = text::debug_text(text::utf8_lossy(name@));
            assert(t.subrange(19, 19int + a.len()) =~= a);
        },
        ErrorKind::NoSuchTransaction(tx) => {
            let a = text::digits(tx as nat, 10);
            assert(t.subrange(21, 21int + a.len()) =~= a);
        },
        ErrorKind::TransactionAlreadyInUse(tx) => {
            let a = text::digits(tx as nat, 10);
            assert(t.subrange(12, 12int + a.len()) =~= a);
        },
        ErrorKind::ServerError(err) => {
            let a = err@;
            assert(t.subrange(14, 14int + a.len()) =~= a);
        },
        ErrorKind::UnexpectedServerResponse(response) => {
            let a = response@;
            assert(t.subrange(28, 28int + a.len()) =~= a);
        },
        ErrorKind::DirectoryVersionRecessed(dir, latest_ver, latest_len, actual_ver, actual_len) => {
            let a = text::digits(latest_ver as nat, 10);
            let b = text::digits(latest_len as nat, 10);
            let c = text::digits(actual_ver as nat, 10);
            let d = text::digits(actual_len as nat, 10);
            let e = text::utf8_lossy(dir@);
            assert(t.subrange(40, 40int + a.len()) =~= a);
            assert(t.subrange(42int + a.len(), 42int + a.len() + b.len()) =~= b);
            assert(t.subrange(48int + a.len() + b.len(), 48int + a.len() + b.len() + c.len()) =~= c);
            assert(t.subrange(50int + a.len() + b.len() + c.len(), 50int + a.len() + b.len() + c.len() + d.len()) =~= d);
            assert(t.subrange(57int + a.len() + b.len() + c.len() + d.len(), 57int + a.len() + b.len() + c.len() + d.len() + e.len()) =~= e);
        },
        ErrorKind::DirectoryEmbeddedIdMismatch(dir) => {
            let a = text::utf8_lossy(dir@);
            assert(t.subrange(65, 65int + a.len()) =~= a);
        },
        ErrorKind::DirectoryEmbeddedVerMismatch(dir) => {
            let a = text::utf8_lossy(dir@);
            assert(t.subrange(70, 70int + a.len()) =~= a);
        },
        ErrorKind::UnsupportedServerDirectoryFormat(dir, supported, actual) => {
            let a = text::digits(actual as nat, 10);
            let b = text::digits(supported as nat, 10);
            let c = text::utf8_lossy(dir@);
            assert(t.subrange(50, 50int + a.len()) =~= a);
            assert(t.subrange(95int + a.len(), 95int + a.len() + b.len()) =~= b);
            assert(t.subrange(102int + a.len() + b.len(), 102int + a.len() + b.len() + c.len()) =~= c);
        },
        ErrorKind::ServerDirectoryCorrupt(dir, message) => {
            let a = text::utf8_lossy(dir@);
            let b = message@;
            assert(t.subrange(18, 18int + a.len()) =~= a);
            assert(t.subrange(29int + a.len(), 29int + a.len() + b.len()) =~= b);
        },
        ErrorKind::KeyNotInKdfList(name) => {
            let a = name@;
            assert(t.subrange(4, 4int + a.len()) =~= a);
        },
        ErrorKind::KeyNameAlreadyInUse(name) => {
            let a = name@;
            assert(t.subrange(10, 10int + a.len()) =~= a);
        },
        _ => {},
    }
}

} // verus!
