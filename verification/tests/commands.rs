//! What the commands compute and decide.

use ensync::cli::config::{Config, PassphraseConfig};
use ensync::cli::format_date::format_timestamp;
use ensync::cli::keys::{
    change_reminder, confirm_destruction, first_key_name, list_keys, same_passphrase, wanted,
    KeyInfo, Purpose,
};
use ensync::cli::open_server::{
    connected_message, connection_failure, server_state_path, CommandEnd, ImplementationInfo,
};
use ensync::cli::options::{
    failure_report, invocation, parse_mode, passphrase_or_config, thread_count, Invocation,
    NonVerbose, VerbosityArgs,
};
use ensync::cli::sync_run::{
    after_notice, after_run, check_for_copied_private_dir, closing_message, is_wanted, itemise_level, min_prepare_type,
    more_thorough, parse_strategy, reconnect_message, verbosity, watched_prepare_type, AfterRun,
    LastConfig, Verbosity,
};
use ensync::errors::{Error, ErrorKind};
use ensync::log::{EDIT, ERROR, FATAL, INFO};
use ensync::replica::{PrepareType, WatchHandle};

#[test]
fn verbosity_options() {
    assert!(VerbosityArgs { verbose: 2, quiet: 1 }.is_verbose());
    assert!(!VerbosityArgs { verbose: 1, quiet: 1 }.is_verbose());
    assert!(!NonVerbose.is_verbose());
    let v = |level, deep| Verbosity { level, include_ops_under_opped_directory: deep };
    assert_eq!(v(EDIT, false), verbosity(0, 0));
    assert_eq!(v(EDIT, true), verbosity(1, 0));
    assert_eq!(v(INFO, true), verbosity(2, 0));
    assert_eq!(v(ERROR, false), verbosity(0, 2));
    assert_eq!(v(FATAL, false), verbosity(0, 100));
    assert_eq!(v(255, true), verbosity(i32::MAX, i32::MIN));
    assert_eq!(0, itemise_level(false, true));
    assert_eq!(EDIT, itemise_level(true, false));
    assert_eq!(INFO, itemise_level(true, true));
}

#[test]
fn modes() {
    assert_eq!(0o755, parse_mode("755").unwrap());
    assert_eq!(0o700, parse_mode("0700").unwrap());
    assert_eq!(0o7, parse_mode("+7").unwrap());
    assert_eq!(0o0644, parse_mode("100644").unwrap());
    assert_eq!(0o7777, parse_mode("37777777777").unwrap());
    for bad in ["", "+", "8", "-7", "rwx", "40000000000", "7 "] {
        assert_eq!(
            format!("Invalid mode '{}'", bad),
            parse_mode(bad).unwrap_err().kind.message()
        );
    }
}

#[test]
fn other_options() {
    assert_eq!(Invocation::Shell, invocation(Some("-ensync"), None));
    assert_eq!(Invocation::Shell, invocation(Some("ensync"), Some("-c")));
    assert_eq!(Invocation::Command, invocation(Some("ensync"), Some("sync")));
    assert_eq!(Invocation::Command, invocation(None, None));
    assert_eq!(6, thread_count(None, 4).unwrap());
    assert_eq!(1, thread_count(Some(1), 4).unwrap());
    assert_eq!(
        "Thread count must be at least 1",
        thread_count(Some(0), 4).unwrap_err().kind.message()
    );
    let given = PassphraseConfig::String("x".to_owned());
    assert_eq!(
        PassphraseConfig::String("x".to_owned()),
        passphrase_or_config(Some(given), PassphraseConfig::Prompt)
    );
    assert_eq!(PassphraseConfig::Prompt, passphrase_or_config(None, PassphraseConfig::Prompt));
}

#[test]
fn failures_are_reported_with_their_causes() {
    let mut e = Error::because("outer".to_owned(), Error::because(
        "inner".to_owned(),
        Error::new(ErrorKind::NotFound),
    ));
    assert_eq!(
        "error: outer\ncaused by: inner\ncaused by: File not found\n",
        failure_report(&e)
    );
    e.backtrace = Some("at main".to_owned());
    assert!(failure_report(&e).ends_with("File not found\nat main\n"));
}

#[test]
fn how_to_prepare() {
    assert!(is_wanted("always", false));
    assert!(is_wanted("auto", true));
    assert!(!is_wanted("auto", false));
    assert!(!is_wanted("never", true));
    assert_eq!(PrepareType::Fast, parse_strategy("auto", false));
    assert_eq!(PrepareType::Clean, parse_strategy("auto", true));
    assert_eq!(PrepareType::Fast, parse_strategy("fast", true));
    assert_eq!(PrepareType::Clean, parse_strategy("clean", false));
    assert_eq!(PrepareType::Scrub, parse_strategy("scrub", false));
    assert_eq!(PrepareType::Scrub, more_thorough(PrepareType::Scrub, PrepareType::Fast));
    assert_eq!(PrepareType::Clean, more_thorough(PrepareType::Fast, PrepareType::Clean));
    assert_eq!(PrepareType::Fast, watched_prepare_type(true));
    assert_eq!(PrepareType::Watched, watched_prepare_type(false));
    let file = b"/x/last-config";
    assert_eq!(
        (PrepareType::Fast, None),
        min_prepare_type(&LastConfig::Hash([1; 32]), &[1; 32], file)
    );
    assert_eq!((PrepareType::Clean, None), min_prepare_type(&LastConfig::NotFound, &[1; 32], file));
    let (typ, told) = min_prepare_type(&LastConfig::Hash([2; 32]), &[1; 32], file);
    assert_eq!(PrepareType::Clean, typ);
    assert_eq!(
        "Configuration changed since last sync; all directories will be re-scanned.",
        told.unwrap()
    );
    let (typ, told) =
        min_prepare_type(&LastConfig::Unreadable("no".to_owned()), &[1; 32], file);
    assert_eq!(PrepareType::Clean, typ);
    assert_eq!(
        "Error reading '/x/last-config': no.\nAssuming configuration may have changed; \
         all directories will be re-scanned.",
        told.unwrap()
    );
}

#[test]
fn how_a_sync_ends() {
    assert_eq!(Some("Syncing interrupted"), closing_message(true, true, ERROR, false));
    assert_eq!(None, closing_message(true, true, FATAL, false));
    assert_eq!(Some("Syncing completed successfully"), closing_message(false, true, EDIT, true));
    assert_eq!(None, closing_message(false, true, ERROR, true));
    assert_eq!(None, closing_message(false, true, EDIT, false));
    assert_eq!(
        Some("Syncing completed, but not clean"),
        closing_message(false, false, ERROR, true)
    );
    assert_eq!(
        "Connection terminated due to error: gone\nAttempting reconnect in 30 seconds...",
        reconnect_message("gone", 30)
    );
}

#[test]
fn copied_private_directories() {
    let dir = b"/home/u/.ensync/internal.ensync";
    let marker = check_for_copied_private_dir(dir, b"", 42).unwrap();
    assert_eq!(b"FSID2:42".to_vec(), marker);
    assert_eq!(Ok(marker.clone()), check_for_copied_private_dir(dir, &marker, 42));
    assert_eq!(Ok(marker.clone()), check_for_copied_private_dir(dir, b"FSID1:7", 42));
    let told = check_for_copied_private_dir(dir, &marker, 43).unwrap_err();
    assert!(told.contains("delete /home/u/.ensync/internal.ensync\n"));
    assert!(told.contains("copied /home/u/.ensync\n"));
    assert!(told.ends_with("/home/u/.ensync/internal.ensync/fsid"));
}

#[test]
fn keys_are_listed() {
    let keys = vec![
        KeyInfo {
            name: "original".to_owned(),
            groups: vec!["everyone".to_owned(), "root".to_owned()],
            algorithm: "scrypt-18-8-1+sha3".to_owned(),
            created: 0,
            updated: None,
        },
        KeyInfo {
            name: "other".to_owned(),
            groups: vec![],
            algorithm: "x".to_owned(),
            created: 1_500_000_000,
            updated: Some(1_600_000_000),
        },
    ];
    assert_eq!(
        "original: everyone root\n  algorithm:    scrypt-18-8-1+sha3\n  \
         created:      1970-01-01 00:00Z\n  last changed: never\n\n\
         other:\n  algorithm:    x\n  \
         created:      2017-07-14 02:40Z\n  last changed: 2020-09-13 12:26Z\n\n",
        list_keys(&keys)
    );
}

#[test]
fn key_management() {
    assert_eq!("original", first_key_name(None));
    assert_eq!("laptop", first_key_name(Some("laptop")));
    assert_eq!(("new passphrase", true), wanted(Purpose::New));
    assert_eq!(("passphrase in `root` group", false), wanted(Purpose::Root));
    assert!(confirm_destruction(true, "").is_ok());
    assert!(confirm_destruction(false, " yes\n").is_ok());
    assert_eq!(
        "Not confirmed",
        confirm_destruction(false, "Yes\n").unwrap_err().kind.message()
    );
    let text = "[general]\npath = \"/x\"\nserver = \"path:/y\"\nserver_root = \"r\"\n\
                passphrase = \"string:old\"\n[rules]\n";
    let config = Config::parse(b"/c/config.toml", text).unwrap();
    let old = PassphraseConfig::String("old".to_owned());
    let new = PassphraseConfig::String("new".to_owned());
    assert_eq!(
        Some("Don't forget to update the passphrase configuration in /c/config.toml".to_owned()),
        change_reminder(&config, &old, &new)
    );
    assert_eq!(None, change_reminder(&config, &old, &old));
    assert_eq!(None, change_reminder(&config, &new, &old));
    let shell = |d: Option<&[u8]>| {
        PassphraseConfig::Shell("pass".to_owned(), d.map(|d| d.to_vec()))
    };
    assert!(same_passphrase(&shell(None), &shell(None)));
    assert!(!same_passphrase(&shell(None), &shell(Some(b"/d"))));
}

#[test]
fn connecting() {
    let info = ImplementationInfo {
        name: "ensync".to_owned(),
        version: (1, 0, 12),
        protocol: (2, 3),
    };
    assert_eq!(
        "Connected to ensync 1.0.12 (proto 2.3) via `ssh host`",
        connected_message(&info, "ssh host")
    );
    let e = connection_failure(
        "ssh host",
        &CommandEnd::Failure("exit status: 255".to_owned()),
        Error::new(ErrorKind::ServerConnectionClosed),
    );
    assert_eq!("Command `ssh host` failed with exit status: 255", e.kind.message());
    assert!(e.causes.is_empty());
    for end in [CommandEnd::Success, CommandEnd::Unknown] {
        let e = connection_failure("ssh", &end, Error::new(ErrorKind::NotFound));
        assert_eq!("Protocol error communicating with `ssh`", e.kind.message());
        assert_eq!(vec!["File not found".to_owned()], e.causes);
    }
    assert_eq!("/p/server-state.sqlite", server_state_path(b"/p").unwrap());
    assert_eq!(
        "Path '\u{fffd}' is not valid UTF-8",
        server_state_path(b"\xff").unwrap_err().kind.message()
    );
}

#[test]
fn dates() {
    assert_eq!(Some("1970-01-01 00:00Z".to_owned()), format_timestamp(59));
    assert_eq!(Some("1969-12-31 23:59Z".to_owned()), format_timestamp(-1));
    assert_eq!(Some("2001-09-09 01:46Z".to_owned()), format_timestamp(1_000_000_000));
    assert_eq!(None, format_timestamp(i64::MAX));
}

#[test]
fn a_failed_run_may_be_repeated() {
    let broken = || Err(Error::new(ErrorKind::ServerConnectionClosed));
    match after_run(broken(), Some(5)) {
        AfterRun::Reconnect(words, 5) => {
            let error = ErrorKind::ServerConnectionClosed.message();
            assert_eq!(reconnect_message(&error, 5), words);
        }
        _ => panic!("not repeated"),
    }
    assert!(matches!(after_run(broken(), None), AfterRun::Done(Err(_))));
    assert!(matches!(after_run(Ok(()), Some(5)), AfterRun::Done(Ok(()))));
}

#[test]
fn notices_call_for_a_closer_look() {
    let mut handle = WatchHandle::default();
    assert_eq!(Some(PrepareType::Fast), after_notice(&mut handle));
    assert_eq!(None, after_notice(&mut handle));
    handle.set_dirty();
    assert_eq!(Some(PrepareType::Watched), after_notice(&mut handle));
    handle.set_context_lost();
    assert_eq!(Some(PrepareType::Fast), after_notice(&mut handle));
}
