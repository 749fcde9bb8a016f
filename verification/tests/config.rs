//! The configuration.

use ensync::cli::config::{
    do_prompt_passphrase, parse_compression_name, rule_mode, Config, PassphraseConfig, PassphraseReply,
    PassphraseRequest, ServerConfig,
};
use ensync::errors::{Error, ErrorKind};
use ensync::rules::SyncMode;

fn oss(s: &str) -> Vec<u8> {
    s.as_bytes().to_vec()
}

#[test]
fn parse_full() {
    let config = Config::parse(
        b"/foo/bar/config.toml",
        r#"
[general]
path = "/the/client/path"
server = "path:/the/server/path"
server_root = "r00t"
passphrase = "prompt"
block_size = 65536
compression = "best"

[[rules.root.files]]
mode = "---/---"
"#,
    )
    .unwrap();
    assert_eq!(oss("/the/client/path"), config.client_root);
    assert_eq!(ServerConfig::Path(oss("/the/server/path")), config.server);
    assert_eq!("r00t", &config.server_root);
    assert_eq!(PassphraseConfig::Prompt, config.passphrase);
    assert_eq!(65536, config.block_size);
    assert_eq!(flate2::Compression::best().level(), config.compression);
}

#[test]
fn relative_filenames_in_config_relativised_against_config_parent() {
    let config = Config::parse(
        b"/foo/bar/config.toml",
        r#"
[general]
path = "../sync/client"
server = "path:../sync/server"
server_root = "r00t"
passphrase = "file:password"

[[rules.root.files]]
mode = "---/---"
"#,
    )
    .unwrap();
    assert_eq!(oss("/foo/bar/../sync/client"), config.client_root);
    assert_eq!(ServerConfig::Path(oss("/foo/bar/../sync/server")), config.server);
    assert_eq!(PassphraseConfig::File(oss("/foo/bar/password")), config.passphrase);
}

#[test]
fn parse_compression_names() {
    let none = flate2::Compression::none().level();
    let default = flate2::Compression::default().level();
    let fast = flate2::Compression::fast().level();
    let best = flate2::Compression::best().level();
    assert_eq!(none, parse_compression_name(b"", "off").unwrap());
    assert_eq!(none, parse_compression_name(b"", "none").unwrap());
    assert_eq!(default, parse_compression_name(b"", "default").unwrap());
    assert_eq!(default, parse_compression_name(b"", "on").unwrap());
    assert_eq!(fast, parse_compression_name(b"", "fast").unwrap());
    assert_eq!(best, parse_compression_name(b"", "best").unwrap());
    assert!(parse_compression_name(b"config.toml", "bzip2").is_err());
}

#[test]
fn parse_server_shell() {
    let sconf =
        ServerConfig::from_str("shell:ssh turist@host.example.org ensync ~/sync").unwrap();
    assert_eq!(
        ServerConfig::Shell("ssh turist@host.example.org ensync ~/sync".to_owned(), None),
        sconf
    );
}

#[test]
fn passphrase_from_string() {
    let pconf = PassphraseConfig::from_str("string:hunter2").unwrap();
    assert_eq!(PassphraseConfig::String("hunter2".to_owned()), pconf);
    assert!(matches!(pconf.request("", false), PassphraseRequest::Nothing));
    assert_eq!(b"hunter2", &pconf.read_passphrase(PassphraseReply::Nothing).unwrap()[..]);
}

#[test]
fn passphrase_from_file() {
    let pconf = PassphraseConfig::from_str("file:some/file").unwrap();
    match pconf.request("", false) {
        PassphraseRequest::Read(p) => assert_eq!(oss("some/file"), p),
        _ => panic!("The file is not read"),
    }
    assert_eq!(
        b"hunter2",
        &pconf.read_passphrase(PassphraseReply::Data(oss("hunter2\r\n\n"))).unwrap()[..]
    );
}

#[test]
fn passphrase_from_shell() {
    let pconf = PassphraseConfig::from_str("shell:printf 'hunter%d\r\n' 2").unwrap();
    match pconf.request("", false) {
        PassphraseRequest::Run(command, dir) => {
            assert_eq!("printf 'hunter%d\r\n' 2", command);
            assert_eq!(None, dir);
        }
        _ => panic!("The command is not run"),
    }
    assert_eq!(
        b"hunter2",
        &pconf.read_passphrase(PassphraseReply::Data(oss("hunter2\r\n"))).unwrap()[..]
    );
}

#[test]
fn relativise_prompt_password() {
    assert_eq!(PassphraseConfig::Prompt, PassphraseConfig::Prompt.relativise(b"/foo"));
}

#[test]
fn relativise_string_password() {
    assert_eq!(
        PassphraseConfig::String("hunter2".to_owned()),
        PassphraseConfig::String("hunter2".to_owned()).relativise(b"/foo")
    );
}

#[test]
fn relativise_file_password() {
    assert_eq!(
        PassphraseConfig::File(oss("/foo/password")),
        PassphraseConfig::File(oss("password")).relativise(b"/foo")
    );
}

#[test]
fn relativise_shell_password() {
    assert_eq!(
        PassphraseConfig::Shell("cat password".to_owned(), Some(oss("/foo"))),
        PassphraseConfig::Shell("cat password".to_owned(), None).relativise(b"/foo")
    );
}

#[test]
fn relativise_path_server() {
    assert_eq!(
        ServerConfig::Path(oss("/foo/../bar")),
        ServerConfig::Path(oss("../bar")).relativise(b"/foo")
    );
}

#[test]
fn relativise_shell_server() {
    assert_eq!(
        ServerConfig::Shell("ensync foo".to_owned(), Some(oss("/foo"))),
        ServerConfig::Shell("ensync foo".to_owned(), None).relativise(b"/foo")
    );
}

#[test]
fn passphrase_from_prompt() {
    match PassphraseConfig::Prompt.request("new passphrase", true) {
        PassphraseRequest::Prompt(first, second) => {
            assert_eq!("Enter new passphrase: ", first);
            assert_eq!(Some("Retype new passphrase: ".to_owned()), second);
        }
        _ => panic!("The user is not asked"),
    }
    match PassphraseConfig::Prompt.request("passphrase", false) {
        PassphraseRequest::Prompt(first, second) => {
            assert_eq!("Enter passphrase: ", first);
            assert_eq!(None, second);
        }
        _ => panic!("The user is not asked"),
    }
    let typed = |a: &str, b: &str| {
        PassphraseConfig::Prompt
            .read_passphrase(PassphraseReply::Typed(a.to_owned(), Some(b.to_owned())))
    };
    assert_eq!(b"hunter2", &typed("hunter2", "hunter2").unwrap()[..]);
    assert_eq!("Passwords do not match", typed("hunter2", "hunter3").unwrap_err().kind.message());
    assert_eq!("Password is empty", typed("\n", "\n").unwrap_err().kind.message());
    assert!(do_prompt_passphrase("a".to_owned(), Some("b".to_owned())).is_err());
    assert_eq!(b"a", &do_prompt_passphrase("a".to_owned(), None).unwrap()[..]);
}

#[test]
fn passphrase_failures() {
    let file = PassphraseConfig::File(oss("secret"));
    let cause = || Error::new(ErrorKind::NotFound);
    let e = file.read_passphrase(PassphraseReply::Failed(cause())).unwrap_err();
    assert_eq!("Failed to read passphrase from secret", e.kind.message());
    assert_eq!(vec!["File not found".to_owned()], e.causes);

    let shell = PassphraseConfig::Shell("pass show".to_owned(), None);
    let e = shell
        .read_passphrase(PassphraseReply::Unsuccessful("exit status: 1".to_owned()))
        .unwrap_err();
    assert_eq!("Command `pass show` failed with exit status: 1", e.kind.message());
    let e = shell.read_passphrase(PassphraseReply::Failed(cause())).unwrap_err();
    assert_eq!("Failed to execute command `pass show`", e.kind.message());
}

#[test]
fn passphrase_settings_are_written_as_they_are_read() {
    for s in ["prompt", "string:hunter2", "file:/etc/secret", "shell:pass show ensync"] {
        assert_eq!(s, PassphraseConfig::from_str(s).unwrap().to_string_lossy());
    }
    assert!(PassphraseConfig::from_str("prompts").is_err());
    assert!(PassphraseConfig::from_str("dice:6").is_err());
    assert!(ServerConfig::from_str("/some/path").is_err());
    assert!(ServerConfig::from_str("tcp:host").is_err());
}

#[test]
fn configuration_errors() {
    let parse = |text: &str| Config::parse(b"/foo/config.toml", text);
    assert!(parse("this is not toml").is_err());
    assert!(parse("[rules]\n").is_err());
    assert!(parse("[general]\npath = 12\n").is_err());
    let missing = parse("[general]\npath = \"/x\"\nserver = \"path:/y\"\nserver_root = \"r\"\n");
    assert_eq!(
        "/foo/config.toml: Missing section [rules] under top level",
        missing.err().unwrap().kind.message()
    );
}

#[test]
fn defaults_and_places() {
    let text = r#"
[general]
path = "/x"
server = "path:/y"
server_root = "r"
passphrase = "prompt"

[rules]
"#;
    let config = Config::parse(b"/foo/bar/config.toml", text).unwrap();
    assert_eq!(oss("/foo/bar/internal.ensync"), config.private_root);
    assert_eq!(oss("/foo/bar/config.toml"), config.full_path());
    assert_eq!(oss("/home/u/conf/config.toml"), Config::file_location(b"conf", b"/home/u"));
    assert_eq!(oss("/etc/config.toml"), Config::file_location(b"/etc/config.toml", b"/home/u"));
    assert_eq!(1024 * 1024 - 512, config.block_size);
    assert_eq!(flate2::Compression::default().level(), config.compression);

    let same = Config::parse(b"/foo/bar/config.toml", text).unwrap();
    let other = Config::parse(b"/foo/bar/config.toml", &text.replace("/x", "/z")).unwrap();
    assert_eq!(same.hash, config.hash);
    assert!(other.hash != config.hash);
}

#[test]
fn the_mode_of_the_only_rule() {
    let mode = rule_mode(b"/c/config.toml", Some("cud/---")).unwrap();
    assert_eq!(SyncMode::parse("cud/---"), Some(mode));
    for bad in [None, Some("nonsense")] {
        assert_eq!(
            "/c/config.toml: Invalid sync rules configuration",
            rule_mode(b"/c/config.toml", bad).unwrap_err().kind.message()
        );
    }
}

#[test]
fn the_configuration_is_named_by_components() {
    let at = |p: &str| String::from_utf8(Config::file_location(p.as_bytes(), b"/w")).unwrap();
    assert_eq!("/w/a/config.toml", at("a/config.toml"));
    assert_eq!("/w/a/config.toml/.", at("a/config.toml/."));
    assert_eq!("/w/a/config.toml/", at("a/config.toml/"));
    assert_eq!("/w/a/xconfig.toml/config.toml", at("a/xconfig.toml"));
}

#[test]
fn passphrase_files_are_written_as_they_are_read() {
    let file = PassphraseConfig::File(oss("some/where"));
    assert_eq!("file:some/where", file.to_string_lossy());
}
