//! Setting the program up.

use ensync::cli::config::Config;
use ensync::cli::setup::{
    ask, check_config_location, check_installation, check_local, check_not_interactive,
    check_shell, config_text, confirm, is_affirmative, is_new_root, local_plan, path_server,
    prompt_line, read_shell_response, remote_plan, remote_shell_command, sanity_check_remote,
    shell_escape, split_remote, ssh_server, start_command, test_command, Answer, Choices,
    RemoteFacts, RemoteVerdict, SetupFacts,
};

#[test]
fn shell_escape_works() {
    assert_eq!("foo", &shell_escape("foo"));
    assert_eq!("azAZ09", &shell_escape("azAZ09"));
    assert_eq!("foo@bar.com", &shell_escape("foo@bar.com"));
    assert_eq!("/tmp/y.txt", &shell_escape("/tmp/y.txt"));
    assert_eq!("'foo bar'", &shell_escape("foo bar"));
    assert_eq!("'o'\"'\"'ryan'", &shell_escape("o'ryan"));
}

#[test]
fn questions() {
    assert_eq!(Answer::Yes, ask("yes\n"));
    assert_eq!(Answer::Yes, ask("Y\n"));
    assert_eq!(Answer::No, ask("no\n"));
    assert_eq!(Answer::No, ask("N"));
    assert_eq!(Answer::No, ask(""));
    assert_eq!(Answer::Unclear, ask("\n"));
    assert_eq!(Answer::Unclear, ask(" y\n"));
    assert!(confirm(true).is_ok());
    assert_eq!("Cancelled", confirm(false).unwrap_err().kind.message());
    assert_eq!("default", prompt_line("default", " \t\n"));
    assert_eq!("some thing", prompt_line("default", "  some thing \n"));
    assert_eq!("x", prompt_line("default", "\u{3000}\u{a0}x\u{2028}\t"));
    assert_eq!("\u{200b}x", prompt_line("default", "\u{200b}x"));
}

#[test]
fn talking_to_the_shell() {
    assert_eq!("ls -l\n", remote_shell_command("ls -l"));
    assert_eq!("héllo", read_shell_response("héllo\0".as_bytes().to_vec()).unwrap());
    assert_eq!("", read_shell_response(vec![0]).unwrap());
    assert_eq!(
        "Unexpected EOF from server",
        read_shell_response(b"hello".to_vec()).unwrap_err().kind.message()
    );
    assert_eq!(
        "Unexpected EOF from server",
        read_shell_response(vec![]).unwrap_err().kind.message()
    );
    assert_eq!(
        "Failed to decode shell response from server",
        read_shell_response(vec![0xff, 0]).unwrap_err().kind.message()
    );
    assert_eq!(
        "test -d '/my dir' && printf 'y\\0' || printf 'n\\0'",
        test_command("-d", "/my dir")
    );
    assert!(is_affirmative("y"));
    assert!(!is_affirmative("n"));
    assert!(check_shell("I am ensync shell", "").unwrap());
    assert!(check_shell("I am ensync shell", "data").is_err());
    assert!(!check_shell("0", "data").unwrap());
    assert!(check_shell("1", "data").is_err());
    assert_eq!("./ensync", check_installation("./ensync".to_owned()).unwrap());
    assert!(check_installation("nothing".to_owned()).is_err());
    assert_eq!(
        "printf . && exec ensync server 'my data'",
        start_command("ensync", "my data")
    );
}

#[test]
fn remote_places() {
    let fine = RemoteFacts { exists: true, is_dir: true, has_dirs: true, parent_exists: true };
    assert_eq!(RemoteVerdict::Fine, sanity_check_remote(b"/data", fine));
    assert_eq!(
        RemoteVerdict::Refuse("Remote path is empty".to_owned()),
        sanity_check_remote(b"", fine)
    );
    assert_eq!(
        RemoteVerdict::Refuse("Sync remote path '/data' is not a directory".to_owned()),
        sanity_check_remote(b"/data", RemoteFacts { is_dir: false, ..fine })
    );
    assert_eq!(
        RemoteVerdict::Ask(
            "Sync remote location '/data' already exists and does not look like an ensync\n\
             server directory.\nReally use this location as the remote? "
                .to_owned()
        ),
        sanity_check_remote(b"/data", RemoteFacts { has_dirs: false, ..fine })
    );
    let missing = RemoteFacts { exists: false, parent_exists: false, ..fine };
    assert_eq!(
        RemoteVerdict::Ask(
            "Parent of sync remote location, '/mnt/x', does not exist;\nShould it be created too? "
                .to_owned()
        ),
        sanity_check_remote(b"/mnt/x/data", missing)
    );
    assert_eq!(
        RemoteVerdict::Fine,
        sanity_check_remote(b"/mnt/x/data", RemoteFacts { parent_exists: true, ..missing })
    );
}

#[test]
fn local_places() {
    let facts =
        SetupFacts { config_exists: false, config_parent_exists: true, local_is_dir: true };
    assert!(check_config_location(b"conf", facts).unwrap().is_empty());
    assert!(check_config_location(b".ensync", facts).unwrap().is_empty());
    assert_eq!(1, check_config_location(b"conf.toml", facts).unwrap().len());
    let nowhere = SetupFacts { config_parent_exists: false, ..facts };
    assert_eq!(2, check_config_location(b"/a/conf.toml", nowhere).unwrap().len());
    assert!(check_config_location(b"conf", SetupFacts { config_exists: true, ..facts }).is_err());
    assert!(check_local(b"/home", facts).is_ok());
    assert_eq!(
        "Local path '/home' does not exist",
        check_local(b"/home", SetupFacts { local_is_dir: false, ..facts })
            .unwrap_err()
            .kind
            .message()
    );
}

#[test]
fn plans_and_servers() {
    assert_eq!(
        Some(("u@host".to_owned(), "a:b".to_owned())),
        split_remote("u@host:a:b")
    );
    assert_eq!(None, split_remote("/mnt/flash"));
    assert_eq!("path:/mnt/flash", path_server("/mnt/flash"));
    assert_eq!("shell:ssh -T u@host", ssh_server("u@host", None, ""));
    assert_eq!(
        "shell:ssh -T u@host ensync server ''\"'\"'my data'\"'\"''",
        ssh_server("u@host", Some("ensync"), "my data")
    );
    assert_eq!(
        "This will set up the following configuration:\n\
         Files synced to/from: /home/u\n\
         Encrypted data written to LOCAL path: /mnt/flash\n\
         Configuration and state stored in: /home/u/.ensync\n\n\
         Does this look reasonable? ",
        local_plan(b"/home/u", b"/mnt/flash", b"/home/u/.ensync")
    );
    assert!(remote_plan(b"/home/u", "a host", "data", b"conf")
        .contains("Server accessed via: ssh 'a host'\n"));
    let roots = vec!["a".to_owned(), "b".to_owned()];
    assert!(is_new_root(&roots, "c"));
    assert!(!is_new_root(&roots, "b"));
    assert!(check_not_interactive(false, false, "ensync server").is_ok());
    assert_eq!(
        "ensync server is not for interactive use",
        check_not_interactive(false, true, "ensync server").unwrap_err().kind.message()
    );
}

#[test]
fn what_is_written_can_be_read() {
    let choices = Choices {
        path: "/home/o'ryan/\"files\"".to_owned(),
        server: "path:/mnt/flash".to_owned(),
        server_root: "r00t".to_owned(),
        passphrase: "string:back\\slash".to_owned(),
        compression: "best".to_owned(),
        sync_mode: "cud/cud".to_owned(),
    };
    let text = config_text(&choices);
    let config = Config::parse(b"/conf/config.toml", &text).unwrap();
    assert_eq!(b"/home/o'ryan/\"files\"".to_vec(), config.client_root);
    assert_eq!("r00t", config.server_root);
    assert_eq!("string:back\\slash", config.passphrase.to_string_lossy());
    assert_eq!(flate2::Compression::best().level(), config.compression);
    assert!(text.contains("\npath = "));
}

#[test]
fn strings_are_written_with_escapes() {
    let choices = Choices {
        path: "a\"b\\c\n\t\r\u{8}\u{c}\u{1}\u{1f}\u{7f}'\u{80}é".to_owned(),
        server: String::new(),
        server_root: String::new(),
        passphrase: String::new(),
        compression: String::new(),
        sync_mode: String::new(),
    };
    let written = r#""a\"b\\c\n\t\r\b\f\u0001\u001F\u007F'"#.to_owned() + "\u{80}é\"";
    assert!(config_text(&choices).contains(&format!("\npath = {}\n", written)));
}
