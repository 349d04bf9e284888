use netlabs::ftp_client::{
    command_line, display_name, listing_lines, open_entry, parse_pasv_reply, parse_pwd_reply, parse_reply_start,
    reply_ends, EntryAction, Screen,
};
use netlabs::ftp_server::{mlsd_facts, parse_port, FtpAction, FtpReply, FtpSession, PortArg};

#[test]
fn login_gate() {
    let mut s = FtpSession::new();
    let (r, a) = s.handle_command("PWD");
    assert!(matches!(r, Some(FtpReply::LoginFirst)));
    assert!(matches!(a, FtpAction::Continue));
    let (r, _) = s.handle_command("PASS secret");
    assert!(matches!(r, Some(FtpReply::LoginIncorrect)));
    let (r, _) = s.handle_command("user ab");
    assert!(matches!(r, Some(FtpReply::InvalidUser)));
    let (r, _) = s.handle_command("USER");
    assert!(matches!(r, Some(FtpReply::MissingUser)));
    let (r, _) = s.handle_command("user alice");
    assert!(matches!(r, Some(FtpReply::UserOk)));
    assert_eq!(s.pending_user, Some("alice".to_string()));
    let (r, _) = s.handle_command("PASS x");
    assert!(matches!(r, Some(FtpReply::LoginIncorrect)));
    assert!(!s.logged_in);
    let (r, _) = s.handle_command("PASS secret");
    assert!(matches!(r, Some(FtpReply::LoggedIn)));
    assert!(s.logged_in);
}

#[test]
fn commands_after_login() {
    let mut s = FtpSession { logged_in: true, pending_user: Some("bob".to_string()) };
    assert!(matches!(s.handle_command("PASV"), (None, FtpAction::OpenPassive)));
    assert!(matches!(s.handle_command("pwd"), (None, FtpAction::PrintDir)));
    match s.handle_command("CWD docs") {
        (None, FtpAction::ChangeDir(d)) => assert_eq!(d, "docs"),
        _ => panic!("expected a directory change"),
    }
    match s.handle_command("RETR a.txt") {
        (None, FtpAction::Retrieve(f)) => assert_eq!(f, "a.txt"),
        _ => panic!("expected a retrieve"),
    }
    match s.handle_command("STOR b.txt") {
        (Some(FtpReply::ReadyToReceive), FtpAction::Store(f)) => assert_eq!(f, "b.txt"),
        _ => panic!("expected a store"),
    }
    assert!(matches!(s.handle_command("LIST"), (Some(FtpReply::Opening), FtpAction::SendNames)));
    assert!(matches!(s.handle_command("MLSD"), (Some(FtpReply::Opening), FtpAction::SendFacts)));
    assert!(matches!(s.handle_command("NOOP"), (Some(FtpReply::NotImplemented), FtpAction::Continue)));
    assert!(matches!(s.handle_command("QUIT"), (Some(FtpReply::Goodbye), FtpAction::Quit)));
    match s.handle_command("PORT 127,0,0,1,4,1") {
        (Some(FtpReply::PortOk), FtpAction::SetDataAddr(a)) => {
            assert_eq!(a.ip, 0x7f000001);
            assert_eq!(a.port, 1025);
            assert!(!a.v6);
        }
        _ => panic!("expected a data address"),
    }
}

#[test]
fn port_arguments() {
    assert!(matches!(parse_port("10,0,0,2,0,21"), PortArg::Valid(a) if a.port == 21 && a.ip == 0x0a000002));
    assert!(matches!(parse_port("1,2,3"), PortArg::Invalid));
    assert!(matches!(parse_port("256,0,0,1,0,21"), PortArg::Invalid));
    assert!(matches!(parse_port("1,2,3,4,256,0"), PortArg::Overflow));
}

#[test]
fn reply_texts() {
    assert_eq!(FtpReply::Greeting.text(), "220 Simple FTP Server");
    assert_eq!(
        FtpReply::Passive { a: 127, b: 0, c: 0, d: 1, port: 1025 }.text(),
        "227 Entering Passive Mode (127,0,0,1,4,1)"
    );
    assert_eq!(FtpReply::CurrentDir("/home".to_string()).text(), "257 \"/home\"");
}

#[test]
fn mlsd_lines() {
    assert_eq!(
        mlsd_facts(false, 42, None, "a.txt"),
        Some("type=file;size=42;modify=19700101000000; a.txt".to_string())
    );
    assert_eq!(mlsd_facts(true, 0, Some((0, 0)), "dir"), Some("type=dir;modify=19700101000000; dir".to_string()));
    assert_eq!(
        mlsd_facts(false, 1, Some((86400, 0)), "b"),
        Some("type=file;size=1;modify=19700102000000; b".to_string())
    );
}

#[test]
fn client_reply_parsing() {
    assert_eq!(parse_reply_start("220 ready"), Some((220, false)));
    assert_eq!(parse_reply_start("150-first line"), Some((150, true)));
    assert_eq!(parse_reply_start("22"), None);
    assert_eq!(parse_reply_start("abc def"), None);
    assert!(reply_ends("150 done", 150));
    assert!(!reply_ends("150-more", 150));
    assert_eq!(
        parse_pasv_reply("227 Entering Passive Mode (192,168,1,2,4,1)"),
        Some("192.168.1.2:1025".to_string())
    );
    assert_eq!(parse_pasv_reply("227 no address"), None);
    assert_eq!(parse_pasv_reply("227 (1,2,3,4,256,0)"), None);
    assert_eq!(parse_pwd_reply("257 \"/pub\" is current"), Some("/pub".to_string()));
    assert_eq!(parse_pwd_reply("257 nothing"), None);
}

#[test]
fn listing_entries() {
    assert_eq!(listing_lines(b"a\r\nb\nc\n"), vec!["a".to_string(), "b".to_string(), "c".to_string()]);
    assert_eq!(listing_lines(b""), Vec::<String>::new());
    assert_eq!(display_name("type=file;size=3;modify=1; notes.txt"), "notes.txt");
    assert_eq!(display_name("plain"), "plain");
    assert!(matches!(open_entry("Type=DIR;modify=1; src"), EntryAction::ChangeDir(n) if n == "src"));
    assert!(matches!(open_entry("type=file;size=1; a"), EntryAction::OpenFile(n) if n == "a"));
    assert!(matches!(open_entry("x"), EntryAction::TryDirThenFile(n) if n == "x"));
    assert_eq!(command_line("USER", Some("bob")), b"USER bob\r\n".to_vec());
    assert_eq!(command_line("PASV", None), b"PASV\r\n".to_vec());
    assert_eq!(Screen::default(), Screen::Login);
}
