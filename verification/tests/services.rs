use netlabs::ftp_server::facts_line_of;
use netlabs::http::{HttpError, HttpRequest, HttpResponse, RawHead};
use netlabs::smtp::{message_plan, next_prompt, EmailPrompt, MailError};
use netlabs::blacklist::Blacklist;
use netlabs::file_server::{
    get_request, not_allowed_response, not_found_response, ok_head, route_request, RequestCollector, Route,
};
use netlabs::smtp::{
    attachment_name, mime_message, read_email, Email, SimpleSender, SmtpAction, SmtpDialogue, SmtpError, SmtpStage,
    BOUNDARY,
};

fn lines(v: &[&str]) -> Vec<String> {
    v.iter().map(|s| s.to_string()).collect()
}

#[test]
fn email_from_answers() {
    let e = read_email(&lines(&[
        " a@x.org ",
        "b@y.org",
        "Hi",
        "y",
        "first line ",
        "  second",
        "",
        "/tmp/one.txt",
        " two.bin ",
        "",
        "ignored",
    ]));
    assert_eq!(e.from, "a@x.org");
    assert_eq!(e.to, "b@y.org");
    assert_eq!(e.subject, "Hi");
    assert!(e.useHTML);
    assert_eq!(e.body, "first line\nsecond\n");
    assert_eq!(e.attachments, vec!["/tmp/one.txt".to_string(), "two.bin".to_string()]);
}

#[test]
fn email_from_short_input() {
    let e = read_email(&lines(&["a", "b"]));
    assert_eq!(e.subject, "");
    assert!(!e.useHTML);
    assert_eq!(e.body, "");
    assert!(e.attachments.is_empty());
    let e = read_email(&lines(&["a", "b", "s", "Y", "body"]));
    assert!(!e.useHTML);
    assert_eq!(e.body, "body\n");
}

#[test]
fn simple_sender_defaults() {
    let s = SimpleSender::new();
    assert_eq!(s.host, "127.0.0.1");
    assert_eq!(s.port, 1025);
}

fn command(a: Result<SmtpAction, SmtpError>) -> Vec<u8> {
    match a {
        Ok(SmtpAction::Command(c)) => c,
        _ => panic!("expected a command"),
    }
}

#[test]
fn smtp_dialogue_in_order() {
    let mut d = SmtpDialogue::new("a@x".to_string(), "b@y".to_string());
    assert_eq!(command(d.on_reply("220 hello")), b"HELO localhost\r\n".to_vec());
    assert_eq!(command(d.on_reply("250 ok")), b"MAIL FROM:<a@x>\r\n".to_vec());
    assert_eq!(command(d.on_reply("250 ok")), b"RCPT TO:<b@y>\r\n".to_vec());
    assert_eq!(command(d.on_reply("250 ok")), b"DATA\r\n".to_vec());
    assert!(matches!(d.on_reply("354 go"), Ok(SmtpAction::SendMessage)));
    match d.on_reply("250 queued") {
        Ok(SmtpAction::Finish(c)) => assert_eq!(c, b"QUIT\r\n".to_vec()),
        _ => panic!("expected QUIT"),
    }
    assert_eq!(d.stage, SmtpStage::Done);
    assert!(matches!(d.on_reply("221 bye"), Err(SmtpError::Finished)));
}

#[test]
fn smtp_rejection_stops() {
    let mut d = SmtpDialogue::new("a@x".to_string(), "b@y".to_string());
    match d.on_reply("554 no") {
        Err(SmtpError::Rejected(l)) => assert_eq!(l, "554 no"),
        _ => panic!("expected a rejection"),
    }
    assert_eq!(d.stage, SmtpStage::Greeting);
    assert!(matches!(d.on_reply(""), Err(SmtpError::Rejected(_))));
}

#[test]
fn mime_layout() {
    let e = Email {
        from: "a@x".to_string(),
        to: "b@y".to_string(),
        subject: "S".to_string(),
        useHTML: false,
        body: "hello\n".to_string(),
        attachments: vec![],
    };
    let m = mime_message(&e, &vec![("f.txt".to_string(), b"Man".to_vec()), ("g".to_string(), b"Ma".to_vec())]);
    let expected = format!(
        "From: a@x\r\nTo: b@y\r\nSubject: S\r\nMIME-Version: 1.0\r\nContent-Type: multipart/mixed; boundary=\"{b}\"\r\n\r\n--{b}\r\nContent-Type: text/text; charset=utf-8\r\n\r\nhello\n\r\n\
\r\n--{b}\r\nContent-Type: application/octet-stream\r\nContent-Disposition: attachment; filename=\"f.txt\"\r\nContent-Transfer-Encoding: base64\r\n\r\nTWFu\r\n\
\r\n--{b}\r\nContent-Type: application/octet-stream\r\nContent-Disposition: attachment; filename=\"g\"\r\nContent-Transfer-Encoding: base64\r\n\r\nTWE=\r\n\
--{b}--\r\n.\r\n",
        b = BOUNDARY
    );
    assert_eq!(m, expected);
    assert_eq!(BOUNDARY, "TotallyUnsuspiciousPattern239");
    let one = mime_message(&e, &vec![("m".to_string(), b"M".to_vec())]);
    assert!(one.contains("\r\n\r\nTQ==\r\n"));
    let html = Email { useHTML: true, ..e };
    assert!(mime_message(&html, &vec![]).contains("Content-Type: text/html; charset=utf-8"));
}

#[test]
fn attachment_names() {
    assert_eq!(attachment_name("/tmp/dir/report.pdf"), Some("report.pdf".to_string()));
    assert_eq!(attachment_name("notes.txt"), Some("notes.txt".to_string()));
    assert_eq!(attachment_name("/tmp/.."), None);
}

#[test]
fn blacklist_from_lines() {
    let b = Blacklist::from_content("# comment\n\n  .*\\.bad\\.com  \r\nexample\\.org\n").ok().unwrap();
    assert!(b.is_blocked("http://www.bad.com/x"));
    assert!(b.is_blocked("example.org"));
    assert!(!b.is_blocked("good.net"));
    assert!(!Blacklist::empty().is_blocked("anything"));
}

#[test]
fn blacklist_reports_bad_line() {
    match Blacklist::from_content("ok\n# fine\n(unclosed\n") {
        Err(e) => {
            assert_eq!(e.line, 3);
            assert_eq!(e.text, "(unclosed");
        }
        Ok(_) => panic!("expected an error"),
    }
}

#[test]
fn collector_finds_request_line() {
    let mut c = RequestCollector::new();
    assert_eq!(c.on_chunk(b"GET /a.txt HTTP/1.1\r\nHost: x\r\n"), None);
    assert_eq!(c.on_chunk(b"\r\n"), Some("GET /a.txt HTTP/1.1".to_string()));
}

#[test]
fn routing_and_heads() {
    assert!(matches!(route_request("GET /a.txt HTTP/1.1"), Route::File(f) if f == "a.txt"));
    assert!(matches!(route_request("GET b HTTP/1.1"), Route::File(f) if f == "b"));
    assert!(matches!(route_request("POST /a HTTP/1.1"), Route::NotAllowed));
    assert_eq!(not_allowed_response(), b"HTTP/1.1 405 Method not allowed".to_vec());
    assert_eq!(ok_head(12), b"HTTP/1.1 200 OK\r\nContent-Length: 12\r\n\r\n".to_vec());
    let names = "Available files\n./a\r\n./b\r\n";
    let expected = format!("HTTP/1.1 404 Not found\r\nContent-Length: {}\r\n\r\n{}", names.len(), names);
    assert_eq!(not_found_response(&vec!["./a".to_string(), "./b".to_string()]), expected.into_bytes());
    assert_eq!(
        get_request("a.txt", "10.0.0.1"),
        "GET /a.txt HTTP/1.1\r\nHost: 10.0.0.1\r\nConnection: close\r\n\r\n"
    );
}

#[test]
fn message_plans() {
    let e = Email {
        from: "a@x.org".to_string(),
        to: "Bob <b@y.org>".to_string(),
        subject: "S".to_string(),
        useHTML: true,
        body: "hi".to_string(),
        attachments: vec![],
    };
    let files = vec![("/tmp/dir/r.pdf".to_string(), b"pdf".to_vec()), ("n.txt".to_string(), b"".to_vec())];
    match message_plan(&e, &files) {
        Ok(p) => {
            assert_eq!(p.from, "a@x.org");
            assert_eq!(p.to, "Bob <b@y.org>");
            assert!(p.html);
            assert_eq!(p.body, "hi");
            assert_eq!(p.attachments, vec![("r.pdf".to_string(), b"pdf".to_vec()), ("n.txt".to_string(), vec![])]);
        }
        Err(_) => panic!("expected a plan"),
    }
    let built = e.build_message(&files).ok().unwrap();
    let text = String::from_utf8_lossy(&built.message.formatted()).to_string();
    assert!(text.contains("From: a@x.org"));
    assert!(text.contains("Subject: S"));
    let html_at = text.find("Content-Type: text/html").unwrap();
    let first = text.find("filename=\"r.pdf\"").unwrap();
    let second = text.find("filename=\"n.txt\"").unwrap();
    assert!(html_at < first && first < second);
    let bad_name = vec![("ok".to_string(), vec![]), ("/tmp/..".to_string(), vec![])];
    assert!(matches!(message_plan(&e, &bad_name), Err(MailError::NoFileName(1))));
    let bad_from = Email { from: "not a mailbox".to_string(), ..e };
    assert!(matches!(message_plan(&bad_from, &vec![]), Err(MailError::BadFrom)));
    assert!(matches!(bad_from.build_message(&vec![]), Err(MailError::BadFrom)));
    let bad_to = Email {
        from: "a@x.org".to_string(),
        to: "@@".to_string(),
        subject: String::new(),
        useHTML: false,
        body: String::new(),
        attachments: vec![],
    };
    assert!(matches!(message_plan(&bad_to, &vec![]), Err(MailError::BadTo)));
}

#[test]
fn parsed_heads_build_messages() {
    let head = RawHead {
        complete: Some(4),
        method: Some("PUT".to_string()),
        path: Some("h/p".to_string()),
        version: Some(1),
        code: None,
        reason: None,
        headers: vec![("Content-Length".to_string(), b"2".to_vec())],
    };
    let req = HttpRequest::from_head(4, &b"xxxxabc".to_vec(), head).ok().unwrap();
    assert_eq!(req.method, "PUT");
    assert_eq!(req.body, b"ab".to_vec());
    let no_method = RawHead {
        complete: None,
        method: None,
        path: None,
        version: None,
        code: None,
        reason: None,
        headers: vec![],
    };
    assert!(matches!(HttpRequest::from_head(0, &vec![], no_method), Err(HttpError::NoMethod)));
    let resp_head = RawHead {
        complete: Some(0),
        method: None,
        path: None,
        version: Some(0),
        code: Some(204),
        reason: Some("No Content".to_string()),
        headers: vec![("X".to_string(), b"\xff".to_vec())],
    };
    assert!(matches!(HttpResponse::from_head(0, &vec![], resp_head), Err(HttpError::InvalidHeader)));
}

#[test]
fn mlsd_lines_from_text() {
    assert_eq!(facts_line_of(false, 7, Some("20240102030405"), "a"), "type=file;size=7;modify=20240102030405; a");
    assert_eq!(facts_line_of(true, 7, None, "d"), "type=dir;modify=19700101000000; d");
}

#[test]
fn email_prompts_in_order() {
    assert_eq!(next_prompt(&lines(&[])), EmailPrompt::Header(0));
    assert_eq!(next_prompt(&lines(&["a", "b", "c"])), EmailPrompt::Header(3));
    assert_eq!(next_prompt(&lines(&["a", "b", "c", "y"])), EmailPrompt::BodyLine);
    assert_eq!(next_prompt(&lines(&["a", "b", "c", "y", "body"])), EmailPrompt::BodyLine);
    assert_eq!(next_prompt(&lines(&["a", "b", "c", "y", "body", " "])), EmailPrompt::Attachment);
    assert_eq!(next_prompt(&lines(&["a", "b", "c", "y", "body", "", "f"])), EmailPrompt::Attachment);
    assert_eq!(next_prompt(&lines(&["a", "b", "c", "y", "body", "", "f", "\n"])), EmailPrompt::Done);
}
