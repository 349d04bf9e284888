use netlabs::http::{
    blocked_response, get_content_length, HttpError, HttpRequest, HttpResponse, MessageKind, MessageParser,
    MessageReader, ReadStep, RequestParser, ResponseParser, BLOCKED_PAGE_HEAD, BLOCKED_PAGE_TAIL, HeaderMap,
};
use netlabs::remote::{command_report, error_response};

fn head_len(buf: &[u8]) -> usize {
    buf.windows(4).position(|w| w == b"\r\n\r\n").unwrap() + 4
}

fn request_bytes() -> Vec<u8> {
    b"GET example.com/index.html HTTP/1.1\r\nHost: x\r\nContent-Length: 3\r\n\r\nabc".to_vec()
}

#[test]
fn request_parses_and_moves_host_out_of_path() {
    let buf = request_bytes();
    let hl = head_len(&buf);
    let mut req = HttpRequest::from_bytes(hl, buf).ok().unwrap();
    assert_eq!(req.method, "GET");
    assert_eq!(req.path, "example.com/index.html");
    assert_eq!(req.headers.get(&"host".to_string()), Some("x".to_string()));
    assert_eq!(req.headers.get(&"content-length".to_string()), Some("3".to_string()));
    assert_eq!(req.body, b"abc".to_vec());

    let host = req.truncate_adress().ok().unwrap();
    assert_eq!(host, "example.com");
    assert_eq!(req.path, "index.html");
    assert_eq!(req.headers.get(&"host".to_string()), Some("example.com".to_string()));
    assert_eq!(
        req.to_bytes(),
        b"GET /index.html HTTP/1.1\r\nhost: example.com\r\ncontent-length: 3\r\n\r\nabc".to_vec()
    );
}

#[test]
fn request_without_slash_in_path_keeps_everything() {
    let buf = b"GET nohost HTTP/1.1\r\n\r\n".to_vec();
    let hl = head_len(&buf);
    let mut req = HttpRequest::from_bytes(hl, buf).ok().unwrap();
    assert!(matches!(req.truncate_adress(), Err(HttpError::NoHostInPath)));
    assert_eq!(req.path, "nohost");
    assert!(req.body.is_empty());
}

#[test]
fn request_body_shorter_than_announced_is_empty() {
    let buf = b"POST a/b HTTP/1.1\r\nContent-Length: 10\r\n\r\nabc".to_vec();
    let hl = head_len(&buf);
    let req = HttpRequest::from_bytes(hl, buf).ok().unwrap();
    assert!(req.body.is_empty());
}

#[test]
fn request_with_bad_content_length_is_refused() {
    let buf = b"GET a/b HTTP/1.1\r\nContent-Length: abc\r\n\r\n".to_vec();
    let hl = head_len(&buf);
    assert!(matches!(HttpRequest::from_bytes(hl, buf), Err(HttpError::InvalidContentLength)));
}

#[test]
fn request_with_garbage_is_a_parse_error() {
    let buf = b"\x01\x02 / HTTP/1.1\r\n\r\n".to_vec();
    assert!(matches!(HttpRequest::from_bytes(0, buf), Err(HttpError::Parse(_))));
}

#[test]
fn request_with_non_utf8_header_is_refused() {
    let buf = b"GET a/b HTTP/1.1\r\nX-Test: \xff\xfe\r\n\r\n".to_vec();
    let hl = head_len(&buf);
    assert!(matches!(HttpRequest::from_bytes(hl, buf), Err(HttpError::InvalidHeader)));
}

#[test]
fn later_headers_replace_earlier_ones() {
    let buf = b"GET a/b HTTP/1.1\r\nAccept: one\r\nACCEPT: two\r\n\r\n".to_vec();
    let hl = head_len(&buf);
    let req = HttpRequest::from_bytes(hl, buf).ok().unwrap();
    assert_eq!(req.headers.entries().len(), 1);
    assert_eq!(req.headers.get(&"accept".to_string()), Some("two".to_string()));
}

#[test]
fn header_map_insert_and_get() {
    let mut m = HeaderMap::new();
    m.insert("a".to_string(), "1".to_string());
    m.insert("b".to_string(), "2".to_string());
    m.insert("a".to_string(), "3".to_string());
    assert_eq!(m.entries(), &vec![("a".to_string(), "3".to_string()), ("b".to_string(), "2".to_string())]);
    assert_eq!(m.get(&"a".to_string()), Some("3".to_string()));
    assert_eq!(m.get(&"c".to_string()), None);
}

#[test]
fn response_parses_and_serialises() {
    let buf = b"HTTP/1.1 404 Not Found\r\nContent-Length: 2\r\n\r\nhi".to_vec();
    let hl = head_len(&buf);
    let resp = HttpResponse::from_bytes(hl, buf).ok().unwrap();
    assert_eq!(resp.version, Some("1".to_string()));
    assert_eq!(resp.code, Some("404".to_string()));
    assert_eq!(resp.reason, Some("Not Found".to_string()));
    assert_eq!(resp.get_body(), &b"hi".to_vec());
    assert_eq!(resp.to_bytes(), b"HTTP/1.1 404 Not Found\r\ncontent-length: 2\r\n\r\nhi".to_vec());
}

#[test]
fn ok_response_carries_the_body() {
    let resp = HttpResponse::from_body_ok(b"hello".to_vec());
    assert_eq!(
        resp.to_bytes(),
        b"HTTP/1.1 200 \r\nContent-Type: text/html; charset=utf-8\r\nContent-Length: 5\r\nConnection: close\r\n\r\nhello"
            .to_vec()
    );
    assert_eq!(resp.get_body(), &b"hello".to_vec());
}

#[test]
fn blocked_response_names_the_url() {
    let url = "http://bad.example/";
    let resp = blocked_response(url);
    let page = format!("{}{}{}", BLOCKED_PAGE_HEAD, url, BLOCKED_PAGE_TAIL);
    assert_eq!(resp.code, Some("403".to_string()));
    assert_eq!(resp.reason, Some("Forbidden".to_string()));
    assert_eq!(resp.version, Some("HTTP/1.1".to_string()));
    assert_eq!(resp.body, page.as_bytes().to_vec());
    assert!(page.contains("<p><code>http://bad.example/</code></p>"));
    assert!(page.starts_with("<!DOCTYPE html>\n<html>"));
    assert_eq!(resp.headers.get(&"Content-Length".to_string()), Some(page.len().to_string()));
    assert_eq!(resp.headers.get(&"Server".to_string()), Some("SanyaProxy/1.0".to_string()));
    let bytes = resp.to_bytes();
    assert!(bytes.starts_with(b"HTTP/1.1 403 Forbidden\r\nContent-Type: text/html; charset=utf-8\r\n"));
}

#[test]
fn content_length_header_lookup() {
    let h = vec![("Host".to_string(), b"x".to_vec()), ("content-LENGTH".to_string(), b"12".to_vec())];
    assert_eq!(get_content_length(&h), 12);
    let bad = vec![("Content-Length".to_string(), b"x1".to_vec()), ("Content-Length".to_string(), b"5".to_vec())];
    assert_eq!(get_content_length(&bad), 0);
    assert_eq!(get_content_length(&vec![]), 0);
}

#[test]
fn parsers_report_head_length_and_content_length() {
    let buf = request_bytes();
    let hl = head_len(&buf);
    let mut p = RequestParser { content_length: 0 };
    assert_eq!(p.parse(&buf[..10]).ok().unwrap(), None);
    assert_eq!(p.parse(&buf).ok().unwrap(), Some(hl));
    assert_eq!(p.content_length(), 3);

    let mut q = ResponseParser { content_length: 0 };
    let resp = b"HTTP/1.1 200 OK\r\nContent-Length: 7\r\n\r\n";
    assert_eq!(q.parse(resp).ok().unwrap(), Some(resp.len()));
    assert_eq!(q.content_length(), 7);
}

#[test]
fn reader_waits_for_head_then_body() {
    let buf = request_bytes();
    let mut r = MessageReader::new(MessageKind::Request);
    assert!(matches!(r.on_chunk(&buf[..20]), Ok(ReadStep::NeedMore)));
    assert_eq!(r.header_len, None);
    let hl = head_len(&buf);
    assert!(matches!(r.on_chunk(&buf[20..hl + 1]), Ok(ReadStep::NeedMore)));
    assert_eq!(r.header_len, Some(hl));
    assert_eq!(r.content_length, 3);
    assert!(matches!(r.on_chunk(&buf[hl + 1..]), Ok(ReadStep::Done)));
    assert_eq!(r.buf, buf);
}

#[test]
fn reader_reports_parse_errors() {
    let mut r = MessageReader::new(MessageKind::Response);
    assert!(r.on_chunk(b"\x01\x02\x03 garbage\r\n\r\n").is_err());
}

#[test]
fn error_response_text() {
    let r = error_response("404", "nope");
    let page = "<html><body><h1>404</h1><p>nope</p></body></html>";
    assert_eq!(
        r,
        format!(
            "HTTP/1.1 404\r\nContent-Type: text/html; charset=utf-8\r\nContent-Length: {}\r\nConnection: close\r\n\r\n{}",
            page.len(),
            page
        )
    );
    assert_eq!(page.len(), 49);
}

#[test]
fn command_report_text() {
    assert_eq!(command_report(b"out", b"err"), "--- stdout ---\nout\n--- stderr ---\nerr");
    assert_eq!(command_report(b"\xff", b""), "--- stdout ---\n\u{FFFD}\n--- stderr ---\n");
}

#[test]
fn incomplete_request_lines() {
    assert!(matches!(HttpRequest::from_bytes(0, b"".to_vec()), Err(HttpError::NoMethod)));
    assert!(matches!(HttpRequest::from_bytes(0, b"GET ".to_vec()), Err(HttpError::NoPath)));
    assert!(matches!(HttpRequest::from_bytes(0, b"GET / ".to_vec()), Err(HttpError::NoVersion)));
}

#[test]
fn blocked_page_inserts_the_url() {
    let empty = blocked_response("");
    let full = blocked_response("héllo");
    assert_eq!(full.body.len(), empty.body.len() + "héllo".len());
    let at = BLOCKED_PAGE_HEAD.len();
    let mut expected = empty.body[..at].to_vec();
    expected.extend_from_slice("héllo".as_bytes());
    expected.extend_from_slice(&empty.body[at..]);
    assert_eq!(full.body, expected);
    assert_eq!(full.headers.get(&"Content-Length".to_string()), Some(full.body.len().to_string()));
}
