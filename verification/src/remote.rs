//! The remote-command server's texts: the report of a finished command and the error
//! page it answers a failed request with.
use vstd::prelude::*;
use vstd::utf8::encode_utf8;
use crate::text::{decimal_chars, decimal_string, lossy_chars, utf8_lossy};

verus! {

/// The report of a command's output: its standard output and standard error, each
/// decoded leniently, under their own headings.
pub open spec fn report_text(stdout: Seq<u8>, stderr: Seq<u8>) -> Seq<char> {
    "--- stdout ---\n"@ + lossy_chars(stdout) + "\n--- stderr ---\n"@ + lossy_chars(stderr)
}

/// Formats what a command printed.
pub fn command_report(stdout: &[u8], stderr: &[u8]) -> (r: String)
    ensures
        r@ == report_text(stdout@, stderr@),
{
    let mut r = String::from_str("--- stdout ---\n");
    let out = utf8_lossy(stdout);
    r.append(out.as_str());
    r.append("\n--- stderr ---\n");
    let err = utf8_lossy(stderr);
    r.append(err.as_str());
    r
}

/// The HTML page of an error response.
pub open spec fn error_page(code: Seq<char>, message: Seq<char>) -> Seq<char> {
    "<html><body><h1>"@ + code + "</h1><p>"@ + message + "</p></body></html>"@
}

/// The whole error response: status line with `code`, the headers, and the page.
pub open spec fn error_response_text(code: Seq<char>, message: Seq<char>) -> Seq<char> {
    "HTTP/1.1 "@ + code + "\r\nContent-Type: text/html; charset=utf-8\r\nContent-Length: "@
        + decimal_chars(encode_utf8(error_page(code, message)).len())
        + "\r\nConnection: close\r\n\r\n"@ + error_page(code, message)
}

/// The response that tells the client a request failed with `code`, the page naming the
/// code and the error message.
pub fn error_response(code: &str, message: &str) -> (r: String)
    ensures
        r@ == error_response_text(code@, message@),
{
    let mut page = String::from_str("<html><body><h1>");
    page.append(code);
    page.append("</h1><p>");
    page.append(message);
    page.append("</p></body></html>");
    let len = decimal_string(page.as_str().as_bytes().len() as u64);
    let mut r = String::from_str("HTTP/1.1 ");
    r.append(code);
    r.append("\r\nContent-Type: text/html; charset=utf-8\r\nContent-Length: ");
    r.append(len.as_str());
    r.append("\r\nConnection: close\r\n\r\n");
    r.append(page.as_str());
    r
}

} // verus!
