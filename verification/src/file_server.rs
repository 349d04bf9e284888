//! The small HTTP file server and its client: collecting the request, routing it, and
//! the response heads.
use vstd::prelude::*;
use vstd::utf8::encode_utf8;
use crate::ftp_client::{chars_at, contains_chars};
use crate::text::{decimal, decimal_bytes, lossy_chars, string_of, to_chars, utf8_lossy, words, split_whitespace};

use crate::text::string_views;

verus! {

/// The position of the first occurrence of `pat` in `s`.
#[verifier::opaque]
pub open spec fn first_chars_at(s: Seq<char>, pat: Seq<char>) -> Option<int> {
    if exists|i: int| chars_at(s, pat, i) {
        Some(choose|i: int| chars_at(s, pat, i) && forall|j: int| 0 <= j < i ==> !chars_at(s, pat, j))
    } else {
        None
    }
}

fn chars_at_exec(s: &[char], pat: &[char], i: usize) -> (r: bool)
    requires
        i + pat@.len() <= s@.len(),
    ensures
        r == chars_at(s@, pat@, i as int),
{
    let n = s.len();
    let mut k: usize = 0;
    while k < pat.len()
        invariant
            n == s@.len(),
            i + pat@.len() <= s@.len(),
            0 <= k <= pat@.len(),
            forall|m: int| 0 <= m < k ==> s@[i + m] == pat@[m],
        decreases pat@.len() - k,
    {
        if s[i + k] != pat[k] {
            assert(s@.subrange(i as int, i + pat@.len())[k as int] != pat@[k as int]);
            return false;
        }
        k = k + 1;
    }
    assert(s@.subrange(i as int, i + pat@.len()) =~= pat@);
    true
}

/// Finds the first occurrence of `pat` in `s`.
pub fn find_chars(s: &[char], pat: &[char]) -> (r: Option<usize>)
    ensures
        match r {
            Some(i) => first_chars_at(s@, pat@) == Some(i as int) && i + pat@.len() <= s@.len(),
            None => first_chars_at(s@, pat@) is None,
        },
{
    if pat.len() > s.len() {
        proof {
            reveal(first_chars_at);
        }
        return None;
    }
    let last = s.len() - pat.len();
    let mut i: usize = 0;
    while i <= last
        invariant
            last == s@.len() - pat@.len(),
            0 <= i <= last + 1,
            forall|j: int| 0 <= j < i ==> !chars_at(s@, pat@, j),
        ensures
            forall|j: int| 0 <= j <= last ==> !chars_at(s@, pat@, j),
        decreases last + 1 - i,
    {
        if chars_at_exec(s, pat, i) {
            proof {
                reveal(first_chars_at);
                let w = choose|k: int| chars_at(s@, pat@, k) && forall|j: int| 0 <= j < k ==> !chars_at(s@, pat@, j);
                assert(chars_at(s@, pat@, i as int));
                if w < i {
                } else if w > i {
                }
            }
            return Some(i);
        }
        if i == last {
            break;
        }
        i = i + 1;
    }
    proof {
        reveal(first_chars_at);
        assert forall|j: int| !chars_at(s@, pat@, j) by {
            if 0 <= j && j + pat@.len() <= s@.len() {
                assert(j <= last);
            }
        }
    }
    None
}

/// The end of the request head.
pub open spec fn head_end() -> Seq<char> {
    seq!['\r', '\n', '\r', '\n']
}

/// The request line that the text collected so far holds, once the head is complete:
/// everything before the first CRLF.
pub open spec fn request_line(text: Seq<char>) -> Option<Seq<char>> {
    if contains_chars(text, head_end()) {
        match first_chars_at(text, seq!['\r', '\n']) {
            Some(i) => Some(text.subrange(0, i)),
            None => None,
        }
    } else {
        None
    }
}

/// The text of a request as it arrives, each chunk decoded on its own as
/// `from_utf8_lossy` does.
pub struct RequestCollector {
    pub text: Vec<char>,
}

impl RequestCollector {
    /// Nothing received yet.
    pub fn new() -> (r: RequestCollector)
        ensures
            r.text@ == Seq::<char>::empty(),
    {
        RequestCollector { text: Vec::new() }
    }

    /// Adds a chunk; once the head is complete, returns the request line.
    pub fn on_chunk(&mut self, chunk: &[u8]) -> (r: Option<String>)
        ensures
            final(self).text@ == old(self).text@ + lossy_chars(chunk@),
            match request_line(final(self).text@) {
                Some(l) => r matches Some(s) && s@ == l,
                None => r is None,
            },
    {
        let piece = utf8_lossy(chunk);
        let cs = to_chars(piece.as_str());
        let mut k: usize = 0;
        let ghost start = self.text@;
        while k < cs.len()
            invariant
                0 <= k <= cs@.len(),
                self.text@ == start + cs@.subrange(0, k as int),
            decreases cs@.len() - k,
        {
            self.text.push(cs[k]);
            k = k + 1;
            assert(self.text@ =~= start + cs@.subrange(0, k as int));
        }
        assert(cs@.subrange(0, cs@.len() as int) =~= cs@);
        let end: Vec<char> = vec!['\r', '\n', '\r', '\n'];
        let crlf: Vec<char> = vec!['\r', '\n'];
        assert(end@ =~= head_end());
        assert(crlf@ =~= seq!['\r', '\n']);
        match find_chars(self.text.as_slice(), end.as_slice()) {
            None => {
                proof {
                    reveal(first_chars_at);
                }
                None
            },
            Some(_) => {
                proof {
                    reveal(first_chars_at);
                }
                match find_chars(self.text.as_slice(), crlf.as_slice()) {
                    None => None,
                    Some(i) => Some(string_of(self.text.as_slice(), 0, i)),
                }
            },
        }
    }
}

/// What the server does with a request line.
pub enum Route {
    /// Not a GET: answered with 405.
    NotAllowed,
    /// A GET of this file (the second word, without a leading '/').
    File(String),
}

/// Whether the request line starts with "GET".
pub open spec fn is_get(line: Seq<char>) -> bool {
    line.len() >= 3 && line.subrange(0, 3) == seq!['G', 'E', 'T']
}

/// The file a GET asks for: the second word, less one leading '/'.
pub open spec fn requested_file(line: Seq<char>) -> Seq<char> {
    let w = words(line)[1];
    if w.len() > 0 && w[0] == '/' {
        w.subrange(1, w.len() as int)
    } else {
        w
    }
}

/// Routes a request line. A GET line must have a second word, the file.
pub fn route_request(line: &str) -> (r: Route)
    requires
        is_get(line@) ==> words(line@).len() >= 2,
    ensures
        is_get(line@) ==> (r matches Route::File(f) && f@ == requested_file(line@)),
        !is_get(line@) ==> r is NotAllowed,
{
    let cs = to_chars(line);
    if !(cs.len() >= 3 && cs[0] == 'G' && cs[1] == 'E' && cs[2] == 'T') {
        proof {
            if is_get(line@) {
                assert(cs@.subrange(0, 3)[0] == 'G');
                assert(cs@.subrange(0, 3)[1] == 'E');
                assert(cs@.subrange(0, 3)[2] == 'T');
            }
        }
        return Route::NotAllowed;
    }
    assert(cs@.subrange(0, 3) =~= seq!['G', 'E', 'T']);
    let parts = split_whitespace(cs.as_slice());
    assert(parts@[1]@ == words(line@)[1]);
    let w = parts[1].as_slice();
    if w.len() > 0 && w[0] == '/' {
        Route::File(string_of(w, 1, w.len()))
    } else {
        assert(w@.subrange(0, w@.len() as int) =~= w@);
        Route::File(string_of(w, 0, w.len()))
    }
}

/// The answer to a request that is not a GET.
pub fn not_allowed_response() -> (r: Vec<u8>)
    ensures
        r@ == encode_utf8("HTTP/1.1 405 Method not allowed"@),
{
    let s = "HTTP/1.1 405 Method not allowed".as_bytes();
    let r = crate::text::copy_range(s, 0, s.len());
    assert(s@.subrange(0, s@.len() as int) =~= s@);
    r
}

/// The listing sent with a 404: a title line, then each path followed by CRLF.
pub open spec fn listing(paths: Seq<Seq<char>>) -> Seq<char>
    decreases paths.len(),
{
    if paths.len() == 0 {
        "Available files\n"@
    } else {
        listing(paths.drop_last()) + paths.last() + seq!['\r', '\n']
    }
}

/// The 404 answer for a missing file, listing the files the server has.
pub open spec fn not_found_text(paths: Seq<Seq<char>>) -> Seq<u8> {
    encode_utf8("HTTP/1.1 404 Not found\r\n"@) + encode_utf8("Content-Length: "@) + decimal(
        encode_utf8(listing(paths)).len(),
    ) + seq![13u8, 10, 13, 10] + encode_utf8(listing(paths))
}

/// Builds the 404 answer.
pub fn not_found_response(paths: &Vec<String>) -> (r: Vec<u8>)
    ensures
        r@ == not_found_text(string_views(paths@)),
{
    let ghost ps = string_views(paths@);
    let mut names = String::from_str("Available files\n");
    let mut i: usize = 0;
    while i < paths.len()
        invariant
            0 <= i <= paths@.len(),
            ps == string_views(paths@),
            names@ == listing(ps.subrange(0, i as int)),
        decreases paths@.len() - i,
    {
        names.append(paths[i].as_str());
        crate::text::string_push(&mut names, '\r');
        crate::text::string_push(&mut names, '\n');
        let ghost cur = ps.subrange(0, i + 1);
        assert(cur.drop_last() =~= ps.subrange(0, i as int));
        assert(cur.last() == paths@[i as int]@);
        assert(names@ =~= listing(cur));
        i = i + 1;
    }
    assert(ps.subrange(0, ps.len() as int) =~= ps);
    let mut r: Vec<u8> = Vec::new();
    crate::text::extend_bytes(&mut r, "HTTP/1.1 404 Not found\r\n".as_bytes());
    crate::text::extend_bytes(&mut r, "Content-Length: ".as_bytes());
    let nb = names.as_str().as_bytes();
    let d = decimal_bytes(nb.len() as u64);
    crate::text::extend_bytes(&mut r, d.as_slice());
    r.push(13);
    r.push(10);
    r.push(13);
    r.push(10);
    crate::text::extend_bytes(&mut r, nb);
    assert(r@ =~= not_found_text(ps));
    r
}

/// The head of the 200 answer for a file of `len` bytes.
pub open spec fn ok_head_text(len: nat) -> Seq<u8> {
    encode_utf8("HTTP/1.1 200 OK\r\n"@) + encode_utf8("Content-Length: "@) + decimal(len) + seq![
        13u8,
        10,
        13,
        10,
    ]
}

/// Builds the head of the 200 answer; the file's bytes follow it.
pub fn ok_head(len: u64) -> (r: Vec<u8>)
    ensures
        r@ == ok_head_text(len as nat),
{
    let mut r: Vec<u8> = Vec::new();
    crate::text::extend_bytes(&mut r, "HTTP/1.1 200 OK\r\n".as_bytes());
    crate::text::extend_bytes(&mut r, "Content-Length: ".as_bytes());
    let d = decimal_bytes(len);
    crate::text::extend_bytes(&mut r, d.as_slice());
    r.push(13);
    r.push(10);
    r.push(13);
    r.push(10);
    assert(r@ =~= ok_head_text(len as nat));
    r
}

/// The request the client sends for `filename` on `host`.
pub open spec fn get_request_text(filename: Seq<char>, host: Seq<char>) -> Seq<char> {
    "GET /"@ + filename + " HTTP/1.1\r\nHost: "@ + host + "\r\nConnection: close\r\n\r\n"@
}

/// Builds the client's request.
pub fn get_request(filename: &str, host: &str) -> (r: String)
    ensures
        r@ == get_request_text(filename@, host@),
{
    let mut r = String::from_str("GET /");
    r.append(filename);
    r.append(" HTTP/1.1\r\nHost: ");
    r.append(host);
    r.append("\r\nConnection: close\r\n\r\n");
    r
}

} // verus!
