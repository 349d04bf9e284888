//! HTTP/1.1 messages for the proxy and the remote-command server: parsing heads with
//! httparse, header maps, bodies, serialisation, and the canned responses.
use vstd::prelude::*;
use vstd::utf8::{decode_utf8, encode_utf8, valid_utf8};
use crate::text::{
    copy_range, decimal, decimal_bytes, decimal_chars, decimal_string, eq_ignore_ascii_case, extend_bytes,
    lit, lower_bytes, lowercase_chars, parse_unsigned, parse_unsigned_bytes, to_chars, to_lowercase,
    utf8_decode, utf8_valid, string_of, ascii, all_ascii, decimal_chars_u8, decimal_string_u8, utf8_lossy, lossy_chars,
};

verus! {

// ---------------------------------------------------------------------------
// httparse
// ---------------------------------------------------------------------------
/// httparse's parse error.
#[verifier::external_type_specification]
#[verifier::external_body]
pub struct ExHttparseError(httparse::Error);

/// What httparse leaves in its request or response after a parse pass: the body offset
/// when the head was complete, the request line or status line fields it reached, and the
/// header slice (the unparsed `EMPTY_HEADER`s of the buffer when the head is partial).
pub struct RawHead {
    pub complete: Option<usize>,
    pub method: Option<String>,
    pub path: Option<String>,
    pub version: Option<u8>,
    pub code: Option<u16>,
    pub reason: Option<String>,
    pub headers: Vec<(String, Vec<u8>)>,
}

/// The contents of a `RawHead` as plain values.
pub struct RawHeadView {
    pub complete: Option<nat>,
    pub method: Option<Seq<char>>,
    pub path: Option<Seq<char>>,
    pub version: Option<u8>,
    pub code: Option<u16>,
    pub reason: Option<Seq<char>>,
    pub headers: Seq<(Seq<char>, Seq<u8>)>,
}

/// The text of an optional string.
pub open spec fn opt_chars(s: Option<String>) -> Option<Seq<char>> {
    match s {
        Some(t) => Some(t@),
        None => None,
    }
}

/// The header names and values as plain values.
pub open spec fn raw_headers_view(h: Seq<(String, Vec<u8>)>) -> Seq<(Seq<char>, Seq<u8>)> {
    Seq::new(h.len(), |i: int| (h[i].0@, h[i].1@))
}

impl View for RawHead {
    type V = RawHeadView;

    open spec fn view(&self) -> RawHeadView {
        RawHeadView {
            complete: match self.complete {
                Some(n) => Some(n as nat),
                None => None,
            },
            method: opt_chars(self.method),
            path: opt_chars(self.path),
            version: self.version,
            code: self.code,
            reason: opt_chars(self.reason),
            headers: raw_headers_view(self.headers@),
        }
    }
}

/// What `httparse::Request::parse` makes of `buf` with room for `max_headers` headers
/// (`None` for a parse error).
pub uninterp spec fn parsed_request_head(buf: Seq<u8>, max_headers: nat) -> Option<RawHeadView>;

/// What `httparse::Response::parse` makes of `buf` with room for `max_headers` headers
/// (`None` for a parse error).
pub uninterp spec fn parsed_response_head(buf: Seq<u8>, max_headers: nat) -> Option<RawHeadView>;

/// `httparse::Request::parse` on `buf` with `max_headers` empty headers. The outcome is
/// named `parsed_request_head`; a complete head ends within the buffer and has its
/// method, path and version.
#[verifier::external_body]
fn httparse_request(buf: &[u8], max_headers: usize) -> (r: Result<RawHead, httparse::Error>)
    ensures
        r is Err <==> parsed_request_head(buf@, max_headers as nat) is None,
        r matches Ok(h) ==> parsed_request_head(buf@, max_headers as nat) == Some(h@),
        r matches Ok(h) ==> (h.complete matches Some(n) ==> n <= buf@.len()),
        r matches Ok(h) ==> (h.complete is Some ==> h.method is Some && h.path is Some && h.version is Some),
{
    let mut hs = vec![httparse::EMPTY_HEADER; max_headers];
    let mut req = httparse::Request::new(&mut hs);
    let done = req.parse(buf)?;
    let s = |o: Option<&str>| o.map(|x| x.to_string());
    let headers = req.headers.iter().map(|h| (h.name.to_string(), h.value.to_vec())).collect();
    let complete = if let httparse::Status::Complete(n) = done { Some(n) } else { None };
    Ok(RawHead { complete, method: s(req.method), path: s(req.path), version: req.version, code: None, reason: None, headers })
}

/// `httparse::Response::parse` on `buf` with `max_headers` empty headers. The outcome is
/// named `parsed_response_head`; a complete head ends within the buffer and has its
/// version, code and reason (empty when the status line has none).
#[verifier::external_body]
fn httparse_response(buf: &[u8], max_headers: usize) -> (r: Result<RawHead, httparse::Error>)
    ensures
        r is Err <==> parsed_response_head(buf@, max_headers as nat) is None,
        r matches Ok(h) ==> parsed_response_head(buf@, max_headers as nat) == Some(h@),
        r matches Ok(h) ==> (h.complete matches Some(n) ==> n <= buf@.len()),
        r matches Ok(h) ==> (h.complete is Some ==> h.version is Some && h.code is Some && h.reason is Some),
{
    let mut hs = vec![httparse::EMPTY_HEADER; max_headers];
    let mut resp = httparse::Response::new(&mut hs);
    let done = resp.parse(buf)?;
    let headers = resp.headers.iter().map(|h| (h.name.to_string(), h.value.to_vec())).collect();
    let complete = if let httparse::Status::Complete(n) = done { Some(n) } else { None };
    let reason = resp.reason.map(|x| x.to_string());
    Ok(RawHead { complete, method: None, path: None, version: resp.version, code: resp.code, reason, headers })
}

// ---------------------------------------------------------------------------
// Header maps
// ---------------------------------------------------------------------------
/// The position of the first entry with key `k`.
pub open spec fn key_index(m: Seq<(Seq<char>, Seq<char>)>, k: Seq<char>) -> Option<int>
    decreases m.len(),
{
    if m.len() == 0 {
        None
    } else {
        match key_index(m.drop_last(), k) {
            Some(i) => Some(i),
            None => if m.last().0 == k {
                Some(m.len() - 1)
            } else {
                None
            },
        }
    }
}

/// The value stored under `k`.
pub open spec fn map_get(m: Seq<(Seq<char>, Seq<char>)>, k: Seq<char>) -> Option<Seq<char>> {
    match key_index(m, k) {
        Some(i) => Some(m[i].1),
        None => None,
    }
}

/// The map with `k` set to `v`: an existing entry keeps its place, a new key goes last.
pub open spec fn map_insert(m: Seq<(Seq<char>, Seq<char>)>, k: Seq<char>, v: Seq<char>) -> Seq<(Seq<char>, Seq<char>)> {
    match key_index(m, k) {
        Some(i) => m.update(i, (k, v)),
        None => m.push((k, v)),
    }
}

/// No key occurs twice.
pub open spec fn distinct_keys(m: Seq<(Seq<char>, Seq<char>)>) -> bool {
    forall|i: int, j: int| 0 <= i < j < m.len() ==> m[i].0 != m[j].0
}

proof fn lemma_key_index(m: Seq<(Seq<char>, Seq<char>)>, k: Seq<char>)
    ensures
        match key_index(m, k) {
            Some(i) => 0 <= i < m.len() && m[i].0 == k && forall|j: int| 0 <= j < i ==> m[j].0 != k,
            None => forall|j: int| 0 <= j < m.len() ==> m[j].0 != k,
        },
    decreases m.len(),
{
    if m.len() > 0 {
        let d = m.drop_last();
        lemma_key_index(d, k);
        assert forall|j: int| 0 <= j < d.len() implies d[j] == m[j] by {}
    }
}

/// Setting a key keeps every key distinct, and reading it back gives the value set.
pub proof fn lemma_map_insert(m: Seq<(Seq<char>, Seq<char>)>, k: Seq<char>, v: Seq<char>)
    requires
        distinct_keys(m),
    ensures
        distinct_keys(map_insert(m, k, v)),
        map_get(map_insert(m, k, v), k) == Some(v),
        forall|k2: Seq<char>| k2 != k ==> map_get(map_insert(m, k, v), k2) == map_get(m, k2),
{
    lemma_key_index(m, k);
    let m2 = map_insert(m, k, v);
    lemma_key_index(m2, k);
    match key_index(m, k) {
        Some(i) => {
            assert(m2[i].0 == k);
            if let Some(i2) = key_index(m2, k) {
                if i2 < i {
                    assert(m2[i2] == m[i2]);
                }
            }
            assert(key_index(m2, k) == Some(i));
        },
        None => {
            let n = m.len() as int;
            assert(m2[n].0 == k);
            if let Some(i2) = key_index(m2, k) {
                if i2 < n {
                    assert(m2[i2] == m[i2]);
                }
            }
            assert(key_index(m2, k) == Some(n));
        },
    }
    assert forall|i: int, j: int| 0 <= i < j < m2.len() implies m2[i].0 != m2[j].0 by {
        if j < m.len() && i != key_index(m, k).unwrap_or(-1) && j != key_index(m, k).unwrap_or(-1) {
            assert(m2[i] == m[i] && m2[j] == m[j]);
        }
    }
    assert forall|k2: Seq<char>| k2 != k implies map_get(m2, k2) == map_get(m, k2) by {
        lemma_key_index(m, k2);
        lemma_key_index(m2, k2);
        match key_index(m, k2) {
            Some(i) => {
                assert(m2[i].0 == k2);
                if let Some(i2) = key_index(m2, k2) {
                    if i2 < i {
                        assert(m[i2].0 == k2 || m2[i2].0 == k);
                    } else if i2 > i {
                    }
                }
            },
            None => {
                if let Some(i2) = key_index(m2, k2) {
                    assert(m[i2].0 == k2 || m2[i2].0 == k);
                }
            },
        }
    }
}

/// HTTP headers, each name once; names are kept as given.
pub struct HeaderMap {
    entries: Vec<(String, String)>,
}

/// The entries of a header map as plain values.
pub open spec fn entries_view(e: Seq<(String, String)>) -> Seq<(Seq<char>, Seq<char>)> {
    Seq::new(e.len(), |i: int| (e[i].0@, e[i].1@))
}

impl View for HeaderMap {
    type V = Seq<(Seq<char>, Seq<char>)>;

    closed spec fn view(&self) -> Seq<(Seq<char>, Seq<char>)> {
        entries_view(self.entries@)
    }
}

impl HeaderMap {
    #[verifier::type_invariant]
    closed spec fn wf(&self) -> bool {
        distinct_keys(entries_view(self.entries@))
    }

    /// The entries, in the order their names were first set; no name occurs twice.
    pub fn entries(&self) -> (r: &Vec<(String, String)>)
        ensures
            entries_view(r@) == self@,
            distinct_keys(self@),
    {
        proof {
            use_type_invariant(self);
        }
        &self.entries
    }

    /// An empty map.
    pub fn new() -> (r: HeaderMap)
        ensures
            r@ == Seq::<(Seq<char>, Seq<char>)>::empty(),
            distinct_keys(r@),
    {
        let r = HeaderMap { entries: Vec::new() };
        assert(r@ =~= Seq::<(Seq<char>, Seq<char>)>::empty());
        r
    }

    fn index_of(&self, k: &String) -> (r: Option<usize>)
        ensures
            r matches Some(j) ==> j < self@.len() && j < self.entries@.len(),
            match key_index(self@, k@) {
                Some(i) => r matches Some(j) && j == i,
                None => r is None,
            },
    {
        let mut i: usize = 0;
        while i < self.entries.len()
            invariant
                0 <= i <= self@.len(),
                self@.len() == self.entries@.len(),
                key_index(self@.subrange(0, i as int), k@) is None,
            decreases self@.len() - i,
        {
            let ghost pre = self@.subrange(0, i as int);
            assert(self@.subrange(0, i + 1).drop_last() =~= pre);
            assert(self@.subrange(0, i + 1).last() == self@[i as int]);
            if self.entries[i].0 == *k {
                assert(key_index(self@.subrange(0, i + 1), k@) == Some(i as int));
                proof {
                    lemma_key_index_prefix(self@, k@, i as int + 1);
                    lemma_key_index(self@, k@);
                }
                return Some(i);
            }
            i = i + 1;
        }
        assert(self@.subrange(0, self@.len() as int) =~= self@);
        None
    }

    /// The value of header `k`.
    pub fn get(&self, k: &String) -> (r: Option<String>)
        ensures
            match map_get(self@, k@) {
                Some(v) => r matches Some(s) && s@ == v,
                None => r is None,
            },
    {
        match self.index_of(k) {
            Some(i) => {
                assert(self@[i as int] == (self.entries@[i as int].0@, self.entries@[i as int].1@));
                Some(self.entries[i].1.clone())
            },
            None => None,
        }
    }

    /// Sets header `k` to `v`.
    pub fn insert(&mut self, k: String, v: String)
        ensures
            final(self)@ == map_insert(old(self)@, k@, v@),
            distinct_keys(final(self)@),
    {
        proof {
            use_type_invariant(&*self);
            lemma_map_insert(self@, k@, v@);
        }
        let ghost before = self@;
        let ghost kv = k@;
        let ghost vv = v@;
        let mut entries: Vec<(String, String)> = Vec::new();
        match self.index_of(&k) {
            Some(i) => {
                std::mem::swap(&mut entries, &mut self.entries);
                entries.set(i, (k, v));
                assert(entries_view(entries@) =~= before.update(i as int, (kv, vv)));
                assert(key_index(before, kv) == Some(i as int));
            },
            None => {
                std::mem::swap(&mut entries, &mut self.entries);
                entries.push((k, v));
                assert(entries_view(entries@) =~= before.push((kv, vv)));
                assert(key_index(before, kv) is None);
            },
        }
        self.entries = entries;
    }
}

proof fn lemma_key_index_prefix(m: Seq<(Seq<char>, Seq<char>)>, k: Seq<char>, n: int)
    requires
        0 <= n <= m.len(),
        key_index(m.subrange(0, n), k) is Some,
    ensures
        key_index(m, k) == key_index(m.subrange(0, n), k),
    decreases m.len() - n,
{
    if n < m.len() {
        assert(m.subrange(0, n + 1).drop_last() =~= m.subrange(0, n));
        lemma_key_index_prefix(m, k, n + 1);
    } else {
        assert(m.subrange(0, n) =~= m);
    }
}

// ---------------------------------------------------------------------------
// Serialisation helpers
// ---------------------------------------------------------------------------
/// The bytes of the header lines "name: value\r\n", in map order.
pub open spec fn header_lines(m: Seq<(Seq<char>, Seq<char>)>) -> Seq<u8>
    decreases m.len(),
{
    if m.len() == 0 {
        Seq::empty()
    } else {
        header_lines(m.drop_last()) + encode_utf8(m.last().0) + seq![58u8, 32u8] + encode_utf8(
            m.last().1,
        ) + seq![13u8, 10u8]
    }
}

fn push_header_lines(buf: &mut Vec<u8>, h: &HeaderMap)
    ensures
        final(buf)@ == old(buf)@ + header_lines(h@),
{
    let mut i: usize = 0;
    while i < h.entries.len()
        invariant
            0 <= i <= h@.len(),
            h@.len() == h.entries@.len(),
            buf@ == old(buf)@ + header_lines(h@.subrange(0, i as int)),
        decreases h@.len() - i,
    {
        let ghost before = buf@;
        extend_bytes(buf, h.entries[i].0.as_str().as_bytes());
        buf.push(58);
        buf.push(32);
        extend_bytes(buf, h.entries[i].1.as_str().as_bytes());
        buf.push(13);
        buf.push(10);
        let ghost cur = h@.subrange(0, i + 1);
        assert(cur.drop_last() =~= h@.subrange(0, i as int));
        assert(cur.last() == h@[i as int]);
        assert(buf@ =~= old(buf)@ + header_lines(cur));
        i = i + 1;
    }
    assert(h@.subrange(0, h@.len() as int) =~= h@);
}

/// Errors in reading an HTTP message.
pub enum HttpError {
    /// httparse rejected the head.
    Parse(httparse::Error),
    /// The request line has no method.
    NoMethod,
    /// The request line has no path.
    NoPath,
    /// The request line has no version.
    NoVersion,
    /// A header value is not UTF-8.
    InvalidHeader,
    /// The Content-Length value is not a number.
    InvalidContentLength,
    /// The path holds no '/' to split the host off.
    NoHostInPath,
}

/// `buf[start..start + len]`, or nothing when that range does not fit the buffer.
pub open spec fn body_slice(buf: Seq<u8>, start: nat, len: nat) -> Seq<u8> {
    if start + len <= buf.len() {
        buf.subrange(start as int, (start + len) as int)
    } else {
        Seq::empty()
    }
}

fn get_body_slice(buf: &Vec<u8>, start: usize, len: usize) -> (r: Vec<u8>)
    ensures
        r@ == body_slice(buf@, start as nat, len as nat),
{
    if start <= buf.len() && len <= buf.len() - start {
        copy_range(buf.as_slice(), start, start + len)
    } else {
        let v: Vec<u8> = Vec::new();
        assert(v@ =~= Seq::<u8>::empty());
        v
    }
}

/// The header map that the parsers build: names lower-cased, later values replacing earlier
/// ones. `None` when a value is not UTF-8.
pub open spec fn headers_map(h: Seq<(Seq<char>, Seq<u8>)>) -> Option<Seq<(Seq<char>, Seq<char>)>>
    decreases h.len(),
{
    if h.len() == 0 {
        Some(Seq::empty())
    } else {
        match headers_map(h.drop_last()) {
            None => None,
            Some(m) => if !valid_utf8(h.last().1) {
                None
            } else {
                Some(map_insert(m, lowercase_chars(h.last().0), decode_utf8(h.last().1)))
            },
        }
    }
}

/// Each ASCII header name is lower-cased the ASCII way.
pub open spec fn ascii_names_lowered(h: Seq<(Seq<char>, Seq<u8>)>) -> bool {
    forall|i: int|
        0 <= i < h.len() && all_ascii(#[trigger] h[i].0) ==> lowercase_chars(h[i].0)
            == crate::text::ascii_lower_chars(h[i].0)
}

/// The first header whose value is not UTF-8 comes before any map is built.
fn build_header_map(h: &Vec<(String, Vec<u8>)>) -> (r: Option<HeaderMap>)
    ensures
        match headers_map(raw_headers_view(h@)) {
            None => r is None,
            Some(m) => r matches Some(hm) && hm@ == m,
        },
        r is Some ==> ascii_names_lowered(raw_headers_view(h@)),
{
    let ghost hv = raw_headers_view(h@);
    let mut map = HeaderMap::new();
    let mut i: usize = 0;
    while i < h.len()
        invariant
            0 <= i <= h@.len(),
            hv == raw_headers_view(h@),
            headers_map(hv.subrange(0, i as int)) == Some(map@),
            ascii_names_lowered(hv.subrange(0, i as int)),
        decreases h@.len() - i,
    {
        let ghost cur = hv.subrange(0, i + 1);
        assert(cur.drop_last() =~= hv.subrange(0, i as int));
        assert(cur.last() == (h@[i as int].0@, h@[i as int].1@));
        let name = to_lowercase(h[i].0.as_str());
        let value = match utf8_decode(h[i].1.as_slice()) {
            None => {
                proof {
                    lemma_headers_map_none(hv, i as int + 1);
                }
                return None;
            },
            Some(v) => v,
        };
        map.insert(name, value);
        proof {
            assert forall|k: int|
                0 <= k < cur.len() && all_ascii(#[trigger] cur[k].0) implies lowercase_chars(cur[k].0)
                == crate::text::ascii_lower_chars(cur[k].0) by {
                if k < i {
                    assert(cur[k] == hv.subrange(0, i as int)[k]);
                }
            }
        }
        i = i + 1;
    }
    assert(hv.subrange(0, hv.len() as int) =~= hv);
    Some(map)
}

proof fn lemma_headers_map_none(h: Seq<(Seq<char>, Seq<u8>)>, n: int)
    requires
        0 <= n <= h.len(),
        headers_map(h.subrange(0, n)) is None,
    ensures
        headers_map(h) is None,
    decreases h.len() - n,
{
    if n < h.len() {
        assert(h.subrange(0, n + 1).drop_last() =~= h.subrange(0, n));
        lemma_headers_map_none(h, n + 1);
    } else {
        assert(h.subrange(0, n) =~= h);
    }
}

/// The body length that the map announces: no "content-length" gives zero, a value that is
/// not a number is an error.
pub open spec fn announced_length(m: Seq<(Seq<char>, Seq<char>)>) -> Option<nat> {
    match map_get(m, "content-length"@) {
        None => Some(0),
        Some(v) => parse_unsigned(encode_utf8(v), usize::MAX as nat),
    }
}

fn content_length_of(m: &HeaderMap) -> (r: Option<usize>)
    ensures
        match announced_length(m@) {
            None => r is None,
            Some(n) => r == Some(n as usize),
        },
{
    let key = String::from_str("content-length");
    match m.get(&key) {
        None => Some(0),
        Some(v) => match parse_unsigned_bytes(v.as_str().as_bytes(), usize::MAX as u64) {
            None => None,
            Some(n) => Some(n as usize),
        },
    }
}

// ---------------------------------------------------------------------------
// Requests
// ---------------------------------------------------------------------------
/// An HTTP request as the proxy forwards it.
pub struct HttpRequest {
    pub method: String,
    pub path: String,
    pub headers: HeaderMap,
    pub body: Vec<u8>,
}

/// What a request parse yields: method, path, header map, and body.
pub struct RequestView {
    pub method: Seq<char>,
    pub path: Seq<char>,
    pub headers: Seq<(Seq<char>, Seq<char>)>,
    pub body: Seq<u8>,
}

/// Where parsing a request message fails.
pub enum RequestFailure {
    Parse,
    NoMethod,
    NoPath,
    NoVersion,
    InvalidHeader,
    InvalidContentLength,
}

/// The request that `buf` holds, whose head is `header_len` bytes long. The head is parsed
/// with room for 64 headers; the body is the announced number of bytes after the head, or
/// nothing when the buffer is shorter.
pub open spec fn request_from(header_len: nat, buf: Seq<u8>) -> Result<RequestView, RequestFailure> {
    match parsed_request_head(buf, 64) {
        None => Err(RequestFailure::Parse),
        Some(h) => request_of_head(header_len, buf, h),
    }
}

/// The request that the parsed head `h` of `buf` describes: method, path and version must
/// be there, header values must be UTF-8, and the announced body follows the head.
pub open spec fn request_of_head(header_len: nat, buf: Seq<u8>, h: RawHeadView) -> Result<RequestView, RequestFailure> {
    if h.method is None {
            Err(RequestFailure::NoMethod)
        } else if h.path is None {
            Err(RequestFailure::NoPath)
        } else if h.version is None {
            Err(RequestFailure::NoVersion)
        } else {
            match headers_map(h.headers) {
                None => Err(RequestFailure::InvalidHeader),
                Some(m) => match announced_length(m) {
                    None => Err(RequestFailure::InvalidContentLength),
                    Some(cl) => Ok(
                        RequestView {
                            method: h.method->0,
                            path: h.path->0,
                            headers: m,
                            body: body_slice(buf, header_len, cl),
                        },
                    ),
                },
            }
    }
}

impl HttpRequest {
    /// The request as plain values.
    pub open spec fn view_request(&self) -> RequestView {
        RequestView { method: self.method@, path: self.path@, headers: self.headers@, body: self.body@ }
    }

    /// Parses a request message whose head is `header_len` bytes long.
    pub fn from_bytes(header_len: usize, buf: Vec<u8>) -> (r: Result<HttpRequest, HttpError>)
        ensures
            r is Ok ==> (parsed_request_head(buf@, 64) matches Some(h) && ascii_names_lowered(h.headers)),
            match request_from(header_len as nat, buf@) {
                Ok(v) => r matches Ok(req) && req.view_request() == v,
                Err(RequestFailure::Parse) => r matches Err(HttpError::Parse(_)),
                Err(RequestFailure::NoMethod) => r matches Err(HttpError::NoMethod),
                Err(RequestFailure::NoPath) => r matches Err(HttpError::NoPath),
                Err(RequestFailure::NoVersion) => r matches Err(HttpError::NoVersion),
                Err(RequestFailure::InvalidHeader) => r matches Err(HttpError::InvalidHeader),
                Err(RequestFailure::InvalidContentLength) => r matches Err(HttpError::InvalidContentLength),
            },
    {
        match httparse_request(buf.as_slice(), 64) {
            Err(e) => Err(HttpError::Parse(e)),
            Ok(head) => HttpRequest::from_head(header_len, &buf, head),
        }
    }

    /// Builds the request that the parsed head `head` of `buf` describes.
    pub fn from_head(header_len: usize, buf: &Vec<u8>, head: RawHead) -> (r: Result<HttpRequest, HttpError>)
        ensures
            r is Ok ==> ascii_names_lowered(head@.headers),
            match request_of_head(header_len as nat, buf@, head@) {
                Ok(v) => r matches Ok(req) && req.view_request() == v,
                Err(RequestFailure::Parse) => r matches Err(HttpError::Parse(_)),
                Err(RequestFailure::NoMethod) => r matches Err(HttpError::NoMethod),
                Err(RequestFailure::NoPath) => r matches Err(HttpError::NoPath),
                Err(RequestFailure::NoVersion) => r matches Err(HttpError::NoVersion),
                Err(RequestFailure::InvalidHeader) => r matches Err(HttpError::InvalidHeader),
                Err(RequestFailure::InvalidContentLength) => r matches Err(HttpError::InvalidContentLength),
            },
    {
        let ghost hv = head@;
        let method = match head.method {
            None => {
                return Err(HttpError::NoMethod);
            },
            Some(m) => m,
        };
        let path = match head.path {
            None => {
                return Err(HttpError::NoPath);
            },
            Some(p) => p,
        };
        if head.version.is_none() {
            return Err(HttpError::NoVersion);
        }
        let headers = match build_header_map(&head.headers) {
            None => {
                return Err(HttpError::InvalidHeader);
            },
            Some(m) => m,
        };
        let content_length = match content_length_of(&headers) {
            None => {
                return Err(HttpError::InvalidContentLength);
            },
            Some(n) => n,
        };
        let body = get_body_slice(buf, header_len, content_length);
        Ok(HttpRequest { method, path, headers, body })
    }
}


/// Appends the bytes of an ASCII string.
fn push_ascii(buf: &mut Vec<u8>, s: &str)
    requires
        all_ascii(s@),
    ensures
        final(buf)@ == old(buf)@ + ascii(s@),
{
    extend_bytes(buf, lit(s));
}

/// The bytes a request is sent as: "METHOD /path HTTP/1.1", the header lines, an empty
/// line, and the body.
pub open spec fn request_bytes(r: RequestView) -> Seq<u8> {
    encode_utf8(r.method) + ascii(" /"@) + encode_utf8(r.path) + ascii(" HTTP/1.1\r\n"@)
        + header_lines(r.headers) + ascii("\r\n"@) + r.body
}

/// A path "host/rest" split at its first '/': the host and the rest.
pub open spec fn split_host(path: Seq<char>) -> Option<(Seq<char>, Seq<char>)> {
    match crate::ftp_client::first_char_from(path, '/', 0) {
        None => None,
        Some(i) => Some((path.subrange(0, i), path.subrange(i + 1, path.len() as int))),
    }
}

/// Splitting the host off a path cuts at the first '/': there is a split exactly when
/// the path holds a '/'; the host then holds no '/', and host, '/', rest give back the path.
pub proof fn lemma_split_host(path: Seq<char>)
    ensures
        split_host(path) is Some <==> path.contains('/'),
        split_host(path) matches Some((host, rest)) ==> !host.contains('/') && host + seq!['/'] + rest == path,
{
    crate::ftp_client::lemma_first_char_from(path, '/', 0);
    match crate::ftp_client::first_char_from(path, '/', 0) {
        Some(i) => {
            assert(path.contains('/')) by {
                assert(path[i] == '/');
            }
            let host = path.subrange(0, i);
            let rest = path.subrange(i + 1, path.len() as int);
            assert(host + seq!['/'] + rest =~= path);
            assert forall|j: int| 0 <= j < host.len() implies host[j] != '/' by {
                assert(host[j] == path[j]);
            }
        },
        None => {
            assert(!path.contains('/'));
        },
    }
}

impl HttpRequest {
    /// Moves the host at the front of the path into the "host" header and returns it;
    /// the path keeps what follows the first '/'. A path without '/' is refused and the
    /// request is left as it was.
    pub fn truncate_adress(&mut self) -> (r: Result<String, HttpError>)
        ensures
            match split_host(old(self).path@) {
                None => r matches Err(HttpError::NoHostInPath) && final(self).view_request()
                    == old(self).view_request(),
                Some((host, rest)) => r matches Ok(h) && h@ == host && final(self).view_request()
                    == (RequestView {
                    path: rest,
                    headers: map_insert(old(self).headers@, "host"@, host),
                    ..old(self).view_request()
                }),
            },
    {
        let cv = to_chars(self.path.as_str());
        let cs = cv.as_slice();
        let n = cs.len();
        let i = match crate::ftp_client::find_char_from(cs, '/', 0) {
            None => {
                return Err(HttpError::NoHostInPath);
            },
            Some(i) => i,
        };
        let host = string_of(cs, 0, i);
        let rest = string_of(cs, i + 1, n);
        self.path = rest;
        self.headers.insert(String::from_str("host"), host.clone());
        Ok(host)
    }

    /// The request in wire form.
    pub fn to_bytes(&self) -> (r: Vec<u8>)
        ensures
            r@ == request_bytes(self.view_request()),
    {
        proof {
            reveal_strlit(" /");
            reveal_strlit(" HTTP/1.1\r\n");
            reveal_strlit("\r\n");
        }
        let mut buf: Vec<u8> = Vec::new();
        extend_bytes(&mut buf, self.method.as_str().as_bytes());
        push_ascii(&mut buf, " /");
        extend_bytes(&mut buf, self.path.as_str().as_bytes());
        push_ascii(&mut buf, " HTTP/1.1\r\n");
        push_header_lines(&mut buf, &self.headers);
        push_ascii(&mut buf, "\r\n");
        extend_bytes(&mut buf, self.body.as_slice());
        assert(buf@ =~= request_bytes(self.view_request()));
        buf
    }
}


// ---------------------------------------------------------------------------
// Responses
// ---------------------------------------------------------------------------
/// An HTTP response: status line fields (each optional), headers and body.
pub struct HttpResponse {
    pub version: Option<String>,
    pub code: Option<String>,
    pub reason: Option<String>,
    pub headers: HeaderMap,
    pub body: Vec<u8>,
}

/// A response as plain values.
pub struct ResponseView {
    pub version: Option<Seq<char>>,
    pub code: Option<Seq<char>>,
    pub reason: Option<Seq<char>>,
    pub headers: Seq<(Seq<char>, Seq<char>)>,
    pub body: Seq<u8>,
}

/// Where parsing a response message fails.
pub enum ResponseFailure {
    Parse,
    InvalidHeader,
    InvalidContentLength,
}

/// The decimal text of a 16-bit number.
pub open spec fn decimal_chars_u16(n: u16) -> Seq<char> {
    decimal_chars(n as nat)
}

/// The response that `buf` holds, whose head is `header_len` bytes long: the version and
/// code as decimal text, the reason, the header map, and the announced body.
pub open spec fn response_from(header_len: nat, buf: Seq<u8>) -> Result<ResponseView, ResponseFailure> {
    match parsed_response_head(buf, 64) {
        None => Err(ResponseFailure::Parse),
        Some(h) => response_of_head(header_len, buf, h),
    }
}

/// The response that the parsed head `h` of `buf` describes: the version and code as
/// decimal text, the reason, the header map (values must be UTF-8), and the announced body.
pub open spec fn response_of_head(header_len: nat, buf: Seq<u8>, h: RawHeadView) -> Result<ResponseView, ResponseFailure> {
    match headers_map(h.headers) {
            None => Err(ResponseFailure::InvalidHeader),
            Some(m) => match announced_length(m) {
                None => Err(ResponseFailure::InvalidContentLength),
                Some(cl) => Ok(
                    ResponseView {
                        version: match h.version {
                            Some(v) => Some(decimal_chars_u8(v)),
                            None => None,
                        },
                        code: match h.code {
                            Some(c) => Some(decimal_chars_u16(c)),
                            None => None,
                        },
                        reason: h.reason,
                        headers: m,
                        body: body_slice(buf, header_len, cl),
                    },
                ),
            },
    }
}

/// The bytes a response is sent as: "HTTP/1.1 " when it has a version, the code and a
/// space, the reason, CRLF, the header lines, an empty line, and the body.
pub open spec fn response_bytes(r: ResponseView) -> Seq<u8> {
    (if r.version is Some { ascii("HTTP/1.1 "@) } else { Seq::empty() }) + (match r.code {
        Some(c) => encode_utf8(c) + seq![32u8],
        None => Seq::empty(),
    }) + (match r.reason {
        Some(x) => encode_utf8(x),
        None => Seq::empty(),
    }) + ascii("\r\n"@) + header_lines(r.headers) + ascii("\r\n"@) + r.body
}

fn opt_string_u8(v: Option<u8>) -> (r: Option<String>)
    ensures
        match v {
            Some(x) => r matches Some(s) && s@ == decimal_chars_u8(x),
            None => r is None,
        },
{
    match v {
        Some(x) => Some(decimal_string_u8(x)),
        None => None,
    }
}

fn opt_string_u16(v: Option<u16>) -> (r: Option<String>)
    ensures
        match v {
            Some(x) => r matches Some(s) && s@ == decimal_chars_u16(x),
            None => r is None,
        },
{
    match v {
        Some(x) => Some(decimal_string(x as u64)),
        None => None,
    }
}

impl HttpResponse {
    /// The response as plain values.
    pub open spec fn view_response(&self) -> ResponseView {
        ResponseView {
            version: opt_chars(self.version),
            code: opt_chars(self.code),
            reason: opt_chars(self.reason),
            headers: self.headers@,
            body: self.body@,
        }
    }

    /// Parses a response message whose head is `header_len` bytes long.
    pub fn from_bytes(header_len: usize, buf: Vec<u8>) -> (r: Result<HttpResponse, HttpError>)
        ensures
            r is Ok ==> (parsed_response_head(buf@, 64) matches Some(h) && ascii_names_lowered(h.headers)),
            match response_from(header_len as nat, buf@) {
                Ok(v) => r matches Ok(resp) && resp.view_response() == v,
                Err(ResponseFailure::Parse) => r matches Err(HttpError::Parse(_)),
                Err(ResponseFailure::InvalidHeader) => r matches Err(HttpError::InvalidHeader),
                Err(ResponseFailure::InvalidContentLength) => r matches Err(HttpError::InvalidContentLength),
            },
    {
        match httparse_response(buf.as_slice(), 64) {
            Err(e) => Err(HttpError::Parse(e)),
            Ok(head) => HttpResponse::from_head(header_len, &buf, head),
        }
    }

    /// Builds the response that the parsed head `head` of `buf` describes.
    pub fn from_head(header_len: usize, buf: &Vec<u8>, head: RawHead) -> (r: Result<HttpResponse, HttpError>)
        ensures
            r is Ok ==> ascii_names_lowered(head@.headers),
            match response_of_head(header_len as nat, buf@, head@) {
                Ok(v) => r matches Ok(resp) && resp.view_response() == v,
                Err(ResponseFailure::Parse) => r matches Err(HttpError::Parse(_)),
                Err(ResponseFailure::InvalidHeader) => r matches Err(HttpError::InvalidHeader),
                Err(ResponseFailure::InvalidContentLength) => r matches Err(HttpError::InvalidContentLength),
            },
    {
        let version = opt_string_u8(head.version);
        let code = opt_string_u16(head.code);
        let headers = match build_header_map(&head.headers) {
            None => {
                return Err(HttpError::InvalidHeader);
            },
            Some(m) => m,
        };
        let content_length = match content_length_of(&headers) {
            None => {
                return Err(HttpError::InvalidContentLength);
            },
            Some(n) => n,
        };
        let body = get_body_slice(buf, header_len, content_length);
        Ok(HttpResponse { version, code, reason: head.reason, headers, body })
    }

    /// The response in wire form.
    pub fn to_bytes(&self) -> (r: Vec<u8>)
        ensures
            r@ == response_bytes(self.view_response()),
    {
        proof {
            reveal_strlit("HTTP/1.1 ");
            reveal_strlit("\r\n");
        }
        let mut buf: Vec<u8> = Vec::new();
        if self.version.is_some() {
            push_ascii(&mut buf, "HTTP/1.1 ");
        }
        let ghost a = buf@;
        match &self.code {
            Some(c) => {
                extend_bytes(&mut buf, c.as_str().as_bytes());
                buf.push(32);
            },
            None => {},
        }
        let ghost b = buf@;
        match &self.reason {
            Some(x) => {
                extend_bytes(&mut buf, x.as_str().as_bytes());
            },
            None => {},
        }
        let ghost c = buf@;
        push_ascii(&mut buf, "\r\n");
        push_header_lines(&mut buf, &self.headers);
        push_ascii(&mut buf, "\r\n");
        extend_bytes(&mut buf, self.body.as_slice());
        let ghost v = self.view_response();
        assert(a =~= (if v.version is Some { ascii("HTTP/1.1 "@) } else { Seq::empty() }));
        assert(b =~= a + (match v.code {
            Some(x) => encode_utf8(x) + seq![32u8],
            None => Seq::empty(),
        }));
        assert(c =~= b + (match v.reason {
            Some(x) => encode_utf8(x),
            None => Seq::empty(),
        }));
        assert(buf@ =~= response_bytes(v));
        buf
    }

    /// The body.
    pub fn get_body(&self) -> (r: &Vec<u8>)
        ensures
            r@ == self.body@,
    {
        &self.body
    }

    /// A "200" response carrying `body` as HTML: version "HTTP/1.1", no reason, and the
    /// headers Content-Type, Content-Length (the body's length) and Connection: close.
    pub fn from_body_ok(body: Vec<u8>) -> (r: HttpResponse)
        ensures
            r.view_response() == (ResponseView {
                version: Some("HTTP/1.1"@),
                code: Some("200"@),
                reason: None,
                headers: seq![
                    ("Content-Type"@, "text/html; charset=utf-8"@),
                    ("Content-Length"@, decimal_chars(body@.len())),
                    ("Connection"@, "close"@),
                ],
                body: body@,
            }),
    {
        let len = decimal_string(body.len() as u64);
        let headers = standard_headers(String::from_str("text/html; charset=utf-8"), len);
        HttpResponse {
            version: Some(String::from_str("HTTP/1.1")),
            code: Some(String::from_str("200")),
            reason: None,
            headers,
            body,
        }
    }
}

/// A map holding Content-Type, Content-Length and Connection: close, in that order.
fn standard_headers(content_type: String, length: String) -> (r: HeaderMap)
    ensures
        r@ == seq![
            ("Content-Type"@, content_type@),
            ("Content-Length"@, length@),
            ("Connection"@, "close"@),
        ],
{
    proof {
        reveal_strlit("Content-Type");
        reveal_strlit("Content-Length");
        reveal_strlit("Connection");
    }
    let mut h = HeaderMap::new();
    let ghost ct = content_type@;
    let ghost len = length@;
    h.insert(String::from_str("Content-Type"), content_type);
    assert(h@ =~= seq![("Content-Type"@, ct)]);
    h.insert(String::from_str("Content-Length"), length);
    assert(key_index(seq![("Content-Type"@, ct)], "Content-Length"@) is None) by {
        assert("Content-Type"@.len() != "Content-Length"@.len());
        lemma_key_index(seq![("Content-Type"@, ct)], "Content-Length"@);
    }
    assert(h@ =~= seq![("Content-Type"@, ct), ("Content-Length"@, len)]);
    h.insert(String::from_str("Connection"), String::from_str("close"));
    assert(key_index(seq![("Content-Type"@, ct), ("Content-Length"@, len)], "Connection"@) is None) by {
        assert("Content-Type"@.len() != "Connection"@.len());
        assert("Content-Length"@.len() != "Connection"@.len());
        lemma_key_index(seq![("Content-Type"@, ct), ("Content-Length"@, len)], "Connection"@);
    }
    assert(h@ =~= seq![("Content-Type"@, ct), ("Content-Length"@, len), ("Connection"@, "close"@)]);
    h
}


/// The page that a blocked request gets, up to the blocked URL.
pub const BLOCKED_PAGE_HEAD: &'static str = "<!DOCTYPE html>\n<html>\n<head>\n<meta charset=\"utf-8\">\n<title>Access Blocked</title>\n<style>\nbody {\n    font-family: sans-serif;\n    background: #f6f7f9;\n    display: flex;\n    height: 100vh;\n    align-items: center;\n    justify-content: center;\n}\n.card {\n    background: white;\n    padding: 40px;\n    border-radius: 12px;\n    box-shadow: 0 10px 25px rgba(0,0,0,0.1);\n    max-width: 600px;\n}\nh1 { color: #d32f2f; }\ncode {\n    background: #eee;\n    padding: 3px 6px;\n    border-radius: 4px;\n}\n</style>\n</head>\n<body>\n<div class=\"card\">\n<h1> Request Blocked</h1>\n<p>This request was blocked by the proxy server.</p>\n<p>URL:</p>\n<p><code>";

/// The page that a blocked request gets, after the blocked URL.
pub const BLOCKED_PAGE_TAIL: &'static str = "</code></p>\n</div>\n</body>\n</html>";

/// The HTML page that names a blocked URL.
pub open spec fn blocked_page(url: Seq<char>) -> Seq<char> {
    BLOCKED_PAGE_HEAD@ + url + BLOCKED_PAGE_TAIL@
}

/// The "403 Forbidden" response for a blacklisted URL: the HTML page naming it, with
/// Content-Type, Content-Length (the page's length in bytes), Connection: close and
/// Server headers.
pub open spec fn blocked_view(url: Seq<char>) -> ResponseView {
    ResponseView {
        version: Some("HTTP/1.1"@),
        code: Some("403"@),
        reason: Some("Forbidden"@),
        headers: seq![
            ("Content-Type"@, "text/html; charset=utf-8"@),
            ("Content-Length"@, decimal_chars(encode_utf8(blocked_page(url)).len())),
            ("Connection"@, "close"@),
            ("Server"@, "SanyaProxy/1.0"@),
        ],
        body: encode_utf8(blocked_page(url)),
    }
}

/// The blocked page for a URL is the page for the empty URL with the URL inserted right
/// after the opening `<code>` tag, so its body is longer by the URL's length in bytes; and
/// the Content-Length header always gives the body's length.
pub proof fn lemma_blocked_page(url: Seq<char>)
    ensures
        blocked_page(url) == blocked_page(Seq::empty()).subrange(0, BLOCKED_PAGE_HEAD@.len() as int) + url
            + blocked_page(Seq::empty()).subrange(
            BLOCKED_PAGE_HEAD@.len() as int,
            blocked_page(Seq::empty()).len() as int,
        ),
        blocked_view(url).body.len() == blocked_view(Seq::empty()).body.len() + encode_utf8(url).len(),
        blocked_view(url).headers[1] == ("Content-Length"@, decimal_chars(blocked_view(url).body.len())),
{
    let h = BLOCKED_PAGE_HEAD@;
    let t = BLOCKED_PAGE_TAIL@;
    let e = blocked_page(Seq::empty());
    assert(e =~= h + t);
    assert(e.subrange(0, h.len() as int) =~= h);
    assert(e.subrange(h.len() as int, e.len() as int) =~= t);
    crate::text::lemma_encode_concat(h + url, t);
    crate::text::lemma_encode_concat(h, url);
    crate::text::lemma_encode_concat(h, t);
    assert(h + Seq::<char>::empty() =~= h);
}

/// The "403 Forbidden" response that the proxy sends for a blacklisted URL: the HTML page
/// naming it, with Content-Type, Content-Length (the page's length in bytes), Connection:
/// close and Server headers.
pub fn blocked_response(url: &str) -> (r: HttpResponse)
    ensures
        r.view_response() == blocked_view(url@),
{
    let mut page = String::from_str(BLOCKED_PAGE_HEAD);
    page.append(url);
    page.append(BLOCKED_PAGE_TAIL);
    assert(page@ == blocked_page(url@));
    let bytes = page.as_str().as_bytes();
    let len = decimal_string(bytes.len() as u64);
    let mut headers = standard_headers(String::from_str("text/html; charset=utf-8"), len);
    let ghost before = headers@;
    proof {
        reveal_strlit("Content-Type");
        reveal_strlit("Content-Length");
        reveal_strlit("Connection");
        reveal_strlit("Server");
        assert("Content-Type"@.len() != "Server"@.len());
        assert("Content-Length"@.len() != "Server"@.len());
        assert("Connection"@.len() != "Server"@.len());
        lemma_key_index(before, "Server"@);
    }
    headers.insert(String::from_str("Server"), String::from_str("SanyaProxy/1.0"));
    assert(headers@ =~= before.push(("Server"@, "SanyaProxy/1.0"@)));
    assert(headers@ =~= seq![
        ("Content-Type"@, "text/html; charset=utf-8"@),
        ("Content-Length"@, decimal_chars(encode_utf8(blocked_page(url@)).len())),
        ("Connection"@, "close"@),
        ("Server"@, "SanyaProxy/1.0"@),
    ]);
    let body = copy_range(bytes, 0, bytes.len());
    assert(bytes@.subrange(0, bytes@.len() as int) =~= bytes@);
    HttpResponse {
        version: Some(String::from_str("HTTP/1.1")),
        code: Some(String::from_str("403")),
        reason: Some(String::from_str("Forbidden")),
        headers,
        body,
    }
}


// ---------------------------------------------------------------------------
// Reading a message off a stream
// ---------------------------------------------------------------------------
/// Whether a header name is "Content-Length" up to ASCII case.
pub open spec fn names_content_length(name: Seq<char>) -> bool {
    lower_bytes(encode_utf8(name)) == lower_bytes(encode_utf8("Content-Length"@))
}

/// The position of the first Content-Length header.
#[verifier::opaque]
pub open spec fn first_content_length(h: Seq<(Seq<char>, Seq<u8>)>) -> Option<int> {
    if exists|i: int| 0 <= i < h.len() && names_content_length(h[i].0) {
        Some(
            choose|i: int|
                0 <= i < h.len() && names_content_length(h[i].0) && forall|j: int|
                    0 <= j < i ==> !names_content_length(#[trigger] h[j].0),
        )
    } else {
        None
    }
}

/// The body length that the first Content-Length header gives, or zero when there is none
/// or its value is not UTF-8 or not a number.
pub open spec fn content_length_field(h: Seq<(Seq<char>, Seq<u8>)>) -> nat {
    match first_content_length(h) {
        None => 0,
        Some(i) => if valid_utf8(h[i].1) {
            match parse_unsigned(h[i].1, usize::MAX as nat) {
                Some(n) => n,
                None => 0,
            }
        } else {
            0
        },
    }
}

/// The length that the first Content-Length header of `headers` announces, zero when
/// there is none or it does not read as a number.
pub fn get_content_length(headers: &Vec<(String, Vec<u8>)>) -> (r: usize)
    ensures
        r == content_length_field(raw_headers_view(headers@)),
{
    let ghost hv = raw_headers_view(headers@);
    let mut i: usize = 0;
    while i < headers.len()
        invariant
            0 <= i <= headers@.len(),
            hv == raw_headers_view(headers@),
            forall|j: int| 0 <= j < i ==> !names_content_length(#[trigger] hv[j].0),
        decreases headers@.len() - i,
    {
        assert(hv[i as int] == (headers@[i as int].0@, headers@[i as int].1@));
        if eq_ignore_ascii_case(headers[i].0.as_str().as_bytes(), "Content-Length".as_bytes()) {
            proof {
                reveal(first_content_length);
                let w = choose|k: int|
                    0 <= k < hv.len() && names_content_length(hv[k].0) && forall|j: int|
                        0 <= j < k ==> !names_content_length(#[trigger] hv[j].0);
                assert(0 <= i < hv.len() && names_content_length(hv[i as int].0));
                if w < i {
                } else if w > i {
                }
                assert(first_content_length(hv) == Some(i as int));
            }
            let v = headers[i].1.as_slice();
            if !utf8_valid(v) {
                return 0;
            }
            return match parse_unsigned_bytes(v, usize::MAX as u64) {
                Some(n) => n as usize,
                None => 0,
            };
        }
        i = i + 1;
    }
    proof {
        reveal(first_content_length);
    }
    0
}

/// Reads the head of a message, as the proxy does with room for 32 headers.
pub trait MessageParser {
    /// Parses `buf`: the head length once the head is complete, `None` while it is not.
    fn parse(&mut self, buf: &[u8]) -> Result<Option<usize>, httparse::Error>;

    /// The body length that the last complete head announced.
    fn content_length(&self) -> usize;
}

/// The head reader for requests.
pub struct RequestParser {
    pub content_length: usize,
}

/// The head reader for responses.
pub struct ResponseParser {
    pub content_length: usize,
}

impl MessageParser for RequestParser {
    fn parse(&mut self, buf: &[u8]) -> (r: Result<Option<usize>, httparse::Error>)
        ensures
            match parsed_request_head(buf@, 32) {
                None => r is Err && final(self).content_length == old(self).content_length,
                Some(h) => match h.complete {
                    Some(n) => r matches Ok(Some(k)) && k == n && final(self).content_length
                        == content_length_field(h.headers),
                    None => r matches Ok(None) && final(self).content_length
                        == old(self).content_length,
                },
            },
    {
        let head = httparse_request(buf, 32)?;
        match head.complete {
            Some(n) => {
                self.content_length = get_content_length(&head.headers);
                Ok(Some(n))
            },
            None => Ok(None),
        }
    }

    fn content_length(&self) -> (r: usize)
        ensures
            r == self.content_length,
    {
        self.content_length
    }
}

impl MessageParser for ResponseParser {
    fn parse(&mut self, buf: &[u8]) -> (r: Result<Option<usize>, httparse::Error>)
        ensures
            match parsed_response_head(buf@, 32) {
                None => r is Err && final(self).content_length == old(self).content_length,
                Some(h) => match h.complete {
                    Some(n) => r matches Ok(Some(k)) && k == n && final(self).content_length
                        == content_length_field(h.headers),
                    None => r matches Ok(None) && final(self).content_length
                        == old(self).content_length,
                },
            },
    {
        let head = httparse_response(buf, 32)?;
        match head.complete {
            Some(n) => {
                self.content_length = get_content_length(&head.headers);
                Ok(Some(n))
            },
            None => Ok(None),
        }
    }

    fn content_length(&self) -> (r: usize)
        ensures
            r == self.content_length,
    {
        self.content_length
    }
}


/// Which kind of message a reader collects.
#[derive(PartialEq, Eq, Structural, Clone, Copy)]
pub enum MessageKind {
    Request,
    Response,
}

/// The head that httparse finds in `buf` for a message of kind `kind`, with room for 32
/// headers.
pub open spec fn head_of(kind: MessageKind, buf: Seq<u8>) -> Option<RawHeadView> {
    match kind {
        MessageKind::Request => parsed_request_head(buf, 32),
        MessageKind::Response => parsed_response_head(buf, 32),
    }
}

/// What a reader wants after a chunk.
#[derive(PartialEq, Eq, Structural, Clone, Copy)]
pub enum ReadStep {
    /// The message is not complete yet: read more.
    NeedMore,
    /// The buffer holds the whole head and the announced body.
    Done,
}

/// Collects one HTTP message from the chunks a stream delivers: first until the head is
/// complete, then until the announced body has arrived.
pub struct MessageReader {
    pub kind: MessageKind,
    pub buf: Vec<u8>,
    pub header_len: Option<usize>,
    pub content_length: usize,
}

impl MessageReader {
    /// A reader with nothing read yet.
    pub fn new(kind: MessageKind) -> (r: MessageReader)
        ensures
            r.kind == kind,
            r.buf@ == Seq::<u8>::empty(),
            r.header_len is None,
            r.content_length == 0,
    {
        MessageReader { kind, buf: Vec::new(), header_len: None, content_length: 0 }
    }

    /// Takes the next chunk read from the stream. While the head is incomplete the whole
    /// buffer is parsed again; once it is complete the message is done when the buffer
    /// holds the head and the announced body.
    pub fn on_chunk(&mut self, chunk: &[u8]) -> (r: Result<ReadStep, httparse::Error>)
        ensures
            final(self).kind == old(self).kind,
            final(self).buf@ == old(self).buf@ + chunk@,
            match old(self).header_len {
                Some(hl) => {
                    &&& final(self).header_len == Some(hl)
                    &&& final(self).content_length == old(self).content_length
                    &&& r matches Ok(step)
                    &&& (step == ReadStep::Done <==> final(self).buf@.len() >= hl + old(self).content_length)
                },
                None => match head_of(old(self).kind, final(self).buf@) {
                    None => r is Err && final(self).header_len is None,
                    Some(h) => match h.complete {
                        None => r == Ok::<ReadStep, httparse::Error>(ReadStep::NeedMore)
                            && final(self).header_len is None,
                        Some(n) => {
                            &&& final(self).header_len == Some(n as usize)
                            &&& final(self).content_length == content_length_field(h.headers)
                            &&& r matches Ok(step)
                            &&& (step == ReadStep::Done <==> final(self).buf@.len() >= n
                                + content_length_field(h.headers))
                        },
                    },
                },
            },
    {
        extend_bytes(&mut self.buf, chunk);
        if self.header_len.is_none() {
            let found = match self.kind {
                MessageKind::Request => {
                    let mut p = RequestParser { content_length: 0 };
                    let res = p.parse(self.buf.as_slice());
                    (res, p.content_length)
                },
                MessageKind::Response => {
                    let mut p = ResponseParser { content_length: 0 };
                    let res = p.parse(self.buf.as_slice());
                    (res, p.content_length)
                },
            };
            match found.0 {
                Err(e) => {
                    return Err(e);
                },
                Ok(None) => {
                    return Ok(ReadStep::NeedMore);
                },
                Ok(Some(n)) => {
                    self.header_len = Some(n);
                    self.content_length = found.1;
                },
            }
        }
        let hl = match self.header_len {
            Some(hl) => hl,
            None => 0,
        };
        if self.buf.len() >= hl && self.buf.len() - hl >= self.content_length {
            Ok(ReadStep::Done)
        } else {
            Ok(ReadStep::NeedMore)
        }
    }
}

} // verus!
