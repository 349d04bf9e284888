//! The FTP client's side of the control connection: reading reply codes, the passive-mode
//! address, the working directory, and the machine-readable listing.
use vstd::prelude::*;
use vstd::utf8::encode_utf8;
use crate::text::{
    char_views, copy_range, decimal, decimal_bytes, decimal_chars, decimal_string, find_byte,
    has_prefix, lit, lossy_chars, lowercase_chars, parse_unsigned, parse_unsigned_bytes,
    split_bytes, split_chars, split_on, starts_with, string_of, to_chars, to_lowercase, trim_range,
    trimmed, utf8_lossy, byte_seqs,
};

use crate::text::string_views;

verus! {

/// The first line of a reply: its three-digit code, and whether more lines follow
/// (a '-' after the code). `None` where the client panics: fewer than four bytes, or
/// the first three bytes not a number.
pub open spec fn reply_start(line: Seq<u8>) -> Option<(nat, bool)> {
    if line.len() < 4 {
        None
    } else {
        match parse_unsigned(line.subrange(0, 3), u32::MAX as nat) {
            None => None,
            Some(code) => Some((code, line[3] == 45)),
        }
    }
}

/// Reads the first line of a reply.
pub fn parse_reply_start(first: &str) -> (r: Option<(u32, bool)>)
    ensures
        match reply_start(encode_utf8(first@)) {
            None => r is None,
            Some((code, multi)) => r == Some((code as u32, multi)),
        },
{
    let b = first.as_bytes();
    if b.len() < 4 {
        return None;
    }
    let head = copy_range(b, 0, 3);
    match parse_unsigned_bytes(head.as_slice(), u32::MAX as u64) {
        None => None,
        Some(code) => Some((code as u32, b[3] == 45)),
    }
}

/// Whether `line` ends a multi-line reply with code `code`: it starts with the code
/// and a space.
pub fn reply_ends(line: &str, code: u32) -> (r: bool)
    ensures
        r == has_prefix(encode_utf8(line@), decimal(code as nat) + seq![32u8]),
{
    let mut marker = decimal_bytes(code as u64);
    marker.push(32);
    assert(marker@ =~= decimal(code as nat) + seq![32u8]);
    let b = line.as_bytes();
    assert(b@ == encode_utf8(line@));
    starts_with(b, marker.as_slice())
}

/// The numbers of a passive-mode reply: the comma-separated pieces between the first '('
/// and the first ')', each of which must be a 16-bit number.
pub open spec fn all_parse(pieces: Seq<Seq<u8>>) -> bool {
    forall|i: int| 0 <= i < pieces.len() ==> parse_unsigned(#[trigger] pieces[i], 0xFFFF) is Some
}

/// The first position of byte `b` in `s`.
#[verifier::opaque]
pub open spec fn first_of(s: Seq<u8>, b: u8) -> Option<int> {
    if exists|i: int| 0 <= i < s.len() && s[i] == b {
        Some(choose|i: int| 0 <= i < s.len() && s[i] == b && forall|j: int| 0 <= j < i ==> s[j] != b)
    } else {
        None
    }
}

/// The data address that a passive-mode reply announces, "a.b.c.d:port". `None` where
/// the client panics: no parentheses, ')' before '(', a piece that is not a number, fewer
/// than six numbers, or port bytes that overflow 16 bits.
pub open spec fn pasv_address(line: Seq<u8>) -> Option<Seq<char>> {
    match (first_of(line, 40), first_of(line, 41)) {
        (Some(start), Some(end)) => if start + 1 > end {
            None
        } else {
            let pieces = split_on(line.subrange(start + 1, end), 44u8);
            if !all_parse(pieces) || pieces.len() < 6 {
                None
            } else {
                let n = Seq::new(6, |i: int| parse_unsigned(pieces[i], 0xFFFF)->0);
                if n[4] * 256 + n[5] > 0xFFFF {
                    None
                } else {
                    Some(
                        decimal_chars(n[0]) + "."@ + decimal_chars(n[1]) + "."@ + decimal_chars(n[2])
                            + "."@ + decimal_chars(n[3]) + ":"@ + decimal_chars(n[4] * 256 + n[5]),
                    )
                }
            }
        },
        _ => None,
    }
}

fn first_index(s: &[u8], b: u8) -> (r: Option<usize>)
    ensures
        r matches Some(k) ==> first_of(s@, b) == Some(k as int) && k < s@.len(),
        r is None ==> first_of(s@, b) is None,
{
    reveal(first_of);
    match find_byte(s, b) {
        None => None,
        Some(i) => {
            proof {
                let w = choose|k: int| 0 <= k < s@.len() && s@[k] == b && forall|j: int| 0 <= j < k ==> s@[j] != b;
                assert(0 <= i < s@.len() && s@[i as int] == b);
                if w < i {
                } else if w > i {
                }
            }
            Some(i)
        },
    }
}

fn parse_all_u16(pieces: &Vec<Vec<u8>>) -> (r: Option<Vec<u64>>)
    ensures
        r is None <==> !all_parse(byte_seqs(pieces@)),
        r matches Some(nums) ==> nums@.len() == pieces@.len() && forall|k: int|
            0 <= k < nums@.len() ==> parse_unsigned(#[trigger] byte_seqs(pieces@)[k], 0xFFFF) == Some(
                nums@[k] as nat,
            ),
{
    let ghost ps = byte_seqs(pieces@);
    let mut nums: Vec<u64> = Vec::new();
    let mut i: usize = 0;
    while i < pieces.len()
        invariant
            ps == byte_seqs(pieces@),
            0 <= i <= pieces@.len(),
            nums@.len() == i,
            forall|k: int| 0 <= k < i ==> parse_unsigned(#[trigger] ps[k], 0xFFFF) == Some(nums@[k] as nat),
        decreases pieces@.len() - i,
    {
        assert(ps[i as int] == pieces@[i as int]@);
        match parse_unsigned_bytes(pieces[i].as_slice(), 0xFFFF) {
            None => {
                assert(parse_unsigned(ps[i as int], 0xFFFF) is None);
                return None;
            },
            Some(v) => {
                nums.push(v);
            },
        }
        i = i + 1;
    }
    Some(nums)
}

/// The text "a.b.c.d:port" for six passive-mode numbers.
fn pasv_text(nums: &Vec<u64>) -> (r: String)
    requires
        nums@.len() >= 6,
        forall|k: int| 0 <= k < nums@.len() ==> nums@[k] <= 0xFFFF,
        nums@[4] * 256 + nums@[5] <= 0xFFFF,
    ensures
        r@ == decimal_chars(nums@[0] as nat) + "."@ + decimal_chars(nums@[1] as nat) + "."@
            + decimal_chars(nums@[2] as nat) + "."@ + decimal_chars(nums@[3] as nat) + ":"@
            + decimal_chars((nums@[4] * 256 + nums@[5]) as nat),
{
    let mut s = decimal_string(nums[0]);
    s.append(".");
    s.append(decimal_string(nums[1]).as_str());
    s.append(".");
    s.append(decimal_string(nums[2]).as_str());
    s.append(".");
    s.append(decimal_string(nums[3]).as_str());
    s.append(":");
    s.append(decimal_string(nums[4] * 256 + nums[5]).as_str());
    s
}

/// Reads the data address out of a passive-mode ("227") reply line.
pub fn parse_pasv_reply(line: &str) -> (r: Option<String>)
    ensures
        match pasv_address(encode_utf8(line@)) {
            None => r is None,
            Some(a) => r matches Some(s) && s@ == a,
        },
{
    let b = line.as_bytes();
    let blen = b.len();
    assert(b@ == encode_utf8(line@));
    let start = match first_index(b, 40) {
        None => {
            return None;
        },
        Some(i) => i,
    };
    let end = match first_index(b, 41) {
        None => {
            return None;
        },
        Some(i) => i,
    };
    if start + 1 > end {
        return None;
    }
    let inner = copy_range(b, start + 1, end);
    let pieces = split_bytes(inner.as_slice(), 44);
    let ghost ps = byte_seqs(pieces@);
    assert(ps == split_on(b@.subrange(start + 1, end as int), 44u8));
    let nums = match parse_all_u16(&pieces) {
        None => {
            return None;
        },
        Some(v) => v,
    };
    if nums.len() < 6 {
        return None;
    }
    proof {
        assert forall|k: int| 0 <= k < nums@.len() implies nums@[k] <= 0xFFFF by {
            assert(parse_unsigned(ps[k], 0xFFFF) == Some(nums@[k] as nat));
        }
        let n = Seq::new(6, |k: int| parse_unsigned(ps[k], 0xFFFF)->0);
        assert forall|k: int| 0 <= k < 6 implies n[k] == nums@[k] as nat by {
            assert(parse_unsigned(ps[k], 0xFFFF) == Some(nums@[k] as nat));
        }
    }
    if nums[4] * 256 + nums[5] > 0xFFFF {
        return None;
    }
    Some(pasv_text(&nums))
}

/// The first position of `c` in `s` at or after `from`.
#[verifier::opaque]
pub open spec fn first_char_from(s: Seq<char>, c: char, from: int) -> Option<int> {
    if exists|i: int| from <= i < s.len() && s[i] == c {
        Some(choose|i: int| from <= i < s.len() && s[i] == c && forall|j: int| from <= j < i ==> s[j] != c)
    } else {
        None
    }
}

/// What the first position of `c` at or after `from` is.
pub proof fn lemma_first_char_from(s: Seq<char>, c: char, from: int)
    ensures
        match first_char_from(s, c, from) {
            Some(i) => from <= i < s.len() && s[i] == c && forall|j: int| from <= j < i ==> s[j] != c,
            None => forall|j: int| from <= j < s.len() ==> s[j] != c,
        },
{
    reveal(first_char_from);
    if exists|i: int| from <= i < s.len() && s[i] == c {
        let k = choose|i: int| from <= i < s.len() && s[i] == c;
        lemma_first_position_exists(s, c, from, k);
    }
}

proof fn lemma_first_position_exists(s: Seq<char>, c: char, from: int, k: int)
    requires
        from <= k < s.len(),
        s[k] == c,
    ensures
        exists|i: int| from <= i < s.len() && s[i] == c && forall|j: int| from <= j < i ==> s[j] != c,
    decreases k - from,
{
    if exists|j: int| from <= j < k && s[j] == c {
        let j = choose|j: int| from <= j < k && s[j] == c;
        lemma_first_position_exists(s, c, from, j);
    } else {
        assert(from <= k < s.len() && s[k] == c && forall|j: int| from <= j < k ==> s[j] != c);
    }
}

pub(crate) fn find_char_from(s: &[char], c: char, from: usize) -> (r: Option<usize>)
    requires
        from <= s@.len(),
    ensures
        r matches Some(k) ==> first_char_from(s@, c, from as int) == Some(k as int) && from <= k
            < s@.len(),
        r is None ==> first_char_from(s@, c, from as int) is None,
{
    let mut i = from;
    while i < s.len()
        invariant
            from <= i <= s@.len(),
            forall|j: int| from <= j < i ==> s@[j] != c,
        decreases s@.len() - i,
    {
        reveal(first_char_from);
        if s[i] == c {
            proof {
                let w = choose|k: int| from <= k < s@.len() && s@[k] == c && forall|j: int| from <= j < k ==> s@[j] != c;
                assert(from <= i < s@.len() && s@[i as int] == c);
                if w < i {
                } else if w > i {
                }
            }
            return Some(i);
        }
        i = i + 1;
    }
    reveal(first_char_from);
    None
}

/// The directory that a "257" reply names: the text between its first two quotes.
/// `None` where the client panics: fewer than two quotes.
pub open spec fn quoted_dir(line: Seq<char>) -> Option<Seq<char>> {
    match first_char_from(line, '"', 0) {
        None => None,
        Some(start) => match first_char_from(line, '"', start + 1) {
            None => None,
            Some(end) => Some(line.subrange(start + 1, end)),
        },
    }
}

/// Reads the directory out of a "257" reply line.
pub fn parse_pwd_reply(line: &str) -> (r: Option<String>)
    ensures
        match quoted_dir(line@) {
            None => r is None,
            Some(d) => r matches Some(s) && s@ == d,
        },
{
    let cs = to_chars(line);
    let clen = cs.len();
    let start = match find_char_from(cs.as_slice(), '"', 0) {
        None => {
            return None;
        },
        Some(i) => i,
    };
    let end = match find_char_from(cs.as_slice(), '"', start + 1) {
        None => {
            return None;
        },
        Some(i) => i,
    };
    Some(string_of(cs.as_slice(), start + 1, end))
}

/// The lines of `s` as `str::lines` yields them: split at '\n', a '\r' before a '\n'
/// dropped, and no empty line after a final '\n'.
pub open spec fn text_lines(s: Seq<char>) -> Seq<Seq<char>> {
    let p = split_on(s, '\n');
    let body = if p.last().len() == 0 {
        p.drop_last()
    } else {
        p
    };
    Seq::new(
        body.len(),
        |i: int|
            if i < p.len() - 1 && body[i].len() > 0 && body[i].last() == '\r' {
                body[i].drop_last()
            } else {
                body[i]
            },
    )
}

/// The entries of a listing received over the data connection: its lines, read as
/// `from_utf8_lossy` decodes the bytes.
pub fn listing_lines(data: &[u8]) -> (r: Vec<String>)
    ensures
        string_views(r@) == text_lines(lossy_chars(data@)),
{
    let text = utf8_lossy(data);
    let cs = to_chars(text.as_str());
    let pieces = split_chars(cs.as_slice(), '\n');
    let ghost p = char_views(pieces@);
    proof {
        crate::text::lemma_split_on_nonempty(cs@, '\n');
    }
    let n = pieces.len();
    let body_len = if pieces[n - 1].len() == 0 {
        n - 1
    } else {
        n
    };
    assert(p[n - 1] == pieces@[n - 1]@);
    let ghost body = if p.last().len() == 0 {
        p.drop_last()
    } else {
        p
    };
    assert(body.len() == body_len);
    let mut r: Vec<String> = Vec::new();
    let mut i: usize = 0;
    while i < body_len
        invariant
            p == char_views(pieces@),
            n == p.len(),
            body_len == body.len(),
            body_len <= n,
            forall|k: int| 0 <= k < body_len ==> body[k] == p[k],
            0 <= i <= body_len,
            string_views(r@) == text_lines(cs@).subrange(0, i as int),
            text_lines(cs@).len() == body_len,
            p == split_on(cs@, '\n'),
        decreases body_len - i,
    {
        let piece = &pieces[i];
        assert(piece@ == p[i as int]);
        let len = piece.len();
        let line = if i < n - 1 && len > 0 && piece[len - 1] == '\r' {
            string_of(piece.as_slice(), 0, len - 1)
        } else {
            string_of(piece.as_slice(), 0, len)
        };
        proof {
            if i < n - 1 && len > 0 && piece@[len - 1] == '\r' {
                assert(line@ =~= body[i as int].drop_last());
            } else {
                assert(line@ =~= body[i as int]);
            }
        }
        assert(text_lines(cs@)[i as int] == line@);
        let ghost before = r@;
        r.push(line);
        assert(string_views(r@) =~= string_views(before).push(line@));
        assert(text_lines(cs@).subrange(0, i + 1) =~= text_lines(cs@).subrange(0, i as int).push(
            text_lines(cs@)[i as int],
        ));
        i = i + 1;
    }
    assert(text_lines(cs@).subrange(0, body_len as int) =~= text_lines(cs@));
    r
}

/// The name shown for a listing entry: for a "facts; name" entry the trimmed text after
/// the last ';', otherwise the whole entry.
pub open spec fn entry_name(entry: Seq<char>) -> Seq<char> {
    let fields = split_on(entry, ';');
    if fields.len() > 1 {
        trimmed(fields.last())
    } else {
        entry
    }
}

/// What opening a listing entry does.
pub enum EntryAction {
    /// A directory: change into it.
    ChangeDir(String),
    /// A file: retrieve it.
    OpenFile(String),
    /// Without facts the kind is unknown: try to change into it, else retrieve it.
    TryDirThenFile(String),
}

/// Whether `pat` occurs in `s` at position `i`.
pub open spec fn chars_at(s: Seq<char>, pat: Seq<char>, i: int) -> bool {
    0 <= i && i + pat.len() <= s.len() && s.subrange(i, i + pat.len()) == pat
}

/// Whether `pat` occurs in `s`.
pub open spec fn contains_chars(s: Seq<char>, pat: Seq<char>) -> bool {
    exists|i: int| chars_at(s, pat, i)
}

pub(crate) fn chars_contain(s: &[char], pat: &[char]) -> (r: bool)
    ensures
        r == contains_chars(s@, pat@),
{
    if pat.len() > s.len() {
        return false;
    }
    let n = s.len();
    let last = n - pat.len();
    let mut i: usize = 0;
    loop
        invariant
            n == s@.len(),
            last == s@.len() - pat@.len(),
            0 <= i <= last,
            forall|j: int| 0 <= j < i ==> !chars_at(s@, pat@, j),
        decreases last - i,
    {
        let mut k: usize = 0;
        let mut same = true;
        while k < pat.len()
            invariant
                n == s@.len(),
                i + pat@.len() <= s@.len(),
                0 <= k <= pat@.len(),
                same == (forall|m: int| 0 <= m < k ==> s@[i + m] == pat@[m]),
            decreases pat@.len() - k,
        {
            if s[i + k] != pat[k] {
                same = false;
            }
            k = k + 1;
        }
        if same {
            assert(s@.subrange(i as int, i + pat@.len()) =~= pat@);
            assert(chars_at(s@, pat@, i as int));
            return true;
        }
        assert(!chars_at(s@, pat@, i as int)) by {
            let m = choose|m: int| 0 <= m < pat@.len() && s@[i + m] != pat@[m];
            assert(s@.subrange(i as int, i + pat@.len())[m] != pat@[m]);
        }
        if i == last {
            assert forall|j: int| !chars_at(s@, pat@, j) by {
                if chars_at(s@, pat@, j) {
                    assert(j <= i);
                }
            }
            return false;
        }
        i = i + 1;
    }
}

/// The lower case of an entry: for ASCII text its ASCII lower case, otherwise what
/// `str::to_lowercase` makes of it.
pub open spec fn entry_lower(entry: Seq<char>) -> Seq<char> {
    if crate::text::all_ascii(entry) {
        crate::text::ascii_lower_chars(entry)
    } else {
        lowercase_chars(entry)
    }
}

/// What opening `entry` does: with facts, a directory if its lower case holds
/// "type=dir", otherwise a file, named by `entry_name`; without facts, try both.
pub open spec fn entry_action(entry: Seq<char>) -> (nat, Seq<char>) {
    let fields = split_on(entry, ';');
    if fields.len() > 1 {
        if contains_chars(entry_lower(entry), "type=dir"@) {
            (0, entry_name(entry))
        } else {
            (1, entry_name(entry))
        }
    } else {
        (2, entry)
    }
}

/// The kind and name carried by an action.
pub open spec fn action_view(a: EntryAction) -> (nat, Seq<char>) {
    match a {
        EntryAction::ChangeDir(n) => (0, n@),
        EntryAction::OpenFile(n) => (1, n@),
        EntryAction::TryDirThenFile(n) => (2, n@),
    }
}

/// The name to show for a listing entry.
pub fn display_name(entry: &str) -> (r: String)
    ensures
        r@ == entry_name(entry@),
{
    let cs = to_chars(entry);
    let fields = split_chars(cs.as_slice(), ';');
    let ghost f = char_views(fields@);
    if fields.len() > 1 {
        let last = &fields[fields.len() - 1];
        assert(last@ == f.last());
        let (a, b) = trim_range(last.as_slice(), 0, last.len());
        assert(last@.subrange(0, last@.len() as int) =~= last@);
        string_of(last.as_slice(), a, b)
    } else {
        string_of(cs.as_slice(), 0, cs.len())
    }
}

/// What opening a listing entry does.
pub fn open_entry(entry: &str) -> (r: EntryAction)
    ensures
        action_view(r) == entry_action(entry@),
{
    proof {
        reveal_strlit("type=dir");
    }
    let cs = to_chars(entry);
    let fields = split_chars(cs.as_slice(), ';');
    if fields.len() > 1 {
        let name = display_name(entry);
        let lower = to_lowercase(entry);
        let lc = to_chars(lower.as_str());
        let pat = to_chars("type=dir");
        if chars_contain(lc.as_slice(), pat.as_slice()) {
            EntryAction::ChangeDir(name)
        } else {
            EntryAction::OpenFile(name)
        }
    } else {
        EntryAction::TryDirThenFile(string_of(cs.as_slice(), 0, cs.len()))
    }
}

/// A command line for the control connection: the verb, a space and the argument if
/// there is one, and CRLF.
pub fn command_line(verb: &str, arg: Option<&str>) -> (r: Vec<u8>)
    ensures
        r@ == match arg {
            None => encode_utf8(verb@) + seq![13u8, 10u8],
            Some(a) => encode_utf8(verb@) + seq![32u8] + encode_utf8(a@) + seq![13u8, 10u8],
        },
{
    let mut v: Vec<u8> = Vec::new();
    crate::text::extend_bytes(&mut v, verb.as_bytes());
    match arg {
        None => {},
        Some(a) => {
            v.push(32);
            crate::text::extend_bytes(&mut v, a.as_bytes());
        },
    }
    v.push(13);
    v.push(10);
    v
}


/// The screens of the FTP client: logging in, browsing a directory, viewing a file.
#[derive(PartialEq, Eq, Structural, Clone, Copy, Debug)]
pub enum Screen {
    Login,
    Browser,
    FileView,
}

impl Default for Screen {
    /// The client starts at the login screen.
    fn default() -> (r: Screen)
        ensures
            r == Screen::Login,
    {
        Screen::Login
    }
}


/// A directory line of the server's MLSD listing opens as that directory: for ASCII
/// facts and a name without ';', the entry "type=dir;modify=T; NAME" changes into
/// NAME (trimmed), whatever the modification text.
pub proof fn lemma_directory_entry(size: u64, modify: Seq<char>, name: Seq<char>)
    requires
        crate::text::all_ascii(modify),
        crate::text::all_ascii(name),
        !name.contains(';'),
    ensures
        entry_action(crate::ftp_server::facts_line(true, size, modify, name)) == (0nat, trimmed(name)),
{
    reveal_strlit("type=dir;modify=");
    reveal_strlit("; ");
    reveal_strlit("type=dir");
    reveal_strlit("modify=");
    let a = "type=dir"@;
    let c = "modify="@ + modify;
    let d = seq![' '] + name;
    let line = crate::ftp_server::facts_line(true, size, modify, name);
    assert(line =~= a + seq![';'] + (c + seq![';'] + d));
    assert(!d.contains(';')) by {
        if d.contains(';') {
            let k = choose|k: int| 0 <= k < d.len() && d[k] == ';';
            assert(name[k - 1] == ';');
        }
    }
    lemma_dir_line_shape(a, c, d, line);
    assert(d.drop_first() =~= name);
    assert(crate::text::is_whitespace(d[0]));
    assert(trimmed(d) == trimmed(name));
    assert(crate::text::all_ascii(line));
    let low = crate::text::ascii_lower_chars(line);
    assert(low.subrange(0, 8) =~= a);
    assert(chars_at(low, a, 0));
}

proof fn lemma_dir_line_shape(a: Seq<char>, c: Seq<char>, d: Seq<char>, line: Seq<char>)
    requires
        line == a + seq![';'] + (c + seq![';'] + d),
        !d.contains(';'),
    ensures
        split_on(line, ';').len() > 1,
        split_on(line, ';').last() == d,
{
    crate::text::lemma_split_on_join(a, c + seq![';'] + d, ';');
    crate::text::lemma_split_on_join(c, d, ';');
    assert forall|i: int| 0 <= i < d.len() implies d[i] != ';' by {
        if d[i] == ';' {
            assert(d.contains(';'));
        }
    }
    crate::text::lemma_split_on_single(d, ';');
    crate::text::lemma_split_on_nonempty(a, ';');
    crate::text::lemma_split_on_nonempty(c, ';');
}

/// Whether `word` stands in `s` at position `j` when ASCII letters are compared without
/// regard to case.
pub open spec fn matches_ascii_case_at(s: Seq<char>, word: Seq<char>, j: int) -> bool {
    0 <= j && j + word.len() <= s.len() && forall|k: int|
        0 <= k < word.len() ==> #[trigger] crate::text::ascii_lower(s[j + k]) == crate::text::ascii_lower(word[k])
}

/// Opening an ASCII entry that has facts (a ';' in it) changes into a directory exactly
/// when the entry holds "type=dir" in some ASCII case (any mix of upper and lower case
/// letters), and opens a file otherwise; either way under the name after the last ';',
/// trimmed.
pub proof fn lemma_entry_kind(entry: Seq<char>)
    requires
        crate::text::all_ascii(entry),
        entry.contains(';'),
    ensures
        entry_action(entry).1 == trimmed(split_on(entry, ';').last()),
        entry_action(entry).0 == 0 || entry_action(entry).0 == 1,
        (entry_action(entry).0 == 0) == (exists|j: int| matches_ascii_case_at(entry, "type=dir"@, j)),
{
    reveal_strlit("type=dir");
    let a = "type=dir"@;
    let i = choose|i: int| 0 <= i < entry.len() && entry[i] == ';';
    let x = entry.subrange(0, i);
    let y = entry.subrange(i + 1, entry.len() as int);
    assert(entry =~= x + seq![';'] + y);
    crate::text::lemma_split_on_join(x, y, ';');
    crate::text::lemma_split_on_nonempty(x, ';');
    crate::text::lemma_split_on_nonempty(y, ';');
    assert(split_on(entry, ';').len() > 1);
    let low = crate::text::ascii_lower_chars(entry);
    assert(entry_lower(entry) == low);
    if contains_chars(low, a) {
        let j = choose|j: int| chars_at(low, a, j);
        assert forall|k: int| 0 <= k < 8 implies #[trigger] crate::text::ascii_lower(entry[j + k])
            == crate::text::ascii_lower(a[k]) by {
            assert(low.subrange(j, j + 8)[k] == a[k]);
        }
        assert(matches_ascii_case_at(entry, a, j));
    }
    if exists|j: int| matches_ascii_case_at(entry, a, j) {
        let j = choose|j: int| matches_ascii_case_at(entry, a, j);
        assert forall|k: int| 0 <= k < 8 implies low.subrange(j, j + 8)[k] == a[k] by {
            assert(crate::text::ascii_lower(entry[j + k]) == crate::text::ascii_lower(a[k]));
        }
        assert(low.subrange(j, j + 8) =~= a);
        assert(chars_at(low, a, j));
    }
}

} // verus!
