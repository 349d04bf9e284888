//! The FTP server's control connection: the replies it sends, the login gate, and what
//! each command line asks the connection to do.
use vstd::prelude::*;
use vstd::utf8::encode_utf8;
use crate::addr::PeerAddr;
use crate::text::{
    decimal, lemma_decimal_digits, lemma_parse_decimal, lemma_split_on_join, lemma_split_on_single,
    byte_seqs, char_views, decimal_chars, decimal_string, parse_unsigned, parse_unsigned_bytes,
    split_bytes, split_on, split_whitespace, string_of, to_chars, to_uppercase, uppercase_chars,
    words,
};

verus! {

/// The replies of the server, one line each.
pub enum FtpReply {
    Greeting,
    LoginFirst,
    UserOk,
    InvalidUser,
    MissingUser,
    LoggedIn,
    LoginIncorrect,
    MissingPass,
    NoIp,
    NoIpv6,
    Passive { a: u8, b: u8, c: u8, d: u8, port: u16 },
    PassiveFailed,
    CurrentDir(String),
    DirChanged,
    DirFailed,
    PortOk,
    PortInvalid,
    Opening,
    TransferComplete,
    NoDataConnection,
    FileNotFound,
    ReadyToReceive,
    Goodbye,
    NotImplemented,
}

/// The decimal text of a number, as characters.
pub open spec fn dec(n: nat) -> Seq<char> {
    decimal_chars(n)
}

/// The text of the passive-mode reply: the four address bytes and the two port bytes.
pub open spec fn passive_text(a: u8, b: u8, c: u8, d: u8, port: u16) -> Seq<char> {
    "227 Entering Passive Mode ("@ + dec(a as nat) + ","@ + dec(b as nat) + ","@ + dec(c as nat)
        + ","@ + dec(d as nat) + ","@ + dec(port as nat / 256) + ","@ + dec(port as nat % 256)
        + ")"@
}

/// The line the server sends for a reply (without the line end).
pub open spec fn reply_text(r: FtpReply) -> Seq<char> {
    match r {
        FtpReply::Greeting => "220 Simple FTP Server"@,
        FtpReply::LoginFirst => "530 Please login with USER and PASS"@,
        FtpReply::UserOk => "331 Username OK, need password"@,
        FtpReply::InvalidUser => "530 Invalid username"@,
        FtpReply::MissingUser => "501 Missing username"@,
        FtpReply::LoggedIn => "230 Login successful"@,
        FtpReply::LoginIncorrect => "530 Login incorrect"@,
        FtpReply::MissingPass => "501 Missing password"@,
        FtpReply::NoIp => "425 Can't determine IP"@,
        FtpReply::NoIpv6 => "425 IPv6 not supported"@,
        FtpReply::Passive { a, b, c, d, port } => passive_text(a, b, c, d, port),
        FtpReply::PassiveFailed => "425 Cannot open passive connection"@,
        FtpReply::CurrentDir(p) => "257 \""@ + p@ + "\""@,
        FtpReply::DirChanged => "250 Directory changed"@,
        FtpReply::DirFailed => "550 Failed to change directory"@,
        FtpReply::PortOk => "200 PORT command successful"@,
        FtpReply::PortInvalid => "500 Invalid PORT"@,
        FtpReply::Opening => "150 Opening data connection"@,
        FtpReply::TransferComplete => "226 Transfer complete"@,
        FtpReply::NoDataConnection => "425 No data connection"@,
        FtpReply::FileNotFound => "550 File not found"@,
        FtpReply::ReadyToReceive => "150 Ok to receive data"@,
        FtpReply::Goodbye => "221 Goodbye"@,
        FtpReply::NotImplemented => "502 Command not implemented"@,
    }
}

fn push_decimal(s: &mut String, n: u64)
    ensures
        final(s)@ == old(s)@ + decimal_chars(n as nat),
{
    let d = decimal_string(n);
    s.append(d.as_str());
}

impl FtpReply {
    /// The line to send for this reply.
    pub fn text(&self) -> (r: String)
        ensures
            r@ == reply_text(*self),
    {
        match self {
            FtpReply::Greeting => String::from_str("220 Simple FTP Server"),
            FtpReply::LoginFirst => String::from_str("530 Please login with USER and PASS"),
            FtpReply::UserOk => String::from_str("331 Username OK, need password"),
            FtpReply::InvalidUser => String::from_str("530 Invalid username"),
            FtpReply::MissingUser => String::from_str("501 Missing username"),
            FtpReply::LoggedIn => String::from_str("230 Login successful"),
            FtpReply::LoginIncorrect => String::from_str("530 Login incorrect"),
            FtpReply::MissingPass => String::from_str("501 Missing password"),
            FtpReply::NoIp => String::from_str("425 Can't determine IP"),
            FtpReply::NoIpv6 => String::from_str("425 IPv6 not supported"),
            FtpReply::Passive { a, b, c, d, port } => {
                let mut s = String::from_str("227 Entering Passive Mode (");
                push_decimal(&mut s, *a as u64);
                s.append(",");
                push_decimal(&mut s, *b as u64);
                s.append(",");
                push_decimal(&mut s, *c as u64);
                s.append(",");
                push_decimal(&mut s, *d as u64);
                s.append(",");
                push_decimal(&mut s, (*port / 256) as u64);
                s.append(",");
                push_decimal(&mut s, (*port % 256) as u64);
                s.append(")");
                s
            },
            FtpReply::PassiveFailed => String::from_str("425 Cannot open passive connection"),
            FtpReply::CurrentDir(p) => {
                let mut s = String::from_str("257 \"");
                s.append(p.as_str());
                s.append("\"");
                s
            },
            FtpReply::DirChanged => String::from_str("250 Directory changed"),
            FtpReply::DirFailed => String::from_str("550 Failed to change directory"),
            FtpReply::PortOk => String::from_str("200 PORT command successful"),
            FtpReply::PortInvalid => String::from_str("500 Invalid PORT"),
            FtpReply::Opening => String::from_str("150 Opening data connection"),
            FtpReply::TransferComplete => String::from_str("226 Transfer complete"),
            FtpReply::NoDataConnection => String::from_str("425 No data connection"),
            FtpReply::FileNotFound => String::from_str("550 File not found"),
            FtpReply::ReadyToReceive => String::from_str("150 Ok to receive data"),
            FtpReply::Goodbye => String::from_str("221 Goodbye"),
            FtpReply::NotImplemented => String::from_str("502 Command not implemented"),
        }
    }
}

/// The numbers of a PORT argument: its comma-separated pieces that read as 16-bit
/// numbers, in order; pieces that do not are skipped.
pub open spec fn port_numbers(pieces: Seq<Seq<u8>>) -> Seq<nat>
    decreases pieces.len(),
{
    if pieces.len() == 0 {
        Seq::empty()
    } else {
        let p = port_numbers(pieces.drop_last());
        match parse_unsigned(pieces.last(), 0xFFFF) {
            Some(v) => p.push(v),
            None => p,
        }
    }
}

/// The PORT argument that names the IPv4 address with bytes `o0.o1.o2.o3` and port `p`:
/// the six numbers in decimal, comma-separated, the port as its high and low byte.
pub open spec fn port_text(o0: u8, o1: u8, o2: u8, o3: u8, p: u16) -> Seq<u8> {
    decimal(o0 as nat) + seq![44u8] + decimal(o1 as nat) + seq![44u8] + decimal(o2 as nat) + seq![44u8]
        + decimal(o3 as nat) + seq![44u8] + decimal(p as nat / 256) + seq![44u8] + decimal(p as nat % 256)
}

proof fn lemma_port_numbers_all(ps: Seq<Seq<u8>>, vs: Seq<nat>)
    requires
        ps.len() == vs.len(),
        forall|i: int| 0 <= i < ps.len() ==> parse_unsigned(#[trigger] ps[i], 0xFFFF) == Some(vs[i]),
    ensures
        port_numbers(ps) == vs,
    decreases ps.len(),
{
    if ps.len() > 0 {
        lemma_port_numbers_all(ps.drop_last(), vs.drop_last());
        assert(parse_unsigned(ps[ps.len() - 1], 0xFFFF) == Some(vs[vs.len() - 1]));
        assert(vs.drop_last().push(vs.last()) =~= vs);
    } else {
        assert(vs =~= Seq::<nat>::empty());
    }
}

proof fn lemma_decimal_piece(n: nat)
    requires
        n <= 0xFFFF,
    ensures
        split_on(decimal(n), 44u8) == seq![decimal(n)],
        parse_unsigned(decimal(n), 0xFFFF) == Some(n),
{
    lemma_decimal_digits(n);
    lemma_split_on_single(decimal(n), 44u8);
    lemma_parse_decimal(n, 0xFFFF);
}

/// A PORT argument written for an address and port reads back as exactly that address
/// and port.
pub proof fn lemma_port_roundtrip(o0: u8, o1: u8, o2: u8, o3: u8, p: u16)
    ensures
        port_arg(port_text(o0, o1, o2, o3, p)) == PortArg::Valid(
            PeerAddr {
                v6: false,
                ip: (o0 * 0x1000000 + o1 * 0x10000 + o2 * 0x100 + o3) as u128,
                port: p,
            },
        ),
{
    let hi = p as nat / 256;
    let lo = p as nat % 256;
    let d0 = decimal(o0 as nat);
    let d1 = decimal(o1 as nat);
    let d2 = decimal(o2 as nat);
    let d3 = decimal(o3 as nat);
    let d4 = decimal(hi);
    let d5 = decimal(lo);
    lemma_decimal_piece(o0 as nat);
    lemma_decimal_piece(o1 as nat);
    lemma_decimal_piece(o2 as nat);
    lemma_decimal_piece(o3 as nat);
    lemma_decimal_piece(hi);
    lemma_decimal_piece(lo);
    let sep = seq![44u8];
    let t1 = d0;
    let t2 = t1 + sep + d1;
    let t3 = t2 + sep + d2;
    let t4 = t3 + sep + d3;
    let t5 = t4 + sep + d4;
    let t6 = t5 + sep + d5;
    assert(t6 =~= port_text(o0, o1, o2, o3, p));
    lemma_split_on_join(t1, d1, 44u8);
    lemma_split_on_join(t2, d2, 44u8);
    lemma_split_on_join(t3, d3, 44u8);
    lemma_split_on_join(t4, d4, 44u8);
    lemma_split_on_join(t5, d5, 44u8);
    let ps = seq![d0, d1, d2, d3, d4, d5];
    assert(split_on(t6, 44u8) =~= ps);
    let vs = seq![o0 as nat, o1 as nat, o2 as nat, o3 as nat, hi, lo];
    lemma_port_numbers_all(ps, vs);
    assert(hi * 256 + lo == p) by {
        vstd::arithmetic::div_mod::lemma_fundamental_div_mod(p as int, 256);
    }
}

/// What a PORT argument means.
pub enum PortArg {
    /// The IPv4 address and port that the client listens on.
    Valid(PeerAddr),
    /// Not six numbers, or an address byte above 255.
    Invalid,
    /// The port bytes overflow 16 bits, where the server's port arithmetic panics.
    Overflow,
}

/// The meaning of the PORT argument with bytes `arg`.
pub open spec fn port_arg(arg: Seq<u8>) -> PortArg {
    let n = port_numbers(split_on(arg, 44));
    if n.len() != 6 {
        PortArg::Invalid
    } else if n[4] * 256 + n[5] > 0xFFFF {
        PortArg::Overflow
    } else if n[0] > 255 || n[1] > 255 || n[2] > 255 || n[3] > 255 {
        PortArg::Invalid
    } else {
        PortArg::Valid(
            PeerAddr {
                v6: false,
                ip: (n[0] * 0x1000000 + n[1] * 0x10000 + n[2] * 0x100 + n[3]) as u128,
                port: (n[4] * 256 + n[5]) as u16,
            },
        )
    }
}

/// Reads the argument of a PORT command: "h1,h2,h3,h4,p1,p2".
pub fn parse_port(arg: &str) -> (r: PortArg)
    ensures
        r == port_arg(encode_utf8(arg@)),
{
    let bytes = arg.as_bytes();
    let pieces = split_bytes(bytes, 44);
    let ghost ps = byte_seqs(pieces@);
    let mut nums: Vec<u64> = Vec::new();
    let mut i: usize = 0;
    while i < pieces.len()
        invariant
            ps == byte_seqs(pieces@),
            0 <= i <= pieces@.len(),
            nums@.len() == port_numbers(ps.subrange(0, i as int)).len(),
            forall|k: int| 0 <= k < nums@.len() ==> nums@[k] as nat == port_numbers(ps.subrange(0, i as int))[k],
            forall|k: int| 0 <= k < nums@.len() ==> nums@[k] <= 0xFFFF,
        decreases pieces@.len() - i,
    {
        let ghost pre = ps.subrange(0, i as int);
        assert(ps.subrange(0, i + 1).drop_last() =~= pre);
        assert(ps.subrange(0, i + 1).last() == pieces@[i as int]@);
        match parse_unsigned_bytes(pieces[i].as_slice(), 0xFFFF) {
            Some(v) => {
                nums.push(v);
            },
            None => {},
        }
        i = i + 1;
    }
    assert(ps.subrange(0, pieces@.len() as int) =~= ps);
    let ghost n = port_numbers(ps);
    if nums.len() != 6 {
        return PortArg::Invalid;
    }
    if nums[4] * 256 + nums[5] > 0xFFFF {
        return PortArg::Overflow;
    }
    if nums[0] > 255 || nums[1] > 255 || nums[2] > 255 || nums[3] > 255 {
        return PortArg::Invalid;
    }
    let ip = (nums[0] as u128) * 0x1000000 + (nums[1] as u128) * 0x10000 + (nums[2] as u128) * 0x100
        + (nums[3] as u128);
    let port = (nums[4] * 256 + nums[5]) as u16;
    PortArg::Valid(PeerAddr { v6: false, ip, port })
}

/// The state of one control connection: whether the user logged in, and the user name
/// given so far.
pub struct FtpSession {
    pub logged_in: bool,
    pub pending_user: Option<String>,
}

/// What the connection does after a command line, besides the immediate reply.
pub enum FtpAction {
    /// Nothing more.
    Continue,
    /// Open a passive listener and answer with its address, or with an error reply.
    OpenPassive,
    /// Change to this directory if it is one (`DirChanged`), else `DirFailed`.
    ChangeDir(String),
    /// Answer with the current directory (`CurrentDir`).
    PrintDir,
    /// Remember where the client listens for data.
    SetDataAddr(PeerAddr),
    /// Send the names in the directory over the data connection.
    SendNames,
    /// Send the machine-readable listing over the data connection.
    SendFacts,
    /// Send this file: `Opening` then the data, or `FileNotFound`.
    Retrieve(String),
    /// Receive this file over the data connection.
    Store(String),
    /// The PORT numbers overflow the port arithmetic: the connection fails.
    PortOverflow,
    /// Close the connection.
    Quit,
}

/// The command word of a line, upper-cased ("" when the line has no word).
pub open spec fn command_of(line: Seq<char>) -> Seq<char> {
    if words(line).len() == 0 {
        Seq::empty()
    } else {
        uppercase_chars(words(line)[0])
    }
}

/// The argument of a line: its second word, if any.
pub open spec fn argument_of(line: Seq<char>) -> Option<Seq<char>> {
    if words(line).len() >= 2 {
        Some(words(line)[1])
    } else {
        None
    }
}

/// Whether the action carries exactly the string `s`.
pub open spec fn action_with(a: FtpAction, kind: nat, s: Seq<char>) -> bool {
    match a {
        FtpAction::ChangeDir(d) => kind == 0 && d@ == s,
        FtpAction::Retrieve(f) => kind == 1 && f@ == s,
        FtpAction::Store(f) => kind == 2 && f@ == s,
        _ => false,
    }
}

/// Commands that may be sent before logging in.
pub open spec fn allowed_before_login(cmd: Seq<char>) -> bool {
    cmd == "USER"@ || cmd == "PASS"@ || cmd == "QUIT"@
}

fn is_cmd(cmd: &String, lit: &str) -> (r: bool)
    ensures
        r == (cmd@ == lit@),
{
    let l = String::from_str(lit);
    *cmd == l
}

impl FtpSession {
    /// A connection that has not logged in.
    pub fn new() -> (r: FtpSession)
        ensures
            !r.logged_in,
            r.pending_user is None,
    {
        FtpSession { logged_in: false, pending_user: None }
    }

    /// Handles one command line: the reply to send now, and what to do next. Before login
    /// only USER, PASS and QUIT are served; a user name needs at least three bytes, and a
    /// password of at least three bytes after a user name logs in.
    pub fn handle_command(&mut self, line: &str) -> (r: (Option<FtpReply>, FtpAction))
        ensures
            words(line@).len() > 0 && crate::text::all_ascii(words(line@)[0]) ==> command_of(line@)
                == crate::text::ascii_upper_chars(words(line@)[0]),
            ({
                let cmd = command_of(line@);
                let arg = argument_of(line@);
                if !old(self).logged_in && !allowed_before_login(cmd) {
                    r.0 == Some(FtpReply::LoginFirst) && r.1 is Continue && *final(self) == *old(self)
                } else if cmd == "USER"@ {
                    r.1 is Continue && final(self).logged_in == old(self).logged_in && match arg {
                        None => r.0 == Some(FtpReply::MissingUser) && *final(self) == *old(self),
                        Some(u) => if encode_utf8(u).len() >= 3 {
                            r.0 == Some(FtpReply::UserOk) && (final(self).pending_user matches Some(
                                p,
                            ) && p@ == u)
                        } else {
                            r.0 == Some(FtpReply::InvalidUser) && *final(self) == *old(self)
                        },
                    }
                } else if cmd == "PASS"@ {
                    r.1 is Continue && final(self).pending_user == old(self).pending_user
                        && match arg {
                        None => r.0 == Some(FtpReply::MissingPass) && final(self).logged_in == old(
                            self,
                        ).logged_in,
                        Some(p) => if old(self).pending_user is Some && encode_utf8(p).len() >= 3 {
                            r.0 == Some(FtpReply::LoggedIn) && final(self).logged_in
                        } else {
                            r.0 == Some(FtpReply::LoginIncorrect) && final(self).logged_in == old(
                                self,
                            ).logged_in
                        },
                    }
                } else {
                    *final(self) == *old(self) && if cmd == "QUIT"@ {
                        r.0 == Some(FtpReply::Goodbye) && r.1 is Quit
                    } else if cmd == "PASV"@ {
                        r.0 is None && r.1 is OpenPassive
                    } else if cmd == "PWD"@ {
                        r.0 is None && r.1 is PrintDir
                    } else if cmd == "CWD"@ {
                        r.0 is None && match arg {
                            None => r.1 is Continue,
                            Some(d) => action_with(r.1, 0, d),
                        }
                    } else if cmd == "PORT"@ {
                        match arg {
                            None => r.0 is None && r.1 is Continue,
                            Some(a) => match port_arg(encode_utf8(a)) {
                                PortArg::Valid(addr) => r.0 == Some(FtpReply::PortOk) && r.1
                                    == FtpAction::SetDataAddr(addr),
                                PortArg::Invalid => r.0 == Some(FtpReply::PortInvalid) && r.1 is Continue,
                                PortArg::Overflow => r.0 is None && r.1 is PortOverflow,
                            },
                        }
                    } else if cmd == "NLST"@ || cmd == "LIST"@ {
                        r.0 == Some(FtpReply::Opening) && r.1 is SendNames
                    } else if cmd == "MLSD"@ {
                        r.0 == Some(FtpReply::Opening) && r.1 is SendFacts
                    } else if cmd == "RETR"@ {
                        r.0 is None && match arg {
                            None => r.1 is Continue,
                            Some(f) => action_with(r.1, 1, f),
                        }
                    } else if cmd == "STOR"@ {
                        match arg {
                            None => r.0 is None && r.1 is Continue,
                            Some(f) => r.0 == Some(FtpReply::ReadyToReceive) && action_with(r.1, 2, f),
                        }
                    } else {
                        r.0 == Some(FtpReply::NotImplemented) && r.1 is Continue
                    }
                }
            }),
    {
        proof {
            reveal_strlit("USER");
            reveal_strlit("PASS");
            reveal_strlit("QUIT");
            reveal_strlit("PASV");
            reveal_strlit("PWD");
            reveal_strlit("CWD");
            reveal_strlit("PORT");
            reveal_strlit("NLST");
            reveal_strlit("LIST");
            reveal_strlit("MLSD");
            reveal_strlit("RETR");
            reveal_strlit("STOR");
        }
        let cs = to_chars(line);
        let parts = split_whitespace(cs.as_slice());
        let ghost w = words(line@);
        assert(char_views(parts@) == w);
        assert(parts@.len() == w.len());
        let cmd = if parts.len() == 0 {
            String::new()
        } else {
            let first = string_of(parts[0].as_slice(), 0, parts[0].len());
            assert(parts@[0]@ == char_views(parts@)[0]);
            assert(first@ =~= w[0]);
            to_uppercase(first.as_str())
        };
        assert(cmd@ == command_of(line@));
        assert(w.len() > 0 && crate::text::all_ascii(w[0]) ==> command_of(line@)
            == crate::text::ascii_upper_chars(w[0]));
        let arg: Option<String> = if parts.len() >= 2 {
            let a = string_of(parts[1].as_slice(), 0, parts[1].len());
            assert(parts@[1]@ == char_views(parts@)[1]);
            assert(a@ =~= w[1]);
            Some(a)
        } else {
            None
        };
        assert(arg matches Some(a) ==> argument_of(line@) == Some(a@));
        assert(arg is None ==> argument_of(line@) is None);
        if !self.logged_in && !is_cmd(&cmd, "USER") && !is_cmd(&cmd, "PASS") && !is_cmd(&cmd, "QUIT") {
            return (Some(FtpReply::LoginFirst), FtpAction::Continue);
        }
        if is_cmd(&cmd, "USER") {
            match arg {
                None => (Some(FtpReply::MissingUser), FtpAction::Continue),
                Some(user) => {
                    if user.as_str().as_bytes().len() >= 3 {
                        self.pending_user = Some(user);
                        (Some(FtpReply::UserOk), FtpAction::Continue)
                    } else {
                        (Some(FtpReply::InvalidUser), FtpAction::Continue)
                    }
                },
            }
        } else if is_cmd(&cmd, "PASS") {
            match arg {
                None => (Some(FtpReply::MissingPass), FtpAction::Continue),
                Some(pass) => {
                    if self.pending_user.is_some() && pass.as_str().as_bytes().len() >= 3 {
                        self.logged_in = true;
                        (Some(FtpReply::LoggedIn), FtpAction::Continue)
                    } else {
                        (Some(FtpReply::LoginIncorrect), FtpAction::Continue)
                    }
                },
            }
        } else if is_cmd(&cmd, "QUIT") {
            (Some(FtpReply::Goodbye), FtpAction::Quit)
        } else if is_cmd(&cmd, "PASV") {
            (None, FtpAction::OpenPassive)
        } else if is_cmd(&cmd, "PWD") {
            (None, FtpAction::PrintDir)
        } else if is_cmd(&cmd, "CWD") {
            match arg {
                None => (None, FtpAction::Continue),
                Some(d) => (None, FtpAction::ChangeDir(d)),
            }
        } else if is_cmd(&cmd, "PORT") {
            match arg {
                None => (None, FtpAction::Continue),
                Some(a) => match parse_port(a.as_str()) {
                    PortArg::Valid(addr) => (Some(FtpReply::PortOk), FtpAction::SetDataAddr(addr)),
                    PortArg::Invalid => (Some(FtpReply::PortInvalid), FtpAction::Continue),
                    PortArg::Overflow => (None, FtpAction::PortOverflow),
                },
            }
        } else if is_cmd(&cmd, "NLST") || is_cmd(&cmd, "LIST") {
            (Some(FtpReply::Opening), FtpAction::SendNames)
        } else if is_cmd(&cmd, "MLSD") {
            (Some(FtpReply::Opening), FtpAction::SendFacts)
        } else if is_cmd(&cmd, "RETR") {
            match arg {
                None => (None, FtpAction::Continue),
                Some(f) => (None, FtpAction::Retrieve(f)),
            }
        } else if is_cmd(&cmd, "STOR") {
            match arg {
                None => (None, FtpAction::Continue),
                Some(f) => (Some(FtpReply::ReadyToReceive), FtpAction::Store(f)),
            }
        } else {
            (Some(FtpReply::NotImplemented), FtpAction::Continue)
        }
    }
}

/// The modification time that chrono's UTC formatting "%Y%m%d%H%M%S" gives for `secs`
/// seconds and `nanos` nanoseconds after the Unix epoch; `None` where chrono has no date.
pub uninterp spec fn utc_compact_time(secs: i64, nanos: u32) -> Option<Seq<char>>;

/// `chrono::DateTime::<Utc>::from_timestamp` followed by `format("%Y%m%d%H%M%S")`.
/// The text is named `utc_compact_time`; nothing more of it is stated here.
#[verifier::external_body]
fn chrono_compact_time(secs: i64, nanos: u32) -> (r: Option<String>)
    ensures
        match r {
            Some(t) => utc_compact_time(secs, nanos) == Some(t@),
            None => utc_compact_time(secs, nanos) is None,
        },
{
    match chrono::DateTime::<chrono::Utc>::from_timestamp(secs, nanos) {
        Some(d) => Some(d.format("%Y%m%d%H%M%S").to_string()),
        None => None,
    }
}

/// The time text used when a file's modification time is unknown.
pub open spec fn epoch_text() -> Seq<char> {
    "19700101000000"@
}

/// One line of a machine-readable (MLSD) listing, without the line end:
/// files "type=file;size=S;modify=T; NAME", directories "type=dir;modify=T; NAME".
pub open spec fn facts_line(is_dir: bool, size: u64, modify: Seq<char>, name: Seq<char>) -> Seq<char> {
    if is_dir {
        "type=dir;modify="@ + modify + "; "@ + name
    } else {
        "type=file;size="@ + decimal_chars(size as nat) + ";modify="@ + modify + "; "@ + name
    }
}

/// The MLSD line for a directory entry. `modified` is the modification time as seconds and
/// nanoseconds after the Unix epoch, if the file system reports one. `None` when that time
/// has no calendar date, where the server's time conversion panics.
pub fn mlsd_facts(is_dir: bool, size: u64, modified: Option<(i64, u32)>, name: &str) -> (r: Option<String>)
    ensures
        match modified {
            None => r matches Some(line) && line@ == facts_line(is_dir, size, epoch_text(), name@),
            Some((secs, nanos)) => match utc_compact_time(secs, nanos) {
                None => r is None,
                Some(t) => r matches Some(line) && line@ == facts_line(is_dir, size, t, name@),
            },
        },
{
    match modified {
        None => Some(facts_line_of(is_dir, size, None, name)),
        Some((secs, nanos)) => match chrono_compact_time(secs, nanos) {
            None => None,
            Some(t) => Some(facts_line_of(is_dir, size, Some(t.as_str()), name)),
        },
    }
}

/// The MLSD line for a directory entry whose modification time reads `modify`, or that
/// has no known modification time (`None`, shown as the epoch).
pub fn facts_line_of(is_dir: bool, size: u64, modify: Option<&str>, name: &str) -> (r: String)
    ensures
        r@ == facts_line(
            is_dir,
            size,
            match modify {
                None => epoch_text(),
                Some(t) => t@,
            },
            name@,
        ),
{
    let mut line;
    if is_dir {
        line = String::from_str("type=dir;modify=");
    } else {
        line = String::from_str("type=file;size=");
        push_decimal(&mut line, size);
        line.append(";modify=");
    }
    match modify {
        None => line.append("19700101000000"),
        Some(t) => line.append(t),
    }
    line.append("; ");
    line.append(name);
    line
}

} // verus!
