//! The mail client: reading an email from the user's answers, the SMTP dialogue of the
//! simple sender, and the MIME message it sends.
use vstd::prelude::*;
use vstd::utf8::encode_utf8;
use base64::Engine;
use crate::text::{trim, trimmed};

use crate::text::string_views;

verus! {

// ---------------------------------------------------------------------------
// The email
// ---------------------------------------------------------------------------
/// An email as the user entered it.
#[allow(non_snake_case)]
pub struct Email {
    pub from: String,
    pub to: String,
    pub subject: String,
    pub useHTML: bool,
    pub body: String,
    pub attachments: Vec<String>,
}

/// The answer on input line `k`, trimmed; an empty answer past the end of the input.
pub open spec fn answer(lines: Seq<Seq<char>>, k: int) -> Seq<char> {
    if 0 <= k < lines.len() {
        trimmed(lines[k])
    } else {
        Seq::empty()
    }
}

/// The lines from `k` up to the first empty answer, each followed by a newline.
pub open spec fn body_from(lines: Seq<Seq<char>>, k: int) -> Seq<char>
    decreases lines.len() - k,
{
    if k < 0 || k >= lines.len() || answer(lines, k).len() == 0 {
        Seq::empty()
    } else {
        answer(lines, k) + seq!['\n'] + body_from(lines, k + 1)
    }
}

/// The position of the first empty answer at or after `k`.
pub open spec fn blank_after(lines: Seq<Seq<char>>, k: int) -> int
    decreases lines.len() - k,
{
    if k < 0 || k >= lines.len() || answer(lines, k).len() == 0 {
        k
    } else {
        blank_after(lines, k + 1)
    }
}

/// The answers from `k` up to the first empty one.
pub open spec fn list_from(lines: Seq<Seq<char>>, k: int) -> Seq<Seq<char>>
    decreases lines.len() - k,
{
    if k < 0 || k >= lines.len() || answer(lines, k).len() == 0 {
        Seq::empty()
    } else {
        seq![answer(lines, k)] + list_from(lines, k + 1)
    }
}

/// The email that the answers give: sender, recipient, subject, "y" for HTML, the body
/// lines up to an empty one, then the attachment paths up to an empty one.
pub open spec fn email_from(lines: Seq<Seq<char>>) -> (Seq<char>, Seq<char>, Seq<char>, bool, Seq<char>, Seq<Seq<char>>) {
    (
        answer(lines, 0),
        answer(lines, 1),
        answer(lines, 2),
        answer(lines, 3) == seq!['y'],
        body_from(lines, 4),
        list_from(lines, blank_after(lines, 4) + 1),
    )
}

impl Email {
    /// The email as plain values.
    pub open spec fn view_email(&self) -> (Seq<char>, Seq<char>, Seq<char>, bool, Seq<char>, Seq<Seq<char>>) {
        (self.from@, self.to@, self.subject@, self.useHTML, self.body@, string_views(self.attachments@))
    }
}

fn answer_at(lines: &Vec<String>, k: usize) -> (r: String)
    ensures
        r@ == answer(string_views(lines@), k as int),
{
    if k < lines.len() {
        assert(string_views(lines@)[k as int] == lines@[k as int]@);
        trim(lines[k].as_str())
    } else {
        String::new()
    }
}

/// Reads an email from the user's answers, one per input line.
pub fn read_email(lines: &Vec<String>) -> (r: Email)
    ensures
        r.view_email() == email_from(string_views(lines@)),
{
    let ghost ls = string_views(lines@);
    let from = answer_at(lines, 0);
    let to = answer_at(lines, 1);
    let subject = answer_at(lines, 2);
    let html = answer_at(lines, 3);
    let mut y = String::new();
    crate::text::string_push(&mut y, 'y');
    assert(y@ =~= seq!['y']);
    let use_html = html == y;
    let mut body = String::new();
    let mut k: usize = 4;
    loop
        invariant
            ls == string_views(lines@),
            4 <= k <= lines@.len() + 4,
            body@ + body_from(ls, k as int) == body_from(ls, 4),
            blank_after(ls, k as int) == blank_after(ls, 4),
        ensures
            body@ == body_from(ls, 4),
            blank_after(ls, 4) == k,
        decreases lines@.len() + 4 - k,
    {
        let line = answer_at(lines, k);
        if line.as_str().is_empty() || k >= lines.len() {
            assert(body_from(ls, k as int) =~= Seq::<char>::empty());
            assert(body@ =~= body@ + body_from(ls, k as int));
            break;
        }
        let ghost before = body@;
        body.append(line.as_str());
        crate::text::string_push(&mut body, '\n');
        assert(body@ =~= before + (line@ + seq!['\n']));
        k = k + 1;
    }
    let mut attachments: Vec<String> = Vec::new();
    let mut j: usize = if k < lines.len() {
        k + 1
    } else {
        lines.len()
    };
    assert(list_from(ls, j as int) == list_from(ls, k + 1));
    loop
        invariant
            ls == string_views(lines@),
            j <= lines@.len(),
            string_views(attachments@) + list_from(ls, j as int) == list_from(ls, k + 1),
        ensures
            string_views(attachments@) == list_from(ls, k + 1),
        decreases lines@.len() - j,
    {
        if j >= lines.len() {
            assert(list_from(ls, j as int) =~= Seq::<Seq<char>>::empty());
            assert(string_views(attachments@) =~= string_views(attachments@) + list_from(ls, j as int));
            break;
        }
        let line = answer_at(lines, j);
        if line.as_str().is_empty() {
            assert(list_from(ls, j as int) =~= Seq::<Seq<char>>::empty());
            assert(string_views(attachments@) =~= string_views(attachments@) + list_from(ls, j as int));
            break;
        }
        let ghost before = string_views(attachments@);
        attachments.push(line);
        assert(string_views(attachments@) =~= before + seq![answer(ls, j as int)]);
        j = j + 1;
    }
    Email { from, to, subject, useHTML: use_html, body, attachments }
}

/// What the mail client asks for next while the user enters an email.
#[derive(PartialEq, Eq, Structural, Clone, Copy, Debug)]
pub enum EmailPrompt {
    /// One of the four header answers: sender, recipient, subject, HTML.
    Header(usize),
    /// A line of the body.
    BodyLine,
    /// An attachment path.
    Attachment,
    /// The email is complete.
    Done,
}

/// What comes next after the answers `lines`: the four header answers, then body lines up
/// to an empty one, then attachment paths up to an empty one.
pub open spec fn next_prompt_of(lines: Seq<Seq<char>>) -> EmailPrompt {
    if lines.len() < 4 {
        EmailPrompt::Header(lines.len() as usize)
    } else if blank_after(lines, 4) >= lines.len() {
        EmailPrompt::BodyLine
    } else if blank_after(lines, blank_after(lines, 4) + 1) >= lines.len() {
        EmailPrompt::Attachment
    } else {
        EmailPrompt::Done
    }
}

fn blank_after_exec(lines: &Vec<String>, start: usize) -> (r: usize)
    requires
        start <= lines@.len(),
    ensures
        r as int == blank_after(string_views(lines@), start as int),
        start <= r <= lines@.len(),
{
    let ghost ls = string_views(lines@);
    let mut k = start;
    while k < lines.len()
        invariant
            start <= k <= lines@.len(),
            ls == string_views(lines@),
            blank_after(ls, start as int) == blank_after(ls, k as int),
        decreases lines@.len() - k,
    {
        let line = answer_at(lines, k);
        if line.as_str().is_empty() {
            return k;
        }
        k = k + 1;
    }
    k
}

/// What the mail client asks for next, given the answers so far.
pub fn next_prompt(lines: &Vec<String>) -> (r: EmailPrompt)
    ensures
        r == next_prompt_of(string_views(lines@)),
{
    if lines.len() < 4 {
        return EmailPrompt::Header(lines.len());
    }
    let b = blank_after_exec(lines, 4);
    if b >= lines.len() {
        return EmailPrompt::BodyLine;
    }
    let c = blank_after_exec(lines, b + 1);
    if c >= lines.len() {
        EmailPrompt::Attachment
    } else {
        EmailPrompt::Done
    }
}

// ---------------------------------------------------------------------------
// The SMTP dialogue
// ---------------------------------------------------------------------------
/// The SMTP server the simple sender talks to.
pub struct SimpleSender {
    pub host: String,
    pub port: u16,
}

impl SimpleSender {
    /// The sender for the local test server, 127.0.0.1 port 1025.
    pub fn new() -> (r: SimpleSender)
        ensures
            r.host@ == "127.0.0.1"@,
            r.port == 1025,
    {
        SimpleSender { host: String::from_str("127.0.0.1"), port: 1025 }
    }
}

/// Whether an SMTP reply line reports success: it starts with '2' or '3'.
pub open spec fn reply_ok(line: Seq<char>) -> bool {
    line.len() > 0 && (line[0] == '2' || line[0] == '3')
}

/// Where the dialogue stands: which reply it waits for.
#[derive(PartialEq, Eq, Structural, Clone, Copy, Debug)]
pub enum SmtpStage {
    /// The server's greeting.
    Greeting,
    /// The answer to HELO.
    Helo,
    /// The answer to MAIL FROM.
    MailFrom,
    /// The answer to RCPT TO.
    RcptTo,
    /// The answer to DATA.
    Data,
    /// The answer to the message.
    Message,
    /// QUIT was sent; nothing more is read.
    Done,
}

/// What the sender does after a reply.
pub enum SmtpAction {
    /// Write these bytes and read the next reply.
    Command(Vec<u8>),
    /// Write the MIME message and read the next reply.
    SendMessage,
    /// Write these bytes (QUIT) and stop.
    Finish(Vec<u8>),
}

/// Why the dialogue stopped.
pub enum SmtpError {
    /// The server answered with something other than 2xx or 3xx; the line it sent.
    Rejected(String),
    /// A reply arrived after the dialogue had ended.
    Finished,
}

/// The bytes of the command that follows a good reply in `stage`, for the given sender and
/// recipient; `None` where the message itself goes next.
pub open spec fn next_command(stage: SmtpStage, from: Seq<char>, to: Seq<char>) -> Option<Seq<u8>> {
    match stage {
        SmtpStage::Greeting => Some(encode_utf8("HELO localhost\r\n"@)),
        SmtpStage::Helo => Some(encode_utf8("MAIL FROM:<"@ + from + ">\r\n"@)),
        SmtpStage::MailFrom => Some(encode_utf8("RCPT TO:<"@ + to + ">\r\n"@)),
        SmtpStage::RcptTo => Some(encode_utf8("DATA\r\n"@)),
        SmtpStage::Message => Some(encode_utf8("QUIT\r\n"@)),
        _ => None,
    }
}

/// The stage after a good reply in `stage`.
pub open spec fn next_stage(stage: SmtpStage) -> SmtpStage {
    match stage {
        SmtpStage::Greeting => SmtpStage::Helo,
        SmtpStage::Helo => SmtpStage::MailFrom,
        SmtpStage::MailFrom => SmtpStage::RcptTo,
        SmtpStage::RcptTo => SmtpStage::Data,
        SmtpStage::Data => SmtpStage::Message,
        _ => SmtpStage::Done,
    }
}

/// A session whose every reply succeeds sends, in order, HELO, MAIL FROM with the sender,
/// RCPT TO with the recipient, DATA, the message, and QUIT, and then reads nothing more.
pub proof fn lemma_dialogue_order(from: Seq<char>, to: Seq<char>)
    ensures
        next_stage(SmtpStage::Greeting) == SmtpStage::Helo,
        next_command(SmtpStage::Greeting, from, to) == Some(encode_utf8("HELO localhost\r\n"@)),
        next_stage(SmtpStage::Helo) == SmtpStage::MailFrom,
        next_command(SmtpStage::Helo, from, to) == Some(encode_utf8("MAIL FROM:<"@ + from + ">\r\n"@)),
        next_stage(SmtpStage::MailFrom) == SmtpStage::RcptTo,
        next_command(SmtpStage::MailFrom, from, to) == Some(encode_utf8("RCPT TO:<"@ + to + ">\r\n"@)),
        next_stage(SmtpStage::RcptTo) == SmtpStage::Data,
        next_command(SmtpStage::RcptTo, from, to) == Some(encode_utf8("DATA\r\n"@)),
        next_stage(SmtpStage::Data) == SmtpStage::Message,
        next_command(SmtpStage::Data, from, to) is None,
        next_stage(SmtpStage::Message) == SmtpStage::Done,
        next_command(SmtpStage::Message, from, to) == Some(encode_utf8("QUIT\r\n"@)),
{
}

/// The simple sender's side of one SMTP session.
pub struct SmtpDialogue {
    pub stage: SmtpStage,
    pub from: String,
    pub to: String,
}

fn string_bytes(s: String) -> (r: Vec<u8>)
    ensures
        r@ == encode_utf8(s@),
{
    let b = s.as_str().as_bytes();
    let r = crate::text::copy_range(b, 0, b.len());
    assert(b@.subrange(0, b@.len() as int) =~= b@);
    r
}

impl SmtpDialogue {
    /// A session for mail from `from` to `to`, waiting for the greeting.
    pub fn new(from: String, to: String) -> (r: SmtpDialogue)
        ensures
            r.stage == SmtpStage::Greeting,
            r.from@ == from@,
            r.to@ == to@,
    {
        SmtpDialogue { stage: SmtpStage::Greeting, from, to }
    }

    /// Takes the server's reply line and says what to send next. A reply that is not 2xx
    /// or 3xx ends the session with that line.
    pub fn on_reply(&mut self, line: &str) -> (r: Result<SmtpAction, SmtpError>)
        ensures
            final(self).from@ == old(self).from@,
            final(self).to@ == old(self).to@,
            old(self).stage == SmtpStage::Done ==> r is Err && final(self).stage == SmtpStage::Done,
            old(self).stage != SmtpStage::Done ==> match r {
                Err(SmtpError::Rejected(l)) => !reply_ok(line@) && l@ == line@ && final(self).stage
                    == old(self).stage,
                Err(SmtpError::Finished) => false,
                Ok(a) => reply_ok(line@) && final(self).stage == next_stage(old(self).stage) && match a {
                    SmtpAction::Command(c) => old(self).stage != SmtpStage::Message && Some(c@)
                        == next_command(old(self).stage, old(self).from@, old(self).to@),
                    SmtpAction::SendMessage => old(self).stage == SmtpStage::Data,
                    SmtpAction::Finish(c) => old(self).stage == SmtpStage::Message && Some(c@)
                        == next_command(old(self).stage, old(self).from@, old(self).to@),
                },
            },
            old(self).stage != SmtpStage::Done ==> (r is Ok <==> reply_ok(line@)),
    {
        if self.stage == SmtpStage::Done {
            return Err(SmtpError::Finished);
        }
        let cs = crate::text::to_chars(line);
        let ok = cs.len() > 0 && (cs[0] == '2' || cs[0] == '3');
        if !ok {
            return Err(SmtpError::Rejected(String::from_str(line)));
        }
        match self.stage {
            SmtpStage::Greeting => {
                self.stage = SmtpStage::Helo;
                Ok(SmtpAction::Command(string_bytes(String::from_str("HELO localhost\r\n"))))
            },
            SmtpStage::Helo => {
                self.stage = SmtpStage::MailFrom;
                let mut c = String::from_str("MAIL FROM:<");
                c.append(self.from.as_str());
                c.append(">\r\n");
                Ok(SmtpAction::Command(string_bytes(c)))
            },
            SmtpStage::MailFrom => {
                self.stage = SmtpStage::RcptTo;
                let mut c = String::from_str("RCPT TO:<");
                c.append(self.to.as_str());
                c.append(">\r\n");
                Ok(SmtpAction::Command(string_bytes(c)))
            },
            SmtpStage::RcptTo => {
                self.stage = SmtpStage::Data;
                Ok(SmtpAction::Command(string_bytes(String::from_str("DATA\r\n"))))
            },
            SmtpStage::Data => {
                self.stage = SmtpStage::Message;
                Ok(SmtpAction::SendMessage)
            },
            _ => {
                self.stage = SmtpStage::Done;
                Ok(SmtpAction::Finish(string_bytes(String::from_str("QUIT\r\n"))))
            },
        }
    }
}

// ---------------------------------------------------------------------------
// The MIME message
// ---------------------------------------------------------------------------
/// The boundary between the parts of the message.
pub const BOUNDARY: &'static str = "TotallyUnsuspiciousPattern239";

/// The character of the standard base64 alphabet for the 6-bit value `v`.
pub open spec fn b64_char(v: nat) -> char {
    if v < 26 {
        (65 + v) as char
    } else if v < 52 {
        (97 + v - 26) as char
    } else if v < 62 {
        (48 + v - 52) as char
    } else if v == 62 {
        '+'
    } else {
        '/'
    }
}

/// Standard base64 with padding (RFC 4648): every three bytes become four characters; a
/// final one or two bytes become two or three characters and '=' padding.
pub open spec fn base64_standard(s: Seq<u8>) -> Seq<char>
    decreases s.len(),
{
    if s.len() == 0 {
        Seq::empty()
    } else if s.len() == 1 {
        seq![b64_char(s[0] as nat / 4), b64_char((s[0] as nat % 4) * 16), '=', '=']
    } else if s.len() == 2 {
        seq![
            b64_char(s[0] as nat / 4),
            b64_char((s[0] as nat % 4) * 16 + s[1] as nat / 16),
            b64_char((s[1] as nat % 16) * 4),
            '=',
        ]
    } else {
        seq![
            b64_char(s[0] as nat / 4),
            b64_char((s[0] as nat % 4) * 16 + s[1] as nat / 16),
            b64_char((s[1] as nat % 16) * 4 + s[2] as nat / 64),
            b64_char(s[2] as nat % 64),
        ] + base64_standard(s.subrange(3, s.len() as int))
    }
}

/// base64's `STANDARD` engine: `Engine::encode` writes the padded RFC 4648 encoding of
/// `bytes` with the standard alphabet. Inputs too large for the output length to fit a
/// `usize` make it panic, and are left out.
#[verifier::external_body]
fn base64_encode(bytes: &[u8]) -> (r: String)
    requires
        bytes@.len() <= usize::MAX / 2,
    ensures
        r@ == base64_standard(bytes@),
{
    base64::engine::general_purpose::STANDARD.encode(bytes)
}

/// The final component of a path, as `Path::file_name` finds it (`None` for a path
/// that ends in "..", or is empty or a root).
pub uninterp spec fn file_name_of(path: Seq<char>) -> Option<Seq<char>>;

/// `std::path::Path::file_name`, its result turned into a `String`. What it returns is
/// named `file_name_of`; which paths have no final component is left unsaid.
#[verifier::external_body]
fn path_file_name(path: &str) -> (r: Option<String>)
    ensures
        match file_name_of(path@) {
            Some(n) => r matches Some(s) && s@ == n,
            None => r is None,
        },
{
    std::path::Path::new(path).file_name().map(|n| n.to_string_lossy().into_owned())
}

/// The name an attachment at `path` is sent under.
pub fn attachment_name(path: &str) -> (r: Option<String>)
    ensures
        match file_name_of(path@) {
            Some(n) => r matches Some(s) && s@ == n,
            None => r is None,
        },
{
    path_file_name(path)
}

/// The head of the message and the body part.
pub open spec fn message_head(from: Seq<char>, to: Seq<char>, subject: Seq<char>, html: bool, body: Seq<char>) -> Seq<char> {
    "From: "@ + from + "\r\nTo: "@ + to + "\r\nSubject: "@ + subject
        + "\r\nMIME-Version: 1.0\r\nContent-Type: multipart/mixed; boundary=\""@ + BOUNDARY@
        + "\"\r\n\r\n--"@ + BOUNDARY@ + "\r\nContent-Type: text/"@ + (if html {
        "html"@
    } else {
        "text"@
    }) + "; charset=utf-8\r\n\r\n"@ + body + "\r\n"@
}

/// The part that carries one attachment.
pub open spec fn attachment_part(name: Seq<char>, bytes: Seq<u8>) -> Seq<char> {
    "\r\n--"@ + BOUNDARY@ + "\r\nContent-Type: application/octet-stream\r\nContent-Disposition: attachment; filename=\""@
        + name + "\"\r\nContent-Transfer-Encoding: base64\r\n\r\n"@ + base64_standard(bytes) + "\r\n"@
}

/// The attachment parts, in order.
pub open spec fn attachment_parts(files: Seq<(Seq<char>, Seq<u8>)>) -> Seq<char>
    decreases files.len(),
{
    if files.len() == 0 {
        Seq::empty()
    } else {
        attachment_parts(files.drop_last()) + attachment_part(files.last().0, files.last().1)
    }
}

/// The whole message as the simple sender writes it after DATA, ending with the closing
/// boundary and the lone dot.
pub open spec fn mime_text(from: Seq<char>, to: Seq<char>, subject: Seq<char>, html: bool, body: Seq<char>, files: Seq<(Seq<char>, Seq<u8>)>) -> Seq<char> {
    message_head(from, to, subject, html, body) + attachment_parts(files) + "--"@ + BOUNDARY@ + "--\r\n.\r\n"@
}

/// The attachments as plain values.
pub open spec fn files_view(files: Seq<(String, Vec<u8>)>) -> Seq<(Seq<char>, Seq<u8>)> {
    Seq::new(files.len(), |i: int| (files[i].0@, files[i].1@))
}

/// Builds the MIME message for `email` with its attachments, each given as the name it is
/// sent under and its contents.
pub fn mime_message(email: &Email, files: &Vec<(String, Vec<u8>)>) -> (r: String)
    requires
        forall|i: int| 0 <= i < files@.len() ==> files@[i].1@.len() <= usize::MAX / 2,
    ensures
        r@ == mime_text(email.from@, email.to@, email.subject@, email.useHTML, email.body@, files_view(files@)),
{
    let mut m = String::from_str("From: ");
    m.append(email.from.as_str());
    m.append("\r\nTo: ");
    m.append(email.to.as_str());
    m.append("\r\nSubject: ");
    m.append(email.subject.as_str());
    m.append("\r\nMIME-Version: 1.0\r\nContent-Type: multipart/mixed; boundary=\"");
    m.append(BOUNDARY);
    m.append("\"\r\n\r\n--");
    m.append(BOUNDARY);
    m.append("\r\nContent-Type: text/");
    if email.useHTML {
        m.append("html");
    } else {
        m.append("text");
    }
    m.append("; charset=utf-8\r\n\r\n");
    m.append(email.body.as_str());
    m.append("\r\n");
    let ghost head = m@;
    assert(head =~= message_head(email.from@, email.to@, email.subject@, email.useHTML, email.body@));
    let ghost fv = files_view(files@);
    let mut i: usize = 0;
    while i < files.len()
        invariant
            0 <= i <= files@.len(),
            fv == files_view(files@),
            forall|k: int| 0 <= k < files@.len() ==> files@[k].1@.len() <= usize::MAX / 2,
            m@ == head + attachment_parts(fv.subrange(0, i as int)),
        decreases files@.len() - i,
    {
        let ghost before = m@;
        let encoded = base64_encode(files[i].1.as_slice());
        m.append("\r\n--");
        m.append(BOUNDARY);
        m.append("\r\nContent-Type: application/octet-stream\r\nContent-Disposition: attachment; filename=\"");
        m.append(files[i].0.as_str());
        m.append("\"\r\nContent-Transfer-Encoding: base64\r\n\r\n");
        m.append(encoded.as_str());
        m.append("\r\n");
        let ghost cur = fv.subrange(0, i + 1);
        assert(cur.drop_last() =~= fv.subrange(0, i as int));
        assert(cur.last() == (files@[i as int].0@, files@[i as int].1@));
        assert(m@ =~= before + attachment_part(files@[i as int].0@, files@[i as int].1@));
        i = i + 1;
    }
    assert(fv.subrange(0, fv.len() as int) =~= fv);
    m.append("--");
    m.append(BOUNDARY);
    m.append("--\r\n.\r\n");
    m
}


// ---------------------------------------------------------------------------
// The message built with lettre
// ---------------------------------------------------------------------------
/// lettre's mailbox ("Name <user@domain>" or "user@domain").
#[verifier::external_type_specification]
#[verifier::external_body]
pub struct ExMailbox(lettre::message::Mailbox);

/// lettre's single MIME part.
#[verifier::external_type_specification]
#[verifier::external_body]
pub struct ExSinglePart(lettre::message::SinglePart);

/// lettre's multipart MIME body.
#[verifier::external_type_specification]
#[verifier::external_body]
pub struct ExMultiPart(lettre::message::MultiPart);

/// lettre's finished email message.
#[verifier::external_type_specification]
#[verifier::external_body]
pub struct ExMessage(lettre::Message);

/// lettre's error from building a message.
#[verifier::external_type_specification]
#[verifier::external_body]
pub struct ExLettreError(lettre::error::Error);

/// Whether lettre reads `s` as a mailbox (`Mailbox::from_str` succeeds).
pub uninterp spec fn mailbox_parses(s: Seq<char>) -> bool;

/// A mailbox as lettre parsed it, with the text it was read from.
pub struct ParsedMailbox {
    pub mailbox: lettre::message::Mailbox,
    pub text: Ghost<Seq<char>>,
}

/// One part of a message body as handed to lettre: the text body (HTML or plain), or an
/// attachment with its file name and contents.
pub enum MailPart {
    Text { html: bool, text: Seq<char> },
    File { name: Seq<char>, bytes: Seq<u8> },
}

/// A text part as handed to lettre.
pub struct TextPart {
    pub part: lettre::message::SinglePart,
    pub model: Ghost<MailPart>,
}

/// A multipart body as handed to lettre, with its parts in order.
pub struct MailBody {
    pub body: lettre::message::MultiPart,
    pub parts: Ghost<Seq<MailPart>>,
}

/// A message built by lettre, with the sender, recipient, subject and body parts it was
/// given. lettre adds the current date and a random boundary, which are not modelled.
pub struct MailMessage {
    pub message: lettre::Message,
    pub from: Ghost<Seq<char>>,
    pub to: Ghost<Seq<char>>,
    pub subject: Ghost<Seq<char>>,
    pub parts: Ghost<Seq<MailPart>>,
}

/// `<lettre::message::Mailbox as FromStr>::from_str`: succeeds exactly when `s` is a
/// mailbox, which is named `mailbox_parses`; the mailbox is kept with the text it came from.
#[verifier::external_body]
fn lettre_mailbox(s: &str) -> (r: Option<ParsedMailbox>)
    ensures
        r is Some <==> mailbox_parses(s@),
        r matches Some(m) ==> m.text@ == s@,
{
    match s.parse::<lettre::message::Mailbox>() {
        Ok(mailbox) => Some(ParsedMailbox { mailbox, text: Ghost(s@) }),
        Err(_) => None,
    }
}

/// `SinglePart::html`: the HTML body part holding `body`.
#[verifier::external_body]
fn lettre_html_part(body: &str) -> (r: TextPart)
    ensures
        r.model@ == (MailPart::Text { html: true, text: body@ }),
{
    TextPart {
        part: lettre::message::SinglePart::html(body.to_string()),
        model: Ghost(MailPart::Text { html: true, text: body@ }),
    }
}

/// `SinglePart::plain`: the plain-text body part holding `body`.
#[verifier::external_body]
fn lettre_plain_part(body: &str) -> (r: TextPart)
    ensures
        r.model@ == (MailPart::Text { html: false, text: body@ }),
{
    TextPart {
        part: lettre::message::SinglePart::plain(body.to_string()),
        model: Ghost(MailPart::Text { html: false, text: body@ }),
    }
}

/// `MultiPart::mixed().singlepart(part)`: a mixed multipart body whose only part is
/// `part`. Its boundary is random and not modelled.
#[verifier::external_body]
fn lettre_mixed(part: TextPart) -> (r: MailBody)
    ensures
        r.parts@ == seq![part.model@],
{
    MailBody {
        body: lettre::message::MultiPart::mixed().singlepart(part.part),
        parts: Ghost(seq![part.model@]),
    }
}

/// `MultiPart::singlepart` with `Attachment::new(name).body(bytes, ContentType::TEXT_PLAIN)`:
/// appends the file `name` holding `bytes` as the last part.
#[verifier::external_body]
fn lettre_attach(body: MailBody, name: &str, bytes: &[u8]) -> (r: MailBody)
    ensures
        r.parts@ == body.parts@.push(MailPart::File { name: name@, bytes: bytes@ }),
{
    let part = lettre::message::Attachment::new(name.to_string())
        .body(bytes.to_vec(), lettre::message::header::ContentType::TEXT_PLAIN);
    MailBody {
        body: body.body.singlepart(part),
        parts: Ghost(body.parts@.push(MailPart::File { name: name@, bytes: bytes@ })),
    }
}

/// `Message::builder().from(..).to(..).subject(..).multipart(..)`: builds the message.
/// With exactly one From and one To, lettre's build succeeds (it fails only without a
/// From, with several From and no Sender, or without a To); the message keeps what it
/// was given. The date and the boundary it adds are left unsaid.
#[verifier::external_body]
fn lettre_message(from: ParsedMailbox, to: ParsedMailbox, subject: &str, body: MailBody) -> (r: Result<MailMessage, lettre::error::Error>)
    ensures
        r is Ok,
        r matches Ok(m) ==> (m.from@ == from.text@ && m.to@ == to.text@ && m.subject@ == subject@ && m.parts@ == body.parts@),
{
    let built = lettre::Message::builder()
        .from(from.mailbox)
        .to(to.mailbox)
        .subject(subject.to_string())
        .multipart(body.body)?;
    Ok(MailMessage { message: built, from: Ghost(from.text@), to: Ghost(to.text@), subject: Ghost(subject@), parts: Ghost(body.parts@) })
}

/// The parts of a planned message: the body, then each attachment in order.
pub open spec fn planned_parts(html: bool, body: Seq<char>, files: Seq<(Seq<char>, Seq<u8>)>) -> Seq<MailPart> {
    seq![MailPart::Text { html, text: body }] + Seq::new(
        files.len(),
        |i: int| MailPart::File { name: files[i].0, bytes: files[i].1 },
    )
}

/// Why the message for an email cannot be built.
pub enum MailError {
    /// The attachment at this position has a path without a file name.
    NoFileName(usize),
    /// The sender is not a mailbox.
    BadFrom,
    /// The recipient is not a mailbox.
    BadTo,
    /// lettre refused to build the message.
    Build(lettre::error::Error),
}

/// The reason a message plan fails, as plain values.
pub enum PlanFault {
    NoFileName(int),
    BadFrom,
    BadTo,
}

/// The first attachment at or after `k` whose path has no file name.
pub open spec fn unnamed_from(files: Seq<(Seq<char>, Seq<u8>)>, k: int) -> Option<int>
    decreases files.len() - k,
{
    if k < 0 || k >= files.len() {
        None
    } else if file_name_of(files[k].0) is None {
        Some(k)
    } else {
        unnamed_from(files, k + 1)
    }
}

/// Why the message for an email with these attachments (path and contents) cannot be
/// built: first an attachment path without a file name, then a sender, then a recipient
/// that is not a mailbox.
pub open spec fn plan_fault(from: Seq<char>, to: Seq<char>, files: Seq<(Seq<char>, Seq<u8>)>) -> Option<PlanFault> {
    match unnamed_from(files, 0) {
        Some(i) => Some(PlanFault::NoFileName(i)),
        None => if !mailbox_parses(from) {
            Some(PlanFault::BadFrom)
        } else if !mailbox_parses(to) {
            Some(PlanFault::BadTo)
        } else {
            None
        },
    }
}

/// The attachments as they are sent: each under its path's file name, with its contents.
pub open spec fn planned_files(files: Seq<(Seq<char>, Seq<u8>)>) -> Seq<(Seq<char>, Seq<u8>)> {
    Seq::new(files.len(), |i: int| (file_name_of(files[i].0)->0, files[i].1))
}

/// What the message for an email holds: sender, recipient, subject, whether the body is
/// HTML, the body, and the attachments under their file names.
pub struct MessagePlan {
    pub from: String,
    pub to: String,
    pub subject: String,
    pub html: bool,
    pub body: String,
    pub attachments: Vec<(String, Vec<u8>)>,
}

/// Plans the message for `email`, whose attachments are given as their paths and contents.
pub fn message_plan(email: &Email, files: &Vec<(String, Vec<u8>)>) -> (r: Result<MessagePlan, MailError>)
    ensures
        match plan_fault(email.from@, email.to@, files_view(files@)) {
            Some(PlanFault::NoFileName(i)) => r matches Err(MailError::NoFileName(j)) && j == i,
            Some(PlanFault::BadFrom) => r matches Err(MailError::BadFrom),
            Some(PlanFault::BadTo) => r matches Err(MailError::BadTo),
            None => r matches Ok(p) && p.from@ == email.from@ && p.to@ == email.to@ && p.subject@
                == email.subject@ && p.html == email.useHTML && p.body@ == email.body@ && files_view(
                p.attachments@,
            ) == planned_files(files_view(files@)),
        },
{
    let ghost fv = files_view(files@);
    let mut attachments: Vec<(String, Vec<u8>)> = Vec::new();
    let mut i: usize = 0;
    while i < files.len()
        invariant
            0 <= i <= files@.len(),
            fv == files_view(files@),
            unnamed_from(fv, 0) == unnamed_from(fv, i as int),
            files_view(attachments@) == planned_files(fv).subrange(0, i as int),
        decreases files@.len() - i,
    {
        assert(fv[i as int] == (files@[i as int].0@, files@[i as int].1@));
        let name = match path_file_name(files[i].0.as_str()) {
            None => {
                return Err(MailError::NoFileName(i));
            },
            Some(n) => n,
        };
        let bytes = crate::text::copy_range(files[i].1.as_slice(), 0, files[i].1.len());
        assert(files@[i as int].1@.subrange(0, files@[i as int].1@.len() as int) =~= files@[i as int].1@);
        let ghost before = files_view(attachments@);
        assert(file_name_of(fv[i as int].0) == Some(name@));
        assert(planned_files(fv)[i as int] == (name@, bytes@));
        attachments.push((name, bytes));
        assert(files_view(attachments@) =~= before.push((name@, bytes@)));
        assert(files_view(attachments@) =~= planned_files(fv).subrange(0, i + 1));
        i = i + 1;
    }
    assert(planned_files(fv).subrange(0, fv.len() as int) =~= planned_files(fv));
    if lettre_mailbox(email.from.as_str()).is_none() {
        return Err(MailError::BadFrom);
    }
    if lettre_mailbox(email.to.as_str()).is_none() {
        return Err(MailError::BadTo);
    }
    Ok(
        MessagePlan {
            from: email.from.clone(),
            to: email.to.clone(),
            subject: email.subject.clone(),
            html: email.useHTML,
            body: email.body.clone(),
            attachments,
        },
    )
}

impl Email {
    /// Builds the lettre message for this email: From, To and Subject, the body as HTML
    /// or plain text, then each attachment (given as its path and contents) under its file
    /// name, in order. It is refused with the same reasons in the same order as
    /// `message_plan`, and built otherwise.
    pub fn build_message(&self, files: &Vec<(String, Vec<u8>)>) -> (r: Result<MailMessage, MailError>)
        ensures
            match plan_fault(self.from@, self.to@, files_view(files@)) {
                Some(PlanFault::NoFileName(i)) => r matches Err(MailError::NoFileName(j)) && j == i,
                Some(PlanFault::BadFrom) => r matches Err(MailError::BadFrom),
                Some(PlanFault::BadTo) => r matches Err(MailError::BadTo),
                None => r matches Ok(m) && m.from@ == self.from@ && m.to@ == self.to@ && m.subject@
                    == self.subject@ && m.parts@ == planned_parts(
                    self.useHTML,
                    self.body@,
                    planned_files(files_view(files@)),
                ),
            },
    {
        let plan = match message_plan(self, files) {
            Err(e) => {
                return Err(e);
            },
            Ok(p) => p,
        };
        let ghost pf = planned_files(files_view(files@));
        let from = match lettre_mailbox(plan.from.as_str()) {
            None => {
                return Err(MailError::BadFrom);
            },
            Some(m) => m,
        };
        let to = match lettre_mailbox(plan.to.as_str()) {
            None => {
                return Err(MailError::BadTo);
            },
            Some(m) => m,
        };
        let part = if plan.html {
            lettre_html_part(plan.body.as_str())
        } else {
            lettre_plain_part(plan.body.as_str())
        };
        let mut body = lettre_mixed(part);
        let mut i: usize = 0;
        while i < plan.attachments.len()
            invariant
                0 <= i <= plan.attachments@.len(),
                files_view(plan.attachments@) == pf,
                body.parts@ == planned_parts(plan.html, plan.body@, pf.subrange(0, i as int)),
            decreases plan.attachments@.len() - i,
        {
            let ghost before = body.parts@;
            assert(pf[i as int] == (plan.attachments@[i as int].0@, plan.attachments@[i as int].1@));
            body = lettre_attach(body, plan.attachments[i].0.as_str(), plan.attachments[i].1.as_slice());
            i = i + 1;
            assert(body.parts@ =~= planned_parts(plan.html, plan.body@, pf.subrange(0, i as int)));
        }
        assert(pf.subrange(0, pf.len() as int) =~= pf);
        match lettre_message(from, to, plan.subject.as_str(), body) {
            Ok(m) => Ok(m),
            Err(e) => Err(MailError::Build(e)),
        }
    }
}

} // verus!
