//! The alternating-bit (stop-and-wait) protocol that the lossy UDP socket speaks:
//! every data packet carries the current package number, every acknowledgement names
//! the number it acknowledges, and both sides flip the number after each exchange.
use vstd::prelude::*;
use vstd::utf8::{decode_utf8, valid_utf8};
use crate::text::{
    ascii, chars_equal, char_views, copy_range, extend_bytes, find, first_occurrence, lemma_ascii_utf8,
    lossy_chars, occurs_at, split_whitespace, to_chars, utf8_lossy, utf8_valid, words,
};

verus! {

/// The alternating package number.
#[derive(Clone, Copy, PartialEq, Eq, Structural, Debug)]
pub enum PackageNumber {
    Zero,
    One,
}

/// The other package number.
pub open spec fn flip(n: PackageNumber) -> PackageNumber {
    match n {
        PackageNumber::Zero => PackageNumber::One,
        PackageNumber::One => PackageNumber::Zero,
    }
}

/// The name of a package number as it travels in headers: "Zero" or "One".
pub open spec fn number_chars(n: PackageNumber) -> Seq<char> {
    match n {
        PackageNumber::Zero => seq!['Z', 'e', 'r', 'o'],
        PackageNumber::One => seq!['O', 'n', 'e'],
    }
}

/// The bytes of the name of a package number.
pub open spec fn number_bytes(n: PackageNumber) -> Seq<u8> {
    ascii(number_chars(n))
}

/// A data packet: the package number, a newline, and the payload.
pub open spec fn frame(n: PackageNumber, chunk: Seq<u8>) -> Seq<u8> {
    number_bytes(n) + seq![10u8] + chunk
}

/// The text of an acknowledgement: "ACK ", the package number, and a newline.
pub open spec fn ack_chars(n: PackageNumber) -> Seq<char> {
    seq!['A', 'C', 'K', ' '] + number_chars(n) + seq!['\n']
}

/// The bytes of an acknowledgement.
pub open spec fn ack_message(n: PackageNumber) -> Seq<u8> {
    ascii(ack_chars(n))
}

/// What the receiving side makes of a data packet.
pub enum DataVerdict {
    /// The packet holds no newline, so it has no header.
    NoHeader,
    /// The header is not UTF-8 text.
    HeaderNotUtf8,
    /// The expected package: its payload is delivered.
    Fresh { payload: Seq<u8> },
    /// A repeated package: it is acknowledged again and not delivered.
    Duplicate,
}

/// Position of the first newline of a packet.
pub open spec fn header_end(p: Seq<u8>) -> Option<int> {
    first_occurrence(p, seq![10u8])
}

/// The verdict of a receiver whose current number is `cur` on packet `p`.
pub open spec fn data_verdict(cur: PackageNumber, p: Seq<u8>) -> DataVerdict {
    match header_end(p) {
        None => DataVerdict::NoHeader,
        Some(pos) => {
            let header = p.subrange(0, pos);
            if !valid_utf8(header) {
                DataVerdict::HeaderNotUtf8
            } else if header == number_bytes(cur) {
                DataVerdict::Fresh { payload: p.subrange(pos + 1, p.len() as int) }
            } else {
                DataVerdict::Duplicate
            }
        },
    }
}

/// What the sending side makes of a message read while it waits for an acknowledgement.
#[derive(Clone, Copy, PartialEq, Eq, Structural, Debug)]
pub enum AckOutcome {
    /// The acknowledgement of the package just sent.
    Accepted,
    /// An acknowledgement of the other number: read the next one.
    Stale,
    /// Not an acknowledgement at all.
    Malformed,
}

/// The verdict of a sender whose current number is `cur` on the text `t` of a message.
pub open spec fn ack_verdict(cur: PackageNumber, t: Seq<char>) -> AckOutcome {
    let w = words(t);
    if w.len() != 2 || w[0] != seq!['A', 'C', 'K'] {
        AckOutcome::Malformed
    } else if w[1] != number_chars(cur) {
        AckOutcome::Stale
    } else {
        AckOutcome::Accepted
    }
}

/// Errors in reading a data packet.
#[derive(Clone, Copy, PartialEq, Eq, Structural, Debug)]
pub enum FrameError {
    /// "Invalid packet format": no newline ends a header.
    NoHeader,
    /// The header is not UTF-8.
    HeaderNotUtf8,
}

/// A data packet that was read.
pub enum Received {
    /// The expected package, with the acknowledgement to send back.
    Fresh { payload: Vec<u8>, ack: Vec<u8> },
    /// A repeated package, with the acknowledgement to send back.
    Duplicate { ack: Vec<u8> },
}

/// The stop-and-wait state that the lossy socket keeps: the current package number.
pub struct StopAndWait {
    pub current_package_number: PackageNumber,
}

/// The text of a package number, as `Display` writes it.
pub fn package_number_text(n: PackageNumber) -> (r: Vec<u8>)
    ensures
        r@ == number_bytes(n),
{
    let mut v: Vec<u8> = Vec::new();
    match n {
        PackageNumber::Zero => {
            v.push(90);
            v.push(101);
            v.push(114);
            v.push(111);
        },
        PackageNumber::One => {
            v.push(79);
            v.push(110);
            v.push(101);
        },
    }
    assert(v@ =~= number_bytes(n));
    v
}

fn package_number_chars(n: PackageNumber) -> (r: Vec<char>)
    ensures
        r@ == number_chars(n),
{
    let mut v: Vec<char> = Vec::new();
    match n {
        PackageNumber::Zero => {
            v.push('Z');
            v.push('e');
            v.push('r');
            v.push('o');
        },
        PackageNumber::One => {
            v.push('O');
            v.push('n');
            v.push('e');
        },
    }
    assert(v@ =~= number_chars(n));
    v
}

impl StopAndWait {
    /// A fresh endpoint: it starts at package number zero.
    pub fn new() -> (r: StopAndWait)
        ensures
            r.current_package_number == PackageNumber::Zero,
    {
        StopAndWait { current_package_number: PackageNumber::Zero }
    }

    /// Flips the current package number.
    pub fn swap_packege_number(&mut self)
        ensures
            final(self).current_package_number == flip(old(self).current_package_number),
    {
        self.current_package_number = match self.current_package_number {
            PackageNumber::Zero => PackageNumber::One,
            PackageNumber::One => PackageNumber::Zero,
        };
    }

    /// The data packet that carries `chunk` under the current number.
    pub fn frame_packet(&self, chunk: &[u8]) -> (r: Vec<u8>)
        ensures
            r@ == frame(self.current_package_number, chunk@),
    {
        let mut packet = package_number_text(self.current_package_number);
        packet.push(10);
        extend_bytes(&mut packet, chunk);
        packet
    }

    /// The acknowledgement of the current number; the number flips once it is made.
    pub fn ack_packet(&mut self) -> (r: Vec<u8>)
        ensures
            r@ == ack_message(old(self).current_package_number),
            final(self).current_package_number == flip(old(self).current_package_number),
    {
        let mut packet: Vec<u8> = Vec::new();
        packet.push(65);
        packet.push(67);
        packet.push(75);
        packet.push(32);
        let name = package_number_text(self.current_package_number);
        extend_bytes(&mut packet, name.as_slice());
        packet.push(10);
        assert(packet@ =~= ack_message(self.current_package_number));
        self.swap_packege_number();
        packet
    }

    /// Reads a data packet: the expected package is delivered and acknowledged, and the
    /// number flips; a repeated package is acknowledged again under the number it carries.
    pub fn on_data(&mut self, packet: &[u8]) -> (r: Result<Received, FrameError>)
        ensures
            match data_verdict(old(self).current_package_number, packet@) {
                DataVerdict::NoHeader => r == Err::<Received, FrameError>(FrameError::NoHeader)
                    && final(self).current_package_number == old(self).current_package_number,
                DataVerdict::HeaderNotUtf8 => r == Err::<Received, FrameError>(
                    FrameError::HeaderNotUtf8,
                ) && final(self).current_package_number == old(self).current_package_number,
                DataVerdict::Fresh { payload } => r matches Ok(Received::Fresh { payload: p, ack })
                    && p@ == payload && ack@ == ack_message(old(self).current_package_number)
                    && final(self).current_package_number == flip(
                    old(self).current_package_number,
                ),
                DataVerdict::Duplicate => r matches Ok(Received::Duplicate { ack }) && ack@
                    == ack_message(flip(old(self).current_package_number))
                    && final(self).current_package_number == old(self).current_package_number,
            },
    {
        let nl = vec![10u8];
        assert(nl@ =~= seq![10u8]);
        let pos = match find(packet, nl.as_slice()) {
            None => {
                return Err(FrameError::NoHeader);
            },
            Some(p) => p,
        };
        assert(occurs_at(packet@, seq![10u8], pos as int));
        let header = copy_range(packet, 0, pos);
        if !utf8_valid(header.as_slice()) {
            return Err(FrameError::HeaderNotUtf8);
        }
        let expected = package_number_text(self.current_package_number);
        if crate::text::bytes_equal(header.as_slice(), expected.as_slice()) {
            let ack = self.ack_packet();
            let payload = copy_range(packet, pos + 1, packet.len());
            Ok(Received::Fresh { payload, ack })
        } else {
            self.swap_packege_number();
            let ack = self.ack_packet();
            Ok(Received::Duplicate { ack })
        }
    }

    /// Reads a message while waiting for an acknowledgement. The acknowledgement of the
    /// current number is accepted and flips the number; one of the other number is stale;
    /// anything else is malformed. The message is read as text as `from_utf8_lossy` makes it.
    pub fn on_ack(&mut self, msg: &[u8]) -> (r: AckOutcome)
        ensures
            r == ack_verdict(old(self).current_package_number, lossy_chars(msg@)),
            final(self).current_package_number == if r == AckOutcome::Accepted {
                flip(old(self).current_package_number)
            } else {
                old(self).current_package_number
            },
    {
        let text = utf8_lossy(msg);
        let cs = to_chars(text.as_str());
        let parts = split_whitespace(cs.as_slice());
        let ghost w = words(cs@);
        if parts.len() != 2 {
            return AckOutcome::Malformed;
        }
        let mut ack_word: Vec<char> = Vec::new();
        ack_word.push('A');
        ack_word.push('C');
        ack_word.push('K');
        assert(ack_word@ =~= seq!['A', 'C', 'K']);
        assert(parts@[0]@ == w[0]);
        if !chars_equal(parts[0].as_slice(), ack_word.as_slice()) {
            return AckOutcome::Malformed;
        }
        let expected = package_number_chars(self.current_package_number);
        assert(parts@[1]@ == w[1]);
        if !chars_equal(parts[1].as_slice(), expected.as_slice()) {
            return AckOutcome::Stale;
        }
        self.swap_packege_number();
        AckOutcome::Accepted
    }
}

proof fn lemma_number_ascii(n: PackageNumber)
    ensures
        crate::text::all_ascii(number_chars(n)),
        crate::text::all_ascii(ack_chars(n)),
        forall|i: int| 0 <= i < number_bytes(n).len() ==> number_bytes(n)[i] != 10,
        forall|i: int| 0 <= i < number_chars(n).len() ==> !crate::text::is_whitespace(number_chars(n)[i]),
{
    let a = ack_chars(n);
    assert(vstd::utf8::is_ascii_chars(a));
}

proof fn lemma_frame_header(n: PackageNumber, chunk: Seq<u8>)
    ensures
        header_end(frame(n, chunk)) == Some(number_bytes(n).len() as int),
        frame(n, chunk).subrange(0, number_bytes(n).len() as int) == number_bytes(n),
        frame(n, chunk).subrange(number_bytes(n).len() as int + 1, frame(n, chunk).len() as int) == chunk,
{
    let f = frame(n, chunk);
    let k = number_bytes(n).len() as int;
    lemma_number_ascii(n);
    assert(f.subrange(k, k + 1) =~= seq![10u8]);
    assert(occurs_at(f, seq![10u8], k));
    assert forall|j: int| 0 <= j < k implies !occurs_at(f, seq![10u8], j) by {
        assert(f.subrange(j, j + 1)[0] == f[j]);
    }
    let w = choose|i: int| occurs_at(f, seq![10u8], i) && forall|j: int| 0 <= j < i ==> !occurs_at(f, seq![10u8], j);
    assert(occurs_at(f, seq![10u8], w) && forall|j: int| 0 <= j < w ==> !occurs_at(f, seq![10u8], j));
    if w < k {
    } else if w > k {
    }
    assert(f.subrange(0, k) =~= number_bytes(n));
    assert(f.subrange(k + 1, f.len() as int) =~= chunk);
}

proof fn lemma_ack_words(n: PackageNumber)
    ensures
        words(ack_chars(n)) == seq![seq!['A', 'C', 'K'], number_chars(n)],
{
    let a = ack_chars(n);
    let s1 = a.subrange(0, 1);
    let s2 = a.subrange(0, 2);
    let s3 = a.subrange(0, 3);
    let s4 = a.subrange(0, 4);
    let s5 = a.subrange(0, 5);
    let s6 = a.subrange(0, 6);
    let s7 = a.subrange(0, 7);
    let s8 = a.subrange(0, 8);
    assert(s1.drop_last() =~= Seq::<char>::empty());
    assert(words(Seq::<char>::empty()) == Seq::<Seq<char>>::empty());
    assert(s1.last() == 'A');
    assert(!crate::text::is_whitespace('A'));
    assert(words(s1) =~= seq![seq!['A']]);
    assert(s2.drop_last() =~= s1);
    assert(s2.last() == 'C' && s2[0] == 'A');
    assert(seq!['A'].push('C') =~= seq!['A', 'C']);
    assert(words(s2) =~= seq![seq!['A', 'C']]);
    let nn = number_chars(n);
    lemma_number_ascii(n);
    assert(s3.drop_last() =~= s2);
    assert(s3.last() == 'K' && s3[1] == 'C');
    assert(seq!['A', 'C'].push('K') =~= seq!['A', 'C', 'K']);
    assert(words(s3) =~= seq![seq!['A', 'C', 'K']]);
    assert(s4.drop_last() =~= s3);
    assert(s4.last() == ' ');
    assert(crate::text::is_whitespace(' '));
    assert(words(s4) =~= seq![seq!['A', 'C', 'K']]);
    assert(s5.drop_last() =~= s4);
    assert(s5.last() == nn[0] && s5[3] == ' ');
    assert(!crate::text::is_whitespace(nn[0]));
    assert(nn.subrange(0, 1) =~= seq![nn[0]]);
    assert(words(s5) =~= seq![seq!['A', 'C', 'K'], nn.subrange(0, 1)]);
    assert(s6.drop_last() =~= s5);
    assert(s6.last() == nn[1] && s6[4] == nn[0]);
    assert(!crate::text::is_whitespace(nn[1]));
    assert(nn.subrange(0, 1).push(nn[1]) =~= nn.subrange(0, 2));
    assert(words(s6) =~= seq![seq!['A', 'C', 'K'], nn.subrange(0, 2)]);
    assert(s7.drop_last() =~= s6);
    assert(s7.last() == nn[2] && s7[5] == nn[1]);
    assert(!crate::text::is_whitespace(nn[2]));
    assert(nn.subrange(0, 2).push(nn[2]) =~= nn.subrange(0, 3));
    assert(words(s7) =~= seq![seq!['A', 'C', 'K'], nn.subrange(0, 3)]);
    match n {
        PackageNumber::Zero => {
            assert(s8.drop_last() =~= s7);
            assert(s8.last() == nn[3] && s8[6] == nn[2]);
            assert(!crate::text::is_whitespace(nn[3]));
            assert(nn.subrange(0, 3).push(nn[3]) =~= nn);
            assert(words(s8) =~= seq![seq!['A', 'C', 'K'], nn]);
            assert(a.drop_last() =~= s8);
            assert(a.last() == '\n');
            assert(crate::text::is_whitespace('\n'));
            assert(words(a) =~= seq![seq!['A', 'C', 'K'], nn]);
        },
        PackageNumber::One => {
            assert(s7 =~= a.drop_last());
            assert(nn.subrange(0, 3) =~= nn);
            assert(a.last() == '\n');
            assert(crate::text::is_whitespace('\n'));
            assert(words(a) =~= seq![seq!['A', 'C', 'K'], nn]);
        },
    }
}

proof fn lemma_frame_verdicts(n: PackageNumber, chunk: Seq<u8>)
    ensures
        data_verdict(n, frame(n, chunk)) == (DataVerdict::Fresh { payload: chunk }),
        data_verdict(flip(n), frame(n, chunk)) == DataVerdict::Duplicate,
{
    lemma_frame_header(n, chunk);
    let f = frame(n, chunk);
    let h = number_bytes(n);
    let k = h.len() as int;
    assert(valid_utf8(h)) by {
        lemma_number_ascii(n);
        lemma_ascii_utf8(number_chars(n));
    }
    assert(h != number_bytes(flip(n))) by {
        assert(h.len() != number_bytes(flip(n)).len() || h[0] != number_bytes(flip(n))[0]);
    }
    assert(f.subrange(0, k) == h);
    assert(f.subrange(k + 1, f.len() as int) == chunk);
}

proof fn lemma_ack_verdicts(n: PackageNumber)
    ensures
        valid_utf8(ack_message(n)),
        decode_utf8(ack_message(n)) == ack_chars(n),
        ack_verdict(n, ack_chars(n)) == AckOutcome::Accepted,
        ack_verdict(flip(n), ack_chars(n)) == AckOutcome::Stale,
{
    lemma_number_ascii(n);
    lemma_ascii_utf8(ack_chars(n));
    lemma_ack_words(n);
    assert(number_chars(n) != number_chars(flip(n))) by {
        assert(number_chars(n).len() != number_chars(flip(n)).len() || number_chars(n)[0]
            != number_chars(flip(n))[0]);
    }
}

/// One exchange of the alternating-bit protocol keeps both sides in step. A receiver at
/// the sender's number delivers the payload unchanged, answers with the acknowledgement of
/// that number, which the sender accepts, and both flip. If the packet arrives again
/// after the receiver flipped, it is not delivered again but acknowledged with the same
/// message; a sender that already moved on reads that acknowledgement as stale.
pub proof fn lemma_exchange_in_step(n: PackageNumber, chunk: Seq<u8>)
    ensures
        data_verdict(n, frame(n, chunk)) == (DataVerdict::Fresh { payload: chunk }),
        data_verdict(flip(n), frame(n, chunk)) == DataVerdict::Duplicate,
        ack_message(flip(flip(n))) == ack_message(n),
        valid_utf8(ack_message(n)),
        decode_utf8(ack_message(n)) == ack_chars(n),
        ack_verdict(n, ack_chars(n)) == AckOutcome::Accepted,
        ack_verdict(flip(n), ack_chars(n)) == AckOutcome::Stale,
{
    lemma_frame_verdicts(n, chunk);
    lemma_ack_verdicts(n);
}

} // verus!
