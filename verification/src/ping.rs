//! The ping and traceroute tools: the Internet checksum, echo request
//! packets, and the reading of replies.
use vstd::prelude::*;
use crate::checksum::{
    checksum_of, fold_total, lemma_fold_step, lemma_fold_total_small, lemma_ones_sum_is_fold,
    lemma_word_total_bound, num_words, ones_sum, word_at, word_total, word_total_prefix,
};
use crate::checksum::lemma_word_total_change;
use crate::text::{decimal_chars_u8, decimal_string_u8, string_views};

verus! {

/// ICMP type of an echo request.
pub const ECHO_REQUEST_TYPE: u8 = 8;

/// ICMP type of an echo reply.
pub const ECHO_REPLY_TYPE: u8 = 0;

/// ICMP type of "destination unreachable".
pub const DEST_UNREACHABLE_TYPE: u8 = 3;

/// ICMP type of "time exceeded".
pub const TIME_EXCEEDED_TYPE: u8 = 11;

/// Size of the echo request packets that the traceroute tool sends.
pub const PACKET_SIZE: usize = 64;

/// The largest packet whose word sum fits a 32-bit accumulator.
pub const MAX_CHECKSUM_LEN: usize = 131074;

/// The Internet checksum of `packet` (RFC 1071): all words are summed in 32 bits, the
/// carries are folded back in, and the result is complemented. It is the same value as
/// the stop-and-wait checksum.
pub fn checksum(packet: &[u8]) -> (r: u16)
    requires
        packet@.len() <= MAX_CHECKSUM_LEN,
    ensures
        r == checksum_of(packet@),
{
    let n = packet.len();
    proof {
        lemma_word_total_bound(packet@);
    }
    let mut sum: u32 = 0;
    let mut i: usize = 0;
    while i + 1 < n
        invariant
            n == packet@.len(),
            n <= MAX_CHECKSUM_LEN,
            i % 2 == 0,
            i <= n,
            sum as nat == word_total_prefix(packet@, (i / 2) as nat),
            word_total(packet@) <= 0xFFFF * num_words(packet@),
        decreases n - i,
    {
        let value = (packet[i] as u32) * 256 + (packet[i + 1] as u32);
        proof {
            assert(word_at(packet@, (i / 2) as int) == value as nat);
            assert(((i + 2) / 2) as nat - 1 == (i / 2) as nat);
            lemma_word_total_prefix_le(packet@, ((i + 2) / 2) as nat);
        }
        sum = sum + value;
        i = i + 2;
    }
    if i < n {
        let value = (packet[i] as u32) * 256;
        proof {
            assert(word_at(packet@, (i / 2) as int) == value as nat);
            assert(num_words(packet@) == (i / 2) as nat + 1);
            lemma_word_total_prefix_le(packet@, (i / 2) as nat + 1);
        }
        sum = sum + value;
    } else {
        assert(num_words(packet@) == (i / 2) as nat);
    }
    let ghost total = sum as nat;
    assert(total == word_total(packet@));
    while (sum >> 16) != 0
        invariant
            fold_total(sum as nat) == fold_total(total),
        decreases sum,
    {
        assert((sum >> 16) != 0 ==> sum > 0xFFFF) by (bit_vector);
        assert(sum & 0xffff == sum % 65536 && sum >> 16 == sum / 65536) by (bit_vector);
        proof {
            lemma_fold_step(sum as nat);
        }
        sum = (sum & 0xffff) + (sum >> 16);
    }
    assert((sum >> 16) == 0 ==> sum <= 0xFFFF) by (bit_vector);
    proof {
        lemma_fold_total_small(sum as nat);
        lemma_ones_sum_is_fold(packet@);
    }
    assert(sum <= 0xFFFF ==> !(sum as u16) == (0xFFFF - sum) as u16) by (bit_vector);
    !(sum as u16)
}

proof fn lemma_word_total_prefix_le(data: Seq<u8>, k: nat)
    requires
        k <= num_words(data),
    ensures
        word_total_prefix(data, k) <= word_total(data),
    decreases num_words(data) - k,
{
    if k < num_words(data) {
        lemma_word_total_prefix_le(data, k + 1);
    }
}

/// An echo request with the checksum field still zero.
pub open spec fn echo_request_template(seq: u16, identifier: u16) -> Seq<u8> {
    Seq::new(
        PACKET_SIZE as nat,
        |i: int|
            if i == 0 {
                ECHO_REQUEST_TYPE
            } else if i == 4 {
                (identifier / 256) as u8
            } else if i == 5 {
                (identifier % 256) as u8
            } else if i == 6 {
                (seq / 256) as u8
            } else if i == 7 {
                (seq % 256) as u8
            } else {
                0u8
            },
    )
}

/// The echo request that the traceroute tool sends: type 8, code 0, the big-endian
/// identifier and sequence number, zero padding, and the checksum over all of it.
pub open spec fn echo_request(seq: u16, identifier: u16) -> Seq<u8> {
    let t = echo_request_template(seq, identifier);
    let c = checksum_of(t);
    t.update(2, (c / 256) as u8).update(3, (c % 256) as u8)
}

/// The big-endian bytes of a 16-bit value.
pub fn be_bytes(x: u16) -> (r: (u8, u8))
    ensures
        r.0 == (x / 256) as u8,
        r.1 == (x % 256) as u8,
        r.0 as nat * 256 + r.1 as nat == x as nat,
{
    assert((x >> 8) as u8 == (x / 256) as u8) by (bit_vector);
    assert((x & 0xff) as u8 == (x % 256) as u8) by (bit_vector);
    assert(((x / 256) as u8) as nat * 256 + ((x % 256) as u8) as nat == x as nat) by (bit_vector);
    ((x >> 8) as u8, (x & 0xff) as u8)
}

/// Builds the echo request that probes one hop.
pub fn build_icmp_packet(seq: u16, identifier: u16) -> (r: [u8; 64])
    ensures
        r@ == echo_request(seq, identifier),
{
    let mut packet = [0u8; 64];
    packet[0] = ECHO_REQUEST_TYPE;
    packet[1] = 0;
    let (id_hi, id_lo) = be_bytes(identifier);
    let (seq_hi, seq_lo) = be_bytes(seq);
    packet[4] = id_hi;
    packet[5] = id_lo;
    packet[6] = seq_hi;
    packet[7] = seq_lo;
    assert(packet@ =~= echo_request_template(seq, identifier));
    let c = checksum(packet.as_slice());
    let (c_hi, c_lo) = be_bytes(c);
    packet[2] = c_hi;
    packet[3] = c_lo;
    assert(packet@ =~= echo_request(seq, identifier));
    packet
}

/// An echo request with its checksum filled in: bytes 2 and 3 hold the checksum of
/// the packet with those bytes zero.
pub open spec fn with_checksum(t: Seq<u8>) -> Seq<u8> {
    let c = checksum_of(t);
    t.update(2, (c / 256) as u8).update(3, (c % 256) as u8)
}

/// A packet of 64 bytes that starts with a nonzero type and has a zero checksum field
/// checks out once its checksum is filled in: the checksum over the whole packet,
/// checksum field included, is zero, as a receiver computes it.
pub proof fn lemma_filled_checksum_zero(t: Seq<u8>)
    requires
        t.len() == PACKET_SIZE,
        t[0] > 0,
        t[2] == 0,
        t[3] == 0,
    ensures
        checksum_of(with_checksum(t)) == 0,
{
    let p = with_checksum(t);
    let c = checksum_of(t);
    assert(num_words(p) == num_words(t));
    assert forall|x: int| 0 <= x < num_words(t) && x != 1 implies word_at(t, x) == word_at(
        p,
        x,
    ) by {}
    assert(word_at(t, 1) == 0);
    assert(((c / 256) as u8) as nat * 256 + ((c % 256) as u8) as nat == c as nat) by (bit_vector);
    assert(word_at(p, 1) == c as nat);
    lemma_word_total_change(t, p, 1);
    assert(word_total(p) == word_total(t) + c);
    lemma_ones_sum_is_fold(t);
    lemma_ones_sum_is_fold(p);
    let tt = word_total(t);
    assert(word_at(t, 0) >= 256);
    lemma_word_total_positive(t);
    // c == 0xFFFF - fold_total(tt), and fold_total(tt) is congruent to tt modulo 0xFFFF.
    crate::checksum::lemma_fold_complement(tt);
}

/// A finished echo request checks out: the checksum over the whole packet, checksum
/// field included, is zero, as a receiver computes it.
pub proof fn lemma_echo_request_checksum_zero(seq: u16, identifier: u16)
    ensures
        checksum_of(echo_request(seq, identifier)) == 0,
{
    let t = echo_request_template(seq, identifier);
    assert(echo_request(seq, identifier) == with_checksum(t));
    lemma_filled_checksum_zero(t);
}

proof fn lemma_word_total_positive(t: Seq<u8>)
    requires
        num_words(t) > 0,
        word_at(t, 0) > 0,
    ensures
        word_total(t) > 0,
{
    crate::checksum::lemma_word_total_prefix_monotone(t, 1, num_words(t));
}

/// What an ICMP error type and code mean, in the words the ping tool prints.
pub open spec fn error_text(kind: u8, code: u8) -> Seq<char> {
    if kind == 3 {
        if code == 0 {
            "Destination network unreachable"@
        } else if code == 1 {
            "Destination host unreachable"@
        } else if code == 2 {
            "Destination protocol unreachable"@
        } else if code == 3 {
            "Destination port unreachable"@
        } else {
            "Destination unreachable (code "@ + decimal_chars_u8(code) + ")"@
        }
    } else if kind == 11 {
        if code == 0 {
            "TTL expired"@
        } else if code == 1 {
            "Fragment reassembly time exceeded"@
        } else {
            "Time exceeded (code "@ + decimal_chars_u8(code) + ")"@
        }
    } else {
        "ICMP error type="@ + decimal_chars_u8(kind) + ", code="@ + decimal_chars_u8(code)
    }
}

/// Describes an ICMP error by its type and code.
pub fn icmp_error_description(kind: u8, code: u8) -> (r: String)
    ensures
        r@ == error_text(kind, code),
{
    if kind == 3 {
        if code == 0 {
            String::from_str("Destination network unreachable")
        } else if code == 1 {
            String::from_str("Destination host unreachable")
        } else if code == 2 {
            String::from_str("Destination protocol unreachable")
        } else if code == 3 {
            String::from_str("Destination port unreachable")
        } else {
            let mut s = String::from_str("Destination unreachable (code ");
            s.append(decimal_string_u8(code).as_str());
            s.append(")");
            s
        }
    } else if kind == 11 {
        if code == 0 {
            String::from_str("TTL expired")
        } else if code == 1 {
            String::from_str("Fragment reassembly time exceeded")
        } else {
            let mut s = String::from_str("Time exceeded (code ");
            s.append(decimal_string_u8(code).as_str());
            s.append(")");
            s
        }
    } else {
        let mut s = String::from_str("ICMP error type=");
        s.append(decimal_string_u8(kind).as_str());
        s.append(", code=");
        s.append(decimal_string_u8(code).as_str());
        s
    }
}

/// What the traceroute tool makes of one received datagram (IP header included).
pub enum TraceReply {
    /// Shorter than the IP header plus an ICMP header.
    Malformed,
    /// A router on the way answered "time exceeded".
    TimeExceeded,
    /// The destination answered the echo request.
    EchoReply,
    /// Any other ICMP type.
    Other(u8),
}

/// The IP header length that the first byte of an IPv4 datagram announces.
pub open spec fn ip_header_len(first: u8) -> nat {
    ((first % 16) * 4) as nat
}

/// Classifies a datagram received by the traceroute tool.
pub fn classify_trace_reply(datagram: &[u8]) -> (r: TraceReply)
    requires
        datagram@.len() >= 1,
    ensures
        ({
            let ihl = ip_header_len(datagram@[0]);
            if datagram@.len() < ihl + 8 {
                r is Malformed
            } else if datagram@[ihl as int] == TIME_EXCEEDED_TYPE {
                r is TimeExceeded
            } else if datagram@[ihl as int] == ECHO_REPLY_TYPE {
                r is EchoReply
            } else {
                r == TraceReply::Other(datagram@[ihl as int])
            }
        }),
{
    let first = datagram[0];
    let low = first & 0x0f;
    assert(first & 0x0f == first % 16) by (bit_vector);
    let ihl = (low * 4) as usize;
    if datagram.len() < ihl + 8 {
        return TraceReply::Malformed;
    }
    let kind = datagram[ihl];
    if kind == TIME_EXCEEDED_TYPE {
        TraceReply::TimeExceeded
    } else if kind == ECHO_REPLY_TYPE {
        TraceReply::EchoReply
    } else {
        TraceReply::Other(kind)
    }
}


/// The `n` low bytes of `x`, most significant first.
pub open spec fn be_digits(x: nat, n: nat) -> Seq<u8>
    decreases n,
{
    if n == 0 {
        Seq::empty()
    } else {
        be_digits(x / 256, (n - 1) as nat).push((x % 256) as u8)
    }
}

proof fn lemma_be_digits_len(x: nat, n: nat)
    ensures
        be_digits(x, n).len() == n,
    decreases n,
{
    if n > 0 {
        lemma_be_digits_len(x / 256, (n - 1) as nat);
    }
}

fn be_bytes_n(x: u128, n: usize) -> (r: Vec<u8>)
    ensures
        r@ == be_digits(x as nat, n as nat),
    decreases n,
{
    if n == 0 {
        Vec::new()
    } else {
        let mut v = be_bytes_n(x / 256, n - 1);
        v.push((x % 256) as u8);
        v
    }
}

/// The ping tool's echo request before its checksum: type 8, code 0, the big-endian
/// identifier and sequence number, and the 16 big-endian bytes of the send timestamp
/// at the start of the payload; the rest is zero.
pub open spec fn stamped_template(seq: u16, identifier: u16, timestamp: u128) -> Seq<u8> {
    Seq::new(
        PACKET_SIZE as nat,
        |i: int|
            if i == 0 {
                ECHO_REQUEST_TYPE
            } else if i == 4 {
                (identifier / 256) as u8
            } else if i == 5 {
                (identifier % 256) as u8
            } else if i == 6 {
                (seq / 256) as u8
            } else if i == 7 {
                (seq % 256) as u8
            } else if 8 <= i < 24 {
                be_digits(timestamp as nat, 16)[i - 8]
            } else {
                0u8
            },
    )
}

/// The ping tool's echo request, checksum included.
pub open spec fn stamped_echo_request(seq: u16, identifier: u16, timestamp: u128) -> Seq<u8> {
    with_checksum(stamped_template(seq, identifier, timestamp))
}

/// Builds the echo request that the ping tool sends, carrying its send timestamp.
pub fn build_echo_request(seq: u16, identifier: u16, timestamp: u128) -> (r: [u8; 64])
    ensures
        r@ == stamped_echo_request(seq, identifier, timestamp),
{
    let mut packet = [0u8; 64];
    packet[0] = ECHO_REQUEST_TYPE;
    let (id_hi, id_lo) = be_bytes(identifier);
    let (seq_hi, seq_lo) = be_bytes(seq);
    packet[4] = id_hi;
    packet[5] = id_lo;
    packet[6] = seq_hi;
    packet[7] = seq_lo;
    let stamp = be_bytes_n(timestamp, 16);
    proof {
        lemma_be_digits_len(timestamp as nat, 16);
    }
    let mut k: usize = 0;
    while k < 16
        invariant
            stamp@ == be_digits(timestamp as nat, 16),
            stamp@.len() == 16,
            0 <= k <= 16,
            packet@.len() == 64,
            forall|i: int| 0 <= i < 64 && !(8 <= i < 8 + k) ==> packet@[i] == #[trigger] stamped_template(seq, identifier, timestamp)[i]
                || (8 + k <= i < 24 && packet@[i] == 0u8),
            forall|i: int| 8 <= i < 8 + k ==> packet@[i] == #[trigger] stamped_template(seq, identifier, timestamp)[i],
        decreases 16 - k,
    {
        packet[8 + k] = stamp[k];
        k = k + 1;
    }
    assert(packet@ =~= stamped_template(seq, identifier, timestamp));
    let c = checksum(packet.as_slice());
    let (c_hi, c_lo) = be_bytes(c);
    packet[2] = c_hi;
    packet[3] = c_lo;
    assert(packet@ =~= stamped_echo_request(seq, identifier, timestamp));
    packet
}

/// Every echo request the ping tool sends checks out at the receiver: its checksum over
/// the whole packet is zero.
pub proof fn lemma_stamped_checksum_zero(seq: u16, identifier: u16, timestamp: u128)
    ensures
        checksum_of(stamped_echo_request(seq, identifier, timestamp)) == 0,
{
    lemma_filled_checksum_zero(stamped_template(seq, identifier, timestamp));
}

/// What the ping tool makes of a received datagram.
#[derive(PartialEq, Eq, Structural, Clone, Copy, Debug)]
pub enum PingReply {
    /// Too short for an ICMP header, or for the fixed fields of its type: nothing shown.
    Ignored,
    /// An echo reply with this sequence number.
    Echo { seq: u16 },
    /// Destination unreachable, with this code.
    Unreachable { code: u8 },
    /// Time exceeded, with this code.
    TimeExceeded { code: u8 },
    /// Another ICMP type.
    Other { kind: u8 },
}

/// How the ping tool reads the ICMP message `m` (the datagram past its IP header).
pub open spec fn ping_reply(m: Seq<u8>) -> PingReply {
    if m.len() < 4 {
        PingReply::Ignored
    } else if m[0] == ECHO_REPLY_TYPE {
        if m.len() < 8 {
            PingReply::Ignored
        } else {
            PingReply::Echo { seq: (m[6] as nat * 256 + m[7] as nat) as u16 }
        }
    } else if m[0] == DEST_UNREACHABLE_TYPE {
        if m.len() < 8 {
            PingReply::Ignored
        } else {
            PingReply::Unreachable { code: m[1] }
        }
    } else if m[0] == TIME_EXCEEDED_TYPE {
        if m.len() < 8 {
            PingReply::Ignored
        } else {
            PingReply::TimeExceeded { code: m[1] }
        }
    } else {
        PingReply::Other { kind: m[0] }
    }
}

/// The errors the ping tool reports carry the ICMP code, the byte right after the type:
/// a message of at least 8 bytes with type 3 is "destination unreachable" with code
/// `m[1]`, one with type 11 is "time exceeded" with code `m[1]`, and an echo reply
/// carries the big-endian sequence number of bytes 6 and 7.
pub proof fn lemma_reply_fields(m: Seq<u8>)
    requires
        m.len() >= 8,
    ensures
        m[0] == 3 ==> ping_reply(m) == (PingReply::Unreachable { code: m[1] }),
        m[0] == 11 ==> ping_reply(m) == (PingReply::TimeExceeded { code: m[1] }),
        m[0] == 0 ==> (ping_reply(m) matches PingReply::Echo { seq } && seq as nat == m[6] as nat * 256 + m[7] as nat),
{
}

/// Reads a datagram received by the ping tool. Its IP header must fit the datagram.
pub fn classify_ping_reply(datagram: &[u8]) -> (r: PingReply)
    requires
        datagram@.len() >= 1,
        ip_header_len(datagram@[0]) <= datagram@.len(),
    ensures
        r == ping_reply(datagram@.subrange(ip_header_len(datagram@[0]) as int, datagram@.len() as int)),
{
    let first = datagram[0];
    let low = first & 0x0f;
    assert(first & 0x0f == first % 16) by (bit_vector);
    let ihl = (low * 4) as usize;
    let n = datagram.len();
    let ghost m = datagram@.subrange(ihl as int, n as int);
    if n - ihl < 4 {
        return PingReply::Ignored;
    }
    let kind = datagram[ihl];
    assert(m[0] == kind);
    if kind == ECHO_REPLY_TYPE {
        if n - ihl < 8 {
            return PingReply::Ignored;
        }
        assert(m[6] == datagram@[ihl + 6] && m[7] == datagram@[ihl + 7]);
        let hi = datagram[ihl + 6] as u16;
        let lo = datagram[ihl + 7] as u16;
        PingReply::Echo { seq: hi * 256 + lo }
    } else if kind == DEST_UNREACHABLE_TYPE {
        if n - ihl < 8 {
            return PingReply::Ignored;
        }
        assert(m[1] == datagram@[ihl + 1]);
        PingReply::Unreachable { code: datagram[ihl + 1] }
    } else if kind == TIME_EXCEEDED_TYPE {
        if n - ihl < 8 {
            return PingReply::Ignored;
        }
        assert(m[1] == datagram@[ihl + 1]);
        PingReply::TimeExceeded { code: datagram[ihl + 1] }
    } else {
        PingReply::Other { kind }
    }
}


/// The number of probes per hop that the traceroute tool's arguments ask for: the third
/// argument when there is one and it is a number, else 3.
pub open spec fn probes_per_hop_of(args: Seq<Seq<char>>) -> nat {
    if args.len() >= 3 {
        match crate::text::parse_unsigned(vstd::utf8::encode_utf8(args[2]), u32::MAX as nat) {
            Some(n) => n,
            None => 3,
        }
    } else {
        3
    }
}

/// Reads the probes per hop from the traceroute tool's arguments.
pub fn probes_per_hop(args: &Vec<String>) -> (r: u32)
    ensures
        r == probes_per_hop_of(string_views(args@)),
{
    if args.len() >= 3 {
        assert(string_views(args@)[2] == args@[2]@);
        match crate::text::parse_unsigned_bytes(args[2].as_str().as_bytes(), 4294967295) {
            Some(n) => n as u32,
            None => 3,
        }
    } else {
        3
    }
}

} // verus!
