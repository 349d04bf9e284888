//! Files over the stop-and-wait channel: a header message with the packet count and the
//! file name, the data in chunks of 10 KiB, and a trailer with the decimal checksum.
use vstd::prelude::*;
use vstd::utf8::{decode_utf8, encode_utf8, valid_utf8};
use crate::addr::PeerAddr;
use crate::checksum::{checksum_of, compute_checksum};
use crate::text::{
    copy_range, decimal, decimal_bytes, extend_bytes, find_byte, lemma_parse_decimal, lossy_chars,
    parse_unsigned, parse_unsigned_bytes, utf8_lossy, utf8_valid,
};

verus! {

/// Size of the data chunks.
pub const CHUNK_SIZE: usize = 10240;

/// A file with its name.
pub struct FileObject {
    pub path: String,
    pub data: Vec<u8>,
}

/// Number of chunks needed for `len` bytes.
pub open spec fn packet_count(len: nat) -> nat {
    ((len + CHUNK_SIZE - 1) / (CHUNK_SIZE as int)) as nat
}

/// The `k`-th chunk of `data`.
pub open spec fn chunk_of(data: Seq<u8>, k: nat) -> Seq<u8> {
    let start = k * CHUNK_SIZE;
    let end = if (k + 1) * CHUNK_SIZE < data.len() {
        (k + 1) * CHUNK_SIZE
    } else {
        data.len() as int
    };
    data.subrange(start as int, end)
}

/// The header message: the packet count in decimal, a space, and the file name.
pub open spec fn meta_message(name: Seq<u8>, data: Seq<u8>) -> Seq<u8> {
    decimal(packet_count(data.len())) + seq![32u8] + name
}

/// All messages that send a file, in order: header, chunks, checksum trailer.
pub open spec fn transfer_messages(name: Seq<u8>, data: Seq<u8>) -> Seq<Seq<u8>> {
    seq![meta_message(name, data)] + Seq::new(
        packet_count(data.len()),
        |k: int| chunk_of(data, k as nat),
    ) + seq![decimal(checksum_of(data) as nat)]
}

/// The byte sequences held by a vector of byte vectors.
pub open spec fn byte_views(v: Seq<Vec<u8>>) -> Seq<Seq<u8>> {
    Seq::new(v.len(), |i: int| v[i]@)
}

/// The messages that carry `file`, each to be sent as one stop-and-wait packet.
pub fn file_messages(file: &FileObject) -> (r: Vec<Vec<u8>>)
    requires
        file.data@.len() + CHUNK_SIZE <= usize::MAX,
    ensures
        byte_views(r@) == transfer_messages(encode_utf8(file.path@), file.data@),
{
    let len = file.data.len();
    let total_packets = (len + CHUNK_SIZE - 1) / CHUNK_SIZE;
    let ghost name = encode_utf8(file.path@);
    let ghost msgs = transfer_messages(name, file.data@);
    let mut r: Vec<Vec<u8>> = Vec::new();
    let mut meta = decimal_bytes(total_packets as u64);
    meta.push(32);
    extend_bytes(&mut meta, file.path.as_str().as_bytes());
    assert(meta@ =~= meta_message(name, file.data@));
    assert(msgs[0] == meta_message(name, file.data@));
    r.push(meta);
    assert(byte_views(r@) =~= msgs.subrange(0, 1));
    let mut i: usize = 0;
    while i < total_packets
        invariant
            len == file.data@.len(),
            len + CHUNK_SIZE <= usize::MAX,
            total_packets == packet_count(len as nat),
            msgs == transfer_messages(name, file.data@),
            0 <= i <= total_packets,
            byte_views(r@) == msgs.subrange(0, i + 1),
        decreases total_packets - i,
    {
        proof {
            assert(i * CHUNK_SIZE < len) by (nonlinear_arith)
                requires
                    i < total_packets,
                    total_packets == (len + CHUNK_SIZE - 1) / (CHUNK_SIZE as int),
            ;
        }
        let start = i * CHUNK_SIZE;
        let end = if start + CHUNK_SIZE < len {
            start + CHUNK_SIZE
        } else {
            len
        };
        let chunk = copy_range(file.data.as_slice(), start, end);
        let ghost before = r@;
        assert(chunk@ == chunk_of(file.data@, i as nat));
        assert(msgs[i + 1] == chunk_of(file.data@, i as nat));
        r.push(chunk);
        assert(r@ == before.push(chunk));
        assert(byte_views(r@) =~= byte_views(before).push(chunk@));
        assert(msgs.subrange(0, i + 2) =~= msgs.subrange(0, i + 1).push(msgs[i + 1]));
        assert(byte_views(r@) =~= msgs.subrange(0, i + 2));
        i = i + 1;
    }
    let c = compute_checksum(&file.data);
    let trailer = decimal_bytes(c as u64);
    let ghost before = r@;
    assert(msgs.len() == total_packets + 2);
    assert(msgs[total_packets + 1] == decimal(checksum_of(file.data@) as nat));
    r.push(trailer);
    assert(byte_views(r@) =~= byte_views(before).push(trailer@));
    assert(msgs =~= msgs.subrange(0, total_packets + 1).push(msgs[total_packets + 1]));
    assert(byte_views(r@) =~= msgs);
    r
}

/// Why receiving a file failed.
#[derive(Clone, Copy, PartialEq, Eq, Structural, Debug)]
pub enum TransferError {
    /// The header message holds no space.
    InvalidMessage,
    /// The header does not start with a packet count.
    BadPacketCount,
    /// The checksum trailer is not UTF-8.
    ChecksumNotText,
    /// The checksum trailer is not a 16-bit decimal number.
    BadChecksum,
    /// The checksum does not match the data received.
    InvalidChecksum(u16),
}

/// Where a receiver stands.
pub enum RxState {
    /// Waiting for the header.
    AwaitMeta,
    /// Collecting chunks from `sender`; `remaining` of them are still due.
    Receiving { sender: PeerAddr, remaining: nat, name: Seq<u8>, data: Seq<u8> },
    /// All chunks are in; waiting for the checksum trailer.
    AwaitChecksum { sender: PeerAddr, name: Seq<u8>, data: Seq<u8> },
    /// The transfer is over.
    Finished,
}

/// What one message does to a transfer.
pub enum RxEvent {
    /// The transfer goes on.
    Continue,
    /// The file arrived whole.
    Complete { name: Seq<u8>, data: Seq<u8> },
    /// The transfer failed.
    Failed(TransferError),
}

/// Position of the first space in a message.
pub open spec fn first_space(msg: Seq<u8>) -> Option<int> {
    if exists|i: int| 0 <= i < msg.len() && msg[i] == 32 {
        Some(choose|i: int| 0 <= i < msg.len() && msg[i] == 32 && forall|j: int| 0 <= j < i ==> msg[j] != 32)
    } else {
        None
    }
}

/// The state after all chunks are due or in.
pub open spec fn after_chunks(sender: PeerAddr, remaining: nat, name: Seq<u8>, data: Seq<u8>) -> RxState {
    if remaining == 0 {
        RxState::AwaitChecksum { sender, name, data }
    } else {
        RxState::Receiving { sender, remaining, name, data }
    }
}

/// One step of the receiver: message `msg` arrived from `from`. The header is split at its
/// first space; the bytes before must be a decimal count (std's parse of the lossily decoded
/// text reads ASCII digits only, so it sees the same). Chunks and the trailer from any other
/// address are ignored. The trailer must be UTF-8 text holding the checksum of the data.
pub open spec fn rx_step(s: RxState, from: PeerAddr, msg: Seq<u8>) -> (RxState, RxEvent) {
    match s {
        RxState::AwaitMeta => match first_space(msg) {
            None => (RxState::Finished, RxEvent::Failed(TransferError::InvalidMessage)),
            Some(i) => match parse_unsigned(msg.subrange(0, i), usize::MAX as nat) {
                None => (RxState::Finished, RxEvent::Failed(TransferError::BadPacketCount)),
                Some(total) => (
                    after_chunks(from, total, msg.subrange(i + 1, msg.len() as int), Seq::empty()),
                    RxEvent::Continue,
                ),
            },
        },
        RxState::Receiving { sender, remaining, name, data } => {
            if from != sender {
                (s, RxEvent::Continue)
            } else if remaining <= 1 {
                (RxState::AwaitChecksum { sender, name, data: data + msg }, RxEvent::Continue)
            } else {
                (
                    RxState::Receiving { sender, remaining: (remaining - 1) as nat, name, data: data + msg },
                    RxEvent::Continue,
                )
            }
        },
        RxState::AwaitChecksum { sender, name, data } => {
            if from != sender {
                (s, RxEvent::Continue)
            } else if !valid_utf8(msg) {
                (RxState::Finished, RxEvent::Failed(TransferError::ChecksumNotText))
            } else {
                match parse_unsigned(msg, 0xFFFF) {
                    None => (RxState::Finished, RxEvent::Failed(TransferError::BadChecksum)),
                    Some(c) => if c != checksum_of(data) {
                        (RxState::Finished, RxEvent::Failed(TransferError::InvalidChecksum(c as u16)))
                    } else {
                        (RxState::Finished, RxEvent::Complete { name, data })
                    },
                }
            }
        },
        RxState::Finished => (RxState::Finished, RxEvent::Continue),
    }
}

/// Feeds messages from one address into a receiver until an event other than `Continue`.
pub open spec fn rx_run(s: RxState, from: PeerAddr, msgs: Seq<Seq<u8>>) -> (RxState, RxEvent)
    decreases msgs.len(),
{
    if msgs.len() == 0 {
        (s, RxEvent::Continue)
    } else {
        let (s1, e1) = rx_step(s, from, msgs[0]);
        if msgs.len() == 1 || !(e1 is Continue) {
            (s1, e1)
        } else {
            rx_run(s1, from, msgs.drop_first())
        }
    }
}

/// The state a receiver reaches after the header and the first `j` chunks of `data`.
pub open spec fn state_after(from: PeerAddr, name: Seq<u8>, data: Seq<u8>, j: nat) -> RxState {
    let got = if j * CHUNK_SIZE < data.len() {
        data.subrange(0, (j * CHUNK_SIZE) as int)
    } else {
        data
    };
    after_chunks(from, (packet_count(data.len()) - j) as nat, name, got)
}

proof fn lemma_count_facts(len: nat, j: nat)
    ensures
        j < packet_count(len) ==> j * CHUNK_SIZE < len,
        packet_count(len) * CHUNK_SIZE >= len,
        packet_count(len) <= len,
        j >= packet_count(len) ==> j * CHUNK_SIZE >= len,
{
    let c = packet_count(len);
    assert(c * 10240 >= len && c <= len && (j < c ==> j * 10240 < len) && (j >= c ==> j * 10240
        >= len)) by (nonlinear_arith)
        requires
            c == (len + 10239) / 10240,
    ;
}

proof fn lemma_meta_step(from: PeerAddr, name: Seq<u8>, data: Seq<u8>)
    requires
        data.len() <= usize::MAX,
    ensures
        rx_step(RxState::AwaitMeta, from, meta_message(name, data)) == (
            state_after(from, name, data, 0),
            RxEvent::Continue,
        ),
{
    let c = packet_count(data.len());
    lemma_count_facts(data.len(), 0);
    let d = decimal(c);
    let m = meta_message(name, data);
    let k = d.len() as int;
    crate::text::lemma_decimal_digits(c);
    assert(m[k] == 32);
    assert forall|j: int| 0 <= j < k implies m[j] != 32 by {
        assert(m[j] == d[j]);
        assert(crate::text::is_digit(d[j]));
    }
    let w = choose|i: int| 0 <= i < m.len() && m[i] == 32 && forall|j: int| 0 <= j < i ==> m[j] != 32;
    assert(0 <= w < m.len() && m[w] == 32 && forall|j: int| 0 <= j < w ==> m[j] != 32);
    if w < k {
    } else if w > k {
    }
    assert(first_space(m) == Some(k));
    assert(m.subrange(0, k) =~= d);
    lemma_parse_decimal(c, usize::MAX as nat);
    assert(m.subrange(k + 1, m.len() as int) =~= name);
    assert(data.subrange(0, 0) =~= Seq::<u8>::empty());
    if data.len() == 0 {
        assert(data =~= Seq::<u8>::empty());
    }
    assert(parse_unsigned(m.subrange(0, k), usize::MAX as nat) == Some(c));
}

proof fn lemma_chunk_step(from: PeerAddr, name: Seq<u8>, data: Seq<u8>, j: nat)
    requires
        j < packet_count(data.len()),
    ensures
        rx_step(state_after(from, name, data, j), from, chunk_of(data, j)) == (
            state_after(from, name, data, j + 1),
            RxEvent::Continue,
        ),
{
    let len = data.len();
    let c = packet_count(len);
    lemma_count_facts(len, j);
    lemma_count_facts(len, j + 1);
    let got = data.subrange(0, (j * CHUNK_SIZE) as int);
    let ch = chunk_of(data, j);
    if (j + 1) * CHUNK_SIZE < len {
        assert(got + ch =~= data.subrange(0, ((j + 1) * CHUNK_SIZE) as int));
    } else {
        assert(got + ch =~= data);
    }
}

proof fn lemma_checksum_step(from: PeerAddr, name: Seq<u8>, data: Seq<u8>)
    ensures
        rx_step(
            RxState::AwaitChecksum { sender: from, name, data },
            from,
            decimal(checksum_of(data) as nat),
        ) == (RxState::Finished, RxEvent::Complete { name, data }),
{
    let cs = checksum_of(data) as nat;
    let d = decimal(cs);
    crate::text::lemma_decimal_digits(cs);
    let dc = crate::text::decimal_chars(cs);
    assert(crate::text::all_ascii(dc));
    assert(crate::text::ascii(dc) =~= d);
    crate::text::lemma_ascii_utf8(dc);
    lemma_parse_decimal(cs, 0xFFFF);
}

proof fn lemma_run_from(from: PeerAddr, name: Seq<u8>, data: Seq<u8>, j: nat)
    requires
        j <= packet_count(data.len()),
    ensures
        rx_run(
            state_after(from, name, data, j),
            from,
            transfer_messages(name, data).subrange(j + 1 as int, packet_count(data.len()) + 2 as int),
        ) == (RxState::Finished, RxEvent::Complete { name, data }),
    decreases packet_count(data.len()) - j,
{
    let c = packet_count(data.len());
    let msgs = transfer_messages(name, data);
    let sub = msgs.subrange(j + 1 as int, c + 2 as int);
    lemma_count_facts(data.len(), j);
    if j == c {
        assert(sub.len() == 1);
        assert(sub[0] == decimal(checksum_of(data) as nat));
        assert(state_after(from, name, data, j) == RxState::AwaitChecksum { sender: from, name, data });
        lemma_checksum_step(from, name, data);
    } else {
        assert(sub[0] == chunk_of(data, j));
        lemma_chunk_step(from, name, data, j);
        assert(sub.drop_first() =~= msgs.subrange(j + 2 as int, c + 2 as int));
        lemma_run_from(from, name, data, j + 1);
    }
}

/// A file survives the transfer: feeding the messages that send `data` under `name`, all
/// from one address, into a fresh receiver completes with exactly that name and data.
pub proof fn lemma_transfer_roundtrip(from: PeerAddr, name: Seq<u8>, data: Seq<u8>)
    requires
        data.len() <= usize::MAX,
    ensures
        rx_run(RxState::AwaitMeta, from, transfer_messages(name, data)) == (
            RxState::Finished,
            RxEvent::Complete { name, data },
        ),
{
    let c = packet_count(data.len());
    let msgs = transfer_messages(name, data);
    assert(msgs.len() == c + 2);
    assert(msgs[0] == meta_message(name, data));
    lemma_meta_step(from, name, data);
    assert(msgs.drop_first() =~= msgs.subrange(1, c + 2 as int));
    lemma_run_from(from, name, data, 0);
}

/// Feeds messages, each with the address it came from, into a receiver until an event
/// other than `Continue`.
pub open spec fn rx_feed(s: RxState, events: Seq<(PeerAddr, Seq<u8>)>) -> (RxState, RxEvent)
    decreases events.len(),
{
    if events.len() == 0 {
        (s, RxEvent::Continue)
    } else {
        let (s1, e1) = rx_step(s, events[0].0, events[0].1);
        if events.len() == 1 || !(e1 is Continue) {
            (s1, e1)
        } else {
            rx_feed(s1, events.drop_first())
        }
    }
}

/// The messages among `events` that came from `a`, in order.
pub open spec fn messages_from(events: Seq<(PeerAddr, Seq<u8>)>, a: PeerAddr) -> Seq<Seq<u8>>
    decreases events.len(),
{
    if events.len() == 0 {
        Seq::empty()
    } else {
        (if events[0].0 == a {
            seq![events[0].1]
        } else {
            Seq::empty()
        }) + messages_from(events.drop_first(), a)
    }
}

/// The receiver is in the middle of a transfer from `a`.
pub open spec fn receiving_from(s: RxState, a: PeerAddr) -> bool {
    ||| s matches RxState::Receiving { sender, .. } && sender == a
    ||| s matches RxState::AwaitChecksum { sender, .. } && sender == a
}

/// In the middle of a transfer, messages from other addresses change nothing: the
/// receiver ends as if it had seen only those from its sender.
pub proof fn lemma_others_ignored(s: RxState, a: PeerAddr, events: Seq<(PeerAddr, Seq<u8>)>)
    requires
        receiving_from(s, a),
    ensures
        rx_feed(s, events) == rx_run(s, a, messages_from(events, a)),
    decreases events.len(),
{
    if events.len() > 0 {
        let rest = events.drop_first();
        let (s1, e1) = rx_step(s, events[0].0, events[0].1);
        if events[0].0 != a {
            assert(messages_from(events, a) =~= messages_from(rest, a));
            assert(s1 == s && e1 is Continue);
            if events.len() > 1 {
                lemma_others_ignored(s, a, rest);
            } else {
                assert(rest.len() == 0);
            }
        } else {
            let m = messages_from(events, a);
            assert(m =~= seq![events[0].1] + messages_from(rest, a));
            assert(m[0] == events[0].1);
            assert(m.drop_first() =~= messages_from(rest, a));
            if events.len() > 1 && e1 is Continue {
                assert(receiving_from(s1, a));
                lemma_others_ignored(s1, a, rest);
                if messages_from(rest, a).len() == 0 {
                    assert(rx_run(s1, a, messages_from(rest, a)) == (s1, RxEvent::Continue));
                }
            } else if events.len() == 1 {
                assert(rest.len() == 0);
                assert(messages_from(rest, a).len() == 0);
            }
        }
    }
}

/// A file survives the transfer even with other senders' messages in between: when the
/// first message is the header from `a` and the later messages from `a` are, in order,
/// the rest of what sends `data` under `name`, the receiver completes with exactly that
/// name and data.
pub proof fn lemma_transfer_roundtrip_interleaved(
    a: PeerAddr,
    name: Seq<u8>,
    data: Seq<u8>,
    events: Seq<(PeerAddr, Seq<u8>)>,
)
    requires
        data.len() <= usize::MAX,
        events.len() > 0,
        events[0] == (a, meta_message(name, data)),
        messages_from(events.drop_first(), a) == transfer_messages(name, data).drop_first(),
    ensures
        rx_feed(RxState::AwaitMeta, events).1 == (RxEvent::Complete { name, data }),
{
    let msgs = transfer_messages(name, data);
    lemma_transfer_roundtrip(a, name, data);
    lemma_meta_step(a, name, data);
    lemma_count_facts(data.len(), 0);
    let s1 = state_after(a, name, data, 0);
    assert(msgs[0] == meta_message(name, data));
    assert(msgs.len() >= 2);
    assert(receiving_from(s1, a));
    assert(rx_run(RxState::AwaitMeta, a, msgs) == rx_run(s1, a, msgs.drop_first()));
    if events.len() == 1 {
        assert(messages_from(events.drop_first(), a).len() == 0);
    }
    lemma_others_ignored(s1, a, events.drop_first());
}

/// A file survives the transfer, name included: with other senders' messages allowed in
/// between as above, the receiver completes with the encoded name and the data, and the
/// name bytes decode back to exactly the file's path.
pub proof fn lemma_file_roundtrip(
    a: PeerAddr,
    path: Seq<char>,
    data: Seq<u8>,
    events: Seq<(PeerAddr, Seq<u8>)>,
)
    requires
        data.len() <= usize::MAX,
        events.len() > 0,
        events[0] == (a, meta_message(encode_utf8(path), data)),
        messages_from(events.drop_first(), a) == transfer_messages(encode_utf8(path), data).drop_first(),
    ensures
        rx_feed(RxState::AwaitMeta, events).1 == (RxEvent::Complete { name: encode_utf8(path), data }),
        valid_utf8(encode_utf8(path)),
        decode_utf8(encode_utf8(path)) == path,
{
    lemma_transfer_roundtrip_interleaved(a, encode_utf8(path), data, events);
    vstd::utf8::encode_utf8_valid_utf8(path);
    vstd::utf8::encode_utf8_decode_utf8(path);
}

/// The checksum trailer is checked against the data received: a trailer that gives the
/// number `c` completes the transfer exactly when `c` is the checksum of that data, and is
/// refused as `InvalidChecksum(c)` whenever it is any other number.
pub proof fn lemma_trailer_verdict(from: PeerAddr, name: Seq<u8>, data: Seq<u8>, c: u16)
    ensures
        c == checksum_of(data) ==> rx_step(RxState::AwaitChecksum { sender: from, name, data }, from, decimal(c as nat))
            == (RxState::Finished, RxEvent::Complete { name, data }),
        c != checksum_of(data) ==> rx_step(RxState::AwaitChecksum { sender: from, name, data }, from, decimal(c as nat))
            == (RxState::Finished, RxEvent::Failed(TransferError::InvalidChecksum(c))),
{
    let d = decimal(c as nat);
    crate::text::lemma_decimal_digits(c as nat);
    let dc = crate::text::decimal_chars(c as nat);
    assert(crate::text::all_ascii(dc));
    assert(crate::text::ascii(dc) =~= d);
    crate::text::lemma_ascii_utf8(dc);
    lemma_parse_decimal(c as nat, 0xFFFF);
}

/// Data corrupted on the way is caught: if one byte of the data the receiver holds is the
/// bitwise inverse of the byte that was sent, the trailer with the sent data's checksum
/// is refused.
pub proof fn lemma_corrupted_data_refused(from: PeerAddr, name: Seq<u8>, sent: Seq<u8>, i: int)
    requires
        0 <= i < sent.len(),
    ensures
        rx_step(
            RxState::AwaitChecksum { sender: from, name, data: sent.update(i, sent[i] ^ 0xFF) },
            from,
            decimal(checksum_of(sent) as nat),
        ) == (RxState::Finished, RxEvent::Failed(TransferError::InvalidChecksum(checksum_of(sent)))),
{
    let got = sent.update(i, sent[i] ^ 0xFF);
    crate::checksum::lemma_inverted_byte_detected(sent, i);
    crate::checksum::lemma_computed_checksum_verifies(got);
    lemma_trailer_verdict(from, name, got, checksum_of(sent));
}

/// A receiver's phase, holding the data received so far.
pub enum Phase {
    AwaitMeta,
    Receiving { sender: PeerAddr, remaining: usize, name: Vec<u8>, data: Vec<u8> },
    AwaitChecksum { sender: PeerAddr, name: Vec<u8>, data: Vec<u8> },
    Finished,
}

/// The receiving end of a file transfer.
pub struct FileReceiver {
    pub phase: Phase,
}

impl View for FileReceiver {
    type V = RxState;

    open spec fn view(&self) -> RxState {
        match self.phase {
            Phase::AwaitMeta => RxState::AwaitMeta,
            Phase::Receiving { sender, remaining, name, data } => RxState::Receiving {
                sender,
                remaining: remaining as nat,
                name: name@,
                data: data@,
            },
            Phase::AwaitChecksum { sender, name, data } => RxState::AwaitChecksum {
                sender,
                name: name@,
                data: data@,
            },
            Phase::Finished => RxState::Finished,
        }
    }
}

fn after_chunks_phase(sender: PeerAddr, remaining: usize, name: Vec<u8>, data: Vec<u8>) -> (r: Phase)
    ensures
        (FileReceiver { phase: r })@ == after_chunks(sender, remaining as nat, name@, data@),
{
    if remaining == 0 {
        Phase::AwaitChecksum { sender, name, data }
    } else {
        Phase::Receiving { sender, remaining, name, data }
    }
}

impl FileReceiver {
    /// A receiver waiting for the header.
    pub fn new() -> (r: FileReceiver)
        ensures
            r@ == RxState::AwaitMeta,
    {
        FileReceiver { phase: Phase::AwaitMeta }
    }

    /// Takes the next message from `from`. Returns the file once its checksum trailer
    /// arrives and matches; its name is the header's name as `from_utf8_lossy` reads it.
    pub fn on_message(&mut self, from: PeerAddr, msg: &[u8]) -> (r: Result<Option<FileObject>, TransferError>)
        ensures
            final(self)@ == rx_step(old(self)@, from, msg@).0,
            match rx_step(old(self)@, from, msg@).1 {
                RxEvent::Continue => r matches Ok(None),
                RxEvent::Complete { name, data } => r matches Ok(Some(f)) && f.data@ == data
                    && f.path@ == lossy_chars(name) && (valid_utf8(name) ==> f.path@ == decode_utf8(name)),
                RxEvent::Failed(e) => r matches Err(e2) && e2 == e,
            },
    {
        let mut phase = Phase::Finished;
        std::mem::swap(&mut phase, &mut self.phase);
        match phase {
            Phase::AwaitMeta => {
                let mlen = msg.len();
                let i = match find_byte(msg, 32) {
                    None => {
                        proof {
                            assert(!(exists|i: int| 0 <= i < msg@.len() && msg@[i] == 32));
                        }
                        return Err(TransferError::InvalidMessage);
                    },
                    Some(i) => i,
                };
                proof {
                    let w = choose|k: int| 0 <= k < msg@.len() && msg@[k] == 32 && forall|j: int| 0 <= j < k ==> msg@[j] != 32;
                    assert(0 <= i < msg@.len() && msg@[i as int] == 32);
                    if w < i {
                    } else if w > i {
                    }
                    assert(first_space(msg@) == Some(i as int));
                }
                let count = copy_range(msg, 0, i);
                let total = match parse_unsigned_bytes(count.as_slice(), usize::MAX as u64) {
                    None => {
                        return Err(TransferError::BadPacketCount);
                    },
                    Some(t) => t as usize,
                };
                let name = copy_range(msg, i + 1, mlen);
                let empty: Vec<u8> = Vec::new();
                assert(empty@ =~= Seq::<u8>::empty());
                self.phase = after_chunks_phase(from, total, name, empty);
                Ok(None)
            },
            Phase::Receiving { sender, remaining, name, data } => {
                if from != sender {
                    self.phase = Phase::Receiving { sender, remaining, name, data };
                    return Ok(None);
                }
                let mut data = data;
                extend_bytes(&mut data, msg);
                if remaining <= 1 {
                    self.phase = Phase::AwaitChecksum { sender, name, data };
                } else {
                    self.phase = Phase::Receiving { sender, remaining: remaining - 1, name, data };
                }
                Ok(None)
            },
            Phase::AwaitChecksum { sender, name, data } => {
                if from != sender {
                    self.phase = Phase::AwaitChecksum { sender, name, data };
                    return Ok(None);
                }
                if !utf8_valid(msg) {
                    return Err(TransferError::ChecksumNotText);
                }
                let c = match parse_unsigned_bytes(msg, 0xFFFF) {
                    None => {
                        return Err(TransferError::BadChecksum);
                    },
                    Some(c) => c as u16,
                };
                if c != compute_checksum(&data) {
                    return Err(TransferError::InvalidChecksum(c));
                }
                let path = utf8_lossy(name.as_slice());
                Ok(Some(FileObject { path, data }))
            },
            Phase::Finished => Ok(None),
        }
    }
}


// ---------------------------------------------------------------------------
// Commands between the transfer client and server
// ---------------------------------------------------------------------------
/// What the transfer server makes of a command datagram.
pub enum ServerCommand {
    /// "UPLOAD...": the client sends a file next.
    Upload,
    /// "DOWNLOAD NAME": send the file NAME.
    Download(String),
    /// A DOWNLOAD that is not exactly two words.
    BadDownload,
    /// Anything else.
    Unknown,
}

/// Whether `s` starts with `p`.
pub open spec fn starts_with_chars(s: Seq<char>, p: Seq<char>) -> bool {
    p.len() <= s.len() && s.subrange(0, p.len() as int) == p
}

/// Reads a command datagram, as text as `from_utf8_lossy` makes it.
pub fn parse_command(msg: &[u8]) -> (r: ServerCommand)
    ensures
        ({
            let t = lossy_chars(msg@);
            if starts_with_chars(t, "UPLOAD"@) {
                r is Upload
            } else if starts_with_chars(t, "DOWNLOAD"@) {
                if crate::text::words(t).len() != 2 {
                    r is BadDownload
                } else {
                    r matches ServerCommand::Download(n) && n@ == crate::text::words(t)[1]
                }
            } else {
                r is Unknown
            }
        }),
{
    let text = utf8_lossy(msg);
    let cs = crate::text::to_chars(text.as_str());
    let upload = crate::text::to_chars("UPLOAD");
    let download = crate::text::to_chars("DOWNLOAD");
    if crate::text::chars_start_with(cs.as_slice(), upload.as_slice()) {
        return ServerCommand::Upload;
    }
    if !crate::text::chars_start_with(cs.as_slice(), download.as_slice()) {
        return ServerCommand::Unknown;
    }
    let parts = crate::text::split_whitespace(cs.as_slice());
    if parts.len() != 2 {
        return ServerCommand::BadDownload;
    }
    assert(parts@[1]@ == crate::text::words(cs@)[1]);
    let name = crate::text::string_of(parts[1].as_slice(), 0, parts[1].len());
    assert(parts@[1]@.subrange(0, parts@[1]@.len() as int) =~= parts@[1]@);
    ServerCommand::Download(name)
}

/// The request that starts an upload.
pub fn upload_request() -> (r: Vec<u8>)
    ensures
        r@ == encode_utf8("UPLOAD"@),
{
    let b = "UPLOAD".as_bytes();
    let r = copy_range(b, 0, b.len());
    assert(b@.subrange(0, b@.len() as int) =~= b@);
    r
}

/// The request for the file `name`.
pub fn download_request(name: &str) -> (r: Vec<u8>)
    ensures
        r@ == encode_utf8("DOWNLOAD "@) + encode_utf8(name@),
{
    let mut r: Vec<u8> = Vec::new();
    extend_bytes(&mut r, "DOWNLOAD ".as_bytes());
    extend_bytes(&mut r, name.as_bytes());
    r
}

/// The transfer client's modes.
#[derive(PartialEq, Eq, Structural, Clone, Copy, Debug)]
pub enum ClientMode {
    Upload,
    Download,
    Invalid,
}

/// The mode that the user's answer names, read trimmed and in lower case.
pub open spec fn mode_of(answer: Seq<char>) -> ClientMode {
    let m = crate::text::lowercase_chars(crate::text::trimmed(answer));
    if m == "upload"@ {
        ClientMode::Upload
    } else if m == "download"@ {
        ClientMode::Download
    } else {
        ClientMode::Invalid
    }
}

/// Reads the mode the user chose.
pub fn client_mode(answer: &str) -> (r: ClientMode)
    ensures
        r == mode_of(answer@),
{
    let t = crate::text::trim(answer);
    let m = crate::text::to_lowercase(t.as_str());
    if m == String::from_str("upload") {
        ClientMode::Upload
    } else if m == String::from_str("download") {
        ClientMode::Download
    } else {
        ClientMode::Invalid
    }
}

} // verus!
