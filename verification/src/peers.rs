//! Peer discovery on a LAN: the HELLO / HEARTBEAT / BYE broadcasts and the directory of
//! peers that they keep.
use vstd::prelude::*;
use vstd::utf8::encode_utf8;
use crate::addr::PeerAddr;
use crate::table::{lookup, fresh_entry, expires, AddrTable};
use crate::text::{
    chars_equal, decimal, decimal_bytes, lossy_chars, parse_unsigned, parse_unsigned_chars, split_whitespace,
    to_chars, utf8_lossy, words,
};

verus! {

/// The port that peers broadcast to and listen on.
pub const BROADCAST_PORT: u16 = 8239;

/// The datagram "WORD PORT" that announces the peer listening on `port`.
pub open spec fn announcement(word: Seq<u8>, port: u16) -> Seq<u8> {
    word + seq![32u8] + decimal(port as nat)
}

fn announce(word: &[u8], port: u16) -> (r: Vec<u8>)
    ensures
        r@ == announcement(word@, port),
{
    let mut v: Vec<u8> = Vec::new();
    crate::text::extend_bytes(&mut v, word);
    v.push(32);
    let d = decimal_bytes(port as u64);
    crate::text::extend_bytes(&mut v, d.as_slice());
    v
}

/// "HELLO PORT": a peer joins.
pub fn hello_message(port: u16) -> (r: Vec<u8>)
    ensures
        r@ == announcement(seq![72u8, 69, 76, 76, 79], port),
{
    let w: Vec<u8> = vec![72, 69, 76, 76, 79];
    announce(w.as_slice(), port)
}

/// "HEARTBEAT PORT": a peer is still there.
pub fn heartbeat_message(port: u16) -> (r: Vec<u8>)
    ensures
        r@ == announcement(seq![72u8, 69, 65, 82, 84, 66, 69, 65, 84], port),
{
    let w: Vec<u8> = vec![72, 69, 65, 82, 84, 66, 69, 65, 84];
    announce(w.as_slice(), port)
}

/// "BYE PORT": a peer leaves.
pub fn bye_message(port: u16) -> (r: Vec<u8>)
    ensures
        r@ == announcement(seq![66u8, 89, 69], port),
{
    let w: Vec<u8> = vec![66, 89, 69];
    announce(w.as_slice(), port)
}

/// What a received announcement does to the directory.
#[derive(PartialEq, Eq, Structural, Clone, Copy, Debug)]
pub enum PeerEvent {
    /// Not an announcement of another peer: nothing changes.
    Ignored,
    /// HELLO or HEARTBEAT from `peer`; a new peer is answered with a HELLO.
    Seen { peer: PeerAddr, is_new: bool },
    /// BYE from `peer`.
    Left { peer: PeerAddr },
}

/// The peer that an announcement names: the sender's host at the announced port, when
/// the text is two words and the second is a port other than our own.
pub open spec fn announced_peer(from: PeerAddr, own_port: u16, text: Seq<char>) -> Option<PeerAddr> {
    let w = words(text);
    if w.len() != 2 {
        None
    } else {
        match parse_unsigned(encode_utf8(w[1]), u16::MAX as nat) {
            None => None,
            Some(p) => if p == own_port {
                None
            } else {
                Some(PeerAddr { v6: from.v6, ip: from.ip, port: p as u16 })
            },
        }
    }
}

/// Whether the first word of the announcement is a HELLO or HEARTBEAT.
pub open spec fn is_alive_word(w: Seq<char>) -> bool {
    w == "HELLO"@ || w == "HEARTBEAT"@
}

/// The peers seen on the network, each with the time (in nanoseconds on our clock) it was
/// last heard from.
pub struct PeerDirectory {
    pub port: u16,
    pub peers: AddrTable<()>,
}

impl PeerDirectory {
    /// The directory of the peer listening on `port`, empty.
    pub fn new(port: u16) -> (r: PeerDirectory)
        ensures
            r.port == port,
            forall|a: PeerAddr| lookup(r.peers.entries_view(), a) is None,
    {
        PeerDirectory { port, peers: AddrTable::new() }
    }

    /// Takes the datagram `msg` that `from` sent, at `now`. HELLO and HEARTBEAT add or
    /// refresh the peer, BYE removes it, anything else changes nothing.
    pub fn on_message(&mut self, from: PeerAddr, msg: &[u8], now: u128) -> (r: PeerEvent)
        ensures
            final(self).port == old(self).port,
            match announced_peer(from, old(self).port, lossy_chars(msg@)) {
                None => r == PeerEvent::Ignored && final(self).peers.entries_view() == old(self).peers.entries_view(),
                Some(peer) => {
                    let first = words(lossy_chars(msg@))[0];
                    if is_alive_word(first) {
                        &&& r == PeerEvent::Seen { peer, is_new: lookup(old(self).peers.entries_view(), peer) is None }
                        &&& lookup(final(self).peers.entries_view(), peer) == Some((now, ()))
                        &&& forall|b: PeerAddr| b != peer ==> lookup(final(self).peers.entries_view(), b)
                            == lookup(old(self).peers.entries_view(), b)
                    } else if first == "BYE"@ {
                        &&& r == PeerEvent::Left { peer }
                        &&& lookup(final(self).peers.entries_view(), peer) is None
                        &&& forall|b: PeerAddr| b != peer ==> lookup(final(self).peers.entries_view(), b)
                            == lookup(old(self).peers.entries_view(), b)
                    } else {
                        r == PeerEvent::Ignored && final(self).peers.entries_view() == old(self).peers.entries_view()
                    }
                },
            },
    {
        let text = utf8_lossy(msg);
        let cs = to_chars(text.as_str());
        let parts = split_whitespace(cs.as_slice());
        let ghost w = words(cs@);
        if parts.len() != 2 {
            return PeerEvent::Ignored;
        }
        assert(parts@[0]@ == w[0]);
        assert(parts@[1]@ == w[1]);
        let p = match parse_unsigned_chars(parts[1].as_slice(), 65535) {
            None => {
                return PeerEvent::Ignored;
            },
            Some(p) => p as u16,
        };
        if p == self.port {
            return PeerEvent::Ignored;
        }
        let peer = from.with_port(p);
        let hello = to_chars("HELLO");
        let heartbeat = to_chars("HEARTBEAT");
        let bye = to_chars("BYE");
        if chars_equal(parts[0].as_slice(), hello.as_slice()) || chars_equal(
            parts[0].as_slice(),
            heartbeat.as_slice(),
        ) {
            let is_new = !self.peers.contains(peer);
            self.peers.set(peer, now, ());
            PeerEvent::Seen { peer, is_new }
        } else if chars_equal(parts[0].as_slice(), bye.as_slice()) {
            self.peers.remove(peer);
            PeerEvent::Left { peer }
        } else {
            PeerEvent::Ignored
        }
    }

    /// Drops the peers not heard from for more than three heartbeat intervals (whole
    /// seconds) at `now`, and returns them.
    pub fn expire(&mut self, now: u128, interval_secs: u64) -> (r: Vec<PeerAddr>)
        requires
            3 * interval_secs <= u64::MAX,
        ensures
            final(self).port == old(self).port,
            forall|a: PeerAddr| lookup(final(self).peers.entries_view(), a) == fresh_entry(
                lookup(old(self).peers.entries_view(), a), now, 1_000_000_000, (3 * interval_secs) as u128),
            forall|a: PeerAddr| r@.contains(a) <==> expires(lookup(old(self).peers.entries_view(), a), now,
                1_000_000_000, (3 * interval_secs) as u128),
            r@.no_duplicates(),
    {
        let limit = 3 * interval_secs;
        self.peers.expire(now, 1_000_000_000, limit as u128)
    }

    /// The peers currently known.
    pub fn peer_list(&self) -> (r: Vec<PeerAddr>)
        ensures
            forall|a: PeerAddr| r@.contains(a) <==> lookup(self.peers.entries_view(), a) is Some,
            r@.no_duplicates(),
    {
        self.peers.addrs()
    }
}

} // verus!
