//! The UDP heartbeat monitor: which clients are alive, which heartbeats were lost, and
//! the echo server's replies.
use vstd::prelude::*;
use vstd::utf8::{decode_utf8, encode_utf8, valid_utf8};
use crate::addr::PeerAddr;
use crate::table::{lookup, stale, fresh_entry, expires, AddrTable};
use crate::text::{
    char_views, chars_equal, lossy_chars, parse_unsigned, parse_unsigned_chars, split_whitespace, to_chars,
    utf8_lossy, uppercase_chars, to_uppercase, utf8_decode, words,
};

use crate::text::string_views;

verus! {

/// The monitor's interval in milliseconds from the command line: the number after the
/// first "--interval-ms" that has an argument after it (5000 when that is not a number),
/// 1000 when there is none.
pub open spec fn interval_from(args: Seq<Seq<char>>, i: int) -> nat
    decreases args.len() - i,
{
    if i < 0 || i >= args.len() {
        1000
    } else if args[i] == "--interval-ms"@ && i + 1 < args.len() {
        match parse_unsigned(encode_utf8(args[i + 1]), u64::MAX as nat) {
            Some(n) => n,
            None => 5000,
        }
    } else {
        interval_from(args, i + 1)
    }
}

/// Reads the heartbeat interval from the command-line arguments.
pub fn parse_interval(args: &Vec<String>) -> (r: u64)
    ensures
        r == interval_from(string_views(args@), 0),
{
    let ghost a = string_views(args@);
    let flag = String::from_str("--interval-ms");
    let mut i: usize = 0;
    while i < args.len()
        invariant
            0 <= i <= args@.len(),
            a == string_views(args@),
            flag@ == "--interval-ms"@,
            interval_from(a, 0) == interval_from(a, i as int),
        decreases args@.len() - i,
    {
        assert(a[i as int] == args@[i as int]@);
        if args[i] == flag && i + 1 < args.len() {
            assert(a[i + 1] == args@[i + 1]@);
            let b = args[i + 1].as_str().as_bytes();
            return match crate::text::parse_unsigned_bytes(b, u64::MAX) {
                Some(n) => n,
                None => 5000,
            };
        }
        i = i + 1;
    }
    1000
}

/// A heartbeat "SEQ TIME" read as text as `from_utf8_lossy` makes it: exactly two words,
/// the first a sequence number (zero when it is not one). `None` for anything else.
pub open spec fn heartbeat_fields(text: Seq<char>) -> Option<(nat, Seq<char>)> {
    let w = words(text);
    if w.len() != 2 {
        None
    } else {
        Some(
            (
                match parse_unsigned(encode_utf8(w[0]), u64::MAX as nat) {
                    Some(n) => n,
                    None => 0,
                },
                w[1],
            ),
        )
    }
}

/// Reads a heartbeat datagram: its sequence number and the text of its send time.
pub fn parse_heartbeat(msg: &[u8]) -> (r: Option<(u64, String)>)
    ensures
        match heartbeat_fields(lossy_chars(msg@)) {
            None => r is None,
            Some((seq, time)) => r matches Some((s, t)) && s == seq && t@ == time,
        },
{
    let text = utf8_lossy(msg);
    let cs = to_chars(text.as_str());
    let parts = split_whitespace(cs.as_slice());
    let ghost w = words(cs@);
    if parts.len() != 2 {
        return None;
    }
    assert(parts@[0]@ == w[0]);
    assert(parts@[1]@ == w[1]);
    let seq = match parse_unsigned_chars(parts[0].as_slice(), u64::MAX) {
        Some(n) => n,
        None => 0,
    };
    let time = crate::text::string_of(parts[1].as_slice(), 0, parts[1].len());
    assert(parts@[1]@.subrange(0, parts@[1]@.len() as int) =~= parts@[1]@);
    Some((seq, time))
}

/// Heartbeats that went missing: how many, and the sequence number expected next.
#[derive(PartialEq, Eq, Structural, Clone, Copy, Debug)]
pub struct Gap {
    pub missing: u64,
    pub expected: u64,
}

/// What a heartbeat tells about its client.
#[derive(PartialEq, Eq, Structural, Clone, Copy, Debug)]
pub struct HeartbeatNote {
    /// The client was not known before.
    pub new_client: bool,
    /// Heartbeats went missing before this one.
    pub lost: Option<Gap>,
}

/// What a heartbeat with sequence number `seq` tells, given what was known of its client
/// (the time last heard from and the last sequence number).
pub open spec fn heartbeat_note(known: Option<(u128, u64)>, seq: u64) -> HeartbeatNote {
    HeartbeatNote {
        new_client: known is None,
        lost: match known {
            Some((_, last)) => if seq > last + 1 {
                Some(Gap { missing: (seq - last - 1) as u64, expected: (last + 1) as u64 })
            } else {
                None
            },
            None => None,
        },
    }
}

/// A gap in a known client's sequence numbers is reported exactly when heartbeats were
/// skipped: with last sequence number `last`, heartbeat `seq` reports a loss if and only
/// if `seq > last + 1`, and then `seq - last - 1` heartbeats are missing and `last + 1`
/// was expected. A new client never reports a loss.
pub proof fn lemma_heartbeat_gap(seen: u128, last: u64, seq: u64)
    ensures
        heartbeat_note(Some((seen, last)), seq).lost is Some <==> seq > last + 1,
        seq > last + 1 ==> heartbeat_note(Some((seen, last)), seq).lost == Some(
            Gap { missing: (seq - last - 1) as u64, expected: (last + 1) as u64 },
        ),
        heartbeat_note(Some((seen, last)), seq).lost matches Some(g) ==> g.missing + last + 1 == seq
            && g.expected == last + 1,
        !heartbeat_note(Some((seen, last)), seq).new_client,
        heartbeat_note(None, seq) == (HeartbeatNote { new_client: true, lost: None }),
{
}

/// The clients of the heartbeat server: for each, when it was last heard from (in
/// nanoseconds on the server's clock) and its last sequence number.
pub struct HeartbeatMonitor {
    pub clients: AddrTable<u64>,
}

impl HeartbeatMonitor {
    /// A monitor that knows no client.
    pub fn new() -> (r: HeartbeatMonitor)
        ensures
            forall|a: PeerAddr| lookup(r.clients.entries_view(), a) is None,
    {
        HeartbeatMonitor { clients: AddrTable::new() }
    }

    /// Records heartbeat `seq` from `src`, heard at `now`.
    pub fn on_heartbeat(&mut self, src: PeerAddr, seq: u64, now: u128) -> (r: HeartbeatNote)
        ensures
            r == heartbeat_note(lookup(old(self).clients.entries_view(), src), seq),
            lookup(final(self).clients.entries_view(), src) == Some((now, seq)),
            forall|b: PeerAddr| b != src ==> lookup(final(self).clients.entries_view(), b) == lookup(
                old(self).clients.entries_view(), b),
    {
        let known = self.clients.get(src);
        let lost = match known {
            Some((_, last)) => if seq > last && seq - last > 1 {
                Some(Gap { missing: seq - last - 1, expected: last + 1 })
            } else {
                None
            },
            None => None,
        };
        self.clients.set(src, now, seq);
        HeartbeatNote { new_client: known.is_none(), lost }
    }

    /// Drops the clients not heard from for longer than `timeout` nanoseconds at `now`,
    /// and returns them.
    pub fn expire(&mut self, now: u128, timeout: u128) -> (r: Vec<PeerAddr>)
        ensures
            forall|a: PeerAddr| lookup(final(self).clients.entries_view(), a) == fresh_entry(
                lookup(old(self).clients.entries_view(), a), now, 1, timeout),
            forall|a: PeerAddr| r@.contains(a) <==> expires(lookup(old(self).clients.entries_view(), a), now, 1, timeout),
            r@.no_duplicates(),
    {
        self.clients.expire(now, 1, timeout)
    }
}

/// The echo server's answer to a datagram: its text in upper case; nothing for a datagram
/// that is not UTF-8 or that the server chose to drop.
pub open spec fn echo_answer(msg: Seq<u8>, drop: bool) -> Option<Seq<char>> {
    if !valid_utf8(msg) || drop {
        None
    } else {
        Some(uppercase_chars(decode_utf8(msg)))
    }
}

/// The echo server's reply to `msg`; `drop` is its coin toss for simulated loss.
pub fn echo_reply(msg: &[u8], drop: bool) -> (r: Option<String>)
    ensures
        match echo_answer(msg@, drop) {
            None => r is None,
            Some(t) => r matches Some(s) && s@ == t,
        },
{
    let text = match utf8_decode(msg) {
        None => {
            return None;
        },
        Some(t) => t,
    };
    if drop {
        return None;
    }
    Some(to_uppercase(text.as_str()))
}

} // verus!
