use netlabs::addr::PeerAddr;
use netlabs::heartbeat::{echo_reply, parse_heartbeat, parse_interval, Gap, HeartbeatMonitor, HeartbeatNote};
use netlabs::peers::{bye_message, heartbeat_message, hello_message, PeerDirectory, PeerEvent, BROADCAST_PORT};
use netlabs::ping::{
    build_echo_request, build_icmp_packet, checksum, classify_ping_reply, classify_trace_reply,
    icmp_error_description, probes_per_hop, PingReply, TraceReply,
};
use netlabs::table::AddrTable;

fn host(ip: u128, port: u16) -> PeerAddr {
    PeerAddr { v6: false, ip, port }
}

fn args(v: &[&str]) -> Vec<String> {
    v.iter().map(|s| s.to_string()).collect()
}

#[test]
fn trace_packet_layout_and_checksum() {
    let p = build_icmp_packet(0x0102, 0x0a0b);
    assert_eq!(p[0], 8);
    assert_eq!(p[1], 0);
    assert_eq!(&p[4..8], &[0x0a, 0x0b, 0x01, 0x02]);
    assert!(p[8..].iter().all(|b| *b == 0));
    assert_eq!(checksum(&p), 0);
    let mut zeroed = p;
    zeroed[2] = 0;
    zeroed[3] = 0;
    assert_eq!(u16::from_be_bytes([p[2], p[3]]), checksum(&zeroed));
}

#[test]
fn ping_packet_carries_timestamp() {
    let ts: u128 = 0x0102030405060708090a0b0c0d0e0f10;
    let p = build_echo_request(7, 99, ts);
    assert_eq!(p[0], 8);
    assert_eq!(&p[4..8], &[0, 99, 0, 7]);
    assert_eq!(&p[8..24], &ts.to_be_bytes());
    assert!(p[24..].iter().all(|b| *b == 0));
    assert_eq!(checksum(&p), 0);
}

#[test]
fn icmp_error_texts() {
    assert_eq!(icmp_error_description(3, 1), "Destination host unreachable");
    assert_eq!(icmp_error_description(3, 9), "Destination unreachable (code 9)");
    assert_eq!(icmp_error_description(11, 0), "TTL expired");
    assert_eq!(icmp_error_description(11, 5), "Time exceeded (code 5)");
    assert_eq!(icmp_error_description(5, 1), "ICMP error type=5, code=1");
}

#[test]
fn reading_replies() {
    let mut d = vec![0x45u8];
    d.extend_from_slice(&[0u8; 19]);
    let mut echo = d.clone();
    echo.extend_from_slice(&[0, 0, 0, 0, 0, 1, 0x01, 0x02]);
    assert_eq!(classify_ping_reply(&echo), PingReply::Echo { seq: 0x0102 });
    assert!(matches!(classify_trace_reply(&echo), TraceReply::EchoReply));
    let mut unreach = d.clone();
    unreach.extend_from_slice(&[3, 3, 0, 0, 0, 0, 0, 0]);
    assert_eq!(classify_ping_reply(&unreach), PingReply::Unreachable { code: 3 });
    let mut ttl = d.clone();
    ttl.extend_from_slice(&[11, 0, 0, 0, 0, 0, 0, 0]);
    assert_eq!(classify_ping_reply(&ttl), PingReply::TimeExceeded { code: 0 });
    assert!(matches!(classify_trace_reply(&ttl), TraceReply::TimeExceeded));
    let mut short = d.clone();
    short.extend_from_slice(&[0, 0, 0]);
    assert_eq!(classify_ping_reply(&short), PingReply::Ignored);
    assert!(matches!(classify_trace_reply(&short), TraceReply::Malformed));
    let mut other = d.clone();
    other.extend_from_slice(&[8, 0, 0, 0, 0, 0, 0, 0]);
    assert_eq!(classify_ping_reply(&other), PingReply::Other { kind: 8 });
    assert!(matches!(classify_trace_reply(&other), TraceReply::Other(8)));
}

#[test]
fn trace_probe_count() {
    assert_eq!(probes_per_hop(&args(&["trace", "host"])), 3);
    assert_eq!(probes_per_hop(&args(&["trace", "host", "5"])), 5);
    assert_eq!(probes_per_hop(&args(&["trace", "host", "x"])), 3);
}

#[test]
fn interval_argument() {
    assert_eq!(parse_interval(&args(&["srv"])), 1000);
    assert_eq!(parse_interval(&args(&["srv", "--interval-ms", "250"])), 250);
    assert_eq!(parse_interval(&args(&["srv", "--interval-ms", "abc"])), 5000);
    assert_eq!(parse_interval(&args(&["srv", "--interval-ms"])), 1000);
}

#[test]
fn heartbeat_fields() {
    assert_eq!(parse_heartbeat(b"5 1700000000.123456"), Some((5, "1700000000.123456".to_string())));
    assert_eq!(parse_heartbeat(b"x 1.0"), Some((0, "1.0".to_string())));
    assert_eq!(parse_heartbeat(b"1 2 3"), None);
    assert_eq!(parse_heartbeat(b""), None);
}

#[test]
fn heartbeat_loss_and_timeout() {
    let mut m = HeartbeatMonitor::new();
    let a = host(1, 5000);
    let b = host(2, 5000);
    assert_eq!(m.on_heartbeat(a, 1, 10), HeartbeatNote { new_client: true, lost: None });
    assert_eq!(m.on_heartbeat(a, 2, 20), HeartbeatNote { new_client: false, lost: None });
    assert_eq!(
        m.on_heartbeat(a, 5, 30),
        HeartbeatNote { new_client: false, lost: Some(Gap { missing: 2, expected: 3 }) }
    );
    assert_eq!(m.on_heartbeat(b, 9, 100), HeartbeatNote { new_client: true, lost: None });
    assert_eq!(m.clients.get(a), Some((30, 5)));
    let gone = m.expire(100, 50);
    assert_eq!(gone, vec![a]);
    assert_eq!(m.clients.get(a), None);
    assert_eq!(m.clients.get(b), Some((100, 9)));
    assert!(m.expire(150, 50).is_empty());
}

#[test]
fn echo_server_replies() {
    assert_eq!(echo_reply(b"Ping 1 x", false), Some("PING 1 X".to_string()));
    assert_eq!(echo_reply(b"Ping 1 x", true), None);
    assert_eq!(echo_reply(b"\xff", false), None);
}

#[test]
fn announcements() {
    assert_eq!(hello_message(9000), b"HELLO 9000".to_vec());
    assert_eq!(heartbeat_message(1), b"HEARTBEAT 1".to_vec());
    assert_eq!(bye_message(65535), b"BYE 65535".to_vec());
    assert_eq!(BROADCAST_PORT, 8239);
}

#[test]
fn directory_follows_announcements() {
    let mut d = PeerDirectory::new(9000);
    let sender = host(0x0a000005, 8239);
    let peer = host(0x0a000005, 9001);
    assert_eq!(d.on_message(sender, b"HELLO 9001", 1), PeerEvent::Seen { peer, is_new: true });
    assert_eq!(d.on_message(sender, b"HEARTBEAT 9001", 2), PeerEvent::Seen { peer, is_new: false });
    assert_eq!(d.peers.get(peer), Some((2, ())));
    assert_eq!(d.on_message(sender, b"HELLO 9000", 3), PeerEvent::Ignored);
    assert_eq!(d.on_message(sender, b"HELLO", 3), PeerEvent::Ignored);
    assert_eq!(d.on_message(sender, b"HELLO port", 3), PeerEvent::Ignored);
    assert_eq!(d.on_message(sender, b"WAVE 9001", 3), PeerEvent::Ignored);
    assert_eq!(d.peer_list(), vec![peer]);
    assert_eq!(d.on_message(sender, b"BYE 9001", 4), PeerEvent::Left { peer });
    assert!(d.peer_list().is_empty());
}

#[test]
fn directory_expires_silent_peers() {
    let mut d = PeerDirectory::new(1);
    let p = host(7, 2);
    d.on_message(host(7, 8239), b"HELLO 2", 0);
    // Three intervals of 2 s are 6 s; at 6.9 s the peer is still there (6 whole seconds).
    assert!(d.expire(6_900_000_000, 2).is_empty());
    assert_eq!(d.expire(7_000_000_000, 2), vec![p]);
    assert!(d.peer_list().is_empty());
}

#[test]
fn table_operations() {
    let mut t: AddrTable<u8> = AddrTable::new();
    let a = host(1, 1);
    let b = host(2, 2);
    t.set(a, 5, 1);
    t.set(b, 6, 2);
    t.set(a, 7, 3);
    assert_eq!(t.get(a), Some((7, 3)));
    assert!(t.contains(b));
    t.remove(b);
    assert!(!t.contains(b));
    assert_eq!(t.addrs(), vec![a]);
    // A peer heard from after `now` is never stale.
    assert!(t.expire(0, 1, 0).is_empty());
}
