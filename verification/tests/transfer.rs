use netlabs::addr::PeerAddr;
use netlabs::checksum::compute_checksum;
use netlabs::file_transfer::{
    client_mode, download_request, file_messages, parse_command, upload_request, ClientMode, FileObject,
    FileReceiver, ServerCommand, TransferError, CHUNK_SIZE,
};
use netlabs::stop_and_wait::{package_number_text, AckOutcome, FrameError, PackageNumber, Received, StopAndWait};

fn peer(port: u16) -> PeerAddr {
    PeerAddr { v6: false, ip: 0x7f000001, port }
}

#[test]
fn frames_and_acks_carry_the_number() {
    let mut s = StopAndWait::new();
    assert_eq!(s.current_package_number, PackageNumber::Zero);
    assert_eq!(s.frame_packet(b"data"), b"Zero\ndata".to_vec());
    assert_eq!(s.ack_packet(), b"ACK Zero\n".to_vec());
    assert_eq!(s.current_package_number, PackageNumber::One);
    assert_eq!(s.frame_packet(b""), b"One\n".to_vec());
    assert_eq!(package_number_text(PackageNumber::One), b"One".to_vec());
    s.swap_packege_number();
    assert_eq!(s.current_package_number, PackageNumber::Zero);
}

#[test]
fn receiver_delivers_fresh_and_reacks_duplicates() {
    let mut rx = StopAndWait::new();
    match rx.on_data(b"Zero\nhello") {
        Ok(Received::Fresh { payload, ack }) => {
            assert_eq!(payload, b"hello".to_vec());
            assert_eq!(ack, b"ACK Zero\n".to_vec());
        }
        _ => panic!("expected a fresh packet"),
    }
    assert_eq!(rx.current_package_number, PackageNumber::One);
    // The sender missed the ack and sends package Zero again.
    match rx.on_data(b"Zero\nhello") {
        Ok(Received::Duplicate { ack }) => assert_eq!(ack, b"ACK Zero\n".to_vec()),
        _ => panic!("expected a duplicate"),
    }
    assert_eq!(rx.current_package_number, PackageNumber::One);
    assert!(matches!(rx.on_data(b"no newline"), Err(FrameError::NoHeader)));
    assert!(matches!(rx.on_data(b"\xff\n"), Err(FrameError::HeaderNotUtf8)));
}

#[test]
fn sender_accepts_matching_ack_only() {
    let mut tx = StopAndWait::new();
    assert_eq!(tx.on_ack(b"ACK One\n"), AckOutcome::Stale);
    assert_eq!(tx.current_package_number, PackageNumber::Zero);
    assert_eq!(tx.on_ack(b"NAK Zero"), AckOutcome::Malformed);
    assert_eq!(tx.on_ack(b"ACK"), AckOutcome::Malformed);
    assert_eq!(tx.on_ack(b"  ACK   Zero \n"), AckOutcome::Accepted);
    assert_eq!(tx.current_package_number, PackageNumber::One);
}

#[test]
fn exchange_stays_in_step() {
    let mut tx = StopAndWait::new();
    let mut rx = StopAndWait::new();
    for chunk in [b"a".to_vec(), b"bb".to_vec(), b"ccc".to_vec()] {
        let packet = tx.frame_packet(&chunk);
        let ack = match rx.on_data(&packet) {
            Ok(Received::Fresh { payload, ack }) => {
                assert_eq!(payload, chunk);
                ack
            }
            _ => panic!("expected fresh data"),
        };
        assert_eq!(tx.on_ack(&ack), AckOutcome::Accepted);
        assert_eq!(tx.current_package_number, rx.current_package_number);
    }
}

#[test]
fn file_messages_layout() {
    let data: Vec<u8> = (0..(CHUNK_SIZE + 5)).map(|i| (i % 251) as u8).collect();
    let file = FileObject { path: "f.bin".to_string(), data: data.clone() };
    let msgs = file_messages(&file);
    assert_eq!(msgs.len(), 4);
    assert_eq!(msgs[0], b"2 f.bin".to_vec());
    assert_eq!(msgs[1], data[..CHUNK_SIZE].to_vec());
    assert_eq!(msgs[2], data[CHUNK_SIZE..].to_vec());
    assert_eq!(msgs[3], compute_checksum(&data).to_string().into_bytes());

    let empty = FileObject { path: "e".to_string(), data: vec![] };
    let msgs = file_messages(&empty);
    assert_eq!(msgs, vec![b"0 e".to_vec(), b"65535".to_vec()]);
}

#[test]
fn file_roundtrip() {
    let data = b"the quick brown fox".to_vec();
    let file = FileObject { path: "fox.txt".to_string(), data: data.clone() };
    let msgs = file_messages(&file);
    let mut rx = FileReceiver::new();
    let mut got = None;
    assert!(matches!(rx.on_message(peer(1), &msgs[0]), Ok(None)));
    for m in &msgs[1..] {
        // A stranger's datagram in between is skipped.
        assert!(matches!(rx.on_message(peer(9), b"noise"), Ok(None)));
        if let Some(f) = rx.on_message(peer(1), m).ok().unwrap() {
            got = Some(f);
        }
    }
    let f = got.unwrap();
    assert_eq!(f.path, "fox.txt");
    assert_eq!(f.data, data);
}

#[test]
fn receiver_errors() {
    let mut rx = FileReceiver::new();
    assert!(matches!(rx.on_message(peer(1), b"nospace"), Err(TransferError::InvalidMessage)));
    let mut rx = FileReceiver::new();
    assert!(matches!(rx.on_message(peer(1), b"x name"), Err(TransferError::BadPacketCount)));
    let mut rx = FileReceiver::new();
    assert!(matches!(rx.on_message(peer(1), b"0 name"), Ok(None)));
    assert!(matches!(rx.on_message(peer(1), b"12"), Err(TransferError::InvalidChecksum(12))));
    let mut rx = FileReceiver::new();
    assert!(matches!(rx.on_message(peer(1), b"0 name"), Ok(None)));
    assert!(matches!(rx.on_message(peer(1), b"abc"), Err(TransferError::BadChecksum)));
    let mut rx = FileReceiver::new();
    assert!(matches!(rx.on_message(peer(1), b"0 name"), Ok(None)));
    assert!(matches!(rx.on_message(peer(1), b"\xff"), Err(TransferError::ChecksumNotText)));
}

#[test]
fn server_commands() {
    assert!(matches!(parse_command(b"UPLOAD"), ServerCommand::Upload));
    assert!(matches!(parse_command(b"UPLOADING now"), ServerCommand::Upload));
    match parse_command(b"DOWNLOAD a.txt") {
        ServerCommand::Download(n) => assert_eq!(n, "a.txt"),
        _ => panic!("expected a download"),
    }
    assert!(matches!(parse_command(b"DOWNLOAD"), ServerCommand::BadDownload));
    assert!(matches!(parse_command(b"DOWNLOAD a b"), ServerCommand::BadDownload));
    assert!(matches!(parse_command(b"upload"), ServerCommand::Unknown));
    assert_eq!(upload_request(), b"UPLOAD".to_vec());
    assert_eq!(download_request("x.bin"), b"DOWNLOAD x.bin".to_vec());
}

#[test]
fn client_modes() {
    assert_eq!(client_mode("  Upload \n"), ClientMode::Upload);
    assert_eq!(client_mode("DOWNLOAD"), ClientMode::Download);
    assert_eq!(client_mode("send"), ClientMode::Invalid);
}
