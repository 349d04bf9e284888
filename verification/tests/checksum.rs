use netlabs::checksum::{compute_checksum, verify_checksum};
use netlabs::ping::checksum;

#[test]
fn test_checksum_valid() {
    let data = b"bebebe bababa((";

    let checksum = compute_checksum(&Vec::from(data));
    assert!(verify_checksum(Vec::from(data), checksum));
}

#[test]
fn test_checksum_invalid() {
    let data = b"bebebe bababa))";
    let mut corrupted = data.to_vec();

    corrupted[0] ^= 0xFF;

    let checksum = compute_checksum(&Vec::from(data));
    assert!(!verify_checksum(corrupted, checksum));
}

#[test]
fn test_checksum_collision() {
    let data1 = [0x00u8, 0x01, 0x00, 0x02];
    let data2 = [0x00u8, 0x02, 0x00, 0x01];

    let checksum = compute_checksum(&Vec::from(data1));

    assert!(verify_checksum(Vec::from(data2), checksum));

    assert_ne!(data1, data2);
}

#[test]
fn checksum_of_known_words() {
    // 0x0001 + 0x0002 = 0x0003, complemented.
    assert_eq!(compute_checksum(&vec![0x00, 0x01, 0x00, 0x02]), 0xFFFC);
    // An odd byte counts as the high byte of a last word.
    assert_eq!(compute_checksum(&vec![0x01]), !0x0100u16);
    assert_eq!(compute_checksum(&vec![]), 0xFFFF);
}

#[test]
fn checksum_folds_carries() {
    // 0xFFFF + 0x0002 = 0x10001, folded to 0x0002, complemented.
    assert_eq!(compute_checksum(&vec![0xFF, 0xFF, 0x00, 0x02]), !0x0002u16);
}

#[test]
fn computed_checksum_always_verifies() {
    for data in [vec![], vec![7u8], b"hello world".to_vec(), vec![0xFF; 100]] {
        let c = compute_checksum(&data);
        assert!(verify_checksum(data.clone(), c));
    }
}

#[test]
fn ping_checksum_equals_transfer_checksum() {
    let data = b"some bytes for both checksums!".to_vec();
    assert_eq!(checksum(&data), compute_checksum(&data));
}

#[test]
fn inverting_any_byte_is_detected() {
    let data = b"stop and wait".to_vec();
    let c = compute_checksum(&data);
    for i in 0..data.len() {
        let mut corrupted = data.clone();
        corrupted[i] ^= 0xFF;
        assert!(!verify_checksum(corrupted, c));
    }
    let zeros = vec![0u8; 6];
    let c = compute_checksum(&zeros);
    let mut corrupted = zeros.clone();
    corrupted[3] ^= 0xFF;
    assert!(!verify_checksum(corrupted, c));
}

#[test]
fn zero_padding_and_word_order_keep_the_checksum() {
    let odd = b"abc".to_vec();
    let mut padded = odd.clone();
    padded.push(0);
    assert_eq!(compute_checksum(&odd), compute_checksum(&padded));
    let words = vec![0x12u8, 0x34, 0xab, 0xcd, 0x00, 0x07];
    let rotated = vec![0x00u8, 0x07, 0x12, 0x34, 0xab, 0xcd];
    assert_eq!(compute_checksum(&words), compute_checksum(&rotated));
}
