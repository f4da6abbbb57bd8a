//! The CRC32C checksum and the name hash.

use bafs::checksum::{
    build_crc32c_lookup_table, compute_crc32c, verify_crc32c, write_checksum_into_buffer_header,
};
use bafs::dir::xxhash64_with_seed_zero;

#[test]
fn standard_crc32c_test_vector_produces_correct_result() {
    let input = b"123456789";
    let expected = 0xE306_9283u32;
    assert_eq!(compute_crc32c(input), expected);
}

#[test]
fn empty_input_produces_zero_checksum() {
    assert_eq!(compute_crc32c(b""), 0x0000_0000);
}

#[test]
fn verify_accepts_correct_checksum() {
    let data = b"hello, bafs filesystem";
    let checksum = compute_crc32c(data);
    assert!(verify_crc32c(data, checksum));
}

#[test]
fn verify_rejects_corrupted_data() {
    let data = b"hello, bafs filesystem";
    let checksum = compute_crc32c(data);
    let mut corrupted = data.to_vec();
    corrupted[0] ^= 0x01;
    assert!(!verify_crc32c(&corrupted, checksum));
}

#[test]
fn every_single_byte_change_is_detected() {
    let data = b"hello, bafs filesystem";
    let checksum = compute_crc32c(data);
    for position in 0..data.len() {
        for change in 1..=255u8 {
            let mut corrupted = data.to_vec();
            corrupted[position] ^= change;
            assert!(!verify_crc32c(&corrupted, checksum));
        }
    }
}

#[test]
fn further_crc32c_test_vectors() {
    assert_eq!(compute_crc32c(&[0u8; 32]), 0x8A91_36AA);
    assert_eq!(compute_crc32c(&[0xFFu8; 32]), 0x62A8_AB43);
    let ascending: Vec<u8> = (0..32).collect();
    assert_eq!(compute_crc32c(&ascending), 0x46DD_794E);
}

#[test]
fn lookup_table_has_known_entries() {
    let table = build_crc32c_lookup_table();
    assert_eq!(table[0], 0);
    assert_eq!(table[1], 0xF26B_8303);
    assert_eq!(table[128], 0x82F6_3B78);
}

#[test]
fn checksum_goes_into_the_first_four_bytes() {
    let mut buffer = vec![0xAAu8; 8];
    write_checksum_into_buffer_header(b"123456789", &mut buffer);
    assert_eq!(&buffer[..4], &0xE306_9283u32.to_le_bytes());
    assert_eq!(&buffer[4..], &[0xAA; 4]);
}

#[test]
fn xxhash64_empty_string_matches_reference_vector() {
    assert_eq!(xxhash64_with_seed_zero(b""), 0xEF46DB3751D8E999);
}
