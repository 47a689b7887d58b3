use gm_save_core::bytes_le::{push_le, read_u32_le, read_u64_le};
use gm_save_core::format::{
    encode_slot_file, i64_from_bits, i64_to_bits, parse_header, FORMAT_VERSION, HEADER_SIZE,
};
use gm_save_core::SaveError;

#[test]
fn little_endian_u32_reads_low_byte_first() {
    let data = [0x78u8, 0x56, 0x34, 0x12, 0xff];
    assert_eq!(read_u32_le(&data, 0), 0x1234_5678);
    assert_eq!(read_u32_le(&data, 1), 0xff12_3456);
}

#[test]
fn little_endian_u64_reads_low_byte_first() {
    let data = [1u8, 2, 3, 4, 5, 6, 7, 8];
    assert_eq!(read_u64_le(&data, 0), 0x0807_0605_0403_0201);
}

#[test]
fn push_le_writes_low_bytes_only() {
    let mut buf = vec![9u8];
    push_le(&mut buf, 0x1_2345_6789, 4);
    assert_eq!(buf, vec![9, 0x89, 0x67, 0x45, 0x23]);
}

#[test]
fn i64_bits_are_twos_complement() {
    assert_eq!(i64_to_bits(-1), u64::MAX);
    assert_eq!(i64_to_bits(5), 5);
    assert_eq!(i64_to_bits(i64::MIN), 1u64 << 63);
    assert_eq!(i64_from_bits(u64::MAX), -1);
    assert_eq!(i64_from_bits(1u64 << 63), i64::MIN);
    assert_eq!(i64_from_bits(42), 42);
}

#[test]
fn encoded_file_has_documented_layout() {
    let salt = [0xAAu8; 16];
    let nonce = [0xBBu8; 12];
    let payload = [1u8, 2, 3];
    let f = encode_slot_file(&salt, &nonce, 0x0102_0304_0506_0708, &payload);
    assert_eq!(f.len(), HEADER_SIZE + 3);
    assert_eq!(&f[0..4], b"GMSV");
    assert_eq!(&f[4..8], &[1, 0, 0, 0]);
    assert_eq!(&f[8..24], &salt[..]);
    assert_eq!(&f[24..36], &nonce[..]);
    assert_eq!(&f[36..44], &[8, 7, 6, 5, 4, 3, 2, 1]);
    assert_eq!(&f[44..48], &[3, 0, 0, 0]);
    assert_eq!(&f[48..], &payload[..]);
}

#[test]
fn parse_header_reads_back_encoded_fields() {
    let salt = [3u8; 16];
    let nonce = [4u8; 12];
    let f = encode_slot_file(&salt, &nonce, -17, &[0u8; 20]);
    let h = parse_header(&f).unwrap();
    assert_eq!(h.version, FORMAT_VERSION);
    assert_eq!(h.salt, salt);
    assert_eq!(h.nonce, nonce);
    assert_eq!(h.timestamp, -17);
    assert_eq!(h.payload_len, 20);
}

#[test]
fn parse_header_rejects_short_data() {
    match parse_header(&[0x47, 0x4d, 0x53, 0x56]) {
        Err(SaveError::InvalidFormat(m)) => assert_eq!(m, "file is too short"),
        _ => panic!("expected a format error"),
    }
}

#[test]
fn parse_header_rejects_bad_magic() {
    let mut f = encode_slot_file(&[0u8; 16], &[0u8; 12], 0, &[]);
    f[3] = b'X';
    match parse_header(&f) {
        Err(SaveError::InvalidFormat(m)) => assert_eq!(m, "bad magic bytes"),
        _ => panic!("expected a format error"),
    }
}

#[test]
fn parse_header_does_not_check_version() {
    let mut f = encode_slot_file(&[0u8; 16], &[0u8; 12], 0, &[]);
    f[4] = 9;
    assert_eq!(parse_header(&f).unwrap().version, 9);
}
