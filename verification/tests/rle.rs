use chip8_core::rle::{decode_rle, decode_rle_u32, encode_rle, encode_rle_u32};

#[test]
fn round_trip_empty() {
    let data: Vec<u8> = vec![];
    assert_eq!(decode_rle(&encode_rle(&data)), data);
}

#[test]
fn round_trip_all_zero() {
    let data = vec![0u8; 1000];
    let enc = encode_rle(&data);
    assert_eq!(enc, vec![0x00, 0xE8, 0x03, 0x00, 0x00]);
    assert_eq!(decode_rle(&enc), data);
}

#[test]
fn round_trip_no_zero() {
    let data = vec![1u8, 2, 3, 255, 7];
    let enc = encode_rle(&data);
    assert_eq!(enc, data);
    assert_eq!(decode_rle(&enc), data);
}

#[test]
fn round_trip_mixed() {
    let data = vec![0u8, 0, 5, 0, 0, 0, 9, 9, 0];
    let enc = encode_rle(&data);
    assert_eq!(
        enc,
        vec![0x00, 2, 0, 0, 0, 5, 0x00, 3, 0, 0, 0, 9, 9, 0x00, 1, 0, 0, 0]
    );
    assert_eq!(decode_rle(&enc), data);
}

#[test]
fn round_trip_large_memory_image() {
    let mut data = vec![0u8; 0xFFFF];
    data[0x200] = 0xAB;
    data[0x201] = 0xCD;
    data[0xFFFE] = 0x01;
    assert_eq!(decode_rle(&encode_rle(&data)), data);
}

#[test]
fn round_trip_u32_empty() {
    let data: Vec<u32> = vec![];
    assert_eq!(decode_rle_u32(&encode_rle_u32(&data)), data);
}

#[test]
fn round_trip_u32_all_zero() {
    let data = vec![0u32; 64];
    let enc = encode_rle_u32(&data);
    assert_eq!(enc, vec![0x00, 64, 0, 0, 0]);
    assert_eq!(decode_rle_u32(&enc), data);
}

#[test]
fn round_trip_u32_mixed() {
    // Nonzero words whose low byte is nonzero survive the round trip; a
    // word such as 0x100 would not, since its first little-endian byte is
    // the zero marker.
    let data = vec![0u32, 0, 0xDEADBEEF, 0x01, 0, 0xFFFFFFFF];
    let enc = encode_rle_u32(&data);
    assert_eq!(decode_rle_u32(&enc), data);
}

#[test]
fn u32_values_little_endian() {
    let enc = encode_rle_u32(&vec![0x01020304u32]);
    assert_eq!(enc, vec![0x04, 0x03, 0x02, 0x01]);
}

#[test]
fn truncated_marker_returns_prefix() {
    // [5] then a run of three zeros; cutting the run marker short decodes
    // to the prefix before the run.
    let data = vec![5u8, 0, 0, 0];
    let enc = encode_rle(&data);
    assert_eq!(enc, vec![5, 0x00, 3, 0, 0, 0]);
    for cut in 1..=4 {
        let truncated = &enc[..enc.len() - cut];
        assert_eq!(decode_rle(truncated), vec![5u8]);
    }
}

#[test]
fn truncated_u32_marker_returns_prefix() {
    let data = vec![7u32, 0, 0];
    let enc = encode_rle_u32(&data);
    for cut in 1..=4 {
        let truncated = &enc[..enc.len() - cut];
        assert_eq!(decode_rle_u32(truncated), vec![7u32]);
    }
}

#[test]
fn truncated_u32_value_returns_prefix() {
    // A trailing value cut to fewer than four bytes is dropped.
    let enc = vec![0x05u8, 0, 0, 0, 0x06, 0, 0];
    assert_eq!(decode_rle_u32(&enc), vec![0x05u32]);
}

#[test]
fn decode_bare_marker_byte() {
    assert_eq!(decode_rle(&[0x00]), Vec::<u8>::new());
    assert_eq!(decode_rle_u32(&[0x00]), Vec::<u32>::new());
}
