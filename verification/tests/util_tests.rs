use nldb::util::{
    decode_untrusted_varint, decode_varint, encode_varint, generate_sstable_file_name,
    generate_wal_file_name, get_be_array2, get_be_array8, varint_size_from_len,
};
use nldb::error::NldbError;

#[test]
fn encode_single_byte_value() {
    let (buf, len) = encode_varint(1);
    assert_eq!(len, 1);
    assert_eq!(buf[0], 1);
}

#[test]
fn encode_zero() {
    let (buf, len) = encode_varint(0);
    assert_eq!(len, 1);
    assert_eq!(buf[0], 0);
}

#[test]
fn encode_max_single_byte() {
    let (buf, len) = encode_varint(127);
    assert_eq!(len, 1);
    assert_eq!(buf[0], 0x7F);
}

#[test]
fn encode_two_byte_boundary() {
    let (buf, len) = encode_varint(128);
    assert_eq!(len, 2);
    assert_eq!(buf[0], 0x80);
    assert_eq!(buf[1], 0x01);
}

#[test]
fn encode_large_value() {
    let (buf, len) = encode_varint(300);
    assert_eq!(len, 2);
    assert_eq!(buf[0], 0xAC);
    assert_eq!(buf[1], 0x02);
}

#[test]
fn decode_single_byte() {
    let buf = [0x01_u8];
    let (val, walked) = decode_varint(&buf, 0);
    assert_eq!(val, 1);
    assert_eq!(walked, 1);
}

#[test]
fn decode_zero() {
    let buf = [0x00_u8];
    let (val, walked) = decode_varint(&buf, 0);
    assert_eq!(val, 0);
    assert_eq!(walked, 1);
}

#[test]
fn decode_two_byte() {
    let buf = [0x80_u8, 0x01];
    let (val, walked) = decode_varint(&buf, 0);
    assert_eq!(val, 128);
    assert_eq!(walked, 2);
}

#[test]
fn decode_at_offset() {
    let buf = [0xFF_u8, 0x01, 0x00];
    let (val, walked) = decode_varint(&buf, 1);
    assert_eq!(val, 1);
    assert_eq!(walked, 1);
}

#[test]
fn encode_decode_roundtrip() {
    for value in [0, 1, 127, 128, 300, 16383, 16384, usize::MAX >> 1] {
        let (buf, len) = encode_varint(value);
        let (decoded, walked) = decode_varint(&buf, 0);
        assert_eq!(decoded as usize, value, "roundtrip failed for {value}");
        assert_eq!(walked, len);
    }
}

#[test]
fn get_be_array8_reads_correct_slice() {
    let buf: Vec<u8> = (0..16).collect();
    let arr = get_be_array8(&buf, 4);
    assert_eq!(arr, [4, 5, 6, 7, 8, 9, 10, 11]);
}

#[test]
fn get_be_array2_converts_correctly() {
    let buf = vec![0x01_u8, 0x00];
    let arr = get_be_array2(buf);
    assert_eq!(u16::from_be_bytes(arr), 256);
}

#[test]
fn test_single_byte() {
    let (val, walked) = decode_untrusted_varint(&[0x01], 0).unwrap();
    assert_eq!(val, 1);
    assert_eq!(walked, 1);
}

#[test]
fn test_zero() {
    let (val, walked) = decode_untrusted_varint(&[0x00], 0).unwrap();
    assert_eq!(val, 0);
    assert_eq!(walked, 1);
}

#[test]
fn test_two_byte() {
    let (val, walked) = decode_untrusted_varint(&[0x80, 0x01], 0).unwrap();
    assert_eq!(val, 128);
    assert_eq!(walked, 2);
}

#[test]
fn test_at_offset() {
    let buf = [0x00, 0x05];
    let (val, walked) = decode_untrusted_varint(&buf, 1).unwrap();
    assert_eq!(val, 5);
    assert_eq!(walked, 1);
}

#[test]
fn test_max_single_byte() {
    let (val, walked) = decode_untrusted_varint(&[0x7F], 0).unwrap();
    assert_eq!(val, 127);
    assert_eq!(walked, 1);
}

#[test]
fn test_empty_buffer_errors() {
    assert!(matches!(decode_untrusted_varint(&[], 0), Err(NldbError::InvalidQuery)));
}

#[test]
fn test_offset_at_end_errors() {
    assert!(matches!(decode_untrusted_varint(&[0x01], 1), Err(NldbError::InvalidQuery)));
}

#[test]
fn test_all_continuation_bytes_errors() {
    let buf = vec![0xFF; 10];
    assert!(matches!(decode_untrusted_varint(&buf, 0), Err(NldbError::InvalidQuery)));
}

#[test]
fn varint_size_matches_encoding() {
    for value in [0usize, 127, 128, 16383, 16384, 2097151, 2097152] {
        let (_, len) = encode_varint(value);
        assert_eq!(varint_size_from_len(value), len);
    }
    assert_eq!(varint_size_from_len(300), 2);
}

#[test]
fn max_u64_varint_takes_ten_bytes() {
    let (buf, len) = encode_varint(usize::MAX);
    assert_eq!(len, 10);
    assert_eq!(buf[9], 0x01);
    let (val, walked) = decode_untrusted_varint(&buf, 0).unwrap();
    assert_eq!(val, u64::MAX);
    assert_eq!(walked, 10);
}

#[test]
fn untrusted_varint_cut_short_errors() {
    assert!(matches!(decode_untrusted_varint(&[0x80, 0x80], 0), Err(NldbError::InvalidQuery)));
}

#[test]
fn wal_file_name_format() {
    assert_eq!(generate_wal_file_name(1700000000123456789), b"wal.1700000000123456789.log".to_vec());
    assert_eq!(generate_wal_file_name(0), b"wal.0.log".to_vec());
}

#[test]
fn sstable_file_name_format() {
    assert_eq!(generate_sstable_file_name(42), b"42.sstable".to_vec());
    assert_eq!(generate_sstable_file_name(u128::MAX), format!("{}.sstable", u128::MAX).into_bytes());
}
