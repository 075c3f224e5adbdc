use nldb::error::NldbError;
use nldb::parser::{validate_utf8, NldbRequest};

fn parse(s: &[u8]) -> Result<NldbRequest, NldbError> {
    NldbRequest::parse(s.to_vec())
}

fn encode_varint(mut value: usize) -> Vec<u8> {
    let mut out = Vec::new();
    loop {
        let mut byte = (value & 0x7F) as u8;
        value >>= 7;
        if value != 0 {
            byte |= 0x80;
        }
        out.push(byte);
        if value == 0 {
            break;
        }
    }
    out
}

fn make_get(key: &[u8]) -> Vec<u8> {
    let mut buf = b"GET ".to_vec();
    buf.extend(encode_varint(key.len()));
    buf.extend_from_slice(key);
    buf
}

fn make_delete(key: &[u8]) -> Vec<u8> {
    let mut buf = b"DELETE ".to_vec();
    buf.extend(encode_varint(key.len()));
    buf.extend_from_slice(key);
    buf
}

fn make_insert(key: &[u8], value: &[u8]) -> Vec<u8> {
    let mut buf = b"INSERT ".to_vec();
    buf.extend(encode_varint(key.len()));
    buf.extend_from_slice(key);
    buf.extend(encode_varint(value.len()));
    buf.extend_from_slice(value);
    buf
}

#[test]
fn test_get_simple() {
    let req = parse(&make_get(b"foo")).unwrap();
    let NldbRequest::Get { key } = req else {
        panic!("wrong variant")
    };
    assert_eq!(key, b"foo");
}

#[test]
fn test_get_case_insensitive_command() {
    let mut buf = b"get ".to_vec();
    buf.extend(encode_varint(3));
    buf.extend_from_slice(b"foo");
    let req = parse(&buf).unwrap();
    assert!(matches!(req, NldbRequest::Get { .. }));
}

#[test]
fn test_get_key_with_spaces() {
    let req = parse(&make_get(b"hello world")).unwrap();
    let NldbRequest::Get { key } = req else {
        panic!()
    };
    assert_eq!(key, b"hello world");
}

#[test]
fn test_get_multibyte_key_varint() {
    let key = vec![b'k'; 200];
    let req = parse(&make_get(&key)).unwrap();
    let NldbRequest::Get { key: parsed_key } = req else {
        panic!()
    };
    assert_eq!(parsed_key.len(), 200);
}

#[test]
fn test_delete_simple() {
    let req = parse(&make_delete(b"bar")).unwrap();
    let NldbRequest::Delete { key } = req else {
        panic!()
    };
    assert_eq!(key, b"bar");
}

#[test]
fn test_insert_simple() {
    let req = parse(&make_insert(b"mykey", b"myvalue")).unwrap();
    let NldbRequest::Insert { key, value } = req else {
        panic!()
    };
    assert_eq!(key, b"mykey");
    assert_eq!(value, b"myvalue");
}

#[test]
fn test_insert_value_with_spaces() {
    let req = parse(&make_insert(b"k", b"hello world")).unwrap();
    let NldbRequest::Insert { value, .. } = req else {
        panic!()
    };
    assert_eq!(value, b"hello world");
}

#[test]
fn test_insert_binary_value() {
    let value = vec![0u8, 1, 2, 255, 128];
    let req = parse(&make_insert(b"k", &value)).unwrap();
    let NldbRequest::Insert { value: parsed, .. } = req else {
        panic!()
    };
    assert_eq!(parsed, value);
}

#[test]
fn test_unknown_command_errors() {
    assert!(parse(b"FOOBAR \x03foo").is_err());
}

#[test]
fn test_empty_payload_errors() {
    assert!(parse(b"").is_err());
}

#[test]
fn test_command_only_no_space_errors() {
    assert!(parse(b"GET").is_err());
}

#[test]
fn test_empty_key_errors() {
    let buf = b"GET \x00".to_vec();
    assert!(parse(&buf).is_err());
}

#[test]
fn test_get_key_len_exceeds_buffer_errors() {
    let mut buf = b"GET ".to_vec();
    buf.extend(encode_varint(100));
    buf.extend_from_slice(b"short");
    assert!(parse(&buf).is_err());
}

#[test]
fn test_insert_value_len_exceeds_buffer_errors() {
    let mut buf = b"INSERT ".to_vec();
    buf.extend(encode_varint(3));
    buf.extend_from_slice(b"key");
    buf.extend(encode_varint(100));
    buf.extend_from_slice(b"tiny");
    assert!(parse(&buf).is_err());
}

#[test]
fn test_mixed_case_delete_and_insert() {
    assert!(matches!(parse(&{
        let mut b = b"DeLeTe ".to_vec();
        b.extend(encode_varint(1));
        b.push(b'x');
        b
    }), Ok(NldbRequest::Delete { .. })));
    assert!(matches!(parse(&{
        let mut b = b"insert ".to_vec();
        b.extend(encode_varint(1));
        b.push(b'x');
        b.extend(encode_varint(0));
        b
    }), Ok(NldbRequest::Insert { .. })));
}

#[test]
fn test_non_utf8_key_errors() {
    let buf = make_get(&[0xFF, 0xFE]);
    assert!(matches!(parse(&buf), Err(NldbError::InvalidQuery)));
    let req = parse(&make_get("héllo".as_bytes())).unwrap();
    assert_eq!(req, NldbRequest::Get { key: "héllo".as_bytes().to_vec() });
}

#[test]
fn test_malformed_key_varint_errors() {
    let mut buf = b"GET ".to_vec();
    buf.extend_from_slice(&[0x80; 10]);
    assert!(matches!(parse(&buf), Err(NldbError::InvalidQuery)));
    let buf = b"GET ".to_vec();
    assert!(matches!(parse(&buf), Err(NldbError::InvalidQuery)));
}

#[test]
fn test_huge_key_len_errors() {
    let mut buf = b"GET ".to_vec();
    buf.extend(encode_varint(usize::MAX));
    buf.extend_from_slice(b"k");
    assert!(matches!(parse(&buf), Err(NldbError::InvalidQuery)));
}

#[test]
fn test_trailing_bytes_ignored() {
    let mut buf = make_get(b"foo");
    buf.extend_from_slice(b"junk");
    assert_eq!(parse(&buf).unwrap(), NldbRequest::Get { key: b"foo".to_vec() });
}

#[test]
fn utf8_validation_matches_std() {
    let samples: Vec<Vec<u8>> = vec![
        b"plain".to_vec(),
        "ünïcödé €𝄞".as_bytes().to_vec(),
        vec![0xC0, 0x80],
        vec![0xED, 0xA0, 0x80],
        vec![0xF4, 0x90, 0x80, 0x80],
        vec![0xE2, 0x82],
        vec![0xF0, 0x9F, 0x98, 0x80],
        vec![],
    ];
    for s in samples {
        assert_eq!(validate_utf8(&s), std::str::from_utf8(&s).is_ok(), "{s:?}");
    }
}
