use kvs::codec::{decode_at, encode, Command};

#[test]
fn encode_set_record() {
    let c = Command::Put { key: "k1".to_owned(), value: "v1".to_owned() };
    assert_eq!(encode(&c), b"{\"Set\":{\"key\":\"k1\",\"value\":\"v1\"}}".to_vec());
}

#[test]
fn encode_remove_record() {
    let c = Command::Rm { key: "k1".to_owned() };
    assert_eq!(encode(&c), b"{\"Rm\":{\"key\":\"k1\"}}".to_vec());
}

#[test]
fn encode_escapes_quote_and_backslash() {
    let c = Command::Rm { key: "a\"b\\c".to_owned() };
    assert_eq!(encode(&c), b"{\"Rm\":{\"key\":\"a\\\"b\\\\c\"}}".to_vec());
}

#[test]
fn decode_after_other_record() {
    let mut bytes = encode(&Command::Rm { key: "x".to_owned() });
    let start = bytes.len();
    bytes.extend(encode(&Command::Put { key: "q\"".to_owned(), value: "é".to_owned() }));
    match decode_at(&bytes, start) {
        Some((Command::Put { key, value }, end)) => {
            assert_eq!(key, "q\"");
            assert_eq!(value, "é");
            assert_eq!(end, bytes.len());
        }
        _ => panic!("record not decoded"),
    }
}

#[test]
fn decode_rejects_truncated_and_invalid() {
    let bytes = encode(&Command::Put { key: "k".to_owned(), value: "v".to_owned() });
    let cut = bytes[..bytes.len() - 1].to_vec();
    assert!(decode_at(&cut, 0).is_none());
    assert!(decode_at(&b"{\"Set\":{\"key\":\"k\\n\"}}".to_vec(), 0).is_none());
    let bad_utf8 = b"{\"Rm\":{\"key\":\"\xff\"}}".to_vec();
    assert!(decode_at(&bad_utf8, 0).is_none());
    assert!(decode_at(&Vec::new(), 0).is_none());
}

#[test]
fn encode_escapes_control_bytes() {
    let c = Command::Rm { key: "a\nb\t\u{1}\u{1f}".to_owned() };
    assert_eq!(encode(&c), b"{\"Rm\":{\"key\":\"a\\nb\\t\\u0001\\u001f\"}}".to_vec());
}

#[test]
fn decode_accepts_json_escapes() {
    let bytes = b"{\"Set\":{\"key\":\"a\\/b\\u0041\\u004A\",\"value\":\"x\\r\\b\\f\"}}".to_vec();
    match decode_at(&bytes, 0) {
        Some((Command::Put { key, value }, end)) => {
            assert_eq!(key, "a/bAJ");
            assert_eq!(value, "x\r\u{8}\u{c}");
            assert_eq!(end, bytes.len());
        }
        _ => panic!("record not decoded"),
    }
}

#[test]
fn decode_rejects_raw_control_and_wide_escapes() {
    assert!(decode_at(&b"{\"Rm\":{\"key\":\"a\nb\"}}".to_vec(), 0).is_none());
    assert!(decode_at(&b"{\"Rm\":{\"key\":\"\\u00e9\"}}".to_vec(), 0).is_none());
    assert!(decode_at(&b"{\"Rm\":{\"key\":\"\\q\"}}".to_vec(), 0).is_none());
}
