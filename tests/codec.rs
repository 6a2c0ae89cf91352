use kvs::{decode_command, encode_command, read_value, Command, KvStoreError};

fn set_cmd(k: &str, v: &str) -> Command {
    Command::Put { key: k.to_string(), value: v.to_string() }
}

fn json_of_set(k: &str, v: &str) -> Vec<u8> {
    let mut inner = serde_json::Map::new();
    inner.insert("key".to_string(), serde_json::Value::String(k.to_string()));
    inner.insert("value".to_string(), serde_json::Value::String(v.to_string()));
    let mut outer = serde_json::Map::new();
    outer.insert("Set".to_string(), serde_json::Value::Object(inner));
    serde_json::to_vec(&serde_json::Value::Object(outer)).unwrap()
}

#[test]
fn encode_set_record_bytes() {
    let bytes = encode_command(&set_cmd("a", "1"));
    assert_eq!(bytes, b"{\"Set\":{\"key\":\"a\",\"value\":\"1\"}}".to_vec());
}

#[test]
fn encode_remove_record_bytes() {
    let bytes = encode_command(&Command::Remove { key: "key1".to_string() });
    assert_eq!(bytes, b"{\"Remove\":{\"key\":\"key1\"}}".to_vec());
}

#[test]
fn encode_escapes_like_serde_json() {
    let cases = [
        ("quote\"d", "back\\slash"),
        ("line\nbreak", "tab\there"),
        ("ctl\u{1}\u{1f}", "bell\u{8}\u{c}\r"),
        ("caf\u{e9}", "\u{1f600} \u{7f}"),
        ("", ""),
    ];
    for (k, v) in cases.iter() {
        assert_eq!(encode_command(&set_cmd(k, v)), json_of_set(k, v));
    }
}

#[test]
fn decode_round_trip() {
    let cmds = vec![set_cmd("k\"1", "v\n\u{2}\u{e9}"), Command::Remove { key: "x".to_string() }];
    for c in cmds.iter() {
        let bytes = encode_command(c);
        let (back, n) = decode_command(&bytes, 0).unwrap();
        assert_eq!(n, bytes.len());
        assert_eq!(encode_command(&back), bytes);
    }
}

#[test]
fn decode_reports_record_boundaries() {
    let a = encode_command(&set_cmd("a", "1"));
    let b = encode_command(&Command::Remove { key: "a".to_string() });
    let mut stream = a.clone();
    stream.extend_from_slice(&b);
    let (first, n1) = decode_command(&stream, 0).unwrap();
    assert_eq!(n1, a.len());
    assert!(matches!(first, Command::Put { .. }));
    let (second, n2) = decode_command(&stream, n1).unwrap();
    assert_eq!(n2, b.len());
    assert!(matches!(second, Command::Remove { .. }));
}

#[test]
fn decode_rejects_truncated_record() {
    let a = encode_command(&set_cmd("a", "1"));
    assert!(decode_command(&a[..a.len() - 1], 0).is_none());
    assert!(decode_command(b"{\"Get\":{\"key\":\"a\"}}", 0).is_none());
    assert!(decode_command(b"", 0).is_none());
}

#[test]
fn read_value_of_set_record() {
    let bytes = encode_command(&set_cmd("k", "value \"quoted\""));
    assert_eq!(read_value(&bytes).unwrap(), "value \"quoted\"");
}

#[test]
fn read_value_of_remove_record_is_unexpected() {
    let bytes = encode_command(&Command::Remove { key: "k".to_string() });
    assert!(matches!(read_value(&bytes), Err(KvStoreError::UnexpectedCommandType)));
}

#[test]
fn read_value_with_trailing_bytes_is_decode_error() {
    let mut bytes = encode_command(&set_cmd("k", "v"));
    bytes.push(b' ');
    assert!(matches!(read_value(&bytes), Err(KvStoreError::DecodeErr)));
    assert!(matches!(read_value(b"garbage"), Err(KvStoreError::DecodeErr)));
}
