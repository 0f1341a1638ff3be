use bittorrent_core::bencode::BencodeValue;
use bittorrent_core::bencode_decode::decode;
use bittorrent_core::bencode_encode::encode;
use serde_bencode::value::Value;
use std::collections::HashMap;

fn as_serde(value: &BencodeValue) -> Value {
    match value {
        BencodeValue::Integer(i) => Value::Int(*i),
        BencodeValue::ByteString(b) => Value::Bytes(b.clone()),
        BencodeValue::List(items) => Value::List(items.iter().map(as_serde).collect()),
        BencodeValue::Dictionary(entries) => {
            let mut map = HashMap::new();
            for (key, value) in entries {
                map.insert(key.clone(), as_serde(value));
            }
            Value::Dict(map)
        }
    }
}

fn samples() -> Vec<BencodeValue> {
    let text = |s: &str| BencodeValue::ByteString(s.as_bytes().to_vec());
    vec![
        BencodeValue::Integer(0),
        BencodeValue::Integer(-1),
        BencodeValue::Integer(i64::MAX),
        BencodeValue::Integer(i64::MIN),
        text(""),
        text("spam"),
        BencodeValue::ByteString((0..=255).collect()),
        BencodeValue::List(Vec::new()),
        BencodeValue::List(vec![text("a"), BencodeValue::Integer(7), BencodeValue::List(vec![text("")])]),
        BencodeValue::Dictionary(Vec::new()),
        BencodeValue::Dictionary(vec![
            (b"zeta".to_vec(), BencodeValue::Integer(1)),
            (b"alpha".to_vec(), text("x")),
            (b"".to_vec(), BencodeValue::List(Vec::new())),
            (vec![0xff, 0x00], BencodeValue::Integer(-9)),
            (b"alphabet".to_vec(), BencodeValue::Dictionary(vec![
                (b"b".to_vec(), BencodeValue::Integer(2)),
                (b"a".to_vec(), BencodeValue::Integer(1)),
            ])),
        ]),
    ]
}

#[test]
fn encodes_as_serde_bencode_does() {
    for value in samples() {
        assert_eq!(encode(&value), serde_bencode::to_bytes(&as_serde(&value)).unwrap());
    }
}

#[test]
fn decodes_as_serde_bencode_does() {
    for value in samples() {
        let bytes = encode(&value);
        let (ours, rest) = decode(&bytes).unwrap();
        assert!(rest.is_empty());
        let theirs: Value = serde_bencode::from_bytes(&bytes).unwrap();
        assert_eq!(as_serde(&ours), theirs);
    }
}
