use bittorrent_core::bencode::{duplicate, BencodeValue, ParseError};
use bittorrent_core::bencode_decode::{decode, decode_at, find_entry};
use bittorrent_core::bencode_encode::{encode, entry_order, key_le};

fn bytes(s: &str) -> Vec<u8> {
    s.as_bytes().to_vec()
}

fn text(s: &str) -> BencodeValue {
    BencodeValue::ByteString(bytes(s))
}

#[test]
fn decodes_an_integer() {
    let (value, rest) = decode(b"i42e").unwrap();
    assert_eq!(value, BencodeValue::Integer(42));
    assert!(rest.is_empty());
}

#[test]
fn decodes_a_negative_integer() {
    let (value, rest) = decode(b"i-52e").unwrap();
    assert_eq!(value, BencodeValue::Integer(-52));
    assert!(rest.is_empty());
}

#[test]
fn decodes_zero() {
    assert_eq!(decode(b"i0e").unwrap().0, BencodeValue::Integer(0));
}

#[test]
fn decodes_the_extreme_integers() {
    assert_eq!(decode(b"i9223372036854775807e").unwrap().0, BencodeValue::Integer(i64::MAX));
    assert_eq!(decode(b"i-9223372036854775808e").unwrap().0, BencodeValue::Integer(i64::MIN));
}

#[test]
fn refuses_an_integer_out_of_range() {
    assert_eq!(decode(b"i9223372036854775808e").unwrap_err(), ParseError::Syntax);
    assert_eq!(decode(b"i-9223372036854775809e").unwrap_err(), ParseError::Syntax);
    assert_eq!(decode(b"i99999999999999999999999999999e").unwrap_err(), ParseError::Syntax);
}

#[test]
fn refuses_a_leading_zero() {
    assert_eq!(decode(b"i042e").unwrap_err(), ParseError::Syntax);
    assert_eq!(decode(b"i00e").unwrap_err(), ParseError::Syntax);
    assert_eq!(decode(b"03:abc").unwrap_err(), ParseError::Syntax);
}

#[test]
fn refuses_minus_zero() {
    assert_eq!(decode(b"i-0e").unwrap_err(), ParseError::Syntax);
}

#[test]
fn refuses_an_integer_without_digits() {
    assert_eq!(decode(b"ie").unwrap_err(), ParseError::Syntax);
    assert_eq!(decode(b"i-e").unwrap_err(), ParseError::Syntax);
    assert_eq!(decode(b"i+5e").unwrap_err(), ParseError::Syntax);
    assert_eq!(decode(b"i5x").unwrap_err(), ParseError::Syntax);
}

#[test]
fn refuses_a_missing_terminator() {
    assert_eq!(decode(b"i42").unwrap_err(), ParseError::Syntax);
    assert_eq!(decode(b"li1e").unwrap_err(), ParseError::Syntax);
    assert_eq!(decode(b"d1:ai1e").unwrap_err(), ParseError::Syntax);
    assert_eq!(decode(b"l").unwrap_err(), ParseError::Syntax);
}

#[test]
fn refuses_an_unknown_leading_byte() {
    assert_eq!(decode(b"x").unwrap_err(), ParseError::Syntax);
    assert_eq!(decode(b"e").unwrap_err(), ParseError::Syntax);
    assert_eq!(decode(b"").unwrap_err(), ParseError::Syntax);
    assert_eq!(decode(b"-1:a").unwrap_err(), ParseError::Syntax);
}

#[test]
fn refuses_a_string_longer_than_the_input() {
    assert_eq!(decode(b"5:abc").unwrap_err(), ParseError::Syntax);
    assert_eq!(decode(b"1:").unwrap_err(), ParseError::Syntax);
    assert_eq!(decode(b"3abc").unwrap_err(), ParseError::Syntax);
    assert_eq!(decode(b"99999999999999999999999:a").unwrap_err(), ParseError::Syntax);
}

#[test]
fn refuses_a_key_that_is_no_string() {
    assert_eq!(decode(b"di1ei2ee").unwrap_err(), ParseError::Syntax);
    assert_eq!(decode(b"dli1eei2ee").unwrap_err(), ParseError::Syntax);
}

#[test]
fn decodes_a_byte_string() {
    let (value, rest) = decode(b"5:hello").unwrap();
    assert_eq!(value, text("hello"));
    assert!(rest.is_empty());
}

#[test]
fn decodes_an_empty_byte_string() {
    let (value, rest) = decode(b"0:").unwrap();
    assert_eq!(value, BencodeValue::ByteString(Vec::new()));
    assert!(rest.is_empty());
}

#[test]
fn decodes_bytes_that_are_no_text() {
    let input = [b'3', b':', 0xff, 0x00, 0x80];
    let (value, _) = decode(&input).unwrap();
    assert_eq!(value, BencodeValue::ByteString(vec![0xff, 0x00, 0x80]));
}

#[test]
fn hands_back_what_follows_the_value() {
    let (value, rest) = decode(b"4:spamrest").unwrap();
    assert_eq!(value, text("spam"));
    assert_eq!(rest, b"rest");
    let (value, rest) = decode(b"i1ei2e").unwrap();
    assert_eq!(value, BencodeValue::Integer(1));
    assert_eq!(rest, b"i2e");
}

#[test]
fn decodes_a_list() {
    let (value, rest) = decode(b"l5:helloi52ee").unwrap();
    assert_eq!(value, BencodeValue::List(vec![text("hello"), BencodeValue::Integer(52)]));
    assert!(rest.is_empty());
}

#[test]
fn decodes_an_empty_list_and_dictionary() {
    assert_eq!(decode(b"le").unwrap().0, BencodeValue::List(Vec::new()));
    assert_eq!(decode(b"de").unwrap().0, BencodeValue::Dictionary(Vec::new()));
}

#[test]
fn decodes_a_dictionary_in_the_order_it_stands() {
    let (value, rest) = decode(b"d3:foo3:bar5:helloi52ee").unwrap();
    assert_eq!(
        value,
        BencodeValue::Dictionary(vec![
            (bytes("foo"), text("bar")),
            (bytes("hello"), BencodeValue::Integer(52)),
        ])
    );
    assert!(rest.is_empty());
    let (value, _) = decode(b"d1:bi1e1:ai2ee").unwrap();
    assert_eq!(
        value,
        BencodeValue::Dictionary(vec![
            (bytes("b"), BencodeValue::Integer(1)),
            (bytes("a"), BencodeValue::Integer(2)),
        ])
    );
}

#[test]
fn decodes_nested_values() {
    let (value, rest) = decode(b"d4:listl1:ad1:xi-1eeee").unwrap();
    assert_eq!(
        value,
        BencodeValue::Dictionary(vec![(
            bytes("list"),
            BencodeValue::List(vec![
                text("a"),
                BencodeValue::Dictionary(vec![(bytes("x"), BencodeValue::Integer(-1))]),
            ]),
        )])
    );
    assert!(rest.is_empty());
}

#[test]
fn decode_at_starts_in_the_middle() {
    let (value, next) = decode_at(b"xxi7eyy", 2).unwrap();
    assert_eq!(value, BencodeValue::Integer(7));
    assert_eq!(next, 5);
    assert_eq!(decode_at(b"i7e", 3).unwrap_err(), ParseError::Syntax);
}

#[test]
fn encodes_an_integer() {
    assert_eq!(encode(&BencodeValue::Integer(-7)), b"i-7e".to_vec());
    assert_eq!(encode(&BencodeValue::Integer(0)), b"i0e".to_vec());
    assert_eq!(encode(&BencodeValue::Integer(1234567890)), b"i1234567890e".to_vec());
    assert_eq!(encode(&BencodeValue::Integer(i64::MAX)), b"i9223372036854775807e".to_vec());
    assert_eq!(encode(&BencodeValue::Integer(i64::MIN)), b"i-9223372036854775808e".to_vec());
}

#[test]
fn encodes_a_byte_string() {
    assert_eq!(encode(&text("spam")), b"4:spam".to_vec());
    assert_eq!(encode(&text("")), b"0:".to_vec());
    assert_eq!(encode(&text("0123456789")), b"10:0123456789".to_vec());
}

#[test]
fn encodes_a_list() {
    let value = BencodeValue::List(vec![text("a"), BencodeValue::Integer(1), BencodeValue::List(Vec::new())]);
    assert_eq!(encode(&value), b"l1:ai1elee".to_vec());
}

#[test]
fn encodes_a_dictionary_with_its_keys_sorted() {
    let value = BencodeValue::Dictionary(vec![
        (bytes("zebra"), BencodeValue::Integer(1)),
        (bytes("apple"), BencodeValue::Integer(2)),
        (bytes("mango"), BencodeValue::Integer(3)),
    ]);
    assert_eq!(encode(&value), b"d5:applei2e5:mangoi3e5:zebrai1ee".to_vec());
}

#[test]
fn encoding_does_not_depend_on_insertion_order() {
    let one = BencodeValue::Dictionary(vec![
        (bytes("b"), text("x")),
        (bytes("a"), text("y")),
        (bytes("c"), text("z")),
    ]);
    let other = BencodeValue::Dictionary(vec![
        (bytes("c"), text("z")),
        (bytes("a"), text("y")),
        (bytes("b"), text("x")),
    ]);
    assert_eq!(encode(&one), encode(&other));
    assert_eq!(encode(&one), b"d1:a1:y1:b1:x1:c1:ze".to_vec());
}

#[test]
fn sorts_keys_as_bytes_and_a_prefix_first() {
    let value = BencodeValue::Dictionary(vec![
        (bytes("ab"), BencodeValue::Integer(1)),
        (bytes("a"), BencodeValue::Integer(2)),
        (bytes("B"), BencodeValue::Integer(3)),
        (vec![0xff], BencodeValue::Integer(4)),
        (bytes(""), BencodeValue::Integer(5)),
    ]);
    let mut expected = b"d0:i5e1:Bi3e1:ai2e2:abi1e1:".to_vec();
    expected.push(0xff);
    expected.extend_from_slice(b"i4ee");
    assert_eq!(encode(&value), expected);
}

#[test]
fn sorts_nested_dictionaries_too() {
    let inner = BencodeValue::Dictionary(vec![
        (bytes("y"), BencodeValue::Integer(1)),
        (bytes("x"), BencodeValue::Integer(2)),
    ]);
    let value = BencodeValue::List(vec![inner]);
    assert_eq!(encode(&value), b"ld1:xi2e1:yi1eee".to_vec());
}

#[test]
fn key_order_is_that_of_bytes() {
    assert!(key_le(b"", b""));
    assert!(key_le(b"", b"a"));
    assert!(!key_le(b"a", b""));
    assert!(key_le(b"a", b"a"));
    assert!(key_le(b"a", b"ab"));
    assert!(!key_le(b"ab", b"a"));
    assert!(key_le(b"ab", b"b"));
    assert!(!key_le(b"b", b"ab"));
    assert!(key_le(&[0x7f], &[0x80]));
    assert!(!key_le(&[0xff], &[0x00]));
}

#[test]
fn entry_order_is_stable() {
    let entries = vec![
        (bytes("b"), BencodeValue::Integer(0)),
        (bytes("a"), BencodeValue::Integer(1)),
        (bytes("b"), BencodeValue::Integer(2)),
        (bytes("a"), BencodeValue::Integer(3)),
    ];
    assert_eq!(entry_order(&entries), vec![1, 3, 0, 2]);
    assert_eq!(entry_order(&Vec::new()), Vec::<usize>::new());
}

fn round_trip(value: BencodeValue) {
    let encoded = encode(&value);
    let (decoded, rest) = decode(&encoded).unwrap();
    assert_eq!(decoded, value);
    assert!(rest.is_empty());
}

#[test]
fn round_trip_of_canonical_values() {
    round_trip(BencodeValue::Integer(0));
    round_trip(BencodeValue::Integer(-1));
    round_trip(BencodeValue::Integer(i64::MIN));
    round_trip(BencodeValue::Integer(i64::MAX));
    round_trip(text(""));
    round_trip(text("e"));
    round_trip(BencodeValue::ByteString((0..=255).collect()));
    round_trip(BencodeValue::List(Vec::new()));
    round_trip(BencodeValue::Dictionary(Vec::new()));
    round_trip(BencodeValue::List(vec![text("ie"), BencodeValue::Integer(10), BencodeValue::List(vec![text("l")])]));
    round_trip(BencodeValue::Dictionary(vec![
        (bytes(""), BencodeValue::Integer(1)),
        (bytes("a"), BencodeValue::List(vec![BencodeValue::Dictionary(Vec::new())])),
        (bytes("aa"), BencodeValue::Dictionary(vec![(bytes("k"), text("v"))])),
        (bytes("b"), text("d")),
    ]));
}

#[test]
fn round_trip_sorts_what_was_not_sorted() {
    let stored = BencodeValue::Dictionary(vec![
        (bytes("b"), BencodeValue::Integer(1)),
        (bytes("a"), BencodeValue::Integer(2)),
    ]);
    let (decoded, _) = decode(&encode(&stored)).unwrap();
    assert_eq!(
        decoded,
        BencodeValue::Dictionary(vec![
            (bytes("a"), BencodeValue::Integer(2)),
            (bytes("b"), BencodeValue::Integer(1)),
        ])
    );
}

#[test]
fn encoding_what_was_decoded_gives_canonical_bytes_back() {
    let canonical: &[u8] = b"d1:ai1e1:bl1:x1:yee";
    assert_eq!(encode(&decode(canonical).unwrap().0), canonical.to_vec());
    let unsorted: &[u8] = b"d1:bi1e1:ai2ee";
    assert_eq!(encode(&decode(unsorted).unwrap().0), b"d1:ai2e1:bi1ee".to_vec());
}

#[test]
fn duplicate_is_equal() {
    let value = BencodeValue::Dictionary(vec![
        (bytes("k"), BencodeValue::List(vec![text("a"), BencodeValue::Integer(-3)])),
        (bytes("j"), BencodeValue::Dictionary(Vec::new())),
    ]);
    assert_eq!(duplicate(&value), value);
    assert_eq!(value.clone(), value);
}

#[test]
fn find_entry_gives_the_first() {
    let entries = vec![
        (bytes("a"), BencodeValue::Integer(1)),
        (bytes("b"), BencodeValue::Integer(2)),
        (bytes("a"), BencodeValue::Integer(3)),
    ];
    assert_eq!(find_entry(&entries, b"a"), Some(0));
    assert_eq!(find_entry(&entries, b"b"), Some(1));
    assert_eq!(find_entry(&entries, b"c"), None);
    assert_eq!(find_entry(&entries, b""), None);
}
