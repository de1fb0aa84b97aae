use bittorrent_starter_rust::bencode::{decode, encode, BencodeValue};
use bittorrent_starter_rust::errors::FormatError;

fn sample_value() -> BencodeValue {
    BencodeValue::Dictionary(vec![
        (b"alpha".to_vec(), BencodeValue::Integer(-42)),
        (
            b"beta".to_vec(),
            BencodeValue::List(vec![
                BencodeValue::ByteString(b"spam".to_vec()),
                BencodeValue::Integer(0),
                BencodeValue::Dictionary(vec![]),
            ]),
        ),
    ])
}

#[test]
fn round_trip_canonical_value() {
    let v = sample_value();
    let bytes = encode(&v);
    let (w, n) = decode(&bytes).unwrap();
    assert_eq!(n, bytes.len());
    assert_eq!(w, v);
}

#[test]
fn encode_byte_string() {
    let v = BencodeValue::ByteString(b"spam".to_vec());
    assert_eq!(encode(&v), b"4:spam".to_vec());
}

#[test]
fn encode_integers() {
    assert_eq!(encode(&BencodeValue::Integer(52)), b"i52e".to_vec());
    assert_eq!(encode(&BencodeValue::Integer(-42)), b"i-42e".to_vec());
    assert_eq!(encode(&BencodeValue::Integer(0)), b"i0e".to_vec());
}

#[test]
fn encode_sorts_dictionary_keys() {
    let v = BencodeValue::Dictionary(vec![
        (b"b".to_vec(), BencodeValue::Integer(1)),
        (b"a".to_vec(), BencodeValue::Integer(2)),
    ]);
    assert_eq!(encode(&v), b"d1:ai2e1:bi1ee".to_vec());
}

#[test]
fn encode_sorts_nested_dictionary_keys() {
    let inner = BencodeValue::Dictionary(vec![
        (b"z".to_vec(), BencodeValue::Integer(1)),
        (b"y".to_vec(), BencodeValue::Integer(2)),
    ]);
    let v = BencodeValue::Dictionary(vec![(b"k".to_vec(), inner)]);
    assert_eq!(encode(&v), b"d1:kd1:yi2e1:zi1eee".to_vec());
}

#[test]
fn decode_byte_string() {
    let (v, n) = decode(b"5:hello").unwrap();
    assert_eq!(v, BencodeValue::ByteString(b"hello".to_vec()));
    assert_eq!(n, 7);
}

#[test]
fn decode_empty_byte_string() {
    let (v, n) = decode(b"0:").unwrap();
    assert_eq!(v, BencodeValue::ByteString(vec![]));
    assert_eq!(n, 2);
}

#[test]
fn decode_rejects_short_byte_string() {
    assert!(matches!(decode(b"4:abc"), Err(FormatError::Malformed)));
}

#[test]
fn decode_rejects_unterminated_integer() {
    assert!(matches!(decode(b"i12"), Err(FormatError::Malformed)));
}

#[test]
fn decode_empty_list() {
    let (v, n) = decode(b"le").unwrap();
    assert_eq!(v, BencodeValue::List(vec![]));
    assert_eq!(n, 2);
}

#[test]
fn decode_negative_integer() {
    let (v, _) = decode(b"i-42e").unwrap();
    assert_eq!(v, BencodeValue::Integer(-42));
}

#[test]
fn decode_integer_extremes() {
    let (v, _) = decode(b"i9223372036854775807e").unwrap();
    assert_eq!(v, BencodeValue::Integer(i64::MAX));
    let (v, _) = decode(b"i-9223372036854775808e").unwrap();
    assert_eq!(v, BencodeValue::Integer(i64::MIN));
}

#[test]
fn decode_rejects_integer_overflow() {
    assert!(decode(b"i9223372036854775808e").is_err());
    assert!(decode(b"i-9223372036854775809e").is_err());
}

#[test]
fn decode_rejects_empty_integer() {
    assert!(decode(b"ie").is_err());
    assert!(decode(b"i-e").is_err());
}

#[test]
fn decode_rejects_empty_input() {
    assert!(decode(b"").is_err());
}

#[test]
fn decode_rejects_unknown_lead_byte() {
    assert!(decode(b"x").is_err());
}

#[test]
fn decode_rejects_unterminated_list() {
    assert!(decode(b"li1e").is_err());
}

#[test]
fn decode_rejects_non_string_dictionary_key() {
    assert!(decode(b"di1ei2ee").is_err());
}

#[test]
fn decode_rejects_dictionary_missing_value() {
    assert!(decode(b"d1:ae").is_err());
}

#[test]
fn decode_nested_structures() {
    let (v, n) = decode(b"d3:food4:barsli1ei2eee3:zzz0:e").unwrap();
    assert_eq!(
        v,
        BencodeValue::Dictionary(vec![
            (
                b"foo".to_vec(),
                BencodeValue::Dictionary(vec![(
                    b"bars".to_vec(),
                    BencodeValue::List(vec![
                        BencodeValue::Integer(1),
                        BencodeValue::Integer(2),
                    ]),
                )]),
            ),
            (b"zzz".to_vec(), BencodeValue::ByteString(vec![])),
        ])
    );
    assert_eq!(n, 30);
}

#[test]
fn decode_leaves_trailing_bytes() {
    let (v, n) = decode(b"i7etrailing").unwrap();
    assert_eq!(v, BencodeValue::Integer(7));
    assert_eq!(n, 3);
}

#[test]
fn decode_rejects_huge_declared_length() {
    assert!(decode(b"99999999999999999999999:ab").is_err());
}
