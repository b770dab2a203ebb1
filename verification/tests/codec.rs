use proots::codec::{decode_value, encode_value, DecodeError};
use proots::value::{Entry, Identifier, Value};

fn sample_value() -> Value {
    Value::Mapping(vec![
        Entry {
            key: String::from("name"),
            value: Value::Str(String::from("pépite")),
        },
        Entry {
            key: String::from("count"),
            value: Value::Int(42),
        },
        Entry {
            key: String::from("flags"),
            value: Value::List(vec![
                Value::Bool(true),
                Value::Bool(false),
                Value::Null,
                Value::Bytes(vec![0, 1, 2, 255]),
                Value::Link(Identifier::from_bytes(vec![9, 9, 9])),
            ]),
        },
    ])
}

#[test]
fn encode_decode_round_trip_nested() {
    let v = sample_value();
    let bytes = encode_value(&v);
    let back = decode_value(&bytes).expect("canonical bytes must decode");
    assert_eq!(back, sample_value());
}

#[test]
fn encode_is_deterministic() {
    let a = encode_value(&sample_value());
    let b = encode_value(&sample_value());
    assert_eq!(a, b);
}

#[test]
fn round_trip_empty_string_and_extreme_int() {
    let v = Value::List(vec![
        Value::Str(String::new()),
        Value::Int(u64::MAX),
        Value::Int(0),
        Value::Mapping(vec![]),
        Value::List(vec![]),
        Value::Bytes(vec![]),
    ]);
    let bytes = encode_value(&v);
    let back = decode_value(&bytes).expect("canonical bytes must decode");
    assert_eq!(back, v);
}

#[test]
fn unknown_tag_is_a_decode_error() {
    assert_eq!(decode_value(&vec![8u8]), Err(DecodeError));
}

#[test]
fn truncated_bytes_are_a_decode_error() {
    let mut bytes = encode_value(&Value::Str(String::from("AATCG")));
    bytes.pop();
    assert_eq!(decode_value(&bytes), Err(DecodeError));
}

#[test]
fn trailing_bytes_are_a_decode_error() {
    let mut bytes = encode_value(&Value::Int(7));
    bytes.push(0);
    assert_eq!(decode_value(&bytes), Err(DecodeError));
}

#[test]
fn invalid_utf8_payload_is_a_decode_error() {
    // Tag 3 (string), length 1, one byte that no UTF-8 text contains.
    let bytes = vec![3u8, 0, 0, 0, 0, 0, 0, 0, 1, 0xff];
    assert_eq!(decode_value(&bytes), Err(DecodeError));
}

#[test]
fn multibyte_text_survives_the_codec() {
    let v = Value::Str(String::from("ありがとう🧬"));
    let bytes = encode_value(&v);
    assert_eq!(decode_value(&bytes), Ok(v));
}
