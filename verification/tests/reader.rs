use glh::functions::reader::{decode, verify};
use glh::functions::writer::encode;
use glh::models::data::Data;
use std::collections::HashMap;

#[test]
fn reader_round_trip_null() {
    let bytes = encode(Data::Null);
    assert_eq!(decode(&bytes).unwrap(), Data::Null);
}

#[test]
fn round_trip_bool_true_and_false() {
    assert_eq!(decode(&encode(Data::Bool(true))).unwrap(), Data::Bool(true));
    assert_eq!(decode(&encode(Data::Bool(false))).unwrap(), Data::Bool(false));
}

#[test]
fn round_trip_int_boundaries() {
    for value in [0_i64, -1, 1, i64::MAX, i64::MIN] {
        assert_eq!(decode(&encode(Data::Int(value))).unwrap(), Data::Int(value));
    }
}

#[test]
fn round_trip_float_boundaries() {
    for value in [0.0_f64, -0.0, 3.14, -3.14, f64::MAX, f64::MIN] {
        let decoded = decode(&encode(Data::Float(value.to_bits()))).unwrap();
        assert_eq!(decoded, Data::Float(value.to_bits()));
        match decoded {
            Data::Float(bits) => assert_eq!(f64::from_bits(bits), value),
            other => panic!("expected Data::Float, got {other:?}"),
        }
    }
}

#[test]
fn round_trip_string_empty_and_unicode() {
    for value in ["", "hello", "Артур", "🗡️", "a".repeat(10_000).as_str()] {
        let data = Data::String(value.to_string());
        assert_eq!(decode(&encode(data)).unwrap(), Data::String(value.to_string()));
    }
}

#[test]
fn round_trip_bytes_empty_and_filled() {
    for value in [vec![], vec![0, 1, 2, 255], vec![7; 5000]] {
        let data = Data::Bytes(value.clone());
        assert_eq!(decode(&encode(data)).unwrap(), Data::Bytes(value));
    }
}

#[test]
fn round_trip_array_empty_and_nested() {
    let empty = Data::Array(vec![]);
    assert_eq!(decode(&encode(empty)).unwrap(), Data::Array(vec![]));

    let nested = Data::Array(vec![
        Data::Int(1),
        Data::Array(vec![Data::Bool(true), Data::Null]),
        Data::String("глубоко".into()),
    ]);
    let bytes = encode(nested.clone());
    assert_eq!(decode(&bytes).unwrap(), nested);
}

#[test]
fn round_trip_object_empty_and_filled() {
    let empty = Data::Object(vec![]);
    assert_eq!(decode(&encode(empty)).unwrap(), Data::Object(vec![]));

    let filled = Data::Object(vec![
        ("name".into(), Data::String("Артур".into())),
        ("level".into(), Data::Int(12)),
    ]);
    assert_eq!(decode(&encode(filled.clone())).unwrap(), filled);
}

#[test]
fn round_trip_hash_empty_and_filled() {
    let empty = Data::Hash(vec![]);
    assert_eq!(decode(&encode(empty)).unwrap(), Data::Hash(vec![]));

    let mut map = HashMap::new();
    map.insert("a".to_string(), Data::Int(1));
    map.insert("b".to_string(), Data::Bool(false));
    let data = Data::Hash(map.clone().into_iter().collect());
    match decode(&encode(data)).unwrap() {
        Data::Hash(decoded) => {
            let decoded: HashMap<String, Data> = decoded.into_iter().collect();
            assert_eq!(decoded, map)
        }
        other => panic!("expected Data::Hash, got {other:?}"),
    }
}

#[test]
fn round_trip_deeply_nested_mixed() {
    let data = Data::Object(vec![(
        "root".into(),
        Data::Array(vec![Data::Object(vec![(
            "child".into(),
            Data::Array(vec![Data::Int(1), Data::Int(2), Data::Int(3)]),
        )])]),
    )]);
    assert_eq!(decode(&encode(data.clone())).unwrap(), data);
}

#[test]
fn verify_rejects_too_short_input() {
    assert!(verify(&[b'G', b'L', b'H']).is_err());
}

#[test]
fn verify_rejects_bad_magic() {
    let bad = [b'X', b'X', b'X', 1, 0, 0, 0, 8];
    assert!(verify(&bad).is_err());
}

#[test]
fn verify_rejects_unsupported_version() {
    let bad = [b'G', b'L', b'H', 99, 0, 0, 0, 8];
    assert!(verify(&bad).is_err());
}

#[test]
fn verify_rejects_size_mismatch() {
    let bad = [b'G', b'L', b'H', 1, 100, 0, 0, 0];
    assert!(verify(&bad).is_err());
}

#[test]
fn decode_rejects_truncated_payload() {
    let mut bytes = encode(Data::String("hello".to_string()));
    bytes.truncate(bytes.len() - 3);
    assert!(decode(&bytes).is_err());
}

#[test]
fn decode_rejects_unknown_type_tag() {
    let mut bytes = encode(Data::Null);
    let tag_pos = bytes.len() - 1;
    bytes[tag_pos] = 255;
    assert!(decode(&bytes).is_err());
}

#[test]
fn decode_rejects_invalid_utf8_in_string() {
    let mut bytes = encode(Data::String("ok".to_string()));
    let len = bytes.len();
    bytes[len - 1] = 0xFF;
    assert!(decode(&bytes).is_err());
}
