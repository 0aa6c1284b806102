use glh::functions::reader::{decode, decode_value, verify};
use glh::functions::writer::{encode, serialize_to_bytes};
use glh::helpers::{read_f64_bits, read_i64, read_slice, read_u32};
use glh::models::data::Data;

fn header(total: u32) -> Vec<u8> {
    let mut h = vec![b'G', b'L', b'H', 1];
    h.extend_from_slice(&total.to_le_bytes());
    h
}

fn file(body: &[u8]) -> Vec<u8> {
    let mut f = header((8 + body.len()) as u32);
    f.extend_from_slice(body);
    f
}

#[test]
fn encode_writes_header_and_tagged_payload() {
    assert_eq!(encode(Data::Null), vec![b'G', b'L', b'H', 1, 9, 0, 0, 0, 0]);
    assert_eq!(
        encode(Data::Int(-2)),
        vec![b'G', b'L', b'H', 1, 17, 0, 0, 0, 1, 0xfe, 0xff, 0xff, 0xff, 0xff, 0xff, 0xff, 0xff]
    );
    assert_eq!(encode(Data::Bool(true)), file(&[2, 1]));
    assert_eq!(encode(Data::Bool(false)), file(&[2, 0]));
    let mut float = vec![3];
    float.extend_from_slice(&1.5_f64.to_le_bytes());
    assert_eq!(encode(Data::Float(1.5_f64.to_bits())), file(&float));
    assert_eq!(encode(Data::String("hé".to_string())), file(&[4, 3, 0, 0, 0, b'h', 0xc3, 0xa9]));
    assert_eq!(encode(Data::Bytes(vec![9, 8])), file(&[6, 2, 0, 0, 0, 9, 8]));
    assert_eq!(
        encode(Data::Array(vec![Data::Null, Data::Bool(true)])),
        file(&[5, 2, 0, 0, 0, 0, 2, 1])
    );
    assert_eq!(
        encode(Data::Object(vec![("k".to_string(), Data::Null)])),
        file(&[7, 1, 0, 0, 0, 1, 0, 0, 0, b'k', 0])
    );
}

#[test]
fn object_and_hash_differ_only_in_tag() {
    let entries = vec![("x".to_string(), Data::Int(3)), ("y".to_string(), Data::Null)];
    let object = encode(Data::Object(entries.clone()));
    let hash = encode(Data::Hash(entries));
    assert_eq!(object.len(), hash.len());
    assert_eq!(object[8], 7);
    assert_eq!(hash[8], 8);
    assert_eq!(object[9..], hash[9..]);
    assert_eq!(object[..8], hash[..8]);
}

#[test]
fn verify_accepts_every_encoded_buffer() {
    for data in [
        Data::Null,
        Data::String("abc".to_string()),
        Data::Array(vec![Data::Int(5), Data::Bytes(vec![1])]),
    ] {
        assert_eq!(verify(&encode(data)), Ok(()));
    }
}

#[test]
fn verify_reports_each_header_fault() {
    assert_eq!(verify(&[b'G', b'L', b'H', 1, 8, 0, 0]), Err("File is too small".to_string()));
    assert_eq!(verify(&[b'G', b'L', b'X', 1, 8, 0, 0, 0]), Err("Invalid GLH header".to_string()));
    assert_eq!(verify(&[b'G', b'L', b'H', 2, 8, 0, 0, 0]), Err("Unsupported GLH version".to_string()));
    assert_eq!(
        verify(&[b'G', b'L', b'H', 1, 9, 0, 0, 0]),
        Err("File size does not match header".to_string())
    );
    assert_eq!(verify(&[b'G', b'L', b'H', 1, 8, 0, 0, 0]), Ok(()));
}

#[test]
fn truncated_and_padded_files_are_rejected() {
    let bytes = encode(Data::String("hello".to_string()));
    for k in 0..bytes.len() {
        assert!(verify(&bytes[..k]).is_err());
    }
    let mut padded = bytes.clone();
    padded.push(0);
    assert_eq!(verify(&padded), Err("File size does not match header".to_string()));
}

#[test]
fn decode_reports_each_payload_fault() {
    assert_eq!(decode(&file(&[])), Err("unexpected end of data: missing tag".to_string()));
    assert_eq!(decode(&file(&[2])), Err("unexpected eof: missing bool".to_string()));
    assert_eq!(decode(&file(&[1, 1, 2])), Err("unexpected eof: slice out of range".to_string()));
    assert_eq!(decode(&file(&[4, 2, 0, 0, 0, 0xc3, 0x28])), Err("invalid utf8 in string".to_string()));
    assert_eq!(
        decode(&file(&[7, 1, 0, 0, 0, 1, 0, 0, 0, 0xff, 0])),
        Err("invalid utf8 in object key".to_string())
    );
    assert_eq!(
        decode(&file(&[8, 1, 0, 0, 0, 1, 0, 0, 0, 0xff, 0])),
        Err("invalid utf8 in hash key".to_string())
    );
    assert_eq!(decode(&file(&[9])), Err("unknown type tag: 9".to_string()));
    assert_eq!(decode(&file(&[42])), Err("unknown type tag: 42".to_string()));
    assert_eq!(decode(&file(&[255])), Err("unknown type tag: 255".to_string()));
    assert_eq!(decode(&file(&[5, 2, 0, 0, 0, 0])), Err("unexpected end of data: missing tag".to_string()));
}

#[test]
fn decode_reads_any_nonzero_bool_byte_as_true() {
    assert_eq!(decode(&file(&[2, 7])), Ok(Data::Bool(true)));
    assert_eq!(decode(&file(&[2, 0])), Ok(Data::Bool(false)));
}

#[test]
fn decode_ignores_bytes_after_the_value() {
    assert_eq!(decode(&file(&[0, 1, 2, 3])), Ok(Data::Null));
}

#[test]
fn decode_merges_repeated_hash_keys() {
    // "a" -> 1, "b" -> 2, "a" -> 3
    let body = [
        8, 3, 0, 0, 0, 1, 0, 0, 0, b'a', 2, 1, 1, 0, 0, 0, b'b', 2, 0, 1, 0, 0, 0, b'a', 0,
    ];
    assert_eq!(
        decode(&file(&body)),
        Ok(Data::Hash(vec![
            ("a".to_string(), Data::Null),
            ("b".to_string(), Data::Bool(false)),
        ]))
    );
    let object_body = [
        7, 3, 0, 0, 0, 1, 0, 0, 0, b'a', 2, 1, 1, 0, 0, 0, b'b', 2, 0, 1, 0, 0, 0, b'a', 0,
    ];
    assert_eq!(
        decode(&file(&object_body)),
        Ok(Data::Object(vec![
            ("a".to_string(), Data::Bool(true)),
            ("b".to_string(), Data::Bool(false)),
            ("a".to_string(), Data::Null),
        ]))
    );
}

#[test]
fn decode_value_moves_the_cursor() {
    let bytes = [0, 2, 1, 9];
    let mut pos = 0;
    assert_eq!(decode_value(&bytes, &mut pos), Ok(Data::Null));
    assert_eq!(pos, 1);
    assert_eq!(decode_value(&bytes, &mut pos), Ok(Data::Bool(true)));
    assert_eq!(pos, 3);
    assert_eq!(decode_value(&bytes, &mut pos), Err("unknown type tag: 9".to_string()));
    assert_eq!(pos, 4);
    assert_eq!(decode_value(&bytes, &mut pos), Err("unexpected end of data: missing tag".to_string()));
    assert_eq!(pos, 4);
    let mut far = 100;
    assert!(decode_value(&bytes, &mut far).is_err());
    assert_eq!(far, 100);
}

#[test]
fn decode_value_stops_the_cursor_at_the_failing_step() {
    // string of length 5 with only 2 bytes: the cursor stays after the length
    let bytes = [4, 5, 0, 0, 0, b'a', b'b'];
    let mut pos = 0;
    assert!(decode_value(&bytes, &mut pos).is_err());
    assert_eq!(pos, 5);
    // invalid UTF-8: the cursor is past the bytes
    let bytes = [4, 1, 0, 0, 0, 0xff];
    let mut pos = 0;
    assert_eq!(decode_value(&bytes, &mut pos), Err("invalid utf8 in string".to_string()));
    assert_eq!(pos, 6);
}

#[test]
fn cursor_readers_advance_on_success_only() {
    let bytes = [1, 2, 3, 4, 5, 6, 7, 8, 9];
    let mut pos = 1;
    assert_eq!(read_slice(&bytes, &mut pos, 3), Ok(&bytes[1..4]));
    assert_eq!(pos, 4);
    assert_eq!(read_slice(&bytes, &mut pos, 6), Err("unexpected eof: slice out of range".to_string()));
    assert_eq!(pos, 4);
    let mut huge = usize::MAX;
    assert_eq!(read_slice(&bytes, &mut huge, 2), Err("length overflow".to_string()));
    assert_eq!(huge, usize::MAX);
    let mut pos = 0;
    assert_eq!(read_u32(&bytes, &mut pos), Ok(0x04030201));
    assert_eq!(pos, 4);
    let mut pos = 1;
    assert_eq!(read_i64(&bytes, &mut pos), Ok(0x0908070605040302));
    assert_eq!(pos, 9);
    let mut pos = 2;
    assert!(read_i64(&bytes, &mut pos).is_err());
    assert_eq!(pos, 2);
    let neg = (-5_i64).to_le_bytes();
    let mut pos = 0;
    assert_eq!(read_i64(&neg, &mut pos), Ok(-5));
    let bits = 2.5_f64.to_le_bytes();
    let mut pos = 0;
    assert_eq!(read_f64_bits(&bits, &mut pos), Ok(2.5_f64.to_bits()));
    assert_eq!(pos, 8);
}

#[test]
fn round_trip_keeps_every_variant() {
    let data = Data::Array(vec![
        Data::Null,
        Data::Bool(true),
        Data::Int(i64::MIN),
        Data::Float(f64::INFINITY.to_bits()),
        Data::Float((-0.0_f64).to_bits()),
        Data::String("ключ 🗝".to_string()),
        Data::Bytes(vec![0, 255]),
        Data::Object(vec![("z".to_string(), Data::Null), ("a".to_string(), Data::Int(1))]),
        Data::Hash(vec![("q".to_string(), Data::Array(vec![]))]),
    ]);
    assert_eq!(decode(&encode(data.clone())), Ok(data));
}

#[test]
fn conversions_build_the_expected_tree() {
    assert_eq!(Data::from("x"), Data::String("x".to_string()));
    assert_eq!(Data::from("x".to_string()), Data::String("x".to_string()));
    assert_eq!(Data::from(true), Data::Bool(true));
    assert_eq!(Data::from(7_i64), Data::Int(7));
    assert_eq!(Data::from(-7_i32), Data::Int(-7));
    assert_eq!(Data::from(vec![1_u8, 2]), Data::Bytes(vec![1, 2]));
    assert_eq!(
        Data::from(vec![true, false]),
        Data::Array(vec![Data::Bool(true), Data::Bool(false)])
    );
    assert_eq!(serialize_to_bytes(true), encode(Data::Bool(true)));
}

#[test]
fn clone_is_a_deep_copy() {
    let data = Data::Hash(vec![("k".to_string(), Data::Array(vec![Data::Bytes(vec![3])]))]);
    let copy = data.clone();
    assert_eq!(copy, data);
}

#[test]
fn nan_bits_survive_a_round_trip() {
    let nan = f64::NAN.to_bits() | 0x1234;
    match decode(&encode(Data::Float(nan))) {
        Ok(Data::Float(bits)) => assert_eq!(bits, nan),
        other => panic!("expected Data::Float, got {other:?}"),
    }
}

#[test]
fn equality_compares_floats_as_floats_and_hashes_as_maps() {
    assert_eq!(Data::Float(0.0_f64.to_bits()), Data::Float((-0.0_f64).to_bits()));
    assert_ne!(Data::Float(f64::NAN.to_bits()), Data::Float(f64::NAN.to_bits()));
    assert_ne!(Data::Float(1.0_f64.to_bits()), Data::Float(2.0_f64.to_bits()));
    let a = Data::Hash(vec![("x".to_string(), Data::Int(1)), ("y".to_string(), Data::Null)]);
    let b = Data::Hash(vec![("y".to_string(), Data::Null), ("x".to_string(), Data::Int(1))]);
    assert_eq!(a, b);
    let c = Data::Hash(vec![("y".to_string(), Data::Null), ("x".to_string(), Data::Int(2))]);
    assert_ne!(a, c);
    let o1 = Data::Object(vec![("x".to_string(), Data::Int(1)), ("y".to_string(), Data::Null)]);
    let o2 = Data::Object(vec![("y".to_string(), Data::Null), ("x".to_string(), Data::Int(1))]);
    assert_ne!(o1, o2);
    assert_ne!(Data::Array(vec![Data::Null]), Data::Array(vec![]));
    assert_ne!(Data::Null, Data::Bool(false));
    assert_eq!(Data::Bytes(vec![1, 2]), Data::Bytes(vec![1, 2]));
    assert_ne!(Data::Bytes(vec![1, 2]), Data::Bytes(vec![1, 3]));
}

#[test]
fn decode_value_reads_an_encoding_between_other_bytes() {
    let data = Data::Object(vec![("k".to_string(), Data::Array(vec![Data::Int(7), Data::String("é".to_string())]))]);
    let file = encode(data.clone());
    let enc = &file[8..];
    let mut bytes = vec![0xff, 0xee, 0xdd];
    bytes.extend_from_slice(enc);
    bytes.extend_from_slice(&[9, 9]);
    let mut pos = 3;
    assert_eq!(decode_value(&bytes, &mut pos), Ok(data));
    assert_eq!(pos, 3 + enc.len());
}

#[test]
fn vector_conversion_keeps_element_order() {
    assert_eq!(
        Data::from(vec!["b", "a"]),
        Data::Array(vec![Data::String("b".to_string()), Data::String("a".to_string())])
    );
    assert_eq!(serialize_to_bytes("hello"), encode(Data::String("hello".to_string())));
    assert_eq!(
        serialize_to_bytes("hello"),
        vec![71, 76, 72, 1, 18, 0, 0, 0, 4, 5, 0, 0, 0, 104, 101, 108, 108, 111]
    );
}
