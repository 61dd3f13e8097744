use nvim_rs::codec::{decode_value, encode_value, DecodeError};
use nvim_rs::value::Value;

fn enc(v: &Value) -> Vec<u8> {
    let mut out: Vec<u8> = Vec::new();
    encode_value(v, &mut out);
    out
}

#[test]
fn encode_nil_and_bools() {
    assert_eq!(enc(&Value::Nil), vec![0xc0]);
    assert_eq!(enc(&Value::Bool(false)), vec![0xc2]);
    assert_eq!(enc(&Value::Bool(true)), vec![0xc3]);
}

#[test]
fn encode_uint_widths() {
    assert_eq!(enc(&Value::Uint(0)), vec![0x00]);
    assert_eq!(enc(&Value::Uint(0x7f)), vec![0x7f]);
    assert_eq!(enc(&Value::Uint(200)), vec![0xcc, 200]);
    assert_eq!(enc(&Value::Uint(0x1234)), vec![0xcd, 0x12, 0x34]);
    assert_eq!(enc(&Value::Uint(0x0102_0304)), vec![0xce, 1, 2, 3, 4]);
    assert_eq!(
        enc(&Value::Uint(0x0102_0304_0506_0708)),
        vec![0xcf, 1, 2, 3, 4, 5, 6, 7, 8]
    );
}

#[test]
fn encode_int_widths() {
    assert_eq!(enc(&Value::Int(-1)), vec![0xff]);
    assert_eq!(enc(&Value::Int(-32)), vec![0xe0]);
    assert_eq!(enc(&Value::Int(-100)), vec![0xd0, 156]);
    assert_eq!(enc(&Value::Int(-1000)), vec![0xd1, 0xfc, 0x18]);
    assert_eq!(enc(&Value::Int(-100_000)), vec![0xd2, 0xff, 0xfe, 0x79, 0x60]);
    assert_eq!(
        enc(&Value::Int(-5_000_000_000)),
        vec![0xd3, 0xff, 0xff, 0xff, 0xfe, 0xd5, 0xfa, 0x0e, 0x00]
    );
}

#[test]
fn encode_str_and_bin() {
    assert_eq!(enc(&Value::Str(b"hi".to_vec())), vec![0xa2, b'h', b'i']);
    let long: Vec<u8> = (0..40u8).collect();
    let mut expected: Vec<u8> = vec![0xd9, 40];
    expected.extend_from_slice(&long);
    assert_eq!(enc(&Value::Str(long.clone())), expected);
    assert_eq!(enc(&Value::Bin(vec![9, 8])), vec![0xc4, 2, 9, 8]);
}

#[test]
fn encode_array() {
    let v = Value::Array(vec![Value::Uint(1), Value::Str(b"a".to_vec()), Value::Nil]);
    assert_eq!(enc(&v), vec![0x93, 0x01, 0xa1, b'a', 0xc0]);
}

#[test]
fn decode_exact_values() {
    let bytes: Vec<u8> = vec![0x93, 0x01, 0xa1, b'a', 0xc0];
    let (v, end) = decode_value(&bytes, 0).unwrap();
    assert_eq!(end, bytes.len());
    assert_eq!(
        v,
        Value::Array(vec![Value::Uint(1), Value::Str(b"a".to_vec()), Value::Nil])
    );
}

#[test]
fn decode_accepts_non_minimal_forms() {
    assert_eq!(decode_value(&vec![0xcc, 0x05], 0).unwrap().0, Value::Uint(5));
    assert_eq!(decode_value(&vec![0xd0, 0x05], 0).unwrap().0, Value::Uint(5));
    assert_eq!(decode_value(&vec![0xd0, 0x9c], 0).unwrap().0, Value::Int(-100));
    assert_eq!(
        decode_value(&vec![0xda, 0x00, 0x01, b'x'], 0).unwrap().0,
        Value::Str(b"x".to_vec())
    );
}

#[test]
fn decode_rejects_malformed_input() {
    assert_eq!(decode_value(&Vec::new(), 0), Err(DecodeError));
    assert_eq!(decode_value(&vec![0xc1], 0), Err(DecodeError));
    assert_eq!(decode_value(&vec![0x81], 0), Err(DecodeError));
    assert_eq!(decode_value(&vec![0xcc], 0), Err(DecodeError));
    assert_eq!(decode_value(&vec![0xa3, b'a'], 0), Err(DecodeError));
    assert_eq!(decode_value(&vec![0x92, 0x01], 0), Err(DecodeError));
}

#[test]
fn round_trip_nested() {
    let v = Value::Array(vec![
        Value::Uint(300),
        Value::Array(vec![Value::Int(-7), Value::Bool(true)]),
        Value::Bin(vec![0, 255]),
        Value::Str(b"deep".to_vec()),
    ]);
    let bytes = enc(&v);
    let (back, end) = decode_value(&bytes, 0).unwrap();
    assert_eq!(end, bytes.len());
    assert_eq!(back, v);
}

#[test]
fn decode_starts_at_position() {
    let bytes: Vec<u8> = vec![0xc0, 0x07];
    let (v, end) = decode_value(&bytes, 1).unwrap();
    assert_eq!(v, Value::Uint(7));
    assert_eq!(end, 2);
}

#[test]
fn array_with_sixteen_elements_uses_wide_header() {
    let items: Vec<Value> = (0..20u64).map(Value::Uint).collect();
    let v = Value::Array(items);
    let bytes = enc(&v);
    assert_eq!(&bytes[..3], &[0xdc, 0x00, 20]);
    let (back, end) = decode_value(&bytes, 0).unwrap();
    assert_eq!(end, bytes.len());
    assert_eq!(back, v);
}

#[test]
fn wide_bin_and_str_round_trip() {
    let data: Vec<u8> = (0..=255u8).cycle().take(70_000).collect();
    let v = Value::Bin(data.clone());
    let bytes = enc(&v);
    assert_eq!(&bytes[..5], &[0xc6, 0x00, 0x01, 0x11, 0x70]);
    assert_eq!(decode_value(&bytes, 0).unwrap(), (v, bytes.len()));
    let v = Value::Str(data);
    let bytes = enc(&v);
    assert_eq!(&bytes[..5], &[0xdb, 0x00, 0x01, 0x11, 0x70]);
    assert_eq!(decode_value(&bytes, 0).unwrap(), (v, bytes.len()));
}

#[test]
fn sint_widths_decode_by_sign() {
    assert_eq!(
        decode_value(&vec![0xd1, 0x80, 0x00], 0).unwrap().0,
        Value::Int(-32768)
    );
    assert_eq!(
        decode_value(&vec![0xd1, 0x7f, 0xff], 0).unwrap().0,
        Value::Uint(32767)
    );
    assert_eq!(
        decode_value(&vec![0xd3, 0xff, 0xff, 0xff, 0xff, 0xff, 0xff, 0xff, 0xff], 0)
            .unwrap()
            .0,
        Value::Int(-1)
    );
}
