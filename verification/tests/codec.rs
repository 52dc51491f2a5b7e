use zbus::codec::{encode_value, decode_value};
use zbus::signature::parse_single;
use zbus::{Value, Error, align_up};

fn enc(v: &Value) -> Vec<u8> {
    let mut buf: Vec<u8> = Vec::new();
    encode_value(v, &mut buf).unwrap();
    buf
}

fn dec(bytes: &[u8], sig: &[u8]) -> Result<(Value, usize), Error> {
    let t = parse_single(sig).unwrap();
    decode_value(bytes, 0, &t, 0)
}

#[test]
fn encode_primitives_exact_bytes() {
    assert_eq!(enc(&Value::Byte(7)), vec![7]);
    assert_eq!(enc(&Value::Uint32(5)), vec![5, 0, 0, 0]);
    assert_eq!(enc(&Value::Bool(true)), vec![1, 0, 0, 0]);
    assert_eq!(enc(&Value::Uint16(0x1234)), vec![0x34, 0x12]);
    assert_eq!(
        enc(&Value::Uint64(0x0102030405060708)),
        vec![8, 7, 6, 5, 4, 3, 2, 1]
    );
    assert_eq!(enc(&Value::Int32(-1)), vec![0xFF, 0xFF, 0xFF, 0xFF]);
}

#[test]
fn encode_string_exact_bytes() {
    let v = Value::new_str("ab").unwrap();
    assert_eq!(enc(&v), vec![2, 0, 0, 0, 97, 98, 0]);
}

#[test]
fn encode_struct_padding() {
    // A struct is 8-byte aligned; its byte member sits first, then the
    // u32 member is padded to the next 4-byte boundary.
    let s = Value::new_struct(vec![Value::Byte(1), Value::Uint32(2)]).unwrap();
    assert_eq!(enc(&s), vec![1, 0, 0, 0, 2, 0, 0, 0]);
}

#[test]
fn encode_array_exact_bytes() {
    let a = Value::new_array(vec![Value::Uint16(1), Value::Uint16(2)]).unwrap();
    // 4-byte length prefix (4 body bytes), no extra padding, elements.
    assert_eq!(enc(&a), vec![4, 0, 0, 0, 1, 0, 2, 0]);
}

#[test]
fn encode_array_pads_to_element_alignment() {
    let a = Value::new_array(vec![Value::Uint64(9)]).unwrap();
    // Length at 0..4, then padding to 8 for the u64 element.
    assert_eq!(enc(&a), vec![8, 0, 0, 0, 0, 0, 0, 0, 9, 0, 0, 0, 0, 0, 0, 0]);
}

#[test]
fn consecutive_values_alignment() {
    // The second value's offset is the smallest multiple of its
    // alignment at or past the end of the first value.
    let end_of_first = enc(&Value::Byte(1)).len();
    assert_eq!(end_of_first, 1);
    assert_eq!(align_up(end_of_first, 4), 4);
    let s = Value::new_struct(vec![Value::Byte(1), Value::Uint32(2)]).unwrap();
    let bytes = enc(&s);
    // Offset 4 is where the u32's little-endian bytes begin.
    assert_eq!(&bytes[4..8], &[2, 0, 0, 0]);
}

#[test]
fn decode_round_trip() {
    let vals = vec![
        Value::Byte(7),
        Value::Uint32(0xDEADBEEF),
        Value::Int64(-5),
        Value::new_str("hello world").unwrap(),
        Value::new_array(vec![Value::Uint32(1), Value::Uint32(2), Value::Uint32(3)]).unwrap(),
        Value::new_struct(vec![Value::Byte(1), Value::new_str("x").unwrap()]).unwrap(),
        Value::new_variant(Value::Uint16(9)).unwrap(),
    ];
    for v in vals {
        let bytes = enc(&v);
        let sig = v.signature();
        let (back, used) = dec(&bytes, &sig).unwrap();
        assert_eq!(used, bytes.len());
        assert_eq!(back, v);
    }
}

#[test]
fn decode_eof() {
    assert_eq!(dec(&[1, 2], b"u").err().unwrap(), Error::UnexpectedEof);
    assert_eq!(dec(&[], b"y").err().unwrap(), Error::UnexpectedEof);
    // String length prefix claims more bytes than the buffer holds.
    assert_eq!(
        dec(&[10, 0, 0, 0, 97, 0], b"s").err().unwrap(),
        Error::UnexpectedEof
    );
}

#[test]
fn decode_invalid_utf8() {
    let bytes = vec![2, 0, 0, 0, 0xFF, 0xFE, 0];
    assert_eq!(dec(&bytes, b"s").err().unwrap(), Error::InvalidUtf8);
}

#[test]
fn decode_missing_nul() {
    let bytes = vec![2, 0, 0, 0, 97, 98, 9];
    assert_eq!(dec(&bytes, b"s").err().unwrap(), Error::MissingNulTerminator);
}

#[test]
fn decode_invalid_bool() {
    let bytes = vec![2, 0, 0, 0];
    assert_eq!(dec(&bytes, b"b").err().unwrap(), Error::InvalidBool);
}

#[test]
fn decode_rejects_nonzero_padding() {
    // A struct of (y u): padding bytes 1..4 must be zero.
    let bytes = vec![1, 9, 9, 9, 2, 0, 0, 0];
    assert_eq!(dec(&bytes, b"(yu)").err().unwrap(), Error::InvalidPadding);
}

#[test]
fn decode_array_too_large() {
    // Array claims a body longer than the 64 MiB array limit.
    let bytes = vec![0xFF, 0xFF, 0xFF, 0xFF];
    assert_eq!(dec(&bytes, b"ay").err().unwrap(), Error::MessageTooLarge);
}

#[test]
fn empty_array_round_trip() {
    let t = parse_single(b"au").unwrap();
    let a = Value::Array(b"u".to_vec(), vec![]);
    let bytes = enc(&a);
    assert_eq!(bytes, vec![0, 0, 0, 0]);
    let (back, used) = decode_value(&bytes, 0, &t, 0).unwrap();
    assert_eq!(used, 4);
    assert_eq!(back, a);
}

fn nested_variant_bytes(levels: usize) -> Vec<u8> {
    // Each variant layer is its one-byte signature length, the code
    // `v`, a nul, then the payload; the innermost payload is one byte.
    let mut bytes = Vec::new();
    for _ in 0..levels {
        bytes.extend_from_slice(&[1, b'v', 0]);
    }
    bytes.extend_from_slice(&[1, b'y', 0, 5]);
    bytes
}

#[test]
fn decode_nesting_limit_on_the_wire() {
    // 63 variant layers inside the outer variant type: within the
    // limit of 64 container levels.
    let ok_bytes = nested_variant_bytes(63);
    assert!(dec(&ok_bytes, b"v").is_ok());
    // One more layer crosses the limit.
    let deep_bytes = nested_variant_bytes(64);
    assert_eq!(dec(&deep_bytes, b"v").err().unwrap(), Error::NestingTooDeep);
}
