use zbus::{Value, Variant, Error, Dict};

#[test]
fn getters_return_original() {
    let v: Variant = Value::Uint32(42);
    assert_eq!(v.get_u32().unwrap(), 42);
    let v = Value::Bool(true);
    assert!(v.get_bool().unwrap());
    let v = Value::Int16(-7);
    assert_eq!(v.get_i16().unwrap(), -7);
    let v = Value::Int64(-1234567890123);
    assert_eq!(v.get_i64().unwrap(), -1234567890123);
    let v = Value::new_str("hello").unwrap();
    assert_eq!(v.get_str().unwrap().as_slice(), b"hello");
}

#[test]
fn getters_mismatch_is_signature_mismatch() {
    let v = Value::Uint32(42);
    assert_eq!(v.get_bool(), Err(Error::SignatureMismatch));
    assert_eq!(v.get_str().err().unwrap(), Error::SignatureMismatch);
    assert_eq!(v.get_u64(), Err(Error::SignatureMismatch));
    let v = Value::new_str("x").unwrap();
    assert_eq!(v.get_u32(), Err(Error::SignatureMismatch));
}

#[test]
fn str_with_nul_is_rejected() {
    assert_eq!(Value::new_str("a\0b").err().unwrap(), Error::MissingNulTerminator);
}

#[test]
fn array_homogeneous_ok() {
    let v = Value::new_array(vec![Value::Uint32(1), Value::Uint32(2)]).unwrap();
    assert_eq!(v.signature(), b"au".to_vec());
    let (esig, elems) = v.get_array().unwrap();
    assert_eq!(esig.as_slice(), b"u");
    assert_eq!(elems.len(), 2);
}

#[test]
fn array_heterogeneous_fails() {
    let r = Value::new_array(vec![Value::Uint32(1), Value::Byte(2)]);
    assert_eq!(r.err().unwrap(), Error::HeterogeneousArray);
}

#[test]
fn variant_nesting_limit() {
    let mut v = Value::Byte(0);
    for _ in 0..64 {
        v = Value::new_variant(v).unwrap();
    }
    assert_eq!(Value::new_variant(v).err().unwrap(), Error::NestingTooDeep);
}

#[test]
fn dict_entry_key_must_be_basic() {
    let k = Value::new_array(vec![Value::Byte(1)]).unwrap();
    let r = Value::new_dict_entry(k, Value::Byte(0));
    assert_eq!(r.err().unwrap(), Error::MalformedSignature);
    let e = Value::new_dict_entry(Value::new_str("k").unwrap(), Value::Byte(0)).unwrap();
    assert_eq!(e.signature(), b"{sy}".to_vec());
}

#[test]
fn struct_signature_follows_member_order() {
    let s = Value::new_struct(vec![Value::Int32(1), Value::Uint64(2)]).unwrap();
    assert_eq!(s.signature(), b"(it)".to_vec());
    let s2 = Value::new_struct(vec![Value::Uint64(2), Value::Int32(1)]).unwrap();
    assert_eq!(s2.signature(), b"(ti)".to_vec());
}

#[test]
fn dict_last_wins() {
    let e1 = Value::new_dict_entry(Value::new_str("a").unwrap(), Value::Uint32(1)).unwrap();
    let e2 = Value::new_dict_entry(Value::new_str("b").unwrap(), Value::Uint32(2)).unwrap();
    let e3 = Value::new_dict_entry(Value::new_str("a").unwrap(), Value::Uint32(3)).unwrap();
    let d = Dict::from_entries(vec![e1, e2, e3]).unwrap();
    assert_eq!(d.len(), 3);
    let key = Value::new_str("a").unwrap();
    let got = d.get(&key).unwrap();
    assert_eq!(got.get_u32().unwrap(), 3);
    let key_b = Value::new_str("b").unwrap();
    assert_eq!(d.get(&key_b).unwrap().get_u32().unwrap(), 2);
    let key_c = Value::new_str("c").unwrap();
    assert!(d.get(&key_c).is_none());
}

#[test]
fn deep_clone_is_equal() {
    let v = Value::new_struct(vec![
        Value::new_str("hi").unwrap(),
        Value::new_array(vec![Value::Byte(1), Value::Byte(2)]).unwrap(),
    ])
    .unwrap();
    let c = v.deep_clone();
    assert_eq!(v, c);
}
