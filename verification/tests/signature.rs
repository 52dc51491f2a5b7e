use zbus::signature::{parse, parse_single, TypeSig};
use zbus::Error;

fn round_trip(s: &[u8]) {
    let ts = parse(s).unwrap();
    let mut out: Vec<u8> = Vec::new();
    for t in &ts {
        out.extend_from_slice(&t.to_string());
    }
    assert_eq!(out, s.to_vec());
}

#[test]
fn parse_to_string_round_trip() {
    round_trip(b"");
    round_trip(b"s");
    round_trip(b"a{sv}");
    round_trip(b"(ii)");
    round_trip(b"aai");
    round_trip(b"v");
    round_trip(b"sua(yv)");
    round_trip(b"a{s(iu)}");
    round_trip(b"ybnqiuxtsogv");
}

#[test]
fn parse_shapes() {
    let ts = parse(b"a{sv}").unwrap();
    assert_eq!(ts.len(), 1);
    match &ts[0] {
        TypeSig::Array(inner) => match inner.as_ref() {
            TypeSig::DictEntry(k, v) => {
                assert!(matches!(k.as_ref(), TypeSig::Str));
                assert!(matches!(v.as_ref(), TypeSig::Variant));
            }
            _ => panic!(),
        },
        _ => panic!(),
    }
}

#[test]
fn parse_rejects_malformed() {
    assert_eq!(parse(b"a"), Err(Error::MalformedSignature));
    assert_eq!(parse(b"("), Err(Error::MalformedSignature));
    assert_eq!(parse(b"(i"), Err(Error::MalformedSignature));
    assert_eq!(parse(b"()"), Err(Error::MalformedSignature));
    assert_eq!(parse(b"{si"), Err(Error::MalformedSignature));
    assert_eq!(parse(b"{vs}"), Err(Error::MalformedSignature));
    assert_eq!(parse(b"z"), Err(Error::MalformedSignature));
    assert_eq!(parse(b"d"), Err(Error::MalformedSignature));
}

#[test]
fn parse_single_wants_one_type() {
    assert!(parse_single(b"u").is_ok());
    assert_eq!(parse_single(b"uu"), Err(Error::MalformedSignature));
    assert_eq!(parse_single(b""), Err(Error::MalformedSignature));
}

#[test]
fn alignments() {
    assert_eq!(TypeSig::Byte.alignment(), 1);
    assert_eq!(TypeSig::Int16.alignment(), 2);
    assert_eq!(TypeSig::Uint16.alignment(), 2);
    assert_eq!(TypeSig::Bool.alignment(), 4);
    assert_eq!(TypeSig::Uint32.alignment(), 4);
    assert_eq!(TypeSig::Str.alignment(), 4);
    assert_eq!(TypeSig::Int64.alignment(), 8);
    assert_eq!(TypeSig::Uint64.alignment(), 8);
    assert_eq!(TypeSig::SignatureStr.alignment(), 1);
    assert_eq!(TypeSig::Variant.alignment(), 1);
    assert_eq!(parse_single(b"ai").unwrap().alignment(), 4);
    assert_eq!(parse_single(b"(yy)").unwrap().alignment(), 8);
    assert_eq!(parse_single(b"a{sv}").unwrap().alignment(), 4);
}

#[test]
fn parse_of_serialized_tree_is_identity() {
    let ts = parse(b"sua(yv)a{s(iu)}").unwrap();
    let mut out: Vec<u8> = Vec::new();
    for t in &ts {
        out.extend_from_slice(&t.to_string());
    }
    let ts2 = parse(&out).unwrap();
    assert_eq!(ts, ts2);
}
