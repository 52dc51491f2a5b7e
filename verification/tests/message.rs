use zbus::message::{encode_message, decode_message, wire_remaining, Message, FIELD_PATH,
    FIELD_MEMBER, FIELD_DESTINATION, FIELD_REPLY_SERIAL, FIELD_SIGNATURE, MSG_METHOD_CALL,
    MSG_METHOD_RETURN};
use zbus::connection::build_method_call;
use zbus::{Value, Error};

fn hello_call(serial: u32) -> Message {
    build_method_call(
        serial,
        "/org/freedesktop/DBus",
        Some("org.freedesktop.DBus"),
        Some("org.freedesktop.DBus"),
        "Hello",
        vec![],
    )
    .unwrap()
}

#[test]
fn encode_decode_round_trip() {
    let m = hello_call(1);
    let bytes = encode_message(&m).unwrap();
    let back = decode_message(&bytes).unwrap();
    assert_eq!(back.mtype, MSG_METHOD_CALL);
    assert_eq!(back.flags, 0);
    assert_eq!(back.serial, 1);
    assert_eq!(back.body.len(), 0);
    assert_eq!(
        back.get_field(FIELD_PATH).unwrap(),
        &Value::new_object_path("/org/freedesktop/DBus").unwrap()
    );
    assert_eq!(
        back.get_field(FIELD_MEMBER).unwrap(),
        &Value::new_str("Hello").unwrap()
    );
    assert_eq!(
        back.get_field(FIELD_DESTINATION).unwrap(),
        &Value::new_str("org.freedesktop.DBus").unwrap()
    );
    // Field-for-field equality with the original message.
    assert_eq!(back.fields, m.fields);
    assert_eq!(back.body, m.body);
}

#[test]
fn round_trip_with_body() {
    let m = build_method_call(
        7,
        "/org/freedesktop/DBus",
        Some("org.freedesktop.DBus"),
        Some("org.freedesktop.DBus"),
        "GetNameOwner",
        vec![Value::new_str("org.freedesktop.DBus").unwrap()],
    )
    .unwrap();
    let bytes = encode_message(&m).unwrap();
    let back = decode_message(&bytes).unwrap();
    assert_eq!(back.serial, 7);
    assert_eq!(back.body.len(), 1);
    assert_eq!(back.body[0].get_str().unwrap().as_slice(), b"org.freedesktop.DBus");
    assert_eq!(back.body_signature().unwrap().as_slice(), b"s");
    assert_eq!(back.fields, m.fields);
    assert_eq!(back.body, m.body);
}

#[test]
fn header_starts_with_fixed_bytes() {
    let m = hello_call(3);
    let bytes = encode_message(&m).unwrap();
    // 'l', method call, no flags, protocol version 1.
    assert_eq!(&bytes[0..4], &[108, 1, 0, 1]);
    // Empty body: declared body length 0; serial at 8..12.
    assert_eq!(&bytes[4..8], &[0, 0, 0, 0]);
    assert_eq!(&bytes[8..12], &[3, 0, 0, 0]);
    // The whole message is a multiple of 8 up to the body start.
    assert_eq!(bytes.len() % 8, 0);
}

#[test]
fn wire_remaining_matches_encoded_length() {
    let m = build_method_call(
        9,
        "/org/freedesktop/DBus",
        Some("org.freedesktop.DBus"),
        Some("org.freedesktop.DBus.Properties"),
        "GetAll",
        vec![Value::new_str("org.freedesktop.DBus").unwrap()],
    )
    .unwrap();
    let bytes = encode_message(&m).unwrap();
    let rest = wire_remaining(&bytes[0..16]).unwrap();
    assert_eq!(16 + rest, bytes.len());
}

#[test]
fn decode_rejects_big_endian() {
    let m = hello_call(1);
    let mut bytes = encode_message(&m).unwrap();
    bytes[0] = 66;
    assert_eq!(decode_message(&bytes).err().unwrap(), Error::UnsupportedEndianness);
}

#[test]
fn decode_rejects_short_buffer() {
    assert_eq!(decode_message(&[108, 1, 0, 1]).err().unwrap(), Error::UnexpectedEof);
}

#[test]
fn decode_rejects_oversized_body() {
    let m = hello_call(1);
    let mut bytes = encode_message(&m).unwrap();
    // Declare a body far beyond the 128 MiB limit.
    bytes[4] = 0xFF;
    bytes[5] = 0xFF;
    bytes[6] = 0xFF;
    bytes[7] = 0xFF;
    assert_eq!(decode_message(&bytes).err().unwrap(), Error::MessageTooLarge);
}

#[test]
fn decode_rejects_body_signature_mismatch() {
    // A message that declares body bytes but carries no signature field.
    let m = hello_call(1);
    let mut bytes = encode_message(&m).unwrap();
    // Extend with 8 stray body bytes that no signature field covers.
    bytes.extend_from_slice(&[1, 2, 3, 4, 5, 6, 7, 8]);
    bytes[4..8].copy_from_slice(&(8u32).to_le_bytes());
    assert_eq!(decode_message(&bytes).err().unwrap(), Error::SignatureBodyMismatch);
}

#[test]
fn body_checks_expected_signature() {
    let m = build_method_call(
        2,
        "/org/freedesktop/DBus",
        None,
        None,
        "NameHasOwner",
        vec![Value::new_str("org.freedesktop.DBus").unwrap()],
    )
    .unwrap();
    assert!(m.body(Some(b"s")).is_ok());
    assert_eq!(m.body(Some(b"u")).err().unwrap(), Error::SignatureBodyMismatch);
    assert!(m.body(None).is_ok());
}

#[test]
fn reply_serial_field_reads_back() {
    let mut m = hello_call(1);
    m.mtype = MSG_METHOD_RETURN;
    m.fields.push((FIELD_REPLY_SERIAL, Value::Uint32(1)));
    let bytes = encode_message(&m).unwrap();
    let back = decode_message(&bytes).unwrap();
    assert_eq!(back.get_field(FIELD_REPLY_SERIAL).unwrap(), &Value::Uint32(1));
    assert!(back.get_field(FIELD_SIGNATURE).is_none());
}

#[test]
fn decode_rejects_wrong_protocol_version() {
    let m = hello_call(1);
    let mut bytes = encode_message(&m).unwrap();
    bytes[3] = 2;
    assert_eq!(
        decode_message(&bytes).err().unwrap(),
        Error::UnsupportedProtocolVersion
    );
}
