use zbus::connection::{build_method_call, ConnectionState, Step};
use zbus::message::{encode_message, decode_message, Message, FIELD_REPLY_SERIAL,
    FIELD_ERROR_NAME, FIELD_SIGNATURE, MSG_METHOD_RETURN, MSG_ERROR, MSG_SIGNAL};
use zbus::{Value, Dict};

/// A method-return reply to `serial`, carrying `body`, as a peer would
/// send it: built, encoded, and decoded again off the wire.
fn reply_to(serial: u32, body: Vec<Value>) -> Message {
    let mut fields: Vec<(u8, Value)> = vec![(FIELD_REPLY_SERIAL, Value::Uint32(serial))];
    if !body.is_empty() {
        let mut sig: Vec<u8> = Vec::new();
        for v in &body {
            sig.extend_from_slice(&v.signature());
        }
        fields.push((FIELD_SIGNATURE, Value::SignatureStr(sig)));
    }
    let m = Message { mtype: MSG_METHOD_RETURN, flags: 0, serial: 99, fields, body };
    let bytes = encode_message(&m).unwrap();
    decode_message(&bytes).unwrap()
}

fn error_to(serial: u32, name: &str) -> Message {
    let fields: Vec<(u8, Value)> = vec![
        (FIELD_REPLY_SERIAL, Value::Uint32(serial)),
        (FIELD_ERROR_NAME, Value::new_str(name).unwrap()),
    ];
    let m = Message { mtype: MSG_ERROR, flags: 0, serial: 100, fields, body: vec![] };
    let bytes = encode_message(&m).unwrap();
    decode_message(&bytes).unwrap()
}

#[test]
fn serials_increase_and_are_never_reused() {
    let mut st = ConnectionState::new();
    let a = st.allocate_serial();
    let b = st.allocate_serial();
    let c = st.allocate_serial();
    assert_eq!(a, 1);
    assert_eq!(b, 2);
    assert_eq!(c, 3);
}

#[test]
fn get_name_owner_scenario() {
    // The caller asks the bus who owns a name; the peer replies with a
    // non-empty unique-name string and the call resolves to it.
    let mut st = ConnectionState::new();
    let serial = st.allocate_serial();
    let call = build_method_call(
        serial,
        "/org/freedesktop/DBus",
        Some("org.freedesktop.DBus"),
        Some("org.freedesktop.DBus"),
        "GetNameOwner",
        vec![Value::new_str("org.freedesktop.DBus").unwrap()],
    )
    .unwrap();
    let _wire = encode_message(&call).unwrap();
    let reply = reply_to(serial, vec![Value::new_str("org.freedesktop.DBus").unwrap()]);
    assert_eq!(reply.body_signature().unwrap().as_slice(), b"s");
    match st.handle_incoming(reply, serial) {
        Step::Reply(msg) => {
            let owner = msg.body[0].get_str().unwrap();
            assert!(!owner.is_empty());
        }
        _ => panic!(),
    }
}

#[test]
fn second_hello_yields_method_error() {
    // After the handshake the bus rejects a second Hello with a D-Bus
    // error reply, which resolves the call as a method error, not as a
    // transport failure.
    let mut st = ConnectionState::new();
    let hello1 = st.allocate_serial();
    let name_reply = reply_to(hello1, vec![Value::new_str(":1.42").unwrap()]);
    match st.handle_incoming(name_reply, hello1) {
        Step::Reply(msg) => {
            st.record_unique_name(&msg.body).unwrap();
        }
        _ => panic!(),
    }
    assert_eq!(st.unique_name.as_ref().unwrap().as_slice(), b":1.42");

    let hello2 = st.allocate_serial();
    let err = error_to(hello2, "org.freedesktop.DBus.Error.Failed");
    match st.handle_incoming(err, hello2) {
        Step::MethodErr(name, _body) => {
            assert_eq!(name.as_slice(), b"org.freedesktop.DBus.Error.Failed");
        }
        _ => panic!(),
    }
}

#[test]
fn get_all_scenario_decodes_dict() {
    // A GetAll reply with signature a{sv} decodes into a dictionary
    // whose mapping holds the expected keys.
    let e1 = Value::new_dict_entry(
        Value::new_str("Features").unwrap(),
        Value::new_variant(Value::new_array(vec![Value::new_str("x").unwrap()]).unwrap())
            .unwrap(),
    )
    .unwrap();
    let e2 = Value::new_dict_entry(
        Value::new_str("Interfaces").unwrap(),
        Value::new_variant(Value::Uint32(3)).unwrap(),
    )
    .unwrap();
    let arr = Value::new_array(vec![e1, e2]).unwrap();
    assert_eq!(arr.signature(), b"a{sv}".to_vec());

    let mut st = ConnectionState::new();
    let serial = st.allocate_serial();
    let reply = reply_to(serial, vec![arr]);
    assert_eq!(reply.body_signature().unwrap().as_slice(), b"a{sv}");
    let body = match st.handle_incoming(reply, serial) {
        Step::Reply(msg) => msg.body,
        _ => panic!(),
    };
    let (_esig, elems) = body[0].get_array().unwrap();
    let dict = Dict::from_entries(elems.iter().map(|e| e.deep_clone()).collect()).unwrap();
    let features = dict.get(&Value::new_str("Features").unwrap()).unwrap();
    assert!(features.get_variant().is_ok());
    assert!(dict.get(&Value::new_str("Interfaces").unwrap()).is_some());
    assert!(dict.get(&Value::new_str("Absent").unwrap()).is_none());
}

#[test]
fn unrelated_messages_are_queued_in_order() {
    let mut st = ConnectionState::new();
    let awaited = st.allocate_serial();
    let sig1 = Message { mtype: MSG_SIGNAL, flags: 0, serial: 10, fields: vec![], body: vec![] };
    let sig2 = Message { mtype: MSG_SIGNAL, flags: 0, serial: 11, fields: vec![], body: vec![] };
    let other_reply = reply_to(777, vec![]);
    assert!(matches!(st.handle_incoming(sig1, awaited), Step::Queued));
    assert!(matches!(st.handle_incoming(other_reply, awaited), Step::Queued));
    assert!(matches!(st.handle_incoming(sig2, awaited), Step::Queued));
    assert_eq!(st.queue.len(), 3);
    assert_eq!(st.next_queued().unwrap().serial, 10);
    assert_eq!(st.next_queued().unwrap().serial, 99);
    assert_eq!(st.next_queued().unwrap().serial, 11);
    assert!(st.next_queued().is_none());
}
