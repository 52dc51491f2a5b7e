use vstd::prelude::*;
use crate::Error;
use crate::value::{Value, ValSpec, wf_val, wf_list, view_list, val_view, sig_of, clone_bytes,
    has_no_nul};
use crate::message::{Message, MsgSpec, field_lookup, FIELD_PATH, FIELD_INTERFACE, FIELD_MEMBER,
    FIELD_ERROR_NAME, FIELD_REPLY_SERIAL, FIELD_DESTINATION, FIELD_SIGNATURE, MSG_METHOD_CALL,
    MSG_METHOD_RETURN, MSG_ERROR, wf_message, view_fields, lemma_view_fields_len};
use vstd::string::StringSliceAdditionalSpecFns;

verus! {

/// The connection-owned protocol state: the next outgoing serial, the
/// unique bus name obtained from the `Hello` handshake, and the queue
/// of messages that arrived while a call was waiting for its reply.
/// The transport itself lives outside this library; every decision the
/// connection takes is a function of this state and the message at
/// hand.
pub struct ConnectionState {
    pub next_serial: u32,
    pub unique_name: Option<Vec<u8>>,
    pub queue: Vec<Message>,
}

/// What one incoming message means for the call that waits for the
/// reply to serial `awaited`.
pub enum Step {
    /// A method return for the awaited serial: the call succeeds with
    /// this reply message.
    Reply(Message),
    /// An error reply for the awaited serial: the call fails with this
    /// error name and body.
    MethodErr(Vec<u8>, Vec<Value>),
    /// Anything else: the message was buffered, in arrival order, for
    /// later retrieval.
    Queued,
}

/// The reply-serial header field of a message, when it carries one.
pub open spec fn reply_serial_of(m: MsgSpec) -> Option<u32> {
    match field_lookup(m.fields, FIELD_REPLY_SERIAL) {
        Some(v) => match v {
            ValSpec::Uint32(s) => Some(s),
            _ => None,
        },
        None => None,
    }
}

/// The error-name header field of a message, or empty when absent.
pub open spec fn error_name_of(m: MsgSpec) -> Seq<u8> {
    match field_lookup(m.fields, FIELD_ERROR_NAME) {
        Some(v) => match v {
            ValSpec::Str(b) => b,
            _ => Seq::<u8>::empty(),
        },
        None => Seq::<u8>::empty(),
    }
}

/// Whether `m` answers the call with serial `awaited`: a method return
/// or an error whose reply-serial field names that serial.
pub open spec fn answers(m: MsgSpec, awaited: u32) -> bool {
    (m.mtype == MSG_METHOD_RETURN || m.mtype == MSG_ERROR) && reply_serial_of(m) == Some(awaited)
}

impl ConnectionState {
    /// A fresh connection state: serials start at 1 and nothing has
    /// been received.
    pub fn new() -> (r: ConnectionState)
        ensures
            r.next_serial == 1,
            r.unique_name is None,
            r.queue@.len() == 0,
    {
        ConnectionState { next_serial: 1, unique_name: None, queue: Vec::new() }
    }

    /// Hands out the next serial.  Serials increase strictly and are
    /// never reused within a connection.
    pub fn allocate_serial(&mut self) -> (s: u32)
        requires
            old(self).next_serial < u32::MAX,
        ensures
            s == old(self).next_serial,
            final(self).next_serial == s + 1,
            final(self).unique_name == old(self).unique_name,
            final(self).queue == old(self).queue,
    {
        let s = self.next_serial;
        self.next_serial = self.next_serial + 1;
        s
    }

    /// Records the unique name that the bus assigned in its `Hello`
    /// reply.
    pub fn record_unique_name(&mut self, reply_body: &Vec<Value>) -> (r: Result<(), Error>)
        ensures
            r matches Ok(()) ==> final(self).unique_name matches Some(n) && view_list(
                reply_body@, 0).len() > 0 && view_list(reply_body@, 0)[0] == ValSpec::Str(n@)
                && final(self).next_serial == old(self).next_serial && final(self).queue == old(
                self).queue,
            r matches Err(e) ==> e == Error::SignatureMismatch && *final(self) == *old(self)
                && !(view_list(reply_body@, 0).len() > 0 && view_list(reply_body@, 0)[0]
                is Str),
    {
        proof {
            crate::value::lemma_view_list_len(reply_body@, 0);
        }
        if reply_body.len() == 0 {
            return Err(Error::SignatureMismatch);
        }
        proof {
            crate::value::lemma_view_list_index(reply_body@, 0, 0);
        }
        match &reply_body[0] {
            Value::Str(b) => {
                self.unique_name = Some(clone_bytes(b));
                Ok(())
            }
            _ => Err(Error::SignatureMismatch),
        }
    }

    /// Routes one incoming message.  A method return or error whose
    /// reply-serial is the awaited one resolves the pending call; any
    /// other message is appended to the queue, in arrival order, and
    /// nothing is dropped.
    pub fn handle_incoming(&mut self, m: Message, awaited: u32) -> (r: Step)
        ensures
            m@.mtype == MSG_METHOD_RETURN && reply_serial_of(m@) == Some(awaited) ==> (
            r matches Step::Reply(rm) && rm == m && *final(self) == *old(self)),
            m@.mtype == MSG_ERROR && reply_serial_of(m@) == Some(awaited) ==> (
            r matches Step::MethodErr(n, b) && n@ == error_name_of(m@) && view_list(b@, 0)
                == m@.body && *final(self) == *old(self)),
            !answers(m@, awaited) ==> (r is Queued && final(self).queue@ == old(
                self).queue@.push(m) && final(self).next_serial == old(self).next_serial
                && final(self).unique_name == old(self).unique_name),
    {
        let is_answer = (m.mtype == MSG_METHOD_RETURN || m.mtype == MSG_ERROR) && {
            match m.get_field(FIELD_REPLY_SERIAL) {
                Some(v) => match v {
                    Value::Uint32(s) => *s == awaited,
                    _ => false,
                },
                None => false,
            }
        };
        if is_answer {
            if m.mtype == MSG_METHOD_RETURN {
                Step::Reply(m)
            } else {
                let name = match m.get_field(FIELD_ERROR_NAME) {
                    Some(v) => match v {
                        Value::Str(b) => clone_bytes(b),
                        _ => Vec::new(),
                    },
                    None => Vec::new(),
                };
                proof {
                    assert(name@ == error_name_of(m@));
                }
                let Message { body, .. } = m;
                Step::MethodErr(name, body)
            }
        } else {
            self.queue.push(m);
            Step::Queued
        }
    }

    /// Takes the oldest buffered message, if any: the queue drains in
    /// arrival order.
    pub fn next_queued(&mut self) -> (r: Option<Message>)
        ensures
            old(self).queue@.len() == 0 ==> r is None && *final(self) == *old(self),
            old(self).queue@.len() > 0 ==> (r matches Some(m) && m == old(self).queue@[0]
                && final(self).queue@ == old(self).queue@.skip(1) && final(self).next_serial
                == old(self).next_serial && final(self).unique_name == old(self).unique_name),
    {
        if self.queue.len() == 0 {
            None
        } else {
            let m = self.queue.remove(0);
            proof {
                assert(self.queue@ =~= old(self).queue@.skip(1));
            }
            Some(m)
        }
    }
}

/// A string the wire can carry: free of nul bytes and within the
/// 32-bit length prefix.
pub open spec fn str_ok(b: Seq<u8>) -> bool {
    crate::value::no_nul(b) && b.len() <= 0xFFFFFFFF
}

/// The bytes of an optional string argument.
pub open spec fn opt_bytes(o: Option<&str>) -> Option<Seq<u8>> {
    match o {
        Some(s) => Some(s.spec_bytes()),
        None => None,
    }
}

/// The header fields of a method call built from these arguments: the
/// path, then the destination and interface when given, then the
/// member, then the body signature when the body is non-empty.
pub open spec fn spec_call_fields(
    path: Seq<u8>,
    dest: Option<Seq<u8>>,
    iface: Option<Seq<u8>>,
    member: Seq<u8>,
    bodysig: Seq<u8>,
    has_body: bool,
) -> Seq<(u8, ValSpec)> {
    seq![(FIELD_PATH, ValSpec::ObjectPath(path))] + (match dest {
        Some(d) => seq![(FIELD_DESTINATION, ValSpec::Str(d))],
        None => Seq::<(u8, ValSpec)>::empty(),
    }) + (match iface {
        Some(i) => seq![(FIELD_INTERFACE, ValSpec::Str(i))],
        None => Seq::<(u8, ValSpec)>::empty(),
    }) + seq![(FIELD_MEMBER, ValSpec::Str(member))] + (if has_body {
        seq![(FIELD_SIGNATURE, ValSpec::SignatureStr(bodysig))]
    } else {
        Seq::<(u8, ValSpec)>::empty()
    })
}

/// Builds a method-call message: the caller supplies the serial (from
/// [`ConnectionState::allocate_serial`]), the mandatory path and
/// member, the optional destination and interface, and the body
/// values.  The body signature field is added exactly when the body is
/// non-empty.  Fails only when a supplied string holds a nul byte or
/// is longer than the wire can carry, or the body signature is longer
/// than 255 bytes.
pub fn build_method_call(
    serial: u32,
    path: &str,
    destination: Option<&str>,
    interface: Option<&str>,
    member: &str,
    body: Vec<Value>,
) -> (r: Result<Message, Error>)
    requires
        wf_list(view_list(body@, 0), 0),
    ensures
        r matches Ok(m) ==> {
            &&& m@.mtype == MSG_METHOD_CALL
            &&& m@.flags == 0
            &&& m@.serial == serial
            &&& m@.body == view_list(body@, 0)
            &&& m@.fields == spec_call_fields(path.spec_bytes(), opt_bytes(destination),
                opt_bytes(interface), member.spec_bytes(), crate::value::sig_of_list(
                view_list(body@, 0), 0), body@.len() > 0)
            &&& wf_message(m@)
        },
        r matches Err(e) ==> (e == Error::MissingNulTerminator && !(str_ok(path.spec_bytes())
            && str_ok(member.spec_bytes()) && (destination matches Some(d) ==> str_ok(
            d.spec_bytes())) && (interface matches Some(i2) ==> str_ok(i2.spec_bytes()))
            && crate::value::no_nul(crate::value::sig_of_list(view_list(body@, 0), 0)))) || (
        e == Error::MalformedSignature && crate::value::sig_of_list(view_list(body@, 0),
            0).len() > 255),
{
    let pathv = match Value::new_object_path(path) {
        Ok(v) => v,
        Err(e) => {
            return Err(e);
        }
    };
    let memberv = match Value::new_str(member) {
        Ok(v) => v,
        Err(e) => {
            return Err(e);
        }
    };
    let mut fields: Vec<(u8, Value)> = Vec::new();
    fields.push((FIELD_PATH, pathv));
    match destination {
        Some(d) => {
            let dv = match Value::new_str(d) {
                Ok(v) => v,
                Err(e) => {
                    return Err(e);
                }
            };
            fields.push((FIELD_DESTINATION, dv));
        }
        None => {}
    }
    match interface {
        Some(i) => {
            let iv = match Value::new_str(i) {
                Ok(v) => v,
                Err(e) => {
                    return Err(e);
                }
            };
            fields.push((FIELD_INTERFACE, iv));
        }
        None => {}
    }
    fields.push((FIELD_MEMBER, memberv));
    let has_body = body.len() > 0;
    if has_body {
        let mut sig: Vec<u8> = Vec::new();
        crate::value::write_signature_list(&body, 0, &mut sig);
        proof {
            crate::value::lemma_view_list_len(body@, 0);
            assert(Seq::<u8>::empty() + crate::value::sig_of_list(view_list(body@, 0), 0)
                =~= crate::value::sig_of_list(view_list(body@, 0), 0));
            crate::value::lemma_sig_of_nonempty(view_list(body@, 0)[0]);
            assert(crate::value::sig_of_list(view_list(body@, 0), 0) == sig_of(
                view_list(body@, 0)[0]) + crate::value::sig_of_list(view_list(body@, 0), 1));
        }
        if sig.len() > 255 {
            return Err(Error::MalformedSignature);
        }
        if !has_no_nul(&sig) {
            return Err(Error::MissingNulTerminator);
        }
        fields.push((FIELD_SIGNATURE, Value::SignatureStr(sig)));
    }
    let m = Message { mtype: MSG_METHOD_CALL, flags: 0, serial, fields, body };
    proof {
        lemma_view_fields_len(m.fields@, 0);
        assert(Seq::<u8>::empty() + crate::value::sig_of_list(view_list(m.body@, 0), 0)
            =~= crate::value::sig_of_list(view_list(m.body@, 0), 0));
        let expected = spec_call_fields(path.spec_bytes(), opt_bytes(destination),
            opt_bytes(interface), member.spec_bytes(), crate::value::sig_of_list(
            view_list(m.body@, 0), 0), m.body@.len() > 0);
        assert forall|k: int| 0 <= k < m.fields@.len() implies #[trigger] view_fields(
            m.fields@, 0)[k] == (m.fields@[k].0, val_view(m.fields@[k].1)) by {
            crate::message::lemma_view_fields_index(m.fields@, 0, k);
        }
        assert(view_fields(m.fields@, 0) =~= expected);
        assert forall|k: int| 0 <= k < m@.fields.len() implies wf_val(
            #[trigger] m@.fields[k].1) && 1 <= sig_of(m@.fields[k].1).len() <= 255 by {
            crate::message::lemma_view_fields_index(m.fields@, 0, k);
        }
    }
    Ok(m)
}

} // verus!
