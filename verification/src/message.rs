use vstd::prelude::*;
use crate::Error;
use crate::{pad_len, padding, align_up};
use crate::signature::{TypeSig, sig_bytes, parse, valid_sig_list, sig_bytes_list,
    TC_BYTE, TC_VARIANT, TC_STRUCT_OPEN, TC_STRUCT_CLOSE, TC_ARRAY};
use crate::value::{Value, ValSpec, sig_of, sig_of_list, wf_val, wf_list, view_list,
    lemma_view_list_index, lemma_view_list_len, val_view, bytes_eq, clone_bytes};
use crate::codec::{MAX_MESSAGE_SIZE, enc_val, enc_list, encode_value, encode_list, decode_value,
    lemma_view_list_push, lemma_enc_list_push, lemma_wf_list_all};
use vstd::bytes::{spec_u32_to_le_bytes, u32_to_le_bytes,
    lemma_auto_spec_u32_to_from_le_bytes};

verus! {

/// Header field codes of the D-Bus message header.
pub const FIELD_PATH: u8 = 1;
pub const FIELD_INTERFACE: u8 = 2;
pub const FIELD_MEMBER: u8 = 3;
pub const FIELD_ERROR_NAME: u8 = 4;
pub const FIELD_REPLY_SERIAL: u8 = 5;
pub const FIELD_DESTINATION: u8 = 6;
pub const FIELD_SENDER: u8 = 7;
pub const FIELD_SIGNATURE: u8 = 8;

/// Message type codes of the D-Bus message header.
pub const MSG_METHOD_CALL: u8 = 1;
pub const MSG_METHOD_RETURN: u8 = 2;
pub const MSG_ERROR: u8 = 3;
pub const MSG_SIGNAL: u8 = 4;

/// The endianness marker this library writes: little endian.
pub const ENDIAN_LITTLE: u8 = 108;

/// The protocol version this library speaks.
pub const PROTOCOL_VERSION: u8 = 1;

/// One D-Bus message: the variable header fields, the body values, and
/// the fixed-header scalars.  The endianness is always little endian
/// and the protocol version always 1, so neither is stored.
pub struct Message {
    pub mtype: u8,
    pub flags: u8,
    pub serial: u32,
    pub fields: Vec<(u8, Value)>,
    pub body: Vec<Value>,
}

/// The mathematical model of a message.
pub struct MsgSpec {
    pub mtype: u8,
    pub flags: u8,
    pub serial: u32,
    pub fields: Seq<(u8, ValSpec)>,
    pub body: Seq<ValSpec>,
}

pub open spec fn view_fields(fs: Seq<(u8, Value)>, i: int) -> Seq<(u8, ValSpec)>
    decreases fs.len() - i,
{
    if 0 <= i < fs.len() {
        seq![(fs[i].0, val_view(fs[i].1))] + view_fields(fs, i + 1)
    } else {
        Seq::<(u8, ValSpec)>::empty()
    }
}

pub proof fn lemma_view_fields_index(fs: Seq<(u8, Value)>, i: int, k: int)
    requires
        0 <= i <= k < fs.len(),
    ensures
        #[trigger] view_fields(fs, i)[k - i] == (fs[k].0, val_view(fs[k].1)),
        view_fields(fs, i).len() == fs.len() - i,
    decreases fs.len() - i,
{
    lemma_view_fields_len(fs, i);
    if i < k {
        lemma_view_fields_index(fs, i + 1, k);
    }
}

pub proof fn lemma_view_fields_len(fs: Seq<(u8, Value)>, i: int)
    requires
        0 <= i <= fs.len(),
    ensures
        view_fields(fs, i).len() == fs.len() - i,
    decreases fs.len() - i,
{
    if i < fs.len() {
        lemma_view_fields_len(fs, i + 1);
    }
}

impl View for Message {
    type V = MsgSpec;

    open spec fn view(&self) -> MsgSpec {
        MsgSpec {
            mtype: self.mtype,
            flags: self.flags,
            serial: self.serial,
            fields: view_fields(self.fields@, 0),
            body: view_list(self.body@, 0),
        }
    }
}

/// The signature string of one header-field entry: `(yv)`.
pub open spec fn sig_yv() -> Seq<u8> {
    seq![TC_STRUCT_OPEN, TC_BYTE, TC_VARIANT, TC_STRUCT_CLOSE]
}

/// One header field as the struct-of-code-and-variant value that stands
/// in the header's field array.
pub open spec fn field_elem(p: (u8, ValSpec)) -> ValSpec {
    ValSpec::Struct(seq![ValSpec::Byte(p.0), ValSpec::Variant(Box::new(p.1))])
}

/// The header's field array as a value.
pub open spec fn fields_val(fs: Seq<(u8, ValSpec)>) -> ValSpec {
    ValSpec::Array(sig_yv(), fs.map_values(|p: (u8, ValSpec)| field_elem(p)))
}

/// A well-formed message: every header field's value is well formed
/// with a signature short enough for a variant, and the body values are
/// well formed.
pub open spec fn wf_message(m: MsgSpec) -> bool {
    &&& forall|k: int| 0 <= k < m.fields.len() ==> wf_val(#[trigger] m.fields[k].1) && 1
        <= sig_of(m.fields[k].1).len() <= 255
    &&& wf_list(m.body, 0)
}

/// The full wire encoding of a message: fixed header, field array,
/// padding to eight bytes, body.
pub open spec fn enc_message(m: MsgSpec) -> Seq<u8> {
    let fbytes = enc_val(fields_val(m.fields), 12);
    let afterf = 12 + fbytes.len();
    let p = padding(afterf as int, 8);
    let body = enc_list(m.body, 0, afterf + p.len() as int);
    seq![ENDIAN_LITTLE, m.mtype, m.flags, PROTOCOL_VERSION] + spec_u32_to_le_bytes(
        body.len() as u32) + spec_u32_to_le_bytes(m.serial) + fbytes + p + body
}

/// The field-entry struct `(yv)` built from a field pair: its
/// signature, and its well-formedness given the field value's.
pub proof fn lemma_field_elem_props(p: (u8, ValSpec))
    ensures
        sig_of(field_elem(p)) == sig_yv(),
        wf_val(p.1) && 1 <= sig_of(p.1).len() <= 255 ==> wf_val(field_elem(p)),
{
    let ms = seq![ValSpec::Byte(p.0), ValSpec::Variant(Box::new(p.1))];
    assert(ms[0] == ValSpec::Byte(p.0));
    assert(ms[1] == ValSpec::Variant(Box::new(p.1)));
    assert(sig_of(ms[0]) == seq![TC_BYTE]);
    assert(sig_of(ms[1]) == seq![TC_VARIANT]);
    assert(sig_of_list(ms, 2) =~= Seq::<u8>::empty());
    assert(sig_of_list(ms, 1) == sig_of(ms[1]) + sig_of_list(ms, 2));
    assert(sig_of_list(ms, 1) =~= seq![TC_VARIANT]);
    assert(sig_of_list(ms, 0) == sig_of(ms[0]) + sig_of_list(ms, 1));
    assert(sig_of_list(ms, 0) =~= seq![TC_BYTE, TC_VARIANT]);
    assert(sig_of(field_elem(p)) =~= sig_yv());
    if wf_val(p.1) && 1 <= sig_of(p.1).len() <= 255 {
        assert(wf_val(ms[0]));
        assert(wf_val(ms[1]));
        assert(wf_list(ms, 2));
        assert(wf_list(ms, 1) == (wf_val(ms[1]) && wf_list(ms, 2)));
        assert(wf_list(ms, 0) == (wf_val(ms[0]) && wf_list(ms, 1)));
    }
}

/// Builds the field array value out of the message's field list.
fn build_fields_value(fs: &Vec<(u8, Value)>) -> (r: Value)
    ensures
        r@ == fields_val(view_fields(fs@, 0)),
        (forall|k: int| 0 <= k < fs@.len() ==> wf_val(val_view(#[trigger] fs@[k].1)) && 1
            <= sig_of(val_view(fs@[k].1)).len() <= 255) ==> wf_val(r@),
{
    let mut elems: Vec<Value> = Vec::new();
    let mut i: usize = 0;
    proof {
        lemma_view_fields_len(fs@, 0);
        lemma_view_list_len(elems@, 0);
    }
    while i < fs.len()
        invariant
            i <= fs@.len(),
            elems@.len() == i,
            view_list(elems@, 0).len() == i,
            forall|k: int| 0 <= k < i ==> view_list(elems@, 0)[k] == field_elem(
                (#[trigger] fs@[k].0, val_view(fs@[k].1))),
        decreases fs@.len() - i,
    {
        let (c, v) = (fs[i].0, fs[i].1.deep_clone());
        let mut members: Vec<Value> = Vec::new();
        members.push(Value::Byte(c));
        members.push(Value::Variant(Box::new(v)));
        let e = Value::Struct(members);
        proof {
            assert(view_list(members@, 2) =~= Seq::<ValSpec>::empty());
            assert(view_list(members@, 1) =~= seq![val_view(members@[1])]);
            assert(view_list(members@, 0) =~= seq![val_view(members@[0])] + seq![val_view(
                members@[1])]);
            assert(view_list(members@, 0) =~= seq![ValSpec::Byte(c), ValSpec::Variant(
                Box::new(val_view(fs@[i as int].1)))]);
            assert(e@ == field_elem((fs@[i as int].0, val_view(fs@[i as int].1))));
            lemma_view_list_push(elems@, e, 0);
            lemma_view_list_len(elems@.push(e), 0);
            assert(forall|k: int| 0 <= k < i ==> view_list(elems@.push(e), 0)[k]
                == #[trigger] view_list(elems@, 0)[k]);
            assert(view_list(elems@.push(e), 0)[i as int] == e@);
        }
        elems.push(e);
        i = i + 1;
    }
    let mut esig: Vec<u8> = Vec::new();
    esig.push(TC_STRUCT_OPEN);
    esig.push(TC_BYTE);
    esig.push(TC_VARIANT);
    esig.push(TC_STRUCT_CLOSE);
    let r = Value::Array(esig, elems);
    proof {
        let vfs = view_fields(fs@, 0);
        assert(esig@ =~= sig_yv());
        assert forall|k: int| 0 <= k < i implies view_list(elems@, 0)[k] == field_elem(
            vfs[k]) by {
            lemma_view_fields_index(fs@, 0, k);
        }
        assert(view_list(elems@, 0) =~= vfs.map_values(|p: (u8, ValSpec)| field_elem(p)));
        assert(r@ == fields_val(vfs));
        if forall|k: int| 0 <= k < fs@.len() ==> wf_val(val_view(#[trigger] fs@[k].1)) && 1
            <= sig_of(val_view(fs@[k].1)).len() <= 255 {
            let mapped = vfs.map_values(|p: (u8, ValSpec)| field_elem(p));
            assert forall|k: int| 0 <= k < mapped.len() implies wf_val(#[trigger] mapped[k])
                && sig_of(mapped[k]) == sig_yv() by {
                lemma_view_fields_index(fs@, 0, k);
                assert(wf_val(val_view(fs@[k].1)) && 1 <= sig_of(val_view(fs@[k].1)).len()
                    <= 255);
                assert(vfs[k].1 == val_view(fs@[k].1));
                lemma_field_elem_props(vfs[k]);
            }
            crate::codec::lemma_wf_elems_all(sig_yv(),
                vfs.map_values(|p: (u8, ValSpec)| field_elem(p)), 0);
        }
    }
    r
}

/// Encodes a message into its wire form.
pub fn encode_message(m: &Message) -> (r: Result<Vec<u8>, Error>)
    requires
        wf_message(m@),
    ensures
        r matches Ok(b) ==> b@ == enc_message(m@) && b@.len() <= MAX_MESSAGE_SIZE,
        r matches Err(e) ==> e == Error::MessageTooLarge,
{
    let mut buf: Vec<u8> = Vec::new();
    buf.push(ENDIAN_LITTLE);
    buf.push(m.mtype);
    buf.push(m.flags);
    buf.push(PROTOCOL_VERSION);
    buf.push(0);
    buf.push(0);
    buf.push(0);
    buf.push(0);
    proof {
        lemma_auto_spec_u32_to_from_le_bytes();
    }
    let mut sb = u32_to_le_bytes(m.serial);
    buf.append(&mut sb);
    let fv = build_fields_value(&m.fields);
    proof {
        assert forall|k: int| 0 <= k < m.fields@.len() implies wf_val(val_view(
            #[trigger] m.fields@[k].1)) && 1 <= sig_of(val_view(m.fields@[k].1)).len()
            <= 255 by {
            lemma_view_fields_index(m.fields@, 0, k);
            assert(wf_val(m@.fields[k].1) && 1 <= sig_of(m@.fields[k].1).len() <= 255);
            assert(m@.fields[k].1 == val_view(m.fields@[k].1));
        }
    }
    let ghost pre_fields = buf@;
    match encode_value(&fv, &mut buf) {
        Ok(()) => {}
        Err(_) => {
            return Err(Error::MessageTooLarge);
        }
    }
    match crate::codec::write_padding(&mut buf, 8) {
        Ok(()) => {}
        Err(_) => {
            return Err(Error::MessageTooLarge);
        }
    }
    let body_start = buf.len();
    match encode_list(&m.body, 0, &mut buf) {
        Ok(()) => {}
        Err(_) => {
            return Err(Error::MessageTooLarge);
        }
    }
    let body_len = buf.len() - body_start;
    crate::codec::patch_u32(&mut buf, 4, body_len as u32);
    proof {
        let fbytes = enc_val(fields_val(m@.fields), 12);
        let afterf = 12 + fbytes.len();
        let p = padding(afterf as int, 8);
        let body = enc_list(m@.body, 0, afterf + p.len() as int);
        assert(pre_fields =~= seq![ENDIAN_LITTLE, m.mtype, m.flags, PROTOCOL_VERSION] + seq![
            0u8, 0u8, 0u8, 0u8] + spec_u32_to_le_bytes(m.serial));
        assert(body.len() == body_len);
        assert(buf@ =~= enc_message(m@));
    }
    Ok(buf)
}

/// First field with the given code, scanning in order.
pub open spec fn field_lookup(fs: Seq<(u8, ValSpec)>, code: u8) -> Option<ValSpec>
    decreases fs.len(),
{
    if fs.len() == 0 {
        None
    } else if fs[0].0 == code {
        Some(fs[0].1)
    } else {
        field_lookup(fs.drop_first(), code)
    }
}

impl Message {
    /// The value of the first header field with the given code.
    pub fn get_field(&self, code: u8) -> (r: Option<&Value>)
        ensures
            r matches Some(v) ==> field_lookup(self@.fields, code) == Some(v@),
            r is None ==> field_lookup(self@.fields, code) is None,
    {
        let mut i: usize = 0;
        proof {
            lemma_view_fields_len(self.fields@, 0);
            assert(view_fields(self.fields@, 0).skip(0) =~= view_fields(self.fields@, 0));
        }
        while i < self.fields.len()
            invariant
                i <= self.fields@.len(),
                view_fields(self.fields@, 0).len() == self.fields@.len(),
                field_lookup(view_fields(self.fields@, 0), code) == field_lookup(
                    view_fields(self.fields@, 0).skip(i as int), code),
                forall|k: int| 0 <= k < i ==> #[trigger] self.fields@[k].0 != code,
            decreases self.fields@.len() - i,
        {
            proof {
                lemma_view_fields_index(self.fields@, 0, i as int);
                assert(view_fields(self.fields@, 0).skip(i as int)[0] == (
                    self.fields@[i as int].0, val_view(self.fields@[i as int].1)));
            }
            if self.fields[i].0 == code {
                return Some(&self.fields[i].1);
            }
            proof {
                assert(view_fields(self.fields@, 0).skip(i as int).drop_first()
                    =~= view_fields(self.fields@, 0).skip(i + 1));
            }
            i = i + 1;
        }
        proof {
            assert(view_fields(self.fields@, 0).skip(i as int) =~= Seq::<(u8,
                ValSpec)>::empty());
        }
        None
    }

    /// The declared body signature, when the header carries one.
    pub fn body_signature(&self) -> (r: Option<&Vec<u8>>)
        ensures
            r matches Some(b) ==> field_lookup(self@.fields, FIELD_SIGNATURE) == Some(
                ValSpec::SignatureStr(b@)),
            r is None ==> !(field_lookup(self@.fields, FIELD_SIGNATURE) matches Some(v)
                && v is SignatureStr),
    {
        match self.get_field(FIELD_SIGNATURE) {
            Some(v) => match v {
                Value::SignatureStr(b) => Some(b),
                _ => None,
            },
            None => None,
        }
    }

    /// The body values, after an optional check of the expected
    /// signature against the actual concatenated body signature.
    pub fn body(&self, expected_signature: Option<&[u8]>) -> (r: Result<&Vec<Value>, Error>)
        ensures
            r matches Ok(b) ==> b@ == self.body@ && (expected_signature matches Some(es)
                ==> es@ == sig_of_list(self@.body, 0)),
            r matches Err(e) ==> e == Error::SignatureBodyMismatch && (expected_signature
                matches Some(es) && es@ != sig_of_list(self@.body, 0)),
    {
        match expected_signature {
            None => Ok(&self.body),
            Some(es) => {
                let mut actual: Vec<u8> = Vec::new();
                crate::value::write_signature_list(&self.body, 0, &mut actual);
                proof {
                    assert(Seq::<u8>::empty() + sig_of_list(view_list(self.body@, 0), 0)
                        =~= sig_of_list(view_list(self.body@, 0), 0));
                }
                let esv = vstd::slice::slice_to_vec(es);
                if bytes_eq(&actual, &esv) {
                    Ok(&self.body)
                } else {
                    Err(Error::SignatureBodyMismatch)
                }
            }
        }
    }
}


/// Within a well-formed array element list, every element is well
/// formed and carries the element signature.
pub proof fn lemma_wf_elems_index(esig: Seq<u8>, vs: Seq<ValSpec>, k: int)
    requires
        crate::value::wf_elems(esig, vs, 0),
        0 <= k < vs.len(),
    ensures
        wf_val(vs[k]),
        sig_of(vs[k]) == esig,
{
    lemma_wf_elems_index_rec(esig, vs, 0, k);
}

proof fn lemma_wf_elems_index_rec(esig: Seq<u8>, vs: Seq<ValSpec>, j: int, k: int)
    requires
        crate::value::wf_elems(esig, vs, j),
        0 <= j <= k < vs.len(),
    ensures
        wf_val(vs[k]),
        sig_of(vs[k]) == esig,
    decreases k - j,
{
    if j < k {
        lemma_wf_elems_index_rec(esig, vs, j + 1, k);
    }
}

/// Appending one more field pair to a viewed field list.
pub proof fn lemma_view_fields_push(fs: Seq<(u8, Value)>, x: (u8, Value), i: int)
    requires
        0 <= i <= fs.len(),
    ensures
        view_fields(fs.push(x), i) == view_fields(fs, i).push((x.0, val_view(x.1))),
    decreases fs.len() - i,
{
    let a = fs.push(x);
    let xv = (x.0, val_view(x.1));
    if i == fs.len() {
        assert(a[i] == x);
        assert(view_fields(a, i + 1) =~= Seq::<(u8, ValSpec)>::empty());
        assert(view_fields(a, i) =~= seq![xv]);
        assert(view_fields(fs, i) =~= Seq::<(u8, ValSpec)>::empty());
        assert(view_fields(fs, i).push(xv) =~= seq![xv]);
    } else {
        lemma_view_fields_push(fs, x, i + 1);
        assert(a[i] == fs[i]);
        let vh = (fs[i].0, val_view(fs[i].1));
        assert(seq![vh] + view_fields(fs, i + 1).push(xv) =~= (seq![vh] + view_fields(
            fs, i + 1)).push(xv));
    }
}

/// Decodes a whole message from its wire form.
///
/// On success the input buffer is exactly the wire encoding of the
/// returned well-formed message, so a buffer produced by
/// [`encode_message`] decodes back to a message with the same encoding.
#[verifier::rlimit(100)]
pub fn decode_message(buf: &[u8]) -> (r: Result<Message, Error>)
    ensures
        r matches Ok(m) ==> buf@ == enc_message(m@) && wf_message(m@),
{
    if buf.len() > MAX_MESSAGE_SIZE {
        return Err(Error::MessageTooLarge);
    }
    if buf.len() < 16 {
        return Err(Error::UnexpectedEof);
    }
    if buf[0] != ENDIAN_LITTLE {
        return Err(Error::UnsupportedEndianness);
    }
    let mtype = buf[1];
    let flags = buf[2];
    if buf[3] != PROTOCOL_VERSION {
        return Err(Error::UnsupportedProtocolVersion);
    }
    let bodylen32 = match crate::codec::read_u32_at(buf, 4) {
        Ok(x) => x,
        Err(e) => {
            return Err(e);
        }
    };
    if bodylen32 as usize > MAX_MESSAGE_SIZE {
        return Err(Error::MessageTooLarge);
    }
    let serial = match crate::codec::read_u32_at(buf, 8) {
        Ok(x) => x,
        Err(e) => {
            return Err(e);
        }
    };
    let mut sms: Vec<TypeSig> = Vec::new();
    sms.push(TypeSig::Byte);
    sms.push(TypeSig::Variant);
    let stype = TypeSig::Struct(sms);
    proof {
        let smsv = (stype -> Struct_0)@;
        assert(smsv =~= seq![TypeSig::Byte, TypeSig::Variant]);
        assert(sig_bytes_list(smsv, 2) =~= Seq::<u8>::empty());
        assert(sig_bytes_list(smsv, 1) == sig_bytes(smsv[1]) + sig_bytes_list(smsv, 2));
        assert(sig_bytes_list(smsv, 0) == sig_bytes(smsv[0]) + sig_bytes_list(smsv, 1));
        assert(sig_bytes_list(smsv, 0) =~= seq![TC_BYTE, TC_VARIANT]);
        assert(sig_bytes(stype) =~= sig_yv());
        assert(valid_sig_list(smsv, 2));
        assert(valid_sig_list(smsv, 1) == (crate::signature::valid_sig(smsv[1])
            && valid_sig_list(smsv, 2)));
        assert(valid_sig_list(smsv, 0) == (crate::signature::valid_sig(smsv[0])
            && valid_sig_list(smsv, 1)));
        assert(crate::signature::valid_sig(stype));
    }
    let ftype = TypeSig::Array(Box::new(stype));
    proof {
        assert(crate::signature::valid_sig(ftype));
        assert(sig_bytes(ftype) =~= seq![TC_ARRAY] + sig_yv());
    }
    let (fval, fend) = match decode_value(buf, 12, &ftype, 0) {
        Ok(p) => p,
        Err(e) => {
            return Err(e);
        }
    };
    let ghost fval_view = fval@;
    let (esigv, mut elems) = match fval {
        Value::Array(es, el) => (es, el),
        _ => {
            return Err(Error::SignatureBodyMismatch);
        }
    };
    let ghost orig = view_list(elems@, 0);
    let initial_len = elems.len();
    proof {
        lemma_view_list_len(elems@, 0);
        assert(sig_of(fval_view) == sig_bytes(ftype));
        assert(sig_of(fval_view) == seq![TC_ARRAY] + esigv@);
        assert forall|j: int| 0 <= j < sig_yv().len() implies esigv@[j] == sig_yv()[j] by {
            assert((seq![TC_ARRAY] + esigv@)[j + 1] == esigv@[j]);
            assert((seq![TC_ARRAY] + sig_yv())[j + 1] == sig_yv()[j]);
        }
        assert(esigv@ =~= sig_yv());
        assert(crate::value::wf_elems(sig_yv(), orig, 0));
    }
    let mut fields: Vec<(u8, Value)> = Vec::new();
    let ghost total = initial_len as int;
    let mut k: usize = 0;
    while elems.len() > 0
        invariant
            total <= usize::MAX,
            k as int + elems@.len() == total,
            view_fields(fields@, 0).len() == k,
            fields@.len() == k,
            view_list(elems@, 0).len() == elems@.len(),
            view_list(elems@, 0) == orig.skip(k as int),
            orig.len() == total,
            view_fields(fields@, 0).map_values(|p: (u8, ValSpec)| field_elem(p)) == orig.take(
                k as int),
            crate::value::wf_elems(sig_yv(), orig, 0),
            forall|i: int| 0 <= i < k ==> wf_val(#[trigger] view_fields(fields@, 0)[i].1)
                && 1 <= sig_of(view_fields(fields@, 0)[i].1).len() <= 255,
        decreases elems@.len(),
    {
        proof {
            lemma_wf_elems_index(sig_yv(), orig, k as int);
            lemma_view_list_index(elems@, 0, 0);
            assert(view_list(elems@, 0)[0] == orig[k as int]);
        }
        let ghost prev = elems@;
        let e = elems.remove(0);
        proof {
            lemma_view_list_len(elems@, 0);
            assert forall|j: int| 0 <= j < elems@.len() implies view_list(elems@, 0)[j]
                == orig.skip(k as int + 1)[j] by {
                lemma_view_list_index(elems@, 0, j);
                assert(elems@[j] == prev[j + 1]);
                lemma_view_list_index(prev, 0, j + 1);
                assert(val_view(prev[j + 1]) == orig.skip(k as int)[j + 1]);
            }
            assert(view_list(elems@, 0) =~= orig.skip(k as int + 1));
            assert(e == prev[0]);
            assert(val_view(e) == orig[k as int]);
        }
        let mut ms = match e {
            Value::Struct(m) => m,
            _ => {
                return Err(Error::SignatureBodyMismatch);
            }
        };
        if ms.len() != 2 {
            return Err(Error::SignatureBodyMismatch);
        }
        proof {
            lemma_view_list_index(ms@, 0, 0);
            lemma_view_list_index(ms@, 0, 1);
            assert(view_list(ms@, 2) =~= Seq::<ValSpec>::empty());
            assert(view_list(ms@, 1) =~= seq![val_view(ms@[1])]);
            assert(view_list(ms@, 0) =~= seq![val_view(ms@[0]), val_view(ms@[1])]);
        }
        let ghost ms_view = view_list(ms@, 0);
        let second = ms.pop().unwrap();
        let first = ms.pop().unwrap();
        let c = match first {
            Value::Byte(c) => c,
            _ => {
                return Err(Error::SignatureBodyMismatch);
            }
        };
        let inner = match second {
            Value::Variant(bx) => *bx,
            _ => {
                return Err(Error::SignatureBodyMismatch);
            }
        };
        proof {
            assert(orig[k as int] == ValSpec::Struct(seq![ValSpec::Byte(c), ValSpec::Variant(
                Box::new(inner@))]));
            assert(orig[k as int] == field_elem((c, inner@)));
            assert(wf_val(orig[k as int]));
            let msv = seq![ValSpec::Byte(c), ValSpec::Variant(Box::new(inner@))];
            assert(crate::value::wf_list(msv, 0) == (wf_val(msv[0]) && crate::value::wf_list(
                msv, 1)));
            assert(crate::value::wf_list(msv, 1) == (wf_val(msv[1]) && crate::value::wf_list(
                msv, 2)));
            assert(crate::value::wf_list(msv, 0));
            assert(wf_val(msv[1]));
            assert(msv[1] == ValSpec::Variant(Box::new(inner@)));
            assert(wf_val(inner@) && 1 <= sig_of(inner@).len() <= 255);
            lemma_view_fields_push(fields@, (c, inner), 0);
            lemma_view_fields_len(fields@.push((c, inner)), 0);
            let vfs2 = view_fields(fields@, 0).push((c, inner@));
            assert(vfs2.map_values(|p: (u8, ValSpec)| field_elem(p)) =~= view_fields(
                fields@, 0).map_values(|p: (u8, ValSpec)| field_elem(p)).push(field_elem(
                (c, inner@))));
            assert(orig.take(k as int).push(orig[k as int]) =~= orig.take(k as int + 1));
        }
        fields.push((c, inner));
        k = k + 1;
    }
    proof {
        assert(orig.take(total) =~= orig);
        assert(fval_view == fields_val(view_fields(fields@, 0)));
    }
    // body
    let bstart = match crate::codec::check_padding(buf, fend, 8) {
        Ok(j) => j,
        Err(e) => {
            return Err(e);
        }
    };
    let bodylen = bodylen32 as usize;
    if bodylen != buf.len() - bstart {
        return Err(Error::UnexpectedEof);
    }
    let mut ts: Vec<TypeSig> = Vec::new();
    let mut have_sig = false;
    let mut sigv: Vec<u8> = Vec::new();
    let mut fi: usize = 0;
    while fi < fields.len()
        invariant
            fi <= fields@.len(),
        decreases fields@.len() - fi,
    {
        if fields[fi].0 == FIELD_SIGNATURE {
            match &fields[fi].1 {
                Value::SignatureStr(b) => {
                    sigv = clone_bytes(b);
                    have_sig = true;
                }
                _ => {
                    return Err(Error::SignatureBodyMismatch);
                }
            }
            break;
        }
        fi = fi + 1;
    }
    if have_sig {
        ts = match crate::signature::parse(sigv.as_slice()) {
            Ok(t) => t,
            Err(e) => {
                return Err(e);
            }
        };
    }
    let mut body: Vec<Value> = Vec::new();
    let mut cur = bstart;
    let mut bk: usize = 0;
    proof {
        lemma_view_list_len(body@, 0);
    }
    while bk < ts.len()
        invariant
            bstart <= cur <= buf@.len(),
            buf@.len() <= MAX_MESSAGE_SIZE,
            bk <= ts@.len(),
            body@.len() == bk,
            crate::signature::valid_sig_list(ts@, 0),
            view_list(body@, 0).len() == bk,
            buf@.subrange(bstart as int, cur as int) == enc_list(view_list(body@, 0), 0,
                bstart as int),
            forall|i: int| 0 <= i < bk ==> wf_val(#[trigger] view_list(body@, 0)[i]),
        decreases ts@.len() - bk,
    {
        proof {
            crate::codec::lemma_valid_sig_list_index(ts@, bk as int);
        }
        let (e, ne) = match decode_value(buf, cur, &ts[bk], 0) {
            Ok(p) => p,
            Err(e) => {
                return Err(e);
            }
        };
        proof {
            let vl = view_list(body@, 0);
            lemma_view_list_push(body@, e, 0);
            lemma_enc_list_push(vl, e@, 0, bstart as int);
            lemma_view_list_len(body@.push(e), 0);
            assert(enc_list(vl, 0, bstart as int).len() == cur - bstart);
            assert(buf@.subrange(bstart as int, cur as int) + buf@.subrange(cur as int,
                ne as int) =~= buf@.subrange(bstart as int, ne as int));
            assert(forall|i: int| 0 <= i < body@.len() ==> view_list(body@.push(e), 0)[i]
                == #[trigger] view_list(body@, 0)[i]);
            assert(view_list(body@.push(e), 0)[body@.len() as int] == e@);
        }
        body.push(e);
        cur = ne;
        bk = bk + 1;
    }
    if cur != buf.len() {
        return Err(Error::SignatureBodyMismatch);
    }
    let m = Message { mtype, flags, serial, fields, body };
    proof {
        lemma_wf_list_all(view_list(body@, 0), 0);
        let fbytes = enc_val(fields_val(m@.fields), 12);
        assert(fbytes == buf@.subrange(12, fend as int));
        let afterf = 12 + fbytes.len();
        let p = padding(afterf as int, 8);
        assert(buf@.subrange(fend as int, bstart as int) == p);
        let bodyb = enc_list(m@.body, 0, afterf + p.len() as int);
        assert(bodyb == buf@.subrange(bstart as int, buf@.len() as int));
        assert(bodyb.len() == bodylen32);
        assert(buf@.subrange(4, 8) == spec_u32_to_le_bytes(bodylen32));
        assert(buf@.subrange(8, 12) == spec_u32_to_le_bytes(serial));
        assert(buf@ =~= enc_message(m@));
    }
    Ok(m)
}


/// From the 16 fixed header bytes alone, how many more bytes the whole
/// message occupies: the header field array, padding to eight bytes,
/// and the body, per the two length fields the header declares.
pub fn wire_remaining(header: &[u8]) -> (r: Result<usize, Error>)
    requires
        header@.len() == 16,
    ensures
        r matches Ok(n) ==> {
            &&& vstd::bytes::spec_u32_from_le_bytes(header@.subrange(12, 16)) as int
                <= MAX_MESSAGE_SIZE
            &&& vstd::bytes::spec_u32_from_le_bytes(header@.subrange(4, 8)) as int
                <= MAX_MESSAGE_SIZE
            &&& n == crate::pad_len(16 + vstd::bytes::spec_u32_from_le_bytes(
                header@.subrange(12, 16)) as int, 8) + vstd::bytes::spec_u32_from_le_bytes(
                header@.subrange(12, 16)) + vstd::bytes::spec_u32_from_le_bytes(
                header@.subrange(4, 8))
        },
        r matches Err(e) ==> e == Error::MessageTooLarge && (
            vstd::bytes::spec_u32_from_le_bytes(header@.subrange(12, 16)) as int
            > MAX_MESSAGE_SIZE || vstd::bytes::spec_u32_from_le_bytes(header@.subrange(4, 8))
            as int > MAX_MESSAGE_SIZE),
{
    proof {
        lemma_auto_spec_u32_to_from_le_bytes();
    }
    let fl = match crate::codec::read_u32_at(header, 12) {
        Ok(x) => x,
        Err(_) => {
            return Err(Error::MessageTooLarge);
        }
    };
    let bl = match crate::codec::read_u32_at(header, 4) {
        Ok(x) => x,
        Err(_) => {
            return Err(Error::MessageTooLarge);
        }
    };
    proof {
        assert(spec_u32_to_le_bytes(fl).len() == 4);
        assert(spec_u32_to_le_bytes(bl).len() == 4);
        assert(vstd::bytes::spec_u32_from_le_bytes(spec_u32_to_le_bytes(fl)) == fl);
        assert(vstd::bytes::spec_u32_from_le_bytes(spec_u32_to_le_bytes(bl)) == bl);
    }
    if fl as usize > MAX_MESSAGE_SIZE || bl as usize > MAX_MESSAGE_SIZE {
        return Err(Error::MessageTooLarge);
    }
    let padded = crate::align_up(16 + fl as usize, 8);
    proof {
        lemma_auto_spec_u32_to_from_le_bytes();
        assert(spec_u32_to_le_bytes(fl).len() == 4);
        assert(spec_u32_to_le_bytes(bl).len() == 4);
        assert(header@.subrange(12, 16) == spec_u32_to_le_bytes(fl));
        assert(vstd::bytes::spec_u32_from_le_bytes(spec_u32_to_le_bytes(fl)) == fl);
        assert(header@.subrange(4, 8) == spec_u32_to_le_bytes(bl));
        assert(vstd::bytes::spec_u32_from_le_bytes(spec_u32_to_le_bytes(bl)) == bl);
    }
    Ok(padded - 16 + bl as usize)
}


/// Equal wire encodings agree on the whole fixed header: the message
/// type, the flags, and the serial are read back exactly.  Together
/// with the contracts of [`encode_message`] and [`decode_message`] —
/// decoding yields a message whose encoding is exactly the input —
/// this pins the scalar half of the encode-decode round trip.
pub proof fn lemma_enc_message_header_injective(a: MsgSpec, b: MsgSpec)
    requires
        enc_message(a) == enc_message(b),
    ensures
        a.mtype == b.mtype,
        a.flags == b.flags,
        a.serial == b.serial,
{
    lemma_auto_spec_u32_to_from_le_bytes();
    let ea = enc_message(a);
    let eb = enc_message(b);
    assert(spec_u32_to_le_bytes(a.serial).len() == 4);
    assert(spec_u32_to_le_bytes(b.serial).len() == 4);
    assert(ea[1] == a.mtype);
    assert(eb[1] == b.mtype);
    assert(ea[2] == a.flags);
    assert(ea.subrange(8, 12) =~= spec_u32_to_le_bytes(a.serial));
    assert(eb.subrange(8, 12) =~= spec_u32_to_le_bytes(b.serial));
    assert(vstd::bytes::spec_u32_from_le_bytes(spec_u32_to_le_bytes(a.serial)) == a.serial);
    assert(vstd::bytes::spec_u32_from_le_bytes(spec_u32_to_le_bytes(b.serial)) == b.serial);
}

} // verus!
