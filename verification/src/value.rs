use vstd::prelude::*;
use crate::Error;
use crate::signature::{
    TC_BYTE, TC_BOOL, TC_INT16, TC_UINT16, TC_INT32, TC_UINT32, TC_INT64,
    TC_UINT64, TC_STR, TC_PATH, TC_SIG, TC_VARIANT, TC_ARRAY, TC_STRUCT_OPEN, TC_STRUCT_CLOSE,
    TC_DICT_OPEN, TC_DICT_CLOSE,
};
use vstd::utf8::valid_utf8;
use vstd::string::StringSliceAdditionalSpecFns;

verus! {

/// The mathematical model of a D-Bus value: the same tree as [`Value`],
/// with sequences in place of vectors so that equality in contracts is
/// structural.
pub enum ValSpec {
    Byte(u8),
    Bool(bool),
    Int16(i16),
    Uint16(u16),
    Int32(i32),
    Uint32(u32),
    Int64(i64),
    Uint64(u64),
    Str(Seq<u8>),
    ObjectPath(Seq<u8>),
    SignatureStr(Seq<u8>),
    Variant(Box<ValSpec>),
    Array(Seq<u8>, Seq<ValSpec>),
    Struct(Seq<ValSpec>),
    DictEntry(Box<ValSpec>, Box<ValSpec>),
}

/// A single D-Bus value of any type: a tagged union over the primitive
/// types and the containers.  An `Array` carries its element signature
/// so that empty arrays keep their type.
#[derive(Debug, PartialEq, Eq)]
pub enum Value {
    Byte(u8),
    Bool(bool),
    Int16(i16),
    Uint16(u16),
    Int32(i32),
    Uint32(u32),
    Int64(i64),
    Uint64(u64),
    Str(Vec<u8>),
    ObjectPath(Vec<u8>),
    SignatureStr(Vec<u8>),
    Variant(Box<Value>),
    Array(Vec<u8>, Vec<Value>),
    Struct(Vec<Value>),
    DictEntry(Box<Value>, Box<Value>),
}

/// A self-describing value: in this library every [`Value`] carries
/// enough structure to derive its signature, so the two are one type.
pub type Variant = Value;

pub open spec fn val_view(v: Value) -> ValSpec
    decreases v,
{
    match v {
        Value::Byte(x) => ValSpec::Byte(x),
        Value::Bool(x) => ValSpec::Bool(x),
        Value::Int16(x) => ValSpec::Int16(x),
        Value::Uint16(x) => ValSpec::Uint16(x),
        Value::Int32(x) => ValSpec::Int32(x),
        Value::Uint32(x) => ValSpec::Uint32(x),
        Value::Int64(x) => ValSpec::Int64(x),
        Value::Uint64(x) => ValSpec::Uint64(x),
        Value::Str(b) => ValSpec::Str(b@),
        Value::ObjectPath(b) => ValSpec::ObjectPath(b@),
        Value::SignatureStr(b) => ValSpec::SignatureStr(b@),
        Value::Variant(inner) => ValSpec::Variant(Box::new(val_view(*inner))),
        Value::Array(esig, elems) => ValSpec::Array(esig@, view_list(elems@, 0)),
        Value::Struct(elems) => ValSpec::Struct(view_list(elems@, 0)),
        Value::DictEntry(k, w) => ValSpec::DictEntry(
            Box::new(val_view(*k)),
            Box::new(val_view(*w)),
        ),
    }
}

pub open spec fn view_list(vs: Seq<Value>, i: int) -> Seq<ValSpec>
    decreases vs, vs.len() - i,
{
    if 0 <= i < vs.len() {
        seq![val_view(vs[i])] + view_list(vs, i + 1)
    } else {
        Seq::<ValSpec>::empty()
    }
}

impl View for Value {
    type V = ValSpec;

    open spec fn view(&self) -> ValSpec {
        val_view(*self)
    }
}

pub broadcast proof fn lemma_view_list_index(vs: Seq<Value>, i: int, k: int)
    requires
        0 <= i <= k < vs.len(),
    ensures
        #[trigger] view_list(vs, i)[k - i] == vs[k]@,
        view_list(vs, i).len() == vs.len() - i,
    decreases vs.len() - i,
{
    lemma_view_list_len(vs, i);
    if i < k {
        lemma_view_list_index(vs, i + 1, k);
        lemma_view_list_len(vs, i + 1);
    } else {
        lemma_view_list_len(vs, i + 1);
    }
}

pub proof fn lemma_view_list_len(vs: Seq<Value>, i: int)
    requires
        0 <= i <= vs.len(),
    ensures
        view_list(vs, i).len() == vs.len() - i,
    decreases vs.len() - i,
{
    if i < vs.len() {
        lemma_view_list_len(vs, i + 1);
    }
}

/// The signature string of a value, derived from its shape.
pub open spec fn sig_of(v: ValSpec) -> Seq<u8>
    decreases v,
{
    match v {
        ValSpec::Byte(_) => seq![TC_BYTE],
        ValSpec::Bool(_) => seq![TC_BOOL],
        ValSpec::Int16(_) => seq![TC_INT16],
        ValSpec::Uint16(_) => seq![TC_UINT16],
        ValSpec::Int32(_) => seq![TC_INT32],
        ValSpec::Uint32(_) => seq![TC_UINT32],
        ValSpec::Int64(_) => seq![TC_INT64],
        ValSpec::Uint64(_) => seq![TC_UINT64],
        ValSpec::Str(_) => seq![TC_STR],
        ValSpec::ObjectPath(_) => seq![TC_PATH],
        ValSpec::SignatureStr(_) => seq![TC_SIG],
        ValSpec::Variant(_) => seq![TC_VARIANT],
        ValSpec::Array(esig, _) => seq![TC_ARRAY] + esig,
        ValSpec::Struct(ms) => seq![TC_STRUCT_OPEN] + sig_of_list(ms, 0) + seq![TC_STRUCT_CLOSE],
        ValSpec::DictEntry(k, w) => seq![TC_DICT_OPEN] + sig_of(*k) + sig_of(*w) + seq![
            TC_DICT_CLOSE,
        ],
    }
}

pub open spec fn sig_of_list(vs: Seq<ValSpec>, i: int) -> Seq<u8>
    decreases vs, vs.len() - i,
{
    if 0 <= i < vs.len() {
        sig_of(vs[i]) + sig_of_list(vs, i + 1)
    } else {
        Seq::<u8>::empty()
    }
}

/// A value of a basic type: the only values allowed as dict-entry keys.
pub open spec fn basic_val(v: ValSpec) -> bool {
    match v {
        ValSpec::Variant(_) | ValSpec::Array(_, _) | ValSpec::Struct(_)
        | ValSpec::DictEntry(_, _) => false,
        _ => true,
    }
}

/// No nul byte: D-Bus strings, paths and signatures cannot contain one.
pub open spec fn no_nul(b: Seq<u8>) -> bool {
    forall|i: int| 0 <= i < b.len() ==> b[i] != 0
}

/// Well-formed value: strings are valid UTF-8 without interior nul and
/// fit their length prefix, signatures fit one length byte, a variant's
/// signature fits one length byte, array elements all carry the array's
/// element signature, structs are non-empty, and dict-entry keys are
/// basic.
pub open spec fn wf_val(v: ValSpec) -> bool
    decreases v,
{
    match v {
        ValSpec::Str(b) => valid_utf8(b) && no_nul(b) && b.len() <= 0xFFFFFFFF,
        ValSpec::ObjectPath(b) => valid_utf8(b) && no_nul(b) && b.len() <= 0xFFFFFFFF,
        ValSpec::SignatureStr(b) => no_nul(b) && b.len() <= 255,
        ValSpec::Variant(inner) => wf_val(*inner) && 1 <= sig_of(*inner).len() <= 255,
        ValSpec::Array(esig, elems) => 1 <= esig.len() && wf_elems(esig, elems, 0),
        ValSpec::Struct(ms) => ms.len() >= 1 && wf_list(ms, 0),
        ValSpec::DictEntry(k, w) => basic_val(*k) && wf_val(*k) && wf_val(*w),
        _ => true,
    }
}

pub open spec fn wf_list(vs: Seq<ValSpec>, i: int) -> bool
    decreases vs, vs.len() - i,
{
    if 0 <= i < vs.len() {
        wf_val(vs[i]) && wf_list(vs, i + 1)
    } else {
        true
    }
}

pub open spec fn wf_elems(esig: Seq<u8>, vs: Seq<ValSpec>, i: int) -> bool
    decreases vs, vs.len() - i,
{
    if 0 <= i < vs.len() {
        wf_val(vs[i]) && sig_of(vs[i]) == esig && wf_elems(esig, vs, i + 1)
    } else {
        true
    }
}

/// Container nesting of `v` stays within `budget` more levels.
pub open spec fn depth_le(v: ValSpec, budget: int) -> bool
    decreases v,
{
    match v {
        ValSpec::Variant(inner) => budget > 0 && depth_le(*inner, budget - 1),
        ValSpec::Array(_, elems) => budget > 0 && depth_le_list(elems, 0, budget - 1),
        ValSpec::Struct(ms) => budget > 0 && depth_le_list(ms, 0, budget - 1),
        ValSpec::DictEntry(k, w) => budget > 0 && depth_le(*k, budget - 1) && depth_le(
            *w,
            budget - 1,
        ),
        _ => budget >= 0,
    }
}

pub open spec fn depth_le_list(vs: Seq<ValSpec>, i: int, budget: int) -> bool
    decreases vs, vs.len() - i,
{
    if 0 <= i < vs.len() {
        depth_le(vs[i], budget) && depth_le_list(vs, i + 1, budget)
    } else {
        budget >= 0
    }
}

/// The protocol's maximum container nesting depth.
pub const MAX_DEPTH: u64 = 64;

impl Value {
    /// Whether the container nesting of this value stays within `budget`
    /// more levels.
    pub fn depth_within(&self, budget: u64) -> (r: bool)
        ensures
            r == depth_le(self@, budget as int),
        decreases *self,
    {
        match self {
            Value::Variant(inner) => budget > 0 && inner.depth_within(budget - 1),
            Value::Array(_, elems) => budget > 0 && depth_within_list(elems, 0, budget - 1),
            Value::Struct(ms) => budget > 0 && depth_within_list(ms, 0, budget - 1),
            Value::DictEntry(k, w) => budget > 0 && {
                let a = k.depth_within(budget - 1);
                let b = w.depth_within(budget - 1);
                a && b
            },
            _ => true,
        }
    }

    /// Appends this value's signature string to `out`.
    pub fn write_signature(&self, out: &mut Vec<u8>)
        ensures
            final(out)@ == old(out)@ + sig_of(self@),
        decreases *self,
    {
        match self {
            Value::Byte(_) => { out.push(TC_BYTE); }
            Value::Bool(_) => { out.push(TC_BOOL); }
            Value::Int16(_) => { out.push(TC_INT16); }
            Value::Uint16(_) => { out.push(TC_UINT16); }
            Value::Int32(_) => { out.push(TC_INT32); }
            Value::Uint32(_) => { out.push(TC_UINT32); }
            Value::Int64(_) => { out.push(TC_INT64); }
            Value::Uint64(_) => { out.push(TC_UINT64); }
            Value::Str(_) => { out.push(TC_STR); }
            Value::ObjectPath(_) => { out.push(TC_PATH); }
            Value::SignatureStr(_) => { out.push(TC_SIG); }
            Value::Variant(_) => { out.push(TC_VARIANT); }
            Value::Array(esig, _) => {
                out.push(TC_ARRAY);
                push_all(out, esig);
            }
            Value::Struct(ms) => {
                out.push(TC_STRUCT_OPEN);
                write_signature_list(ms, 0, out);
                out.push(TC_STRUCT_CLOSE);
            }
            Value::DictEntry(k, w) => {
                out.push(TC_DICT_OPEN);
                k.write_signature(out);
                w.write_signature(out);
                out.push(TC_DICT_CLOSE);
            }
        }
    }

    /// The signature string of this value.
    pub fn signature(&self) -> (r: Vec<u8>)
        ensures
            r@ == sig_of(self@),
    {
        let mut out: Vec<u8> = Vec::new();
        self.write_signature(&mut out);
        out
    }
}

/// Appends the bytes of `b` to `out`.
pub fn push_all(out: &mut Vec<u8>, b: &Vec<u8>)
    ensures
        final(out)@ == old(out)@ + b@,
{
    let mut i: usize = 0;
    while i < b.len()
        invariant
            i <= b@.len(),
            out@ == old(out)@ + b@.take(i as int),
        decreases b@.len() - i,
    {
        out.push(b[i]);
        proof {
            assert(old(out)@ + b@.take(i as int) + seq![b@[i as int]] =~= old(out)@ + b@.take(
                i + 1));
        }
        i = i + 1;
    }
    proof {
        assert(old(out)@ + b@.take(b@.len() as int) =~= old(out)@ + b@);
    }
}

pub fn write_signature_list(vs: &Vec<Value>, from: usize, out: &mut Vec<u8>)
    requires
        from <= vs@.len(),
    ensures
        final(out)@ == old(out)@ + sig_of_list(view_list(vs@, 0), from as int),
    decreases vs@, vs@.len() - from,
{
    proof {
        lemma_view_list_len(vs@, 0);
    }
    if from < vs.len() {
        proof {
            lemma_view_list_index(vs@, 0, from as int);
        }
        vs[from].write_signature(out);
        write_signature_list(vs, from + 1, out);
        proof {
            assert(old(out)@ + sig_of(view_list(vs@, 0)[from as int]) + sig_of_list(
                view_list(vs@, 0), from + 1) =~= old(out)@ + sig_of_list(
                view_list(vs@, 0), from as int));
        }
    } else {
        proof {
            assert(old(out)@ + sig_of_list(view_list(vs@, 0), from as int) =~= old(out)@);
        }
    }
}

pub fn depth_within_list(vs: &Vec<Value>, from: usize, budget: u64) -> (r: bool)
    requires
        from <= vs@.len(),
    ensures
        r == depth_le_list(view_list(vs@, 0), from as int, budget as int),
    decreases vs@, vs@.len() - from,
{
    proof {
        lemma_view_list_len(vs@, 0);
    }
    if from < vs.len() {
        proof {
            lemma_view_list_index(vs@, 0, from as int);
        }
        let a = vs[from].depth_within(budget);
        if !a {
            return false;
        }
        depth_within_list(vs, from + 1, budget)
    } else {
        true
    }
}


/// Every element of `vs[i..]` has signature `esig`.
pub open spec fn homo_list(esig: Seq<u8>, vs: Seq<ValSpec>, i: int) -> bool
    decreases vs, vs.len() - i,
{
    if 0 <= i < vs.len() {
        sig_of(vs[i]) == esig && homo_list(esig, vs, i + 1)
    } else {
        true
    }
}

impl Value {
    pub fn get_byte(&self) -> (r: Result<u8, Error>)
        ensures
            r matches Ok(x) ==> self@ == ValSpec::Byte(x),
            r matches Err(e) ==> e == Error::SignatureMismatch && !(self@ is Byte),
    {
        match self {
            Value::Byte(x) => Ok(*x),
            _ => Err(Error::SignatureMismatch),
        }
    }

    pub fn get_bool(&self) -> (r: Result<bool, Error>)
        ensures
            r matches Ok(x) ==> self@ == ValSpec::Bool(x),
            r matches Err(e) ==> e == Error::SignatureMismatch && !(self@ is Bool),
    {
        match self {
            Value::Bool(x) => Ok(*x),
            _ => Err(Error::SignatureMismatch),
        }
    }

    pub fn get_i16(&self) -> (r: Result<i16, Error>)
        ensures
            r matches Ok(x) ==> self@ == ValSpec::Int16(x),
            r matches Err(e) ==> e == Error::SignatureMismatch && !(self@ is Int16),
    {
        match self {
            Value::Int16(x) => Ok(*x),
            _ => Err(Error::SignatureMismatch),
        }
    }

    pub fn get_u16(&self) -> (r: Result<u16, Error>)
        ensures
            r matches Ok(x) ==> self@ == ValSpec::Uint16(x),
            r matches Err(e) ==> e == Error::SignatureMismatch && !(self@ is Uint16),
    {
        match self {
            Value::Uint16(x) => Ok(*x),
            _ => Err(Error::SignatureMismatch),
        }
    }

    pub fn get_i32(&self) -> (r: Result<i32, Error>)
        ensures
            r matches Ok(x) ==> self@ == ValSpec::Int32(x),
            r matches Err(e) ==> e == Error::SignatureMismatch && !(self@ is Int32),
    {
        match self {
            Value::Int32(x) => Ok(*x),
            _ => Err(Error::SignatureMismatch),
        }
    }

    pub fn get_u32(&self) -> (r: Result<u32, Error>)
        ensures
            r matches Ok(x) ==> self@ == ValSpec::Uint32(x),
            r matches Err(e) ==> e == Error::SignatureMismatch && !(self@ is Uint32),
    {
        match self {
            Value::Uint32(x) => Ok(*x),
            _ => Err(Error::SignatureMismatch),
        }
    }

    pub fn get_i64(&self) -> (r: Result<i64, Error>)
        ensures
            r matches Ok(x) ==> self@ == ValSpec::Int64(x),
            r matches Err(e) ==> e == Error::SignatureMismatch && !(self@ is Int64),
    {
        match self {
            Value::Int64(x) => Ok(*x),
            _ => Err(Error::SignatureMismatch),
        }
    }

    pub fn get_u64(&self) -> (r: Result<u64, Error>)
        ensures
            r matches Ok(x) ==> self@ == ValSpec::Uint64(x),
            r matches Err(e) ==> e == Error::SignatureMismatch && !(self@ is Uint64),
    {
        match self {
            Value::Uint64(x) => Ok(*x),
            _ => Err(Error::SignatureMismatch),
        }
    }

    /// The bytes of a string value (valid UTF-8 when the value is well
    /// formed).
    pub fn get_str(&self) -> (r: Result<&Vec<u8>, Error>)
        ensures
            r matches Ok(b) ==> self@ == ValSpec::Str(b@),
            r matches Err(e) ==> e == Error::SignatureMismatch && !(self@ is Str),
    {
        match self {
            Value::Str(b) => Ok(b),
            _ => Err(Error::SignatureMismatch),
        }
    }

    pub fn get_object_path(&self) -> (r: Result<&Vec<u8>, Error>)
        ensures
            r matches Ok(b) ==> self@ == ValSpec::ObjectPath(b@),
            r matches Err(e) ==> e == Error::SignatureMismatch && !(self@ is ObjectPath),
    {
        match self {
            Value::ObjectPath(b) => Ok(b),
            _ => Err(Error::SignatureMismatch),
        }
    }

    pub fn get_signature_str(&self) -> (r: Result<&Vec<u8>, Error>)
        ensures
            r matches Ok(b) ==> self@ == ValSpec::SignatureStr(b@),
            r matches Err(e) ==> e == Error::SignatureMismatch && !(self@ is SignatureStr),
    {
        match self {
            Value::SignatureStr(b) => Ok(b),
            _ => Err(Error::SignatureMismatch),
        }
    }

    pub fn get_variant(&self) -> (r: Result<&Value, Error>)
        ensures
            r matches Ok(inner) ==> self@ == ValSpec::Variant(Box::new(inner@)),
            r matches Err(e) ==> e == Error::SignatureMismatch && !(self@ is Variant),
    {
        match self {
            Value::Variant(inner) => Ok(inner),
            _ => Err(Error::SignatureMismatch),
        }
    }

    pub fn get_array(&self) -> (r: Result<(&Vec<u8>, &Vec<Value>), Error>)
        ensures
            r matches Ok(p) ==> self@ == ValSpec::Array(p.0@, view_list(p.1@, 0)),
            r matches Err(e) ==> e == Error::SignatureMismatch && !(self@ is Array),
    {
        match self {
            Value::Array(esig, elems) => Ok((esig, elems)),
            _ => Err(Error::SignatureMismatch),
        }
    }

    pub fn get_struct(&self) -> (r: Result<&Vec<Value>, Error>)
        ensures
            r matches Ok(ms) ==> self@ == ValSpec::Struct(view_list(ms@, 0)),
            r matches Err(e) ==> e == Error::SignatureMismatch && !(self@ is Struct),
    {
        match self {
            Value::Struct(ms) => Ok(ms),
            _ => Err(Error::SignatureMismatch),
        }
    }

    pub fn get_dict_entry(&self) -> (r: Result<(&Value, &Value), Error>)
        ensures
            r matches Ok(p) ==> self@ == ValSpec::DictEntry(Box::new(p.0@), Box::new(p.1@)),
            r matches Err(e) ==> e == Error::SignatureMismatch && !(self@ is DictEntry),
    {
        match self {
            Value::DictEntry(k, w) => Ok((k, w)),
            _ => Err(Error::SignatureMismatch),
        }
    }

    /// Wraps a string as a D-Bus string value.  Fails only when the
    /// string contains a nul byte, which the wire format cannot carry.
    pub fn new_str(s: &str) -> (r: Result<Value, Error>)
        ensures
            r matches Ok(v) ==> v@ == ValSpec::Str(s.spec_bytes()) && wf_val(v@),
            r matches Err(e) ==> e == Error::MissingNulTerminator && !(no_nul(s.spec_bytes())
                && s.spec_bytes().len() <= 0xFFFFFFFF),
    {
        let b = bytes_of_str(s);
        if !has_no_nul(&b) {
            return Err(Error::MissingNulTerminator);
        }
        if b.len() > 0xFFFFFFFFusize {
            return Err(Error::MissingNulTerminator);
        }
        proof {
            vstd::utf8::encode_utf8_valid_utf8(s@);
        }
        Ok(Value::Str(b))
    }

    /// Wraps a string as a D-Bus object path value.
    pub fn new_object_path(s: &str) -> (r: Result<Value, Error>)
        ensures
            r matches Ok(v) ==> v@ == ValSpec::ObjectPath(s.spec_bytes()) && wf_val(v@),
            r matches Err(e) ==> e == Error::MissingNulTerminator && !(no_nul(s.spec_bytes())
                && s.spec_bytes().len() <= 0xFFFFFFFF),
    {
        let b = bytes_of_str(s);
        if !has_no_nul(&b) {
            return Err(Error::MissingNulTerminator);
        }
        if b.len() > 0xFFFFFFFFusize {
            return Err(Error::MissingNulTerminator);
        }
        proof {
            vstd::utf8::encode_utf8_valid_utf8(s@);
        }
        Ok(Value::ObjectPath(b))
    }

    /// Wraps a value in a variant.  Fails with `NestingTooDeep` exactly
    /// when the wrapped result would nest containers deeper than the
    /// protocol's limit of 64.
    pub fn new_variant(inner: Value) -> (r: Result<Value, Error>)
        ensures
            r matches Ok(v) ==> v@ == ValSpec::Variant(Box::new(inner@)) && depth_le(
                v@, MAX_DEPTH as int) && (wf_val(inner@) && sig_of(inner@).len() <= 255
                ==> wf_val(v@)),
            r matches Err(e) ==> e == Error::NestingTooDeep && !depth_le(
                ValSpec::Variant(Box::new(inner@)), MAX_DEPTH as int),
    {
        if inner.depth_within(MAX_DEPTH - 1) {
            proof {
                lemma_sig_of_nonempty(inner@);
            }
            Ok(Value::Variant(Box::new(inner)))
        } else {
            Err(Error::NestingTooDeep)
        }
    }

    /// Builds an array value from its elements, taking the element
    /// signature from the first element.  Fails with
    /// `HeterogeneousArray` exactly when some element's signature
    /// differs from the first one's; an empty sequence has no element
    /// signature and is rejected as `MalformedSignature`.
    pub fn new_array(elems: Vec<Value>) -> (r: Result<Value, Error>)
        ensures
            r matches Ok(v) ==> elems@.len() > 0 && v@ == ValSpec::Array(
                sig_of(elems@[0]@), view_list(elems@, 0)) && (wf_list(view_list(elems@, 0), 0)
                ==> wf_val(v@)),
            r matches Err(e) ==> (e == Error::MalformedSignature && (elems@.len() == 0
                || sig_of(elems@[0]@).len() > 255)) || (e == Error::HeterogeneousArray
                && elems@.len() > 0 && !homo_list(sig_of(elems@[0]@), view_list(elems@, 0), 0))
                || (e == Error::NestingTooDeep),
    {
        if elems.len() == 0 {
            return Err(Error::MalformedSignature);
        }
        proof {
            lemma_view_list_index(elems@, 0, 0);
        }
        let esig = elems[0].signature();
        Value::new_array_typed(esig, elems)
    }

    /// Builds an array value with an explicit element signature, so that
    /// an empty array keeps its type.  Fails with `HeterogeneousArray`
    /// exactly when some element's signature differs from `esig`.
    pub fn new_array_typed(esig: Vec<u8>, elems: Vec<Value>) -> (r: Result<Value, Error>)
        ensures
            r matches Ok(v) ==> v@ == ValSpec::Array(esig@, view_list(elems@, 0)) && homo_list(
                esig@, view_list(elems@, 0), 0) && 1 <= esig@.len() && (wf_list(
                view_list(elems@, 0), 0) ==> wf_val(v@)),
            r matches Err(e) ==> (e == Error::MalformedSignature && !(1 <= esig@.len() <= 255))
                || (e == Error::HeterogeneousArray && !homo_list(esig@, view_list(elems@, 0), 0))
                || (e == Error::NestingTooDeep && !depth_le(
                ValSpec::Array(esig@, view_list(elems@, 0)), MAX_DEPTH as int)),
    {
        if esig.len() == 0 || esig.len() > 255 {
            return Err(Error::MalformedSignature);
        }
        let ghost vl = view_list(elems@, 0);
        proof {
            lemma_view_list_len(elems@, 0);
        }
        let mut i: usize = 0;
        while i < elems.len()
            invariant
                i <= elems@.len(),
                vl == view_list(elems@, 0),
                vl.len() == elems@.len(),
                forall|k: int| 0 <= k < i ==> sig_of(#[trigger] vl[k]) == esig@,
            decreases elems@.len() - i,
        {
            proof {
                lemma_view_list_index(elems@, 0, i as int);
            }
            let s = elems[i].signature();
            if !bytes_eq(&s, &esig) {
                proof {
                    lemma_homo_list_counterexample(esig@, vl, i as int);
                }
                return Err(Error::HeterogeneousArray);
            }
            i = i + 1;
        }
        proof {
            lemma_homo_list_all(esig@, vl, 0);
        }
        let v = Value::Array(esig, elems);
        if !v.depth_within(MAX_DEPTH) {
            return Err(Error::NestingTooDeep);
        }
        proof {
            lemma_wf_elems_from_parts(esig@, vl, 0);
        }
        Ok(v)
    }

    /// Builds a struct value; a struct has at least one member.
    pub fn new_struct(ms: Vec<Value>) -> (r: Result<Value, Error>)
        ensures
            r matches Ok(v) ==> v@ == ValSpec::Struct(view_list(ms@, 0)) && ms@.len() > 0 && (
            wf_list(view_list(ms@, 0), 0) ==> wf_val(v@)),
            r matches Err(e) ==> (e == Error::MalformedSignature && ms@.len() == 0) || (
            e == Error::NestingTooDeep && !depth_le(
                ValSpec::Struct(view_list(ms@, 0)), MAX_DEPTH as int)),
    {
        if ms.len() == 0 {
            return Err(Error::MalformedSignature);
        }
        proof {
            lemma_view_list_len(ms@, 0);
        }
        let v = Value::Struct(ms);
        if !v.depth_within(MAX_DEPTH) {
            return Err(Error::NestingTooDeep);
        }
        Ok(v)
    }

    /// Builds a dict entry; the key must be of a basic type.
    pub fn new_dict_entry(key: Value, val: Value) -> (r: Result<Value, Error>)
        ensures
            r matches Ok(v) ==> v@ == ValSpec::DictEntry(Box::new(key@), Box::new(val@))
                && basic_val(key@) && (wf_val(key@) && wf_val(val@) ==> wf_val(v@)),
            r matches Err(e) ==> (e == Error::MalformedSignature && !basic_val(key@)) || (
            e == Error::NestingTooDeep && !depth_le(
                ValSpec::DictEntry(Box::new(key@), Box::new(val@)), MAX_DEPTH as int)),
    {
        let basic = match &key {
            Value::Variant(_) | Value::Array(_, _) | Value::Struct(_)
            | Value::DictEntry(_, _) => false,
            _ => true,
        };
        if !basic {
            return Err(Error::MalformedSignature);
        }
        let v = Value::DictEntry(Box::new(key), Box::new(val));
        if !v.depth_within(MAX_DEPTH) {
            return Err(Error::NestingTooDeep);
        }
        Ok(v)
    }
}

/// Every value's signature holds at least its leading type code.
pub proof fn lemma_sig_of_nonempty(v: ValSpec)
    ensures
        sig_of(v).len() >= 1,
{
}

proof fn lemma_homo_list_counterexample(esig: Seq<u8>, vs: Seq<ValSpec>, i: int)
    requires
        0 <= i < vs.len(),
        sig_of(vs[i]) != esig,
    ensures
        !homo_list(esig, vs, 0),
    decreases i,
{
    lemma_homo_list_counterexample_rec(esig, vs, 0, i);
}

proof fn lemma_homo_list_counterexample_rec(esig: Seq<u8>, vs: Seq<ValSpec>, j: int, i: int)
    requires
        0 <= j <= i < vs.len(),
        sig_of(vs[i]) != esig,
    ensures
        !homo_list(esig, vs, j),
    decreases i - j,
{
    if j < i {
        lemma_homo_list_counterexample_rec(esig, vs, j + 1, i);
    }
}

proof fn lemma_homo_list_all(esig: Seq<u8>, vs: Seq<ValSpec>, j: int)
    requires
        0 <= j <= vs.len(),
        forall|k: int| 0 <= k < vs.len() ==> sig_of(#[trigger] vs[k]) == esig,
    ensures
        homo_list(esig, vs, j),
    decreases vs.len() - j,
{
    if j < vs.len() {
        lemma_homo_list_all(esig, vs, j + 1);
    }
}

/// Homogeneous and individually well-formed elements make a well-formed
/// array body.
proof fn lemma_wf_elems_from_parts(esig: Seq<u8>, vs: Seq<ValSpec>, j: int)
    requires
        0 <= j <= vs.len(),
        homo_list(esig, vs, 0),
    ensures
        wf_list(vs, j) ==> wf_elems(esig, vs, j),
    decreases vs.len() - j,
{
    lemma_homo_list_suffix(esig, vs, 0, j);
    if j < vs.len() {
        lemma_wf_elems_from_parts(esig, vs, j + 1);
    }
}

proof fn lemma_homo_list_suffix(esig: Seq<u8>, vs: Seq<ValSpec>, j: int, i: int)
    requires
        0 <= j <= i <= vs.len(),
        homo_list(esig, vs, j),
    ensures
        homo_list(esig, vs, i),
    decreases i - j,
{
    if j < i {
        lemma_homo_list_suffix(esig, vs, j + 1, i);
    }
}

/// Bytes of a string slice.
pub fn bytes_of_str(s: &str) -> (r: Vec<u8>)
    ensures
        r@ == s.spec_bytes(),
{
    let sl = s.as_bytes();
    vstd::slice::slice_to_vec(sl)
}

/// Whether `b` is free of nul bytes.
pub fn has_no_nul(b: &Vec<u8>) -> (r: bool)
    ensures
        r == no_nul(b@),
{
    let mut i: usize = 0;
    while i < b.len()
        invariant
            i <= b@.len(),
            forall|k: int| 0 <= k < i ==> b@[k] != 0,
        decreases b@.len() - i,
    {
        if b[i] == 0 {
            return false;
        }
        i = i + 1;
    }
    true
}

/// Byte-string equality.
pub fn bytes_eq(a: &Vec<u8>, b: &Vec<u8>) -> (r: bool)
    ensures
        r == (a@ == b@),
{
    if a.len() != b.len() {
        return false;
    }
    let mut i: usize = 0;
    while i < a.len()
        invariant
            i <= a@.len(),
            a@.len() == b@.len(),
            forall|k: int| 0 <= k < i ==> a@[k] == b@[k],
        decreases a@.len() - i,
    {
        if a[i] != b[i] {
            return false;
        }
        i = i + 1;
    }
    proof {
        assert(a@ =~= b@);
    }
    true
}


impl Value {
    /// A structurally equal copy of this value.
    pub fn deep_clone(&self) -> (r: Value)
        ensures
            r@ == self@,
        decreases *self,
    {
        match self {
            Value::Byte(x) => Value::Byte(*x),
            Value::Bool(x) => Value::Bool(*x),
            Value::Int16(x) => Value::Int16(*x),
            Value::Uint16(x) => Value::Uint16(*x),
            Value::Int32(x) => Value::Int32(*x),
            Value::Uint32(x) => Value::Uint32(*x),
            Value::Int64(x) => Value::Int64(*x),
            Value::Uint64(x) => Value::Uint64(*x),
            Value::Str(b) => Value::Str(clone_bytes(b)),
            Value::ObjectPath(b) => Value::ObjectPath(clone_bytes(b)),
            Value::SignatureStr(b) => Value::SignatureStr(clone_bytes(b)),
            Value::Variant(inner) => Value::Variant(Box::new(inner.deep_clone())),
            Value::Array(esig, elems) => Value::Array(clone_bytes(esig), clone_values(elems)),
            Value::Struct(ms) => Value::Struct(clone_values(ms)),
            Value::DictEntry(k, w) => Value::DictEntry(
                Box::new(k.deep_clone()),
                Box::new(w.deep_clone()),
            ),
        }
    }
}

/// A copy of a byte vector.
pub fn clone_bytes(b: &Vec<u8>) -> (r: Vec<u8>)
    ensures
        r@ == b@,
{
    let mut out: Vec<u8> = Vec::new();
    push_all(&mut out, b);
    proof {
        assert(Seq::<u8>::empty() + b@ =~= b@);
    }
    out
}

/// A copy of a value vector, structurally equal element by element.
pub fn clone_values(vs: &Vec<Value>) -> (r: Vec<Value>)
    ensures
        view_list(r@, 0) == view_list(vs@, 0),
        r@.len() == vs@.len(),
    decreases vs@,
{
    let mut out: Vec<Value> = Vec::new();
    let mut i: usize = 0;
    proof {
        lemma_view_list_len(vs@, 0);
    }
    while i < vs.len()
        invariant
            i <= vs@.len(),
            out@.len() == i,
            view_list(out@, 0).len() == i,
            view_list(vs@, 0).len() == vs@.len(),
            forall|k: int| 0 <= k < i ==> view_list(out@, 0)[k] == #[trigger] view_list(
                vs@, 0)[k],
        decreases vs@.len() - i,
    {
        proof {
            lemma_view_list_index(vs@, 0, i as int);
        }
        let c = vs[i].deep_clone();
        proof {
            crate::codec::lemma_view_list_push(out@, c, 0);
            lemma_view_list_len(out@.push(c), 0);
            assert(forall|k: int| 0 <= k < i ==> view_list(out@.push(c), 0)[k]
                == #[trigger] view_list(out@, 0)[k]);
            assert(view_list(out@.push(c), 0)[i as int] == c@);
        }
        out.push(c);
        i = i + 1;
    }
    proof {
        assert forall|k: int| 0 <= k < vs@.len() implies view_list(out@, 0)[k] == view_list(
            vs@, 0)[k] by {
        }
        assert(view_list(out@, 0) =~= view_list(vs@, 0));
    }
    out
}


impl Value {
    /// Whether this value is well formed, decided at run time; callers
    /// outside verified code can test it before handing a value to the
    /// encoder.
    pub fn is_wf(&self) -> (r: bool)
        ensures
            r == wf_val(self@),
        decreases *self,
    {
        match self {
            Value::Str(b) => crate::codec::utf8_ok(b.as_slice()) && has_no_nul(b) && b.len()
                <= 0xFFFFFFFFusize,
            Value::ObjectPath(b) => crate::codec::utf8_ok(b.as_slice()) && has_no_nul(b)
                && b.len() <= 0xFFFFFFFFusize,
            Value::SignatureStr(b) => has_no_nul(b) && b.len() <= 255,
            Value::Variant(inner) => inner.is_wf() && {
                let sv = inner.signature();
                1 <= sv.len() && sv.len() <= 255
            },
            Value::Array(esig, elems) => esig.len() >= 1 && is_wf_elems(esig, elems, 0),
            Value::Struct(ms) => ms.len() >= 1 && is_wf_list(ms, 0),
            Value::DictEntry(k, w) => {
                let basic = match &**k {
                    Value::Variant(_) | Value::Array(_, _) | Value::Struct(_)
                    | Value::DictEntry(_, _) => false,
                    _ => true,
                };
                basic && k.is_wf() && w.is_wf()
            },
            _ => true,
        }
    }
}

/// Whether every element of `vs[from..]` is well formed.
pub fn is_wf_list(vs: &Vec<Value>, from: usize, ) -> (r: bool)
    requires
        from <= vs@.len(),
    ensures
        r == wf_list(view_list(vs@, 0), from as int),
    decreases vs@, vs@.len() - from,
{
    proof {
        lemma_view_list_len(vs@, 0);
    }
    if from < vs.len() {
        proof {
            lemma_view_list_index(vs@, 0, from as int);
        }
        let a = vs[from].is_wf();
        if !a {
            return false;
        }
        is_wf_list(vs, from + 1)
    } else {
        true
    }
}

/// Whether every element of `vs[from..]` is well formed and carries
/// the element signature `esig`.
pub fn is_wf_elems(esig: &Vec<u8>, vs: &Vec<Value>, from: usize) -> (r: bool)
    requires
        from <= vs@.len(),
    ensures
        r == wf_elems(esig@, view_list(vs@, 0), from as int),
    decreases vs@, vs@.len() - from,
{
    proof {
        lemma_view_list_len(vs@, 0);
    }
    if from < vs.len() {
        proof {
            lemma_view_list_index(vs@, 0, from as int);
        }
        let a = vs[from].is_wf();
        if !a {
            return false;
        }
        let s = vs[from].signature();
        if !bytes_eq(&s, esig) {
            return false;
        }
        is_wf_elems(esig, vs, from + 1)
    } else {
        true
    }
}

} // verus!
