use vstd::prelude::*;
use crate::Error;

verus! {

/// The D-Bus type codes, as ASCII bytes.
pub const TC_BYTE: u8 = 121;
pub const TC_BOOL: u8 = 98;
pub const TC_INT16: u8 = 110;
pub const TC_UINT16: u8 = 113;
pub const TC_INT32: u8 = 105;
pub const TC_UINT32: u8 = 117;
pub const TC_INT64: u8 = 120;
pub const TC_UINT64: u8 = 116;
pub const TC_STR: u8 = 115;
pub const TC_PATH: u8 = 111;
pub const TC_SIG: u8 = 103;
pub const TC_VARIANT: u8 = 118;
pub const TC_ARRAY: u8 = 97;
pub const TC_STRUCT_OPEN: u8 = 40;
pub const TC_STRUCT_CLOSE: u8 = 41;
pub const TC_DICT_OPEN: u8 = 123;
pub const TC_DICT_CLOSE: u8 = 125;

/// One complete D-Bus type, the parsed form of one element of a type
/// signature string.
///
/// `f64` (type code `d`) is not represented: this library does not
/// handle floating-point values.
#[derive(Debug, PartialEq, Eq)]
pub enum TypeSig {
    Byte,
    Bool,
    Int16,
    Uint16,
    Int32,
    Uint32,
    Int64,
    Uint64,
    Str,
    ObjectPath,
    SignatureStr,
    Variant,
    Array(Box<TypeSig>),
    Struct(Vec<TypeSig>),
    DictEntry(Box<TypeSig>, Box<TypeSig>),
}

/// The signature string (as bytes) that denotes type `t`.
pub open spec fn sig_bytes(t: TypeSig) -> Seq<u8>
    decreases t,
{
    match t {
        TypeSig::Byte => seq![TC_BYTE],
        TypeSig::Bool => seq![TC_BOOL],
        TypeSig::Int16 => seq![TC_INT16],
        TypeSig::Uint16 => seq![TC_UINT16],
        TypeSig::Int32 => seq![TC_INT32],
        TypeSig::Uint32 => seq![TC_UINT32],
        TypeSig::Int64 => seq![TC_INT64],
        TypeSig::Uint64 => seq![TC_UINT64],
        TypeSig::Str => seq![TC_STR],
        TypeSig::ObjectPath => seq![TC_PATH],
        TypeSig::SignatureStr => seq![TC_SIG],
        TypeSig::Variant => seq![TC_VARIANT],
        TypeSig::Array(inner) => seq![TC_ARRAY] + sig_bytes(*inner),
        TypeSig::Struct(members) => seq![TC_STRUCT_OPEN] + sig_bytes_list(members@, 0) + seq![TC_STRUCT_CLOSE],
        TypeSig::DictEntry(k, v) => seq![TC_DICT_OPEN] + sig_bytes(*k) + sig_bytes(*v) + seq![TC_DICT_CLOSE],
    }
}

/// The concatenated signature strings of `ts[i..]`.
pub open spec fn sig_bytes_list(ts: Seq<TypeSig>, i: int) -> Seq<u8>
    decreases ts, ts.len() - i,
{
    if 0 <= i < ts.len() {
        sig_bytes(ts[i]) + sig_bytes_list(ts, i + 1)
    } else {
        Seq::<u8>::empty()
    }
}

/// A basic (non-container) type: the only types allowed as dict-entry keys.
pub open spec fn spec_basic(t: TypeSig) -> bool {
    match t {
        TypeSig::Array(_) | TypeSig::Struct(_) | TypeSig::DictEntry(_, _) | TypeSig::Variant => false,
        _ => true,
    }
}

/// Well-formed type: structs are non-empty and dict-entry keys are basic.
pub open spec fn valid_sig(t: TypeSig) -> bool
    decreases t,
{
    match t {
        TypeSig::Array(inner) => valid_sig(*inner),
        TypeSig::Struct(members) => members@.len() > 0 && valid_sig_list(members@, 0),
        TypeSig::DictEntry(k, v) => spec_basic(*k) && valid_sig(*v),
        _ => true,
    }
}

pub open spec fn valid_sig_list(ts: Seq<TypeSig>, i: int) -> bool
    decreases ts, ts.len() - i,
{
    if 0 <= i < ts.len() {
        valid_sig(ts[i]) && valid_sig_list(ts, i + 1)
    } else {
        true
    }
}

/// Alignment of a type, read off the first byte of its signature string.
/// Every D-Bus type's required alignment is a function of its leading
/// type code: 8 for the 64-bit integers, structs and dict entries, 4 for
/// the 32-bit integers, booleans, strings, object paths and arrays (the
/// array length prefix), 2 for the 16-bit integers, and 1 otherwise.
pub open spec fn align_of_sig(s: Seq<u8>) -> int {
    if s.len() == 0 {
        1
    } else if s[0] == TC_INT64 || s[0] == TC_UINT64 || s[0] == TC_STRUCT_OPEN || s[0] == TC_DICT_OPEN {
        8
    } else if s[0] == TC_BOOL || s[0] == TC_INT32 || s[0] == TC_UINT32 || s[0] == TC_STR || s[0] == TC_PATH
        || s[0] == TC_ARRAY {
        4
    } else if s[0] == TC_INT16 || s[0] == TC_UINT16 {
        2
    } else {
        1
    }
}

impl TypeSig {
    /// The required wire alignment of values of this type.
    pub fn alignment(&self) -> (r: usize)
        ensures
            r == align_of_sig(sig_bytes(*self)),
            1 <= r <= 8,
    {
        match self {
            TypeSig::Int64 | TypeSig::Uint64 | TypeSig::Struct(_) | TypeSig::DictEntry(_, _) => 8,
            TypeSig::Bool | TypeSig::Int32 | TypeSig::Uint32 | TypeSig::Str
            | TypeSig::ObjectPath | TypeSig::Array(_) => 4,
            TypeSig::Int16 | TypeSig::Uint16 => 2,
            TypeSig::Byte | TypeSig::SignatureStr | TypeSig::Variant => 1,
        }
    }

    /// Whether this type may be used as a dict-entry key.
    pub fn is_basic(&self) -> (r: bool)
        ensures
            r == spec_basic(*self),
    {
        match self {
            TypeSig::Array(_) | TypeSig::Struct(_) | TypeSig::DictEntry(_, _)
            | TypeSig::Variant => false,
            _ => true,
        }
    }

    /// Appends this type's signature string to `out`.
    pub fn write_string(&self, out: &mut Vec<u8>)
        ensures
            final(out)@ == old(out)@ + sig_bytes(*self),
        decreases *self,
    {
        match self {
            TypeSig::Byte => { out.push(TC_BYTE); }
            TypeSig::Bool => { out.push(TC_BOOL); }
            TypeSig::Int16 => { out.push(TC_INT16); }
            TypeSig::Uint16 => { out.push(TC_UINT16); }
            TypeSig::Int32 => { out.push(TC_INT32); }
            TypeSig::Uint32 => { out.push(TC_UINT32); }
            TypeSig::Int64 => { out.push(TC_INT64); }
            TypeSig::Uint64 => { out.push(TC_UINT64); }
            TypeSig::Str => { out.push(TC_STR); }
            TypeSig::ObjectPath => { out.push(TC_PATH); }
            TypeSig::SignatureStr => { out.push(TC_SIG); }
            TypeSig::Variant => { out.push(TC_VARIANT); }
            TypeSig::Array(inner) => {
                out.push(TC_ARRAY);
                inner.write_string(out);
            }
            TypeSig::Struct(members) => {
                out.push(TC_STRUCT_OPEN);
                write_string_list(members, 0, out);
                out.push(TC_STRUCT_CLOSE);
            }
            TypeSig::DictEntry(k, v) => {
                out.push(TC_DICT_OPEN);
                k.write_string(out);
                v.write_string(out);
                out.push(TC_DICT_CLOSE);
            }
        }
    }

    /// The signature string of this type.
    pub fn to_string(&self) -> (r: Vec<u8>)
        ensures
            r@ == sig_bytes(*self),
    {
        let mut out: Vec<u8> = Vec::new();
        self.write_string(&mut out);
        out
    }
}

/// Appends the signature strings of `ts[from..]` to `out`.
pub fn write_string_list(ts: &Vec<TypeSig>, from: usize, out: &mut Vec<u8>)
    requires
        from <= ts@.len(),
    ensures
        final(out)@ == old(out)@ + sig_bytes_list(ts@, from as int),
    decreases ts@, ts@.len() - from,
{
    if from < ts.len() {
        ts[from].write_string(out);
        write_string_list(ts, from + 1, out);
        proof {
            assert(old(out)@ + sig_bytes(ts@[from as int]) + sig_bytes_list(ts@, from + 1)
                =~= old(out)@ + sig_bytes_list(ts@, from as int));
        }
    } else {
        proof {
            assert(old(out)@ + sig_bytes_list(ts@, from as int) =~= old(out)@);
        }
    }
}

/// Concatenating the signatures of `ts` and then of one more type `x`.
pub proof fn lemma_sig_bytes_list_push(ts: Seq<TypeSig>, x: TypeSig, i: int)
    requires
        0 <= i <= ts.len(),
    ensures
        sig_bytes_list(ts.push(x), i) == sig_bytes_list(ts, i) + sig_bytes(x),
    decreases ts.len() - i,
{
    let a = ts.push(x);
    if i == ts.len() {
        assert(a[i] == x);
        assert(sig_bytes_list(a, i + 1) =~= Seq::<u8>::empty());
        assert(sig_bytes_list(a, i) =~= sig_bytes(x));
        assert(sig_bytes_list(ts, i) =~= Seq::<u8>::empty());
        assert(sig_bytes_list(ts, i) + sig_bytes(x) =~= sig_bytes(x));
    } else {
        lemma_sig_bytes_list_push(ts, x, i + 1);
        assert(a[i] == ts[i]);
        assert(sig_bytes(ts[i]) + (sig_bytes_list(ts, i + 1) + sig_bytes(x))
            =~= (sig_bytes(ts[i]) + sig_bytes_list(ts, i + 1)) + sig_bytes(x));
    }
}


/// Concatenating the validity of `ts` and one more type `x`.
pub proof fn lemma_valid_sig_list_push(ts: Seq<TypeSig>, x: TypeSig, i: int)
    requires
        0 <= i <= ts.len(),
    ensures
        valid_sig_list(ts.push(x), i) == (valid_sig_list(ts, i) && valid_sig(x)),
    decreases ts.len() - i,
{
    let a = ts.push(x);
    if i == ts.len() {
        assert(a[i] == x);
        assert(valid_sig_list(a, i + 1));
        assert(valid_sig_list(ts, i));
        assert(valid_sig_list(a, i) == valid_sig(x));
    } else {
        lemma_valid_sig_list_push(ts, x, i + 1);
        assert(a[i] == ts[i]);
        assert(valid_sig_list(a, i) == (valid_sig(ts[i]) && valid_sig_list(a, i + 1)));
        assert(valid_sig_list(ts, i) == (valid_sig(ts[i]) && valid_sig_list(ts, i + 1)));
    }
}


/// Some whole valid type's signature opens the byte sequence `w`.
pub open spec fn some_sig_opens(w: Seq<u8>) -> bool {
    exists|t: TypeSig| valid_sig(t) && #[trigger] sig_bytes(t).len() <= w.len() && w.subrange(
        0, sig_bytes(t).len() as int) == sig_bytes(t)
}

/// Aligning two decompositions of the same bytes into valid types:
/// either both lists cover the same bytes and the leftovers agree, or
/// one leftover opens with a whole valid type.
proof fn lemma_sig_list_align(
    a: Seq<TypeSig>,
    ia: int,
    b: Seq<TypeSig>,
    ib: int,
    ta: Seq<u8>,
    tb: Seq<u8>,
)
    requires
        0 <= ia <= a.len(),
        0 <= ib <= b.len(),
        valid_sig_list(a, ia),
        valid_sig_list(b, ib),
        sig_bytes_list(a, ia) + ta == sig_bytes_list(b, ib) + tb,
    ensures
        (sig_bytes_list(a, ia) == sig_bytes_list(b, ib) && ta == tb) || some_sig_opens(ta)
            || some_sig_opens(tb),
    decreases a, a.len() - ia,
{
    if ia == a.len() && ib == b.len() {
        assert(sig_bytes_list(a, ia) =~= Seq::<u8>::empty());
        assert(sig_bytes_list(b, ib) =~= Seq::<u8>::empty());
        assert(ta =~= tb);
    } else if ia == a.len() {
        let t = b[ib];
        lemma_sig_first_byte(t);
        assert(sig_bytes_list(a, ia) =~= Seq::<u8>::empty());
        assert(ta =~= sig_bytes_list(b, ib) + tb);
        assert(ta =~= sig_bytes(t) + (sig_bytes_list(b, ib + 1) + tb));
        assert(ta.subrange(0, sig_bytes(t).len() as int) =~= sig_bytes(t));
        assert(some_sig_opens(ta));
    } else if ib == b.len() {
        let t = a[ia];
        lemma_sig_first_byte(t);
        assert(sig_bytes_list(b, ib) =~= Seq::<u8>::empty());
        assert(tb =~= sig_bytes_list(a, ia) + ta);
        assert(tb =~= sig_bytes(t) + (sig_bytes_list(a, ia + 1) + ta));
        assert(tb.subrange(0, sig_bytes(t).len() as int) =~= sig_bytes(t));
        assert(some_sig_opens(tb));
    } else {
        assert(sig_bytes(a[ia]) + (sig_bytes_list(a, ia + 1) + ta) =~= sig_bytes(b[ib]) + (
        sig_bytes_list(b, ib + 1) + tb)) by {
            assert(sig_bytes_list(a, ia) + ta =~= sig_bytes(a[ia]) + (sig_bytes_list(a, ia
                + 1) + ta));
            assert(sig_bytes_list(b, ib) + tb =~= sig_bytes(b[ib]) + (sig_bytes_list(b, ib
                + 1) + tb));
        }
        lemma_sig_prefix_free(a[ia], b[ib], sig_bytes_list(a, ia + 1) + ta, sig_bytes_list(
            b, ib + 1) + tb);
        lemma_concat_tail_cancel(sig_bytes(a[ia]), sig_bytes_list(a, ia + 1) + ta,
            sig_bytes(b[ib]), sig_bytes_list(b, ib + 1) + tb);
        lemma_sig_list_align(a, ia + 1, b, ib + 1, ta, tb);
        if sig_bytes_list(a, ia + 1) == sig_bytes_list(b, ib + 1) && ta == tb {
            assert(sig_bytes_list(a, ia) =~= sig_bytes_list(b, ib));
        }
    }
}

/// Parses one complete type whose signature starts at `s[i]`.
///
/// On success the returned end position `j` is such that the bytes
/// `s[i..j]` are exactly the signature string of the returned type, so
/// re-serializing the parse result reproduces the input (the round-trip
/// law), and the type is well formed.  It fails exactly when no valid
/// type's signature starts at `s[i]`.
#[verifier::rlimit(100)]
pub fn parse_one(s: &[u8], i: usize) -> (r: Result<(TypeSig, usize), Error>)
    requires
        i <= s@.len(),
    ensures
        r matches Ok(p) ==> i < p.1 <= s@.len() && sig_bytes(p.0) == s@.subrange(
            i as int, p.1 as int) && valid_sig(p.0),
        r matches Err(e) ==> e == Error::MalformedSignature,
        r matches Err(e) ==> forall|t: TypeSig| valid_sig(t) ==> !(#[trigger] sig_starts_at(
            s@, i as int, t)),
    decreases s@.len() - i,
{
    if i >= s.len() {
        proof {
            assert forall|t: TypeSig| valid_sig(t) implies !sig_starts_at(s@, i as int,
                t) by {
                lemma_sig_first_byte(t);
            }
        }
        return Err(Error::MalformedSignature);
    }
    let c = s[i];
    if c == TC_ARRAY {
        match parse_one(s, i + 1) {
            Ok((inner, j)) => {
                proof {
                    assert(seq![TC_ARRAY] + s@.subrange(i + 1, j as int) =~= s@.subrange(
                        i as int, j as int));
                }
                Ok((TypeSig::Array(Box::new(inner)), j))
            }
            Err(e) => {
                proof {
                    assert forall|t: TypeSig| valid_sig(t) implies !sig_starts_at(s@,
                        i as int, t) by {
                        if sig_starts_at(s@, i as int, t) {
                            lemma_sig_first_byte(t);
                            assert(sig_bytes(t)[0] == s@.subrange(i as int, i + sig_bytes(
                                t).len())[0]);
                            assert(t is Array);
                            let it = (t -> Array_0);
                            lemma_sig_first_byte(*it);
                            assert(sig_bytes(t) =~= seq![TC_ARRAY] + sig_bytes(*it));
                            assert forall|n: int| 0 <= n < sig_bytes(*it).len() implies s@[
                                i + 1 + n] == sig_bytes(*it)[n] by {
                                assert(s@[i + (1 + n)] == s@.subrange(i as int, i
                                    + sig_bytes(t).len() as int)[1 + n]);
                                assert(sig_bytes(t)[1 + n] == sig_bytes(*it)[n]);
                            }
                            assert(s@.subrange(i + 1, i + 1 + sig_bytes(*it).len())
                                =~= sig_bytes(*it));
                            assert(sig_starts_at(s@, i + 1, *it));
                        }
                    }
                }
                Err(e)
            }
        }
    } else if c == TC_STRUCT_OPEN {
        let mut members: Vec<TypeSig> = Vec::new();
        let mut j: usize = i + 1;
        loop
            invariant
                i < j <= s@.len(),
                i < s@.len(),
                i + 1 <= s@.len(),
                s@[i as int] == TC_STRUCT_OPEN,
                sig_bytes_list(members@, 0) == s@.subrange(i + 1, j as int),
                valid_sig_list(members@, 0),
            ensures
                i < j < s@.len(),
                s@[j as int] == TC_STRUCT_CLOSE,
                sig_bytes_list(members@, 0) == s@.subrange(i + 1, j as int),
                valid_sig_list(members@, 0),
            decreases s@.len() - j,
        {
            if j >= s.len() {
                proof {
                    lemma_struct_error_forall(s@, i as int, j as int, members@, true);
                }
                return Err(Error::MalformedSignature);
            }
            if s[j] == TC_STRUCT_CLOSE {
                break;
            }
            match parse_one(s, j) {
                Ok((m, j2)) => {
                    proof {
                        lemma_sig_bytes_list_push(members@, m, 0);
                        lemma_valid_sig_list_push(members@, m, 0);
                        assert(s@.subrange(i + 1, j as int) + s@.subrange(j as int, j2 as int)
                            =~= s@.subrange(i + 1, j2 as int));
                    }
                    members.push(m);
                    j = j2;
                }
                Err(e) => {
                    proof {
                        lemma_struct_error_forall(s@, i as int, j as int, members@, false);
                    }
                    return Err(e);
                }
            }
        }
        if members.len() == 0 {
            proof {
                assert forall|t: TypeSig| valid_sig(t) implies !sig_starts_at(s@, i as int,
                    t) by {
                    if sig_starts_at(s@, i as int, t) {
                        lemma_sig_first_byte(t);
                        assert(sig_bytes(t)[0] == s@.subrange(i as int, i + sig_bytes(
                            t).len())[0]);
                        assert(t is Struct);
                        let ms = (t -> Struct_0);
                        assert(ms@.len() >= 1);
                        lemma_sig_first_byte(ms@[0]);
                        assert(sig_bytes_list(ms@, 0) == sig_bytes(ms@[0])
                            + sig_bytes_list(ms@, 1));
                        assert(sig_bytes_list(members@, 0) =~= Seq::<u8>::empty());
                        assert(j == i + 1);
                        assert(sig_bytes(t)[1] == sig_bytes(ms@[0])[0]);
                        assert(sig_bytes(t)[1] == s@.subrange(i as int, i + sig_bytes(
                            t).len())[1]);
                        assert(s@[j as int] == sig_bytes(ms@[0])[0]);
                    }
                }
            }
            return Err(Error::MalformedSignature);
        }
        proof {
            assert(seq![TC_STRUCT_OPEN] + s@.subrange(i + 1, j as int) + seq![TC_STRUCT_CLOSE]
                =~= s@.subrange(i as int, j + 1));
        }
        Ok((TypeSig::Struct(members), j + 1))
    } else if c == TC_DICT_OPEN {
        let (key, j1) = match parse_one(s, i + 1) {
            Ok(p) => p,
            Err(e) => {
                proof {
                    assert forall|t: TypeSig| valid_sig(t) implies !sig_starts_at(s@,
                        i as int, t) by {
                        if sig_starts_at(s@, i as int, t) {
                            lemma_dict_components(s@, i as int, t);
                            let kh = (t -> DictEntry_0);
                            assert(sig_starts_at(s@, i + 1, *kh));
                        }
                    }
                }
                return Err(e);
            }
        };
        if !key.is_basic() {
            proof {
                lemma_dict_key_mismatch(s@, i as int, j1 as int, key);
            }
            return Err(Error::MalformedSignature);
        }
        let (val, j2) = match parse_one(s, j1) {
            Ok(p) => p,
            Err(e) => {
                proof {
                    lemma_dict_value_error(s@, i as int, j1 as int, key);
                }
                return Err(e);
            }
        };
        if j2 >= s.len() || s[j2] != TC_DICT_CLOSE {
            proof {
                lemma_dict_close_error(s@, i as int, j1 as int, j2 as int, key, val,
                    j2 >= s@.len() || s@[j2 as int] != TC_DICT_CLOSE);
            }
            return Err(Error::MalformedSignature);
        }
        proof {
            assert(seq![TC_DICT_OPEN] + s@.subrange(i + 1, j1 as int) + s@.subrange(
                j1 as int, j2 as int) + seq![TC_DICT_CLOSE] =~= s@.subrange(i as int, j2 + 1));
        }
        Ok((TypeSig::DictEntry(Box::new(key), Box::new(val)), j2 + 1))
    } else {
        let t = if c == TC_BYTE {
            TypeSig::Byte
        } else if c == TC_BOOL {
            TypeSig::Bool
        } else if c == TC_INT16 {
            TypeSig::Int16
        } else if c == TC_UINT16 {
            TypeSig::Uint16
        } else if c == TC_INT32 {
            TypeSig::Int32
        } else if c == TC_UINT32 {
            TypeSig::Uint32
        } else if c == TC_INT64 {
            TypeSig::Int64
        } else if c == TC_UINT64 {
            TypeSig::Uint64
        } else if c == TC_STR {
            TypeSig::Str
        } else if c == TC_PATH {
            TypeSig::ObjectPath
        } else if c == TC_SIG {
            TypeSig::SignatureStr
        } else if c == TC_VARIANT {
            TypeSig::Variant
        } else {
            proof {
                assert forall|t2: TypeSig| valid_sig(t2) implies !sig_starts_at(s@,
                    i as int, t2) by {
                    if sig_starts_at(s@, i as int, t2) {
                        lemma_sig_first_byte(t2);
                        assert(sig_bytes(t2)[0] == s@.subrange(i as int, i + sig_bytes(
                            t2).len())[0]);
                    }
                }
            }
            return Err(Error::MalformedSignature);
        };
        proof {
            assert(sig_bytes(t) =~= s@.subrange(i as int, i + 1));
        }
        Ok((t, i + 1))
    }
}

/// A valid dict-entry signature starting at `i` puts its key right
/// after the opening brace.
proof fn lemma_dict_components(s: Seq<u8>, i: int, t: TypeSig)
    requires
        valid_sig(t),
        sig_starts_at(s, i, t),
        0 <= i < s.len(),
        s[i] == TC_DICT_OPEN,
    ensures
        t is DictEntry,
        sig_starts_at(s, i + 1, *(t -> DictEntry_0)),
        valid_sig(*(t -> DictEntry_0)),
        valid_sig(*(t -> DictEntry_1)),
        spec_basic(*(t -> DictEntry_0)),
        sig_bytes(t) == seq![TC_DICT_OPEN] + sig_bytes(*(t -> DictEntry_0)) + sig_bytes(
            *(t -> DictEntry_1)) + seq![TC_DICT_CLOSE],
{
    lemma_sig_first_byte(t);
    assert(sig_bytes(t)[0] == s.subrange(i, i + sig_bytes(t).len())[0]);
    assert(t is DictEntry);
    let kh = (t -> DictEntry_0);
    assert(spec_basic(*kh));
    assert(valid_sig(*kh)) by {
        match *kh {
            TypeSig::Array(_) | TypeSig::Struct(_) | TypeSig::DictEntry(_, _) => {
                assert(false);
            }
            _ => {}
        }
    }
    let vh = (t -> DictEntry_1);
    let st = sig_bytes(t);
    assert(st =~= seq![TC_DICT_OPEN] + sig_bytes(*kh) + sig_bytes(*vh) + seq![
        TC_DICT_CLOSE]);
    assert forall|n: int| 0 <= n < sig_bytes(*kh).len() implies s[i + 1 + n] == sig_bytes(
        *kh)[n] by {
        assert(s[i + 1 + n] == s.subrange(i, i + st.len() as int)[1 + n]);
        assert(st[1 + n] == sig_bytes(*kh)[n]);
    }
    assert(s.subrange(i + 1, i + 1 + sig_bytes(*kh).len()) =~= sig_bytes(*kh));
}


/// After a parsed non-basic key, no valid dict entry can start at the
/// opening brace.
proof fn lemma_dict_key_mismatch(s: Seq<u8>, i: int, j1: int, key: TypeSig)
    requires
        0 <= i < s.len(),
        i + 1 <= j1 <= s.len(),
        s[i] == TC_DICT_OPEN,
        valid_sig(key),
        sig_bytes(key) == s.subrange(i + 1, j1),
        !spec_basic(key),
    ensures
        forall|t: TypeSig| valid_sig(t) ==> !(#[trigger] sig_starts_at(s, i, t)),
{
    assert forall|t: TypeSig| valid_sig(t) implies !sig_starts_at(s, i, t) by {
        if sig_starts_at(s, i, t) {
            lemma_dict_components(s, i, t);
            let kh = (t -> DictEntry_0);
            assert(sig_bytes(*kh) + s.subrange(i + 1 + sig_bytes(*kh).len(),
                s.len() as int) =~= s.subrange(i + 1, s.len() as int));
            assert(sig_bytes(key) + s.subrange(j1, s.len() as int) =~= s.subrange(i + 1,
                s.len() as int));
            lemma_sig_prefix_free(key, *kh, s.subrange(j1, s.len() as int), s.subrange(i
                + 1 + sig_bytes(*kh).len(), s.len() as int));
            lemma_sig_first_byte(key);
            lemma_sig_first_byte(*kh);
            assert(sig_bytes(key)[0] == sig_bytes(*kh)[0]);
            assert(!spec_basic(*kh));
        }
    }
}

/// After a parsed key whose value fails to parse, no valid dict entry
/// can start at the opening brace.
proof fn lemma_dict_value_error(s: Seq<u8>, i: int, j1: int, key: TypeSig)
    requires
        0 <= i < s.len(),
        i + 1 <= j1 <= s.len(),
        s[i] == TC_DICT_OPEN,
        valid_sig(key),
        sig_bytes(key) == s.subrange(i + 1, j1),
        forall|t2: TypeSig| valid_sig(t2) ==> !(#[trigger] sig_starts_at(s, j1, t2)),
    ensures
        forall|t: TypeSig| valid_sig(t) ==> !(#[trigger] sig_starts_at(s, i, t)),
{
    assert forall|t: TypeSig| valid_sig(t) implies !sig_starts_at(s, i, t) by {
        if sig_starts_at(s, i, t) {
            lemma_dict_components(s, i, t);
            let kh = (t -> DictEntry_0);
            let vh = (t -> DictEntry_1);
            assert(sig_bytes(*kh) + s.subrange(i + 1 + sig_bytes(*kh).len(),
                s.len() as int) =~= s.subrange(i + 1, s.len() as int));
            assert(sig_bytes(key) + s.subrange(j1, s.len() as int) =~= s.subrange(i + 1,
                s.len() as int));
            lemma_sig_prefix_free(key, *kh, s.subrange(j1, s.len() as int), s.subrange(i
                + 1 + sig_bytes(*kh).len(), s.len() as int));
            assert(i + 1 + sig_bytes(*kh).len() == j1);
            let st = sig_bytes(t);
            assert(st =~= seq![TC_DICT_OPEN] + sig_bytes(*kh) + sig_bytes(*vh) + seq![
                TC_DICT_CLOSE]);
            assert forall|n: int| 0 <= n < sig_bytes(*vh).len() implies s[j1 + n]
                == sig_bytes(*vh)[n] by {
                assert(s[i + (1 + sig_bytes(*kh).len() + n)] == s.subrange(i, i
                    + st.len() as int)[1 + sig_bytes(*kh).len() + n]);
                assert(st[1 + sig_bytes(*kh).len() + n] == sig_bytes(*vh)[n]);
            }
            assert(s.subrange(j1, j1 + sig_bytes(*vh).len()) =~= sig_bytes(*vh));
            assert(sig_starts_at(s, j1, *vh));
        }
    }
}

/// After a parsed key and value with no closing brace where one is
/// owed, no valid dict entry can start at the opening brace.
proof fn lemma_dict_close_error(
    s: Seq<u8>,
    i: int,
    j1: int,
    j2: int,
    key: TypeSig,
    val: TypeSig,
    no_close: bool,
)
    requires
        0 <= i < s.len(),
        i + 1 <= j1 <= j2 <= s.len(),
        s[i] == TC_DICT_OPEN,
        valid_sig(key),
        valid_sig(val),
        sig_bytes(key) == s.subrange(i + 1, j1),
        sig_bytes(val) == s.subrange(j1, j2),
        no_close,
        no_close == (j2 >= s.len() || s[j2] != TC_DICT_CLOSE),
    ensures
        forall|t: TypeSig| valid_sig(t) ==> !(#[trigger] sig_starts_at(s, i, t)),
{
    assert forall|t: TypeSig| valid_sig(t) implies !sig_starts_at(s, i, t) by {
        if sig_starts_at(s, i, t) {
            lemma_dict_components(s, i, t);
            let kh = (t -> DictEntry_0);
            let vh = (t -> DictEntry_1);
            assert(sig_bytes(*kh) + s.subrange(i + 1 + sig_bytes(*kh).len(),
                s.len() as int) =~= s.subrange(i + 1, s.len() as int));
            assert(sig_bytes(key) + s.subrange(j1, s.len() as int) =~= s.subrange(i + 1,
                s.len() as int));
            lemma_sig_prefix_free(key, *kh, s.subrange(j1, s.len() as int), s.subrange(i
                + 1 + sig_bytes(*kh).len(), s.len() as int));
            assert(i + 1 + sig_bytes(*kh).len() == j1);
            let st = sig_bytes(t);
            assert(st =~= seq![TC_DICT_OPEN] + sig_bytes(*kh) + sig_bytes(*vh) + seq![
                TC_DICT_CLOSE]);
            assert forall|n: int| 0 <= n < sig_bytes(*vh).len() implies s[j1 + n]
                == sig_bytes(*vh)[n] by {
                assert(s[i + (1 + sig_bytes(*kh).len() + n)] == s.subrange(i, i
                    + st.len() as int)[1 + sig_bytes(*kh).len() + n]);
                assert(st[1 + sig_bytes(*kh).len() + n] == sig_bytes(*vh)[n]);
            }
            assert(s.subrange(j1, j1 + sig_bytes(*vh).len()) =~= sig_bytes(*vh));
            assert(sig_bytes(*vh) + s.subrange(j1 + sig_bytes(*vh).len(), s.len() as int)
                =~= s.subrange(j1, s.len() as int));
            assert(sig_bytes(val) + s.subrange(j2, s.len() as int) =~= s.subrange(j1,
                s.len() as int));
            lemma_sig_prefix_free(val, *vh, s.subrange(j2, s.len() as int), s.subrange(j1
                + sig_bytes(*vh).len(), s.len() as int));
            assert(j1 + sig_bytes(*vh).len() == j2);
            assert(st[(1 + sig_bytes(*kh).len() + sig_bytes(*vh).len()) as int]
                == TC_DICT_CLOSE);
            assert(i + st.len() == j2 + 1);
            assert(st[(1 + sig_bytes(*kh).len() + sig_bytes(*vh).len()) as int]
                == s.subrange(i, i + st.len() as int)[(1 + sig_bytes(*kh).len()
                + sig_bytes(*vh).len()) as int]);
            assert(s[j2] == TC_DICT_CLOSE);
            assert(j2 + 1 <= s.len());
        }
    }
}

/// At either failure point inside the struct-member loop, no valid
/// type's signature can start at the opening parenthesis.
proof fn lemma_struct_error_forall(
    s: Seq<u8>,
    i: int,
    j: int,
    members: Seq<TypeSig>,
    at_eof: bool,
)
    requires
        0 <= i < s.len(),
        i < j <= s.len(),
        s[i] == TC_STRUCT_OPEN,
        sig_bytes_list(members, 0) == s.subrange(i + 1, j),
        valid_sig_list(members, 0),
        at_eof ==> j == s.len(),
        !at_eof ==> j < s.len() && s[j] != TC_STRUCT_CLOSE && (forall|t2: TypeSig| valid_sig(
            t2) ==> !(#[trigger] sig_starts_at(s, j, t2))),
    ensures
        forall|t: TypeSig| valid_sig(t) ==> !(#[trigger] sig_starts_at(s, i, t)),
{
    assert forall|t: TypeSig| valid_sig(t) implies !sig_starts_at(s, i, t) by {
        if sig_starts_at(s, i, t) {
            lemma_sig_first_byte(t);
            assert(sig_bytes(t)[0] == s.subrange(i, i + sig_bytes(t).len())[0]);
            assert(t is Struct);
            let ms = (t -> Struct_0);
            let st = sig_bytes(t);
            assert(st =~= seq![TC_STRUCT_OPEN] + sig_bytes_list(ms@, 0) + seq![
                TC_STRUCT_CLOSE]);
            let lt = st.len();
            let ll = sig_bytes_list(ms@, 0).len();
            assert(lt == 2 + ll);
            let end = i + lt;
            assert forall|n: int| 0 <= n < ll implies s[i + 1 + n] == sig_bytes_list(
                ms@, 0)[n] by {
                assert(s[i + 1 + n] == s.subrange(i, i + st.len() as int)[1 + n]);
                assert(st[1 + n] == sig_bytes_list(ms@, 0)[n]);
            }
            assert(s.subrange(i + 1, end - 1) =~= sig_bytes_list(ms@, 0));
            assert(s[end - 1] == sig_bytes(t)[lt - 1]);
            assert(sig_bytes(t)[lt - 1] == TC_STRUCT_CLOSE) by {
                assert(sig_bytes(t) =~= seq![TC_STRUCT_OPEN] + sig_bytes_list(ms@, 0)
                    + seq![TC_STRUCT_CLOSE]);
            }
            let ta = s.subrange(j, s.len() as int);
            let tb = seq![TC_STRUCT_CLOSE] + s.subrange(end, s.len() as int);
            assert(sig_bytes_list(members, 0) + ta =~= s.subrange(i + 1, s.len() as int));
            assert(sig_bytes_list(ms@, 0) + tb =~= s.subrange(i + 1, s.len() as int));
            lemma_sig_list_align(members, 0, ms@, 0, ta, tb);
            if sig_bytes_list(members, 0) == sig_bytes_list(ms@, 0) && ta == tb {
                assert(ta[0] == TC_STRUCT_CLOSE);
                if at_eof {
                    assert(ta.len() == 0);
                    assert(tb.len() >= 1);
                } else {
                    assert(s[j] == TC_STRUCT_CLOSE);
                }
            } else if some_sig_opens(ta) {
                let t2 = choose|t2: TypeSig| valid_sig(t2) && #[trigger] sig_bytes(
                    t2).len() <= ta.len() && ta.subrange(0, sig_bytes(t2).len() as int)
                    == sig_bytes(t2);
                if at_eof {
                    lemma_sig_first_byte(t2);
                    assert(ta.len() == 0);
                } else {
                    assert(s.subrange(j, j + sig_bytes(t2).len()) =~= sig_bytes(t2));
                    assert(sig_starts_at(s, j, t2));
                }
            } else {
                assert(some_sig_opens(tb));
                let t2 = choose|t2: TypeSig| valid_sig(t2) && #[trigger] sig_bytes(
                    t2).len() <= tb.len() && tb.subrange(0, sig_bytes(t2).len() as int)
                    == sig_bytes(t2);
                lemma_sig_first_byte(t2);
                assert(sig_bytes(t2)[0] == tb[0]);
            }
        }
    }
}

/// Parses a whole signature string into its sequence of types.
///
/// On success the concatenated signature strings of the returned types
/// are exactly the input, so `to_string` applied to each in turn
/// rebuilds `s` (the round-trip law), and every type is well formed.
/// It fails exactly when `s` is not the concatenation of valid
/// signatures: a valid signature string always parses.
pub fn parse(s: &[u8]) -> (r: Result<Vec<TypeSig>, Error>)
    ensures
        r matches Ok(ts) ==> sig_bytes_list(ts@, 0) == s@ && valid_sig_list(ts@, 0),
        r matches Err(e) ==> e == Error::MalformedSignature,
        r matches Err(e) ==> !(exists|ts2: Seq<TypeSig>| sig_bytes_list(ts2, 0) == s@
            && valid_sig_list(ts2, 0)),
{
    let mut ts: Vec<TypeSig> = Vec::new();
    let mut j: usize = 0;
    while j < s.len()
        invariant
            j <= s@.len(),
            sig_bytes_list(ts@, 0) == s@.subrange(0, j as int),
            valid_sig_list(ts@, 0),
        decreases s@.len() - j,
    {
        match parse_one(s, j) {
            Ok((t, j2)) => {
                proof {
                    lemma_sig_bytes_list_push(ts@, t, 0);
                    lemma_valid_sig_list_push(ts@, t, 0);
                    assert(s@.subrange(0, j as int) + s@.subrange(j as int, j2 as int)
                        =~= s@.subrange(0, j2 as int));
                }
                ts.push(t);
                j = j2;
            }
            Err(e) => {
                proof {
                    assert(!(exists|ts2: Seq<TypeSig>| sig_bytes_list(ts2, 0) == s@
                        && valid_sig_list(ts2, 0))) by {
                        if exists|ts2: Seq<TypeSig>| sig_bytes_list(ts2, 0) == s@
                            && valid_sig_list(ts2, 0) {
                            let ts2 = choose|ts2: Seq<TypeSig>| sig_bytes_list(ts2, 0) == s@
                                && valid_sig_list(ts2, 0);
                            let ta = s@.subrange(j as int, s@.len() as int);
                            let tb = Seq::<u8>::empty();
                            assert(sig_bytes_list(ts@, 0) + ta =~= s@);
                            assert(sig_bytes_list(ts2, 0) + tb =~= s@);
                            lemma_sig_list_align(ts@, 0, ts2, 0, ta, tb);
                            if sig_bytes_list(ts@, 0) == sig_bytes_list(ts2, 0) && ta
                                == tb {
                                assert(ta.len() > 0);
                            } else if some_sig_opens(ta) {
                                let t2 = choose|t2: TypeSig| valid_sig(t2)
                                    && #[trigger] sig_bytes(t2).len() <= ta.len()
                                    && ta.subrange(0, sig_bytes(t2).len() as int)
                                    == sig_bytes(t2);
                                assert(s@.subrange(j as int, j + sig_bytes(t2).len())
                                    =~= sig_bytes(t2));
                                assert(sig_starts_at(s@, j as int, t2));
                            } else {
                                assert(some_sig_opens(tb));
                                let t2 = choose|t2: TypeSig| valid_sig(t2)
                                    && #[trigger] sig_bytes(t2).len() <= tb.len()
                                    && tb.subrange(0, sig_bytes(t2).len() as int)
                                    == sig_bytes(t2);
                                lemma_sig_first_byte(t2);
                            }
                        }
                    }
                }
                return Err(e);
            }
        }
    }
    proof {
        assert(s@.subrange(0, s@.len() as int) =~= s@);
    }
    Ok(ts)
}

/// Parses a signature string that must hold exactly one complete type,
/// as the signature inside a variant does; it fails exactly when `s`
/// is not one valid type's signature.
pub fn parse_single(s: &[u8]) -> (r: Result<TypeSig, Error>)
    ensures
        r matches Ok(t) ==> sig_bytes(t) == s@ && valid_sig(t),
        r matches Err(e) ==> e == Error::MalformedSignature,
        r matches Err(e) ==> !(exists|t: TypeSig| valid_sig(t) && sig_bytes(t) == s@),
{
    match parse_one(s, 0) {
        Ok((t, j)) => {
            if j == s.len() {
                proof {
                    assert(s@.subrange(0, s@.len() as int) =~= s@);
                }
                Ok(t)
            } else {
                proof {
                    assert(!(exists|t2: TypeSig| valid_sig(t2) && sig_bytes(t2) == s@))
                        by {
                        if exists|t2: TypeSig| valid_sig(t2) && sig_bytes(t2) == s@ {
                            let t2 = choose|t2: TypeSig| valid_sig(t2) && sig_bytes(t2)
                                == s@;
                            assert(sig_bytes(t) + s@.subrange(j as int, s@.len() as int)
                                =~= s@);
                            assert(sig_bytes(t2) + Seq::<u8>::empty() =~= s@);
                            lemma_sig_prefix_free(t, t2, s@.subrange(j as int,
                                s@.len() as int), Seq::<u8>::empty());
                        }
                    }
                }
                Err(Error::MalformedSignature)
            }
        }
        Err(e) => {
            proof {
                assert(!(exists|t2: TypeSig| valid_sig(t2) && sig_bytes(t2) == s@)) by {
                    if exists|t2: TypeSig| valid_sig(t2) && sig_bytes(t2) == s@ {
                        let t2 = choose|t2: TypeSig| valid_sig(t2) && sig_bytes(t2) == s@;
                        assert(s@.subrange(0, sig_bytes(t2).len() as int) =~= s@);
                        assert(sig_starts_at(s@, 0, t2));
                    }
                }
            }
            Err(e)
        }
    }
}


/// A valid type's signature occupies the bytes of `s` that start at
/// position `i`.
pub open spec fn sig_starts_at(s: Seq<u8>, i: int, t: TypeSig) -> bool {
    0 <= i && i + sig_bytes(t).len() <= s.len() && s.subrange(i, i + sig_bytes(t).len())
        == sig_bytes(t)
}

/// The first byte of a type's signature names its constructor.
pub proof fn lemma_sig_first_byte(t: TypeSig)
    ensures
        sig_bytes(t).len() >= 1,
        (t is Array) == (sig_bytes(t)[0] == TC_ARRAY),
        (t is Struct) == (sig_bytes(t)[0] == TC_STRUCT_OPEN),
        (t is DictEntry) == (sig_bytes(t)[0] == TC_DICT_OPEN),
        (t is Byte) == (sig_bytes(t)[0] == TC_BYTE),
        (t is Bool) == (sig_bytes(t)[0] == TC_BOOL),
        (t is Int16) == (sig_bytes(t)[0] == TC_INT16),
        (t is Uint16) == (sig_bytes(t)[0] == TC_UINT16),
        (t is Int32) == (sig_bytes(t)[0] == TC_INT32),
        (t is Uint32) == (sig_bytes(t)[0] == TC_UINT32),
        (t is Int64) == (sig_bytes(t)[0] == TC_INT64),
        (t is Uint64) == (sig_bytes(t)[0] == TC_UINT64),
        (t is Str) == (sig_bytes(t)[0] == TC_STR),
        (t is ObjectPath) == (sig_bytes(t)[0] == TC_PATH),
        (t is SignatureStr) == (sig_bytes(t)[0] == TC_SIG),
        (t is Variant) == (sig_bytes(t)[0] == TC_VARIANT),
        sig_bytes(t)[0] != TC_STRUCT_CLOSE,
        sig_bytes(t)[0] != TC_DICT_CLOSE,
{
}

/// Cancelling an equal head of two concatenations.
proof fn lemma_concat_tail_cancel(a: Seq<u8>, b: Seq<u8>, c: Seq<u8>, d: Seq<u8>)
    requires
        a + b == c + d,
        a == c,
    ensures
        b == d,
{
    assert((a + b).len() == a.len() + b.len());
    assert((c + d).len() == c.len() + d.len());
    assert(b.len() == d.len());
    assert forall|k: int| 0 <= k < b.len() implies b[k] == d[k] by {
        assert((a + b)[a.len() + k] == b[k]);
        assert((c + d)[c.len() + k] == d[k]);
    }
    assert(b =~= d);
}

/// Signatures are prefix-free: valid types whose signatures open the
/// same byte sequence have the same signature, and what follows is the
/// same too.
pub proof fn lemma_sig_prefix_free(x: TypeSig, y: TypeSig, rx: Seq<u8>, ry: Seq<u8>)
    requires
        valid_sig(x),
        valid_sig(y),
        sig_bytes(x) + rx == sig_bytes(y) + ry,
    ensures
        sig_bytes(x) == sig_bytes(y),
        rx == ry,
    decreases x,
{
    let sx = sig_bytes(x);
    let sy = sig_bytes(y);
    lemma_sig_first_byte(x);
    lemma_sig_first_byte(y);
    assert(sx[0] == (sx + rx)[0]);
    assert(sy[0] == (sy + ry)[0]);
    assert(sx[0] == sy[0]);
    match x {
        TypeSig::Array(ix) => {
            let iy = (y -> Array_0);
            assert(sx + rx =~= seq![TC_ARRAY] + (sig_bytes(*ix) + rx));
            assert(sy + ry =~= seq![TC_ARRAY] + (sig_bytes(*iy) + ry));
            lemma_concat_tail_cancel(seq![TC_ARRAY], sig_bytes(*ix) + rx, seq![TC_ARRAY],
                sig_bytes(*iy) + ry);
            lemma_sig_prefix_free(*ix, *iy, rx, ry);
            assert(sx =~= sy);
        }
        TypeSig::Struct(mx) => {
            let my = (y -> Struct_0);
            let ta = seq![TC_STRUCT_CLOSE] + rx;
            let tb = seq![TC_STRUCT_CLOSE] + ry;
            assert(sig_bytes_list(mx@, 0) + ta =~= sig_bytes_list(my@, 0) + tb) by {
                assert(sx + rx =~= seq![TC_STRUCT_OPEN] + (sig_bytes_list(mx@, 0) + ta));
                assert(sy + ry =~= seq![TC_STRUCT_OPEN] + (sig_bytes_list(my@, 0) + tb));
                lemma_concat_tail_cancel(seq![TC_STRUCT_OPEN], sig_bytes_list(mx@, 0) + ta,
                    seq![TC_STRUCT_OPEN], sig_bytes_list(my@, 0) + tb);
            }
            lemma_sig_list_prefix_free(mx@, 0, my@, 0, ta, tb);
            assert(sx =~= sy);
            lemma_concat_tail_cancel(seq![TC_STRUCT_CLOSE], rx, seq![TC_STRUCT_CLOSE], ry);
        }
        TypeSig::DictEntry(kx, vx) => {
            let ky = (y -> DictEntry_0);
            let vy = (y -> DictEntry_1);
            let ta = sig_bytes(*vx) + seq![TC_DICT_CLOSE] + rx;
            let tb = sig_bytes(*vy) + seq![TC_DICT_CLOSE] + ry;
            assert(sig_bytes(*kx) + ta =~= sig_bytes(*ky) + tb) by {
                assert(sx + rx =~= seq![TC_DICT_OPEN] + (sig_bytes(*kx) + ta));
                assert(sy + ry =~= seq![TC_DICT_OPEN] + (sig_bytes(*ky) + tb));
                lemma_concat_tail_cancel(seq![TC_DICT_OPEN], sig_bytes(*kx) + ta,
                    seq![TC_DICT_OPEN], sig_bytes(*ky) + tb);
            }
            lemma_sig_prefix_free(*kx, *ky, ta, tb);
            assert(sig_bytes(*vx) + (seq![TC_DICT_CLOSE] + rx) =~= sig_bytes(*vy) + (
            seq![TC_DICT_CLOSE] + ry)) by {
                lemma_concat_tail_cancel(sig_bytes(*kx), ta, sig_bytes(*ky), tb);
                assert(ta =~= sig_bytes(*vx) + (seq![TC_DICT_CLOSE] + rx));
                assert(tb =~= sig_bytes(*vy) + (seq![TC_DICT_CLOSE] + ry));
            }
            lemma_sig_prefix_free(*vx, *vy, seq![TC_DICT_CLOSE] + rx, seq![TC_DICT_CLOSE]
                + ry);
            assert(sx =~= sy);
            lemma_concat_tail_cancel(seq![TC_DICT_CLOSE], rx, seq![TC_DICT_CLOSE], ry);
        }
        _ => {
            assert(sx.len() == 1 && sy.len() == 1);
            assert(sx =~= sy);
            lemma_concat_tail_cancel(sx, rx, sy, ry);
        }
    }
}

/// Prefix-freeness for member lists closed by a struct terminator.
proof fn lemma_sig_list_prefix_free(
    a: Seq<TypeSig>,
    ia: int,
    b: Seq<TypeSig>,
    ib: int,
    ta: Seq<u8>,
    tb: Seq<u8>,
)
    requires
        0 <= ia <= a.len(),
        0 <= ib <= b.len(),
        valid_sig_list(a, ia),
        valid_sig_list(b, ib),
        sig_bytes_list(a, ia) + ta == sig_bytes_list(b, ib) + tb,
        ta.len() >= 1 && ta[0] == TC_STRUCT_CLOSE,
        tb.len() >= 1 && tb[0] == TC_STRUCT_CLOSE,
    ensures
        sig_bytes_list(a, ia) == sig_bytes_list(b, ib),
        ta == tb,
    decreases a, a.len() - ia,
{
    if ia == a.len() && ib == b.len() {
        assert(sig_bytes_list(a, ia) =~= Seq::<u8>::empty());
        assert(sig_bytes_list(b, ib) =~= Seq::<u8>::empty());
        assert(ta =~= tb);
    } else if ia == a.len() {
        lemma_sig_first_byte(b[ib]);
        assert(ta =~= sig_bytes_list(b, ib) + tb);
        assert(ta[0] == (sig_bytes(b[ib]) + (sig_bytes_list(b, ib + 1) + tb))[0]);
        assert(false);
    } else if ib == b.len() {
        lemma_sig_first_byte(a[ia]);
        assert(tb =~= sig_bytes_list(a, ia) + ta);
        assert(tb[0] == (sig_bytes(a[ia]) + (sig_bytes_list(a, ia + 1) + ta))[0]);
        assert(false);
    } else {
        assert(sig_bytes(a[ia]) + (sig_bytes_list(a, ia + 1) + ta) =~= sig_bytes(b[ib]) + (
        sig_bytes_list(b, ib + 1) + tb)) by {
            assert(sig_bytes_list(a, ia) + ta =~= sig_bytes(a[ia]) + (sig_bytes_list(
                a, ia + 1) + ta));
            assert(sig_bytes_list(b, ib) + tb =~= sig_bytes(b[ib]) + (sig_bytes_list(
                b, ib + 1) + tb));
        }
        lemma_sig_prefix_free(a[ia], b[ib], sig_bytes_list(a, ia + 1) + ta, sig_bytes_list(
            b, ib + 1) + tb);
        lemma_concat_tail_cancel(sig_bytes(a[ia]), sig_bytes_list(a, ia + 1) + ta,
            sig_bytes(b[ib]), sig_bytes_list(b, ib + 1) + tb);
        lemma_sig_list_prefix_free(a, ia + 1, b, ib + 1, ta, tb);
        assert(sig_bytes_list(a, ia) =~= sig_bytes_list(b, ib));
    }
}

} // verus!
