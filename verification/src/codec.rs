use vstd::prelude::*;
use crate::{Error, pad_len, padding, align_up};
use crate::signature::{TypeSig, sig_bytes, align_of_sig, valid_sig, spec_basic, parse_single, TC_BYTE, TC_BOOL, TC_INT16, TC_UINT16,
    TC_INT32, TC_UINT32, TC_INT64, TC_UINT64, TC_STR, TC_PATH, TC_SIG, TC_VARIANT, TC_ARRAY,
    TC_STRUCT_OPEN, TC_DICT_OPEN};
use crate::value::{Value, ValSpec, sig_of, sig_of_list, wf_val, wf_list, wf_elems, view_list,
    lemma_view_list_index, lemma_view_list_len, push_all, depth_le, depth_le_list, basic_val,
    MAX_DEPTH, has_no_nul, val_view};
use vstd::bytes::{spec_u16_to_le_bytes, spec_u32_to_le_bytes, spec_u64_to_le_bytes,
    u16_to_le_bytes, u32_to_le_bytes, u64_to_le_bytes, u16_from_le_bytes, u32_from_le_bytes,
    u64_from_le_bytes, lemma_auto_spec_u16_to_from_le_bytes, lemma_auto_spec_u32_to_from_le_bytes,
    lemma_auto_spec_u64_to_from_le_bytes};

verus! {

/// The protocol's maximum size of one whole message.
pub const MAX_MESSAGE_SIZE: usize = 0x8000000;

/// The protocol's maximum size of one array body.
pub const MAX_ARRAY_SIZE: usize = 0x4000000;

/// The little-endian wire encoding of value `v` when it starts being
/// written at absolute message offset `off`, including the padding that
/// brings `off` up to the value's alignment.
pub open spec fn enc_val(v: ValSpec, off: int) -> Seq<u8>
    decreases v,
{
    match v {
        ValSpec::Byte(x) => seq![x],
        ValSpec::Bool(b) => padding(off, 4) + spec_u32_to_le_bytes(if b { 1u32 } else { 0u32 }),
        ValSpec::Int16(x) => padding(off, 2) + spec_u16_to_le_bytes(x as u16),
        ValSpec::Uint16(x) => padding(off, 2) + spec_u16_to_le_bytes(x),
        ValSpec::Int32(x) => padding(off, 4) + spec_u32_to_le_bytes(x as u32),
        ValSpec::Uint32(x) => padding(off, 4) + spec_u32_to_le_bytes(x),
        ValSpec::Int64(x) => padding(off, 8) + spec_u64_to_le_bytes(x as u64),
        ValSpec::Uint64(x) => padding(off, 8) + spec_u64_to_le_bytes(x),
        ValSpec::Str(b) => padding(off, 4) + spec_u32_to_le_bytes(b.len() as u32) + b + seq![0u8],
        ValSpec::ObjectPath(b) => padding(off, 4) + spec_u32_to_le_bytes(b.len() as u32) + b
            + seq![0u8],
        ValSpec::SignatureStr(b) => seq![b.len() as u8] + b + seq![0u8],
        ValSpec::Variant(inner) => {
            let sv = sig_of(*inner);
            seq![sv.len() as u8] + sv + seq![0u8] + enc_val(*inner, off + 2 + sv.len())
        },
        ValSpec::Array(esig, elems) => {
            let p1 = padding(off, 4);
            let off1 = off + p1.len() + 4;
            let p2 = padding(off1, align_of_sig(esig));
            let body = enc_list(elems, 0, off1 + p2.len());
            p1 + spec_u32_to_le_bytes(body.len() as u32) + p2 + body
        },
        ValSpec::Struct(ms) => padding(off, 8) + enc_list(ms, 0, off + pad_len(off, 8)),
        ValSpec::DictEntry(k, w) => {
            let p = padding(off, 8);
            let ek = enc_val(*k, off + p.len());
            p + ek + enc_val(*w, off + p.len() + ek.len())
        },
    }
}

/// The concatenated encodings of `vs[i..]` written back to back from
/// offset `off`.
pub open spec fn enc_list(vs: Seq<ValSpec>, i: int, off: int) -> Seq<u8>
    decreases vs, vs.len() - i,
{
    if 0 <= i < vs.len() {
        let e = enc_val(vs[i], off);
        e + enc_list(vs, i + 1, off + e.len())
    } else {
        Seq::<u8>::empty()
    }
}

/// Appends zero bytes until the buffer length is a multiple of `align`.
pub fn write_padding(buf: &mut Vec<u8>, align: usize) -> (r: Result<(), Error>)
    requires
        1 <= align <= 8,
        old(buf)@.len() <= MAX_MESSAGE_SIZE,
    ensures
        r matches Ok(()) ==> final(buf)@ == old(buf)@ + padding(old(buf)@.len() as int,
            align as int) && final(buf)@.len() <= MAX_MESSAGE_SIZE && final(buf)@.len() as int
            % align as int == 0,
        r matches Err(e) ==> e == Error::MessageTooLarge && old(buf)@.len() + pad_len(
            old(buf)@.len() as int, align as int) > MAX_MESSAGE_SIZE,
{
    let start = buf.len();
    let target = align_up(start, align);
    if target > MAX_MESSAGE_SIZE {
        return Err(Error::MessageTooLarge);
    }
    let mut k: usize = 0;
    let n = target - start;
    while k < n
        invariant
            buf@ == old(buf)@ + Seq::new(k as nat, |i: int| 0u8),
            buf@.len() == start + k,
            k <= n,
            n == target - start,
            start == old(buf)@.len(),
            target <= MAX_MESSAGE_SIZE,
        decreases n - k,
    {
        buf.push(0);
        proof {
            assert(old(buf)@ + Seq::new(k as nat, |i: int| 0u8) + seq![0u8] =~= old(buf)@
                + Seq::new((k + 1) as nat, |i: int| 0u8));
        }
        k = k + 1;
    }
    proof {
        assert(buf@ =~= old(buf)@ + padding(old(buf)@.len() as int, align as int));
    }
    Ok(())
}

/// True when `n` more bytes still fit under the message size limit.
fn has_room(buf: &Vec<u8>, n: usize) -> (r: bool)
    requires
        buf@.len() <= MAX_MESSAGE_SIZE,
    ensures
        r == (buf@.len() + n <= MAX_MESSAGE_SIZE),
{
    n <= MAX_MESSAGE_SIZE - buf.len()
}

/// Overwrites the four bytes at `pos` with the little-endian encoding
/// of `x`.
pub fn patch_u32(buf: &mut Vec<u8>, pos: usize, x: u32)
    requires
        pos + 4 <= old(buf)@.len(),
        old(buf)@.len() <= MAX_MESSAGE_SIZE,
    ensures
        final(buf)@ == old(buf)@.subrange(0, pos as int) + spec_u32_to_le_bytes(x) + old(
            buf)@.subrange(pos + 4, old(buf)@.len() as int),
{
    proof {
        lemma_auto_spec_u32_to_from_le_bytes();
    }
    let lb = u32_to_le_bytes(x);
    buf[pos] = lb[0];
    buf[pos + 1] = lb[1];
    buf[pos + 2] = lb[2];
    buf[pos + 3] = lb[3];
    proof {
        assert(buf@ =~= old(buf)@.subrange(0, pos as int) + spec_u32_to_le_bytes(x) + old(
            buf)@.subrange(pos + 4, old(buf)@.len() as int));
    }
}

/// The executable alignment of the type whose signature is `esig`.
fn align_of_esig(esig: &Vec<u8>) -> (r: usize)
    requires
        esig@.len() >= 1,
    ensures
        r == align_of_sig(esig@),
        1 <= r <= 8,
{
    let c = esig[0];
    if c == TC_INT64 || c == TC_UINT64 || c == TC_STRUCT_OPEN || c == TC_DICT_OPEN {
        8
    } else if c == TC_BOOL || c == TC_INT32 || c == TC_UINT32 || c == TC_STR || c == TC_PATH
        || c == TC_ARRAY {
        4
    } else if c == TC_INT16 || c == TC_UINT16 {
        2
    } else {
        1
    }
}

/// Appends the wire encoding of `v` to `buf`; alignment is relative to
/// the start of `buf`, which is the start of the message.  Fails with
/// `MessageTooLarge` when the encoding would exceed the maximum message
/// size, or an array body its own limit.
#[verifier::rlimit(100)]
pub fn encode_value(v: &Value, buf: &mut Vec<u8>) -> (r: Result<(), Error>)
    requires
        wf_val(v@),
        old(buf)@.len() <= MAX_MESSAGE_SIZE,
    ensures
        r matches Ok(()) ==> final(buf)@ == old(buf)@ + enc_val(v@, old(buf)@.len() as int)
            && final(buf)@.len() <= MAX_MESSAGE_SIZE,
        r matches Err(e) ==> e == Error::MessageTooLarge,
    decreases *v,
{
    let ghost off = buf@.len() as int;
    match v {
        Value::Byte(x) => {
            if !has_room(buf, 1) {
                return Err(Error::MessageTooLarge);
            }
            buf.push(*x);
            proof {
                assert(buf@ =~= old(buf)@ + enc_val(v@, off));
            }
            Ok(())
        }
        Value::Bool(b) => {
            write_padding(buf, 4)?;
            let x: u32 = if *b { 1 } else { 0 };
            write_u32(buf, x)?;
            proof {
                assert(buf@ =~= old(buf)@ + enc_val(v@, off));
            }
            Ok(())
        }
        Value::Int16(x) => {
            write_padding(buf, 2)?;
            write_u16(buf, *x as u16)?;
            proof {
                assert(buf@ =~= old(buf)@ + enc_val(v@, off));
            }
            Ok(())
        }
        Value::Uint16(x) => {
            write_padding(buf, 2)?;
            write_u16(buf, *x)?;
            proof {
                assert(buf@ =~= old(buf)@ + enc_val(v@, off));
            }
            Ok(())
        }
        Value::Int32(x) => {
            write_padding(buf, 4)?;
            write_u32(buf, *x as u32)?;
            proof {
                assert(buf@ =~= old(buf)@ + enc_val(v@, off));
            }
            Ok(())
        }
        Value::Uint32(x) => {
            write_padding(buf, 4)?;
            write_u32(buf, *x)?;
            proof {
                assert(buf@ =~= old(buf)@ + enc_val(v@, off));
            }
            Ok(())
        }
        Value::Int64(x) => {
            write_padding(buf, 8)?;
            write_u64(buf, *x as u64)?;
            proof {
                assert(buf@ =~= old(buf)@ + enc_val(v@, off));
            }
            Ok(())
        }
        Value::Uint64(x) => {
            write_padding(buf, 8)?;
            write_u64(buf, *x)?;
            proof {
                assert(buf@ =~= old(buf)@ + enc_val(v@, off));
            }
            Ok(())
        }
        Value::Str(b) => {
            write_padding(buf, 4)?;
            write_u32(buf, b.len() as u32)?;
            let rem = MAX_MESSAGE_SIZE - buf.len();
            if b.len() >= rem {
                return Err(Error::MessageTooLarge);
            }
            push_all(buf, b);
            buf.push(0);
            proof {
                assert(buf@ =~= old(buf)@ + enc_val(v@, off));
            }
            Ok(())
        }
        Value::ObjectPath(b) => {
            write_padding(buf, 4)?;
            write_u32(buf, b.len() as u32)?;
            let rem = MAX_MESSAGE_SIZE - buf.len();
            if b.len() >= rem {
                return Err(Error::MessageTooLarge);
            }
            push_all(buf, b);
            buf.push(0);
            proof {
                assert(buf@ =~= old(buf)@ + enc_val(v@, off));
            }
            Ok(())
        }
        Value::SignatureStr(b) => {
            if !has_room(buf, b.len() + 2) {
                return Err(Error::MessageTooLarge);
            }
            buf.push(b.len() as u8);
            push_all(buf, b);
            buf.push(0);
            proof {
                assert(buf@ =~= old(buf)@ + enc_val(v@, off));
            }
            Ok(())
        }
        Value::Variant(inner) => {
            let sv = inner.signature();
            if !has_room(buf, sv.len() + 2) {
                return Err(Error::MessageTooLarge);
            }
            buf.push(sv.len() as u8);
            push_all(buf, &sv);
            buf.push(0);
            encode_value(inner, buf)?;
            proof {
                assert(buf@ =~= old(buf)@ + enc_val(v@, off));
            }
            Ok(())
        }
        Value::Array(esig, elems) => {
            write_padding(buf, 4)?;
            if !has_room(buf, 4) {
                return Err(Error::MessageTooLarge);
            }
            let lenpos = buf.len();
            buf.push(0);
            buf.push(0);
            buf.push(0);
            buf.push(0);
            proof {
                lemma_auto_spec_u32_to_from_le_bytes();
            }
            let ealign = align_of_esig(esig);
            write_padding(buf, ealign)?;
            let body_start = buf.len();
            let ghost pre_body = buf@;
            proof {
                lemma_wf_elems_implies_wf_list(esig@, view_list(elems@, 0), 0);
            }
            encode_list(elems, 0, buf)?;
            let body_len = buf.len() - body_start;
            if body_len > MAX_ARRAY_SIZE {
                return Err(Error::MessageTooLarge);
            }
            patch_u32(buf, lenpos, body_len as u32);
            proof {
                let p1 = padding(off, 4);
                let off1 = off + p1.len() + 4;
                let p2 = padding(off1, align_of_sig(esig@));
                let body = enc_list(view_list(elems@, 0), 0, off1 + p2.len());
                assert(pre_body =~= old(buf)@ + p1 + seq![0u8, 0u8, 0u8, 0u8] + p2);
                assert(buf@ =~= old(buf)@ + p1 + spec_u32_to_le_bytes(body.len() as u32) + p2
                    + body);
                assert(buf@ =~= old(buf)@ + enc_val(v@, off));
            }
            Ok(())
        }
        Value::Struct(ms) => {
            write_padding(buf, 8)?;
            encode_list(ms, 0, buf)?;
            proof {
                assert(buf@ =~= old(buf)@ + enc_val(v@, off));
            }
            Ok(())
        }
        Value::DictEntry(k, w) => {
            write_padding(buf, 8)?;
            encode_value(k, buf)?;
            encode_value(w, buf)?;
            proof {
                assert(buf@ =~= old(buf)@ + enc_val(v@, off));
            }
            Ok(())
        }
    }
}

/// Appends the encodings of `vs[i..]` back to back.
pub fn encode_list(vs: &Vec<Value>, i: usize, buf: &mut Vec<u8>) -> (r: Result<(), Error>)
    requires
        i <= vs@.len(),
        wf_list(view_list(vs@, 0), i as int),
        old(buf)@.len() <= MAX_MESSAGE_SIZE,
    ensures
        r matches Ok(()) ==> final(buf)@ == old(buf)@ + enc_list(view_list(vs@, 0), i as int,
            old(buf)@.len() as int) && final(buf)@.len() <= MAX_MESSAGE_SIZE,
        r matches Err(e) ==> e == Error::MessageTooLarge,
    decreases vs@, vs@.len() - i,
{
    proof {
        lemma_view_list_len(vs@, 0);
    }
    if i < vs.len() {
        proof {
            lemma_view_list_index(vs@, 0, i as int);
        }
        encode_value(&vs[i], buf)?;
        encode_list(vs, i + 1, buf)?;
        proof {
            let vl = view_list(vs@, 0);
            let e = enc_val(vl[i as int], old(buf)@.len() as int);
            assert(old(buf)@ + e + enc_list(vl, i + 1, old(buf)@.len() + e.len() as int) =~= old(
                buf)@ + enc_list(vl, i as int, old(buf)@.len() as int));
        }
        Ok(())
    } else {
        proof {
            assert(old(buf)@ + enc_list(view_list(vs@, 0), i as int, old(buf)@.len() as int)
                =~= old(buf)@);
        }
        Ok(())
    }
}

/// Appends the little-endian bytes of `x`.
fn write_u16(buf: &mut Vec<u8>, x: u16) -> (r: Result<(), Error>)
    requires
        old(buf)@.len() <= MAX_MESSAGE_SIZE,
    ensures
        r matches Ok(()) ==> final(buf)@ == old(buf)@ + spec_u16_to_le_bytes(x) && final(
            buf)@.len() <= MAX_MESSAGE_SIZE,
        r matches Err(e) ==> e == Error::MessageTooLarge && old(buf)@.len() + 2
            > MAX_MESSAGE_SIZE,
{
    proof {
        lemma_auto_spec_u16_to_from_le_bytes();
    }
    if !has_room(buf, 2) {
        return Err(Error::MessageTooLarge);
    }
    let mut lb = u16_to_le_bytes(x);
    buf.append(&mut lb);
    Ok(())
}

/// Appends the little-endian bytes of `x`.
fn write_u32(buf: &mut Vec<u8>, x: u32) -> (r: Result<(), Error>)
    requires
        old(buf)@.len() <= MAX_MESSAGE_SIZE,
    ensures
        r matches Ok(()) ==> final(buf)@ == old(buf)@ + spec_u32_to_le_bytes(x) && final(
            buf)@.len() <= MAX_MESSAGE_SIZE,
        r matches Err(e) ==> e == Error::MessageTooLarge && old(buf)@.len() + 4
            > MAX_MESSAGE_SIZE,
{
    proof {
        lemma_auto_spec_u32_to_from_le_bytes();
    }
    if !has_room(buf, 4) {
        return Err(Error::MessageTooLarge);
    }
    let mut lb = u32_to_le_bytes(x);
    buf.append(&mut lb);
    Ok(())
}

/// Appends the little-endian bytes of `x`.
fn write_u64(buf: &mut Vec<u8>, x: u64) -> (r: Result<(), Error>)
    requires
        old(buf)@.len() <= MAX_MESSAGE_SIZE,
    ensures
        r matches Ok(()) ==> final(buf)@ == old(buf)@ + spec_u64_to_le_bytes(x) && final(
            buf)@.len() <= MAX_MESSAGE_SIZE,
        r matches Err(e) ==> e == Error::MessageTooLarge && old(buf)@.len() + 8
            > MAX_MESSAGE_SIZE,
{
    proof {
        lemma_auto_spec_u64_to_from_le_bytes();
    }
    if !has_room(buf, 8) {
        return Err(Error::MessageTooLarge);
    }
    let mut lb = u64_to_le_bytes(x);
    buf.append(&mut lb);
    Ok(())
}


/// Array elements that are homogeneous and well formed are in
/// particular a well-formed list.
pub proof fn lemma_wf_elems_implies_wf_list(esig: Seq<u8>, vs: Seq<ValSpec>, i: int)
    requires
        wf_elems(esig, vs, i),
    ensures
        wf_list(vs, i),
    decreases vs.len() - i,
{
    if 0 <= i < vs.len() {
        lemma_wf_elems_implies_wf_list(esig, vs, i + 1);
    }
}


/// Relies on `core::str::from_utf8`, which succeeds exactly on valid
/// UTF-8 input; used only to test validity.
#[verifier::external_body]
pub(crate) fn utf8_ok(b: &[u8]) -> (r: bool)
    ensures
        r == vstd::utf8::valid_utf8(b@),
{
    core::str::from_utf8(b).is_ok()
}

/// Reads `buf[a..b]` into a fresh vector.
fn read_vec(buf: &[u8], a: usize, b: usize) -> (r: Vec<u8>)
    requires
        a <= b <= buf@.len(),
    ensures
        r@ == buf@.subrange(a as int, b as int),
{
    let sl = vstd::slice::slice_subrange(buf, a, b);
    vstd::slice::slice_to_vec(sl)
}

/// Skips the padding that aligns `off` to `align`, checking that every
/// padding byte is zero.
pub fn check_padding(buf: &[u8], off: usize, align: usize) -> (r: Result<usize, Error>)
    requires
        off <= buf@.len(),
        buf@.len() <= MAX_MESSAGE_SIZE,
        1 <= align <= 8,
    ensures
        r matches Ok(j) ==> off <= j <= buf@.len() && j == off + pad_len(off as int, align as int)
            && buf@.subrange(off as int, j as int) == padding(off as int, align as int)
            && j as int % align as int == 0,
        r matches Err(e) ==> (e == Error::UnexpectedEof && off + pad_len(off as int,
            align as int) > buf@.len()) || (e == Error::InvalidPadding && exists|k: int|
            off <= k < off + pad_len(off as int, align as int) && #[trigger] buf@[k] != 0),
{
    let target = align_up(off, align);
    if target > buf.len() {
        return Err(Error::UnexpectedEof);
    }
    let mut j = off;
    while j < target
        invariant
            off <= j <= target <= buf@.len(),
            target == off + pad_len(off as int, align as int),
            forall|k: int| off <= k < j ==> buf@[k] == 0,
        decreases target - j,
    {
        if buf[j] != 0 {
            proof {
                assert(off <= j < target);
                assert(buf@[j as int] != 0);
            }
            return Err(Error::InvalidPadding);
        }
        j = j + 1;
    }
    proof {
        assert(buf@.subrange(off as int, target as int) =~= padding(off as int, align as int));
    }
    Ok(target)
}

/// Reads a little-endian 16-bit integer at `off`.
fn read_u16_at(buf: &[u8], off: usize) -> (r: Result<u16, Error>)
    requires
        off <= buf@.len(),
    ensures
        r matches Ok(x) ==> off + 2 <= buf@.len() && buf@.subrange(off as int, off + 2)
            == spec_u16_to_le_bytes(x),
        r matches Err(e) ==> e == Error::UnexpectedEof && off + 2 > buf@.len(),
{
    if buf.len() - off < 2 {
        return Err(Error::UnexpectedEof);
    }
    let sl = vstd::slice::slice_subrange(buf, off, off + 2);
    let x = u16_from_le_bytes(sl);
    proof {
        lemma_auto_spec_u16_to_from_le_bytes();
    }
    Ok(x)
}

/// Reads a little-endian 32-bit integer at `off`.
pub fn read_u32_at(buf: &[u8], off: usize) -> (r: Result<u32, Error>)
    requires
        off <= buf@.len(),
    ensures
        r matches Ok(x) ==> off + 4 <= buf@.len() && buf@.subrange(off as int, off + 4)
            == spec_u32_to_le_bytes(x),
        r matches Err(e) ==> e == Error::UnexpectedEof && off + 4 > buf@.len(),
{
    if buf.len() - off < 4 {
        return Err(Error::UnexpectedEof);
    }
    let sl = vstd::slice::slice_subrange(buf, off, off + 4);
    let x = u32_from_le_bytes(sl);
    proof {
        lemma_auto_spec_u32_to_from_le_bytes();
    }
    Ok(x)
}

/// Reads a little-endian 64-bit integer at `off`.
fn read_u64_at(buf: &[u8], off: usize) -> (r: Result<u64, Error>)
    requires
        off <= buf@.len(),
    ensures
        r matches Ok(x) ==> off + 8 <= buf@.len() && buf@.subrange(off as int, off + 8)
            == spec_u64_to_le_bytes(x),
        r matches Err(e) ==> e == Error::UnexpectedEof && off + 8 > buf@.len(),
{
    if buf.len() - off < 8 {
        return Err(Error::UnexpectedEof);
    }
    let sl = vstd::slice::slice_subrange(buf, off, off + 8);
    let x = u64_from_le_bytes(sl);
    proof {
        lemma_auto_spec_u64_to_from_le_bytes();
    }
    Ok(x)
}

/// Appending one more value to an encoded list.
pub proof fn lemma_enc_list_push(vs: Seq<ValSpec>, x: ValSpec, i: int, off: int)
    requires
        0 <= i <= vs.len(),
    ensures
        enc_list(vs.push(x), i, off) == enc_list(vs, i, off) + enc_val(
            x, off + enc_list(vs, i, off).len()),
    decreases vs.len() - i,
{
    let a = vs.push(x);
    if i == vs.len() {
        assert(a[i] == x);
        assert(enc_list(a, i + 1, off + enc_val(x, off).len()) =~= Seq::<u8>::empty());
        assert(enc_list(a, i, off) =~= enc_val(x, off));
        assert(enc_list(vs, i, off) =~= Seq::<u8>::empty());
        assert(enc_list(vs, i, off) + enc_val(x, off) =~= enc_val(x, off));
    } else {
        let e = enc_val(vs[i], off);
        assert(a[i] == vs[i]);
        lemma_enc_list_push(vs, x, i + 1, off + e.len());
        assert(e + (enc_list(vs, i + 1, off + e.len()) + enc_val(x, off + e.len() + enc_list(
            vs, i + 1, off + e.len()).len())) =~= (e + enc_list(vs, i + 1, off + e.len()))
            + enc_val(x, off + (e + enc_list(vs, i + 1, off + e.len())).len()));
    }
}

/// Appending one more vector element to a viewed list.
pub proof fn lemma_view_list_push(vs: Seq<Value>, x: Value, i: int)
    requires
        0 <= i <= vs.len(),
    ensures
        crate::value::view_list(vs.push(x), i) == crate::value::view_list(vs, i).push(
            crate::value::val_view(x)),
    decreases vs.len() - i,
{
    let a = vs.push(x);
    if i == vs.len() {
        assert(a[i] == x);
        let xv = crate::value::val_view(x);
        assert(crate::value::view_list(a, i + 1) =~= Seq::<ValSpec>::empty());
        assert(crate::value::view_list(a, i) =~= seq![xv]);
        assert(crate::value::view_list(vs, i) =~= Seq::<ValSpec>::empty());
        assert(crate::value::view_list(vs, i).push(xv) =~= seq![xv]);
    } else {
        lemma_view_list_push(vs, x, i + 1);
        assert(a[i] == vs[i]);
        let vh = crate::value::val_view(vs[i]);
        let xv = crate::value::val_view(x);
        assert(seq![vh] + crate::value::view_list(vs, i + 1).push(xv) =~= (seq![vh]
            + crate::value::view_list(vs, i + 1)).push(xv));
    }
}

/// Pointwise well-formedness and signature agreement give a well-formed
/// array element list.
pub proof fn lemma_wf_elems_all(esig: Seq<u8>, vs: Seq<ValSpec>, j: int)
    requires
        0 <= j <= vs.len(),
        forall|k: int| 0 <= k < vs.len() ==> wf_val(#[trigger] vs[k]) && sig_of(vs[k]) == esig,
    ensures
        wf_elems(esig, vs, j),
    decreases vs.len() - j,
{
    if j < vs.len() {
        lemma_wf_elems_all(esig, vs, j + 1);
    }
}

/// Pointwise well-formedness gives a well-formed list.
pub proof fn lemma_wf_list_all(vs: Seq<ValSpec>, j: int)
    requires
        0 <= j <= vs.len(),
        forall|k: int| 0 <= k < vs.len() ==> wf_val(#[trigger] vs[k]),
    ensures
        wf_list(vs, j),
    decreases vs.len() - j,
{
    if j < vs.len() {
        lemma_wf_list_all(vs, j + 1);
    }
}

/// Pointwise depth bounds give a depth-bounded list.
pub proof fn lemma_depth_le_list_all(vs: Seq<ValSpec>, j: int, budget: int)
    requires
        0 <= j <= vs.len(),
        budget >= 0,
        forall|k: int| 0 <= k < vs.len() ==> crate::value::depth_le(#[trigger] vs[k], budget),
    ensures
        crate::value::depth_le_list(vs, j, budget),
    decreases vs.len() - j,
{
    if j < vs.len() {
        lemma_depth_le_list_all(vs, j + 1, budget);
    }
}

/// When each value's signature equals the corresponding type's
/// signature, the concatenations agree too.
pub proof fn lemma_sig_concat_pointwise(vs: Seq<ValSpec>, ts: Seq<TypeSig>, j: int)
    requires
        0 <= j <= vs.len(),
        vs.len() == ts.len(),
        forall|k: int| 0 <= k < vs.len() ==> sig_of(#[trigger] vs[k]) == sig_bytes(ts[k]),
    ensures
        sig_of_list(vs, j) == crate::signature::sig_bytes_list(ts, j),
    decreases vs.len() - j,
{
    if j < vs.len() {
        lemma_sig_concat_pointwise(vs, ts, j + 1);
    }
}

/// A value whose signature is that of a basic type is itself basic.
pub proof fn lemma_basic_sig_inversion(v: ValSpec, t: TypeSig)
    requires
        sig_of(v) == sig_bytes(t),
        crate::signature::spec_basic(t),
    ensures
        crate::value::basic_val(v),
{
    if !crate::value::basic_val(v) {
        assert(sig_of(v)[0] == TC_VARIANT || sig_of(v)[0] == TC_ARRAY || sig_of(v)[0]
            == TC_STRUCT_OPEN || sig_of(v)[0] == TC_DICT_OPEN);
    }
}


/// Every type's signature has at least its leading type code.
pub proof fn lemma_sig_bytes_nonempty(t: TypeSig)
    ensures
        sig_bytes(t).len() >= 1,
{
}

/// Decodes one value of type `t` that starts (with its padding) at
/// absolute message offset `off`.
///
/// On success the consumed bytes are exactly the wire encoding of the
/// returned well-formed value at that offset, so a buffer produced by
/// [`encode_value`] decodes back to a value with the same encoding.
#[verifier::rlimit(100)]
pub fn decode_value(buf: &[u8], off: usize, t: &TypeSig, depth: u64) -> (r: Result<
    (Value, usize), Error>)
    requires
        off <= buf@.len(),
        buf@.len() <= MAX_MESSAGE_SIZE,
        valid_sig(*t),
        depth <= MAX_DEPTH,
    ensures
        r matches Ok(p) ==> {
            &&& off < p.1 <= buf@.len()
            &&& sig_of(p.0@) == sig_bytes(*t)
            &&& wf_val(p.0@)
            &&& depth_le(p.0@, MAX_DEPTH as int - depth as int)
            &&& buf@.subrange(off as int, p.1 as int) == enc_val(p.0@, off as int)
        },
    decreases buf@.len() - off, *t,
{
    match t {
        TypeSig::Byte => {
            if off >= buf.len() {
                return Err(Error::UnexpectedEof);
            }
            let x = buf[off];
            let v = Value::Byte(x);
            proof {
                assert(buf@.subrange(off as int, off + 1) =~= enc_val(v@, off as int));
            }
            Ok((v, off + 1))
        }
        TypeSig::Bool => {
            let j = check_padding(buf, off, 4)?;
            let x = read_u32_at(buf, j)?;
            if x > 1 {
                return Err(Error::InvalidBool);
            }
            let v = Value::Bool(x == 1);
            proof {
                assert(buf@.subrange(off as int, j + 4) =~= enc_val(v@, off as int));
            }
            Ok((v, j + 4))
        }
        TypeSig::Int16 => {
            let j = check_padding(buf, off, 2)?;
            let x = read_u16_at(buf, j)?;
            let v = Value::Int16(x as i16);
            proof {
                assert((x as i16) as u16 == x) by (bit_vector);
                assert(buf@.subrange(off as int, j + 2) =~= enc_val(v@, off as int));
            }
            Ok((v, j + 2))
        }
        TypeSig::Uint16 => {
            let j = check_padding(buf, off, 2)?;
            let x = read_u16_at(buf, j)?;
            let v = Value::Uint16(x);
            proof {
                assert(buf@.subrange(off as int, j + 2) =~= enc_val(v@, off as int));
            }
            Ok((v, j + 2))
        }
        TypeSig::Int32 => {
            let j = check_padding(buf, off, 4)?;
            let x = read_u32_at(buf, j)?;
            let v = Value::Int32(x as i32);
            proof {
                assert((x as i32) as u32 == x) by (bit_vector);
                assert(buf@.subrange(off as int, j + 4) =~= enc_val(v@, off as int));
            }
            Ok((v, j + 4))
        }
        TypeSig::Uint32 => {
            let j = check_padding(buf, off, 4)?;
            let x = read_u32_at(buf, j)?;
            let v = Value::Uint32(x);
            proof {
                assert(buf@.subrange(off as int, j + 4) =~= enc_val(v@, off as int));
            }
            Ok((v, j + 4))
        }
        TypeSig::Int64 => {
            let j = check_padding(buf, off, 8)?;
            let x = read_u64_at(buf, j)?;
            let v = Value::Int64(x as i64);
            proof {
                assert((x as i64) as u64 == x) by (bit_vector);
                assert(buf@.subrange(off as int, j + 8) =~= enc_val(v@, off as int));
            }
            Ok((v, j + 8))
        }
        TypeSig::Uint64 => {
            let j = check_padding(buf, off, 8)?;
            let x = read_u64_at(buf, j)?;
            let v = Value::Uint64(x);
            proof {
                assert(buf@.subrange(off as int, j + 8) =~= enc_val(v@, off as int));
            }
            Ok((v, j + 8))
        }
        TypeSig::Str => {
            let (b, end) = decode_string_body(buf, off)?;
            let v = Value::Str(b);
            proof {
                assert(buf@.subrange(off as int, end as int) =~= enc_val(v@, off as int));
            }
            Ok((v, end))
        }
        TypeSig::ObjectPath => {
            let (b, end) = decode_string_body(buf, off)?;
            let v = Value::ObjectPath(b);
            proof {
                assert(buf@.subrange(off as int, end as int) =~= enc_val(v@, off as int));
            }
            Ok((v, end))
        }
        TypeSig::SignatureStr => {
            let (b, end) = decode_sig_body(buf, off)?;
            let v = Value::SignatureStr(b);
            proof {
                assert(buf@.subrange(off as int, end as int) =~= enc_val(v@, off as int));
            }
            Ok((v, end))
        }
        TypeSig::Variant => {
            let (sb, vstart) = decode_sig_body(buf, off)?;
            let vt = parse_single(sb.as_slice())?;
            if depth >= MAX_DEPTH {
                return Err(Error::NestingTooDeep);
            }
            let (inner, end) = decode_value(buf, vstart, &vt, depth + 1)?;
            let v = Value::Variant(Box::new(inner));
            proof {
                assert(sig_of(v@) =~= sig_bytes(TypeSig::Variant));
                assert(buf@.subrange(off as int, end as int) =~= enc_val(v@, off as int));
            }
            Ok((v, end))
        }
        TypeSig::Array(et) => {
            let j = check_padding(buf, off, 4)?;
            let n32 = read_u32_at(buf, j)?;
            let n = n32 as usize;
            if n > MAX_ARRAY_SIZE {
                return Err(Error::MessageTooLarge);
            }
            let ealign = et.alignment();
            let body_start = check_padding(buf, j + 4, ealign)?;
            if n > buf.len() - body_start {
                return Err(Error::UnexpectedEof);
            }
            let end = body_start + n;
            if depth >= MAX_DEPTH {
                return Err(Error::NestingTooDeep);
            }
            let mut elems: Vec<Value> = Vec::new();
            let mut cur = body_start;
            while cur < end
                invariant
                    off < body_start <= cur <= end <= buf@.len(),
                    buf@.len() <= MAX_MESSAGE_SIZE,
                    valid_sig(**et),
                    depth + 1 <= MAX_DEPTH,
                    view_list(elems@, 0).len() == elems@.len(),
                    buf@.subrange(body_start as int, cur as int) == enc_list(
                        view_list(elems@, 0), 0, body_start as int),
                    forall|k: int| 0 <= k < elems@.len() ==> {
                        &&& wf_val(#[trigger] view_list(elems@, 0)[k])
                        &&& sig_of(view_list(elems@, 0)[k]) == sig_bytes(**et)
                        &&& depth_le(view_list(elems@, 0)[k], MAX_DEPTH as int - depth as int
                            - 1)
                    },
                decreases end - cur,
            {
                let (e, ne) = decode_value(buf, cur, et, depth + 1)?;
                if ne > end {
                    return Err(Error::UnexpectedEof);
                }
                proof {
                    let vl = view_list(elems@, 0);
                    lemma_view_list_push(elems@, e, 0);
                    lemma_enc_list_push(vl, e@, 0, body_start as int);
                    lemma_view_list_len(elems@.push(e), 0);
                    assert(enc_list(vl, 0, body_start as int).len() == cur - body_start);
                    assert(buf@.subrange(body_start as int, cur as int) + buf@.subrange(
                        cur as int, ne as int) =~= buf@.subrange(body_start as int, ne as int));
                    assert(forall|k: int| 0 <= k < elems@.len() ==> view_list(
                        elems@.push(e), 0)[k] == #[trigger] view_list(elems@, 0)[k]);
                    assert(view_list(elems@.push(e), 0)[elems@.len() as int] == e@);
                }
                elems.push(e);
                cur = ne;
            }
            let esigv = et.to_string();
            proof {
                lemma_sig_bytes_nonempty(**et);
            }
            let v = Value::Array(esigv, elems);
            proof {
                let vl = view_list(elems@, 0);
                lemma_wf_elems_all(sig_bytes(**et), vl, 0);
                lemma_depth_le_list_all(vl, 0, MAX_DEPTH as int - depth as int - 1);
                assert(sig_of(v@) =~= sig_bytes(*t));
                assert(enc_list(vl, 0, body_start as int).len() == n);
                assert(buf@.subrange(off as int, end as int) =~= enc_val(v@, off as int));
            }
            Ok((v, end))
        }
        TypeSig::Struct(ts) => {
            let j = check_padding(buf, off, 8)?;
            if depth >= MAX_DEPTH {
                return Err(Error::NestingTooDeep);
            }
            let mut ms: Vec<Value> = Vec::new();
            let mut cur = j;
            let mut k: usize = 0;
            while k < ts.len()
                invariant
                    off <= j <= cur <= buf@.len(),
                    buf@.len() <= MAX_MESSAGE_SIZE,
                    k <= ts@.len(),
                    ms@.len() == k,
                    depth + 1 <= MAX_DEPTH,
                    crate::signature::valid_sig_list(ts@, k as int) || k == ts@.len(),
                    valid_sig(*t),
                    *t == TypeSig::Struct(*ts),
                    k > 0 ==> cur > j,
                    view_list(ms@, 0).len() == k,
                    buf@.subrange(j as int, cur as int) == enc_list(view_list(ms@, 0), 0,
                        j as int),
                    forall|i: int| 0 <= i < k ==> {
                        &&& wf_val(#[trigger] view_list(ms@, 0)[i])
                        &&& sig_of(view_list(ms@, 0)[i]) == sig_bytes(ts@[i])
                        &&& depth_le(view_list(ms@, 0)[i], MAX_DEPTH as int - depth as int - 1)
                    },
                decreases ts@.len() - k,
            {
                proof {
                    lemma_valid_sig_list_index(ts@, k as int);
                }
                let (e, ne) = decode_value(buf, cur, &ts[k], depth + 1)?;
                proof {
                    let vl = view_list(ms@, 0);
                    lemma_view_list_push(ms@, e, 0);
                    lemma_enc_list_push(vl, e@, 0, j as int);
                    lemma_view_list_len(ms@.push(e), 0);
                    assert(enc_list(vl, 0, j as int).len() == cur - j);
                    assert(buf@.subrange(j as int, cur as int) + buf@.subrange(cur as int,
                        ne as int) =~= buf@.subrange(j as int, ne as int));
                    assert(forall|i: int| 0 <= i < ms@.len() ==> view_list(ms@.push(e), 0)[i]
                        == #[trigger] view_list(ms@, 0)[i]);
                    assert(view_list(ms@.push(e), 0)[ms@.len() as int] == e@);
                }
                ms.push(e);
                cur = ne;
                k = k + 1;
            }
            let v = Value::Struct(ms);
            proof {
                let vl = view_list(ms@, 0);
                lemma_sig_concat_pointwise(vl, ts@, 0);
                lemma_wf_list_all(vl, 0);
                lemma_depth_le_list_all(vl, 0, MAX_DEPTH as int - depth as int - 1);
                assert(sig_of(v@) =~= sig_bytes(*t));
                assert(buf@.subrange(off as int, cur as int) =~= enc_val(v@, off as int));
            }
            Ok((v, cur))
        }
        TypeSig::DictEntry(kt, vt) => {
            let j = check_padding(buf, off, 8)?;
            if depth >= MAX_DEPTH {
                return Err(Error::NestingTooDeep);
            }
            let (kv, j1) = decode_value(buf, j, kt, depth + 1)?;
            let (vv, j2) = decode_value(buf, j1, vt, depth + 1)?;
            let v = Value::DictEntry(Box::new(kv), Box::new(vv));
            proof {
                lemma_basic_sig_inversion(kv@, **kt);
                assert(sig_of(v@) =~= sig_bytes(*t));
                assert(buf@.subrange(off as int, j2 as int) =~= enc_val(v@, off as int));
            }
            Ok((v, j2))
        }
    }
}

/// Within a valid type list every element is valid.
pub proof fn lemma_valid_sig_list_index(ts: Seq<TypeSig>, k: int)
    requires
        0 <= k < ts.len(),
        crate::signature::valid_sig_list(ts, 0),
    ensures
        valid_sig(ts[k]),
        crate::signature::valid_sig_list(ts, k),
        crate::signature::valid_sig_list(ts, k + 1),
{
    lemma_valid_sig_list_index_rec(ts, 0, k);
}

proof fn lemma_valid_sig_list_index_rec(ts: Seq<TypeSig>, j: int, k: int)
    requires
        0 <= j <= k < ts.len(),
        crate::signature::valid_sig_list(ts, j),
    ensures
        valid_sig(ts[k]),
        crate::signature::valid_sig_list(ts, k),
        crate::signature::valid_sig_list(ts, k + 1),
    decreases k - j,
{
    if j < k {
        lemma_valid_sig_list_index_rec(ts, j + 1, k);
    }
}

/// Decodes the body of a string or object path: a 4-byte-aligned
/// length-prefixed byte sequence with a trailing nul.
fn decode_string_body(buf: &[u8], off: usize) -> (r: Result<(Vec<u8>, usize), Error>)
    requires
        off <= buf@.len(),
        buf@.len() <= MAX_MESSAGE_SIZE,
    ensures
        r matches Ok(p) ==> {
            &&& off < p.1 <= buf@.len()
            &&& vstd::utf8::valid_utf8(p.0@)
            &&& crate::value::no_nul(p.0@)
            &&& p.0@.len() <= 0xFFFFFFFF
            &&& buf@.subrange(off as int, p.1 as int) == padding(off as int, 4)
                + spec_u32_to_le_bytes(p.0@.len() as u32) + p.0@ + seq![0u8]
        },
{
    let j = check_padding(buf, off, 4)?;
    let n32 = read_u32_at(buf, j)?;
    let n = n32 as usize;
    let start = j + 4;
    if n >= buf.len() - start {
        return Err(Error::UnexpectedEof);
    }
    let b = read_vec(buf, start, start + n);
    if buf[start + n] != 0 {
        return Err(Error::MissingNulTerminator);
    }
    if !has_no_nul(&b) {
        return Err(Error::MissingNulTerminator);
    }
    if !utf8_ok(b.as_slice()) {
        return Err(Error::InvalidUtf8);
    }
    proof {
        assert(buf@.subrange(off as int, start + n + 1) =~= padding(off as int, 4)
            + spec_u32_to_le_bytes(n32) + b@ + seq![0u8]);
    }
    Ok((b, start + n + 1))
}

/// Decodes the body of a signature string: a one-byte length prefix,
/// the bytes, and a trailing nul.
fn decode_sig_body(buf: &[u8], off: usize) -> (r: Result<(Vec<u8>, usize), Error>)
    requires
        off <= buf@.len(),
        buf@.len() <= MAX_MESSAGE_SIZE,
    ensures
        r matches Ok(p) ==> {
            &&& off < p.1 <= buf@.len()
            &&& crate::value::no_nul(p.0@)
            &&& p.0@.len() <= 255
            &&& p.1 == off + 2 + p.0@.len()
            &&& buf@.subrange(off as int, p.1 as int) == seq![p.0@.len() as u8] + p.0@
                + seq![0u8]
        },
{
    if off >= buf.len() {
        return Err(Error::UnexpectedEof);
    }
    let n = buf[off] as usize;
    let start = off + 1;
    if n >= buf.len() - start {
        return Err(Error::UnexpectedEof);
    }
    let b = read_vec(buf, start, start + n);
    if buf[start + n] != 0 {
        return Err(Error::MissingNulTerminator);
    }
    if !has_no_nul(&b) {
        return Err(Error::MissingNulTerminator);
    }
    proof {
        assert(buf@.subrange(off as int, start + n + 1) =~= seq![b@.len() as u8] + b@
            + seq![0u8]);
    }
    Ok((b, start + n + 1))
}

} // verus!
