pub mod signature;
pub mod value;
pub mod codec;
pub mod message;
pub mod connection;
pub mod file_path;
pub mod dict;

pub use signature::TypeSig;
pub use value::{Value, Variant, ValSpec};
pub use message::{Message, MsgSpec};
pub use connection::{ConnectionState, Step};
pub use file_path::FilePath;
pub use dict::Dict;

use vstd::prelude::*;

verus! {

/// Everything that can go wrong while building a value or while
/// encoding or decoding a single message.  Each of these conditions
/// rejects only the value or message at hand; none of them invalidates
/// a connection.
#[derive(Clone, Copy, PartialEq, Eq, Structural, Debug)]
pub enum Error {
    /// A signature string does not parse: unknown type code, unterminated
    /// container, empty struct, or a non-basic dict-entry key.
    MalformedSignature,
    /// A value was requested as a type whose signature differs from the
    /// signature it was stored with.
    SignatureMismatch,
    /// A container (variant, array, struct, dict entry) would be nested
    /// deeper than the protocol's limit of 64.
    NestingTooDeep,
    /// An array was built from elements whose signatures differ.
    HeterogeneousArray,
    /// The byte buffer ends before the field that was declared.
    UnexpectedEof,
    /// String bytes are not valid UTF-8.
    InvalidUtf8,
    /// The nul byte after a string is absent, or a nul byte stands
    /// inside the string.
    MissingNulTerminator,
    /// The body's actual signature differs from the signature the header
    /// declares or the caller expects.
    SignatureBodyMismatch,
    /// The header declares a body longer than the protocol's maximum
    /// message size.
    MessageTooLarge,
    /// A padding byte before an aligned value is not zero.
    InvalidPadding,
    /// The message declares big-endian byte order, which this library
    /// does not decode.
    UnsupportedEndianness,
    /// A boolean field holds a value other than 0 or 1.
    InvalidBool,
    /// The message declares a protocol version other than 1.
    UnsupportedProtocolVersion,
}

/// Number of zero bytes needed to advance offset `off` to a multiple
/// of `a`.
pub open spec fn pad_len(off: int, a: int) -> int {
    if off % a == 0 {
        0
    } else {
        a - (off % a)
    }
}

/// The zero bytes that pad offset `off` up to alignment `a`.
pub open spec fn padding(off: int, a: int) -> Seq<u8> {
    Seq::new(pad_len(off, a) as nat, |i: int| 0u8)
}

/// Smallest multiple of `align` that is at least `pos`.
///
/// D-Bus values must start at an offset that is a multiple of their
/// type's alignment; this computes that offset.
pub fn align_up(pos: usize, align: usize) -> (r: usize)
    requires
        1 <= align <= 8,
        pos + align <= usize::MAX,
    ensures
        r >= pos,
        r % align == 0,
        r - pos < align,
        r == pos + pad_len(pos as int, align as int),
{
    let rem: usize = pos % align;
    if rem == 0 {
        pos
    } else {
        proof {
            vstd::arithmetic::div_mod::lemma_fundamental_div_mod(pos as int, align as int);
            let q = pos as int / align as int;
            assert((q + 1) * align == q * align + align) by (nonlinear_arith);
            vstd::arithmetic::div_mod::lemma_mod_multiples_basic(q + 1, align as int);
        }
        pos + (align - rem)
    }
}

/// The alignment law of the wire format: a value whose type requires
/// alignment `a`, written at offset `off`, starts after its padding at
/// the smallest offset at or after `off` that is a multiple of `a`.
/// Consecutive body values are encoded back to back, each beginning at
/// the end of the one before it, so the second value's content starts
/// at exactly this offset.
pub proof fn lemma_padding_alignment(off: int, a: int)
    requires
        0 <= off,
        1 <= a <= 8,
    ensures
        (off + padding(off, a).len()) % a == 0,
        forall|o: int| off <= o < off + padding(off, a).len() ==> #[trigger] (o % a) != 0,
{
    vstd::arithmetic::div_mod::lemma_fundamental_div_mod(off, a);
    let q = off / a;
    let ra = off % a;
    if ra == 0 {
        assert(padding(off, a).len() == 0);
    } else {
        assert(padding(off, a).len() == a - ra);
        assert((q + 1) * a == q * a + a) by (nonlinear_arith);
        vstd::arithmetic::div_mod::lemma_mod_multiples_basic(q + 1, a);
        assert forall|o: int| off <= o < off + padding(off, a).len() implies #[trigger] (o
            % a) != 0 by {
            let x = ra + (o - off);
            assert(o == a * q + x);
            vstd::arithmetic::div_mod::lemma_mod_multiples_vanish(q, x, a);
            vstd::arithmetic::div_mod::lemma_small_mod(x as nat, a as nat);
        }
    }
}

} // verus!
