//! Trusted bindings to the outside record codec (bincode with the
//! rustc_serialize front end) and to std's string ordering.
//!
//! The codec is an external collaborator: it turns a key or value into a
//! short byte string and back.  Its exact output is not restated here; each
//! encoding is only given a name (`enc_u8`, `enc_i32`, `enc_str`), and the
//! decoders are trusted to read one encoding off the front of a buffer,
//! ignoring what follows it.  Everything built on top of these bindings is
//! verified against those contracts alone.

use vstd::prelude::*;

verus! {

/// `e` is a prefix of `b`.
///
/// The codec's encodings are self-delimiting, so its decoders read exactly
/// one encoding off the front of a buffer and ignore whatever follows —
/// the rest of the record's slot, or its zero padding.
pub open spec fn enc_prefix(e: Seq<u8>, b: Seq<u8>) -> bool {
    &&& e.len() <= b.len()
    &&& b.take(e.len() as int) == e
}

/// `b` is `e` followed by zero bytes only: the padded form a record slot
/// stores.
pub open spec fn zero_padded(e: Seq<u8>, b: Seq<u8>) -> bool {
    &&& enc_prefix(e, b)
    &&& forall|i: int| e.len() <= i < b.len() ==> b[i] == 0u8
}

/// Lexicographic order on character sequences, by code point.
pub open spec fn chars_le(a: Seq<char>, b: Seq<char>) -> bool
    decreases a.len(),
{
    if a.len() == 0 {
        true
    } else if b.len() == 0 {
        false
    } else if a[0] == b[0] {
        chars_le(a.drop_first(), b.drop_first())
    } else {
        (a[0] as u32) < (b[0] as u32)
    }
}

/// The codec's encoding of a `u8`.
pub uninterp spec fn enc_u8(x: u8) -> Seq<u8>;

/// The codec's encoding of an `i32`.
pub uninterp spec fn enc_i32(x: i32) -> Seq<u8>;

/// The codec's encoding of a `String`.
pub uninterp spec fn enc_str(x: String) -> Seq<u8>;

/// Relies on `bincode::rustc_serialize::encode`: the encoding is a function
/// of the value alone, and encoding into a growable buffer with no size
/// limit cannot fail.
#[verifier::external_body]
pub(crate) fn encode_u8(x: u8) -> (r: Vec<u8>)
    ensures
        r@ == enc_u8(x),
{
    bincode::rustc_serialize::encode(&x, bincode::SizeLimit::Infinite).unwrap()
}

/// Relies on `bincode::rustc_serialize::decode`: decoding reads one
/// encoding off the front of the buffer and ignores what follows, so any
/// buffer that starts with a value's encoding decodes to that value.
#[verifier::external_body]
pub(crate) fn decode_u8(b: &[u8]) -> (r: Option<u8>)
    ensures
        forall|x: u8| enc_prefix(enc_u8(x), b@) ==> r == Some(x),
{
    bincode::rustc_serialize::decode(b).ok()
}

/// Relies on `bincode::rustc_serialize::encode`, as `encode_u8` does.
#[verifier::external_body]
pub(crate) fn encode_i32(x: i32) -> (r: Vec<u8>)
    ensures
        r@ == enc_i32(x),
{
    bincode::rustc_serialize::encode(&x, bincode::SizeLimit::Infinite).unwrap()
}

/// Relies on `bincode::rustc_serialize::decode`, as `decode_u8` does.
#[verifier::external_body]
pub(crate) fn decode_i32(b: &[u8]) -> (r: Option<i32>)
    ensures
        forall|x: i32| enc_prefix(enc_i32(x), b@) ==> r == Some(x),
{
    bincode::rustc_serialize::decode(b).ok()
}

/// Relies on `bincode::rustc_serialize::encode`, as `encode_u8` does.
#[verifier::external_body]
pub(crate) fn encode_str(x: &String) -> (r: Vec<u8>)
    ensures
        r@ == enc_str(*x),
{
    bincode::rustc_serialize::encode(x, bincode::SizeLimit::Infinite).unwrap()
}

/// Relies on `bincode::rustc_serialize::decode`, as `decode_u8` does: a
/// string is stored as its length followed by its bytes, so the decoder
/// stops at the end of the encoding and recovers the encoded string.
#[verifier::external_body]
pub(crate) fn decode_str(b: &[u8]) -> (r: Option<String>)
    ensures
        forall|x: String| enc_prefix(enc_str(x), b@) ==> r == Some(x),
{
    bincode::rustc_serialize::decode(b).ok()
}

/// Relies on `str`'s `<=` (its `PartialOrd`): strings compare
/// lexicographically by byte value, which for UTF-8 text is the same as
/// comparing by character code point.
#[verifier::external_body]
pub(crate) fn str_le(a: &String, b: &String) -> (r: bool)
    ensures
        r == chars_le(a@, b@),
{
    a <= b
}

} // verus!
