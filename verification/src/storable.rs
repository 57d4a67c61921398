//! The capability bounds on key and value types.
//!
//! A stored type must carry a total order (for the sorted multimap and the
//! merge), must be duplicable, and must round-trip through the external
//! record codec.  The original bound "comparable, cloneable, serializable"
//! is modelled by the two traits `Ordered` and `Codec`; `KeyType` and
//! `ValueType` name their combination.

use vstd::prelude::*;
use crate::codec;
use crate::codec::{chars_le, enc_i32, enc_prefix, enc_str, enc_u8};

verus! {

/// Result of a three-way comparison.
#[derive(Clone, Copy, Debug, PartialEq, Eq, Structural)]
pub enum Cmp {
    Less,
    Equal,
    Greater,
}

/// A type with a total order that executable code can evaluate.
///
/// `le` is the specification-level order.  The two lemmas make it a total
/// preorder; `compare` decides it.  Antisymmetry is deliberately not
/// required: two values may compare `Equal` without being provably the same
/// value (`String` is such a type), so all contracts downstream speak of
/// the equivalence `le` both ways rather than of equality.
pub trait Ordered: Sized {
    /// The total order on this type.
    spec fn le(self, other: Self) -> bool;

    /// The order is total (hence also reflexive).
    proof fn lemma_le_total(a: Self, b: Self)
        ensures
            a.le(b) || b.le(a),
    ;

    /// The order is transitive.
    proof fn lemma_le_trans(a: Self, b: Self, c: Self)
        requires
            a.le(b),
            b.le(c),
        ensures
            a.le(c),
    ;

    /// Three-way comparison deciding `le`.
    fn compare(&self, other: &Self) -> (c: Cmp)
        ensures
            c == Cmp::Less ==> self.le(*other) && !other.le(*self),
            c == Cmp::Equal ==> self.le(*other) && other.le(*self),
            c == Cmp::Greater ==> other.le(*self) && !self.le(*other),
    ;

    /// An owned copy of the value.
    fn dup(&self) -> (r: Self)
        ensures
            r == *self,
    ;
}

/// A type the external record codec can store in a byte slot.
///
/// `enc` names the codec's encoding of a value; nothing further is assumed
/// about the bytes themselves.  The encoding is self-delimiting, so
/// `from_bytes` recovers the value from any buffer that starts with its
/// encoding, whatever follows it — the rest of a record's slot, or the
/// slot's zero padding.
pub trait Codec: Sized {
    /// The codec's encoding of this value.
    spec fn enc(self) -> Seq<u8>;

    /// Encode the value.
    fn to_bytes(&self) -> (r: Vec<u8>)
        ensures
            r@ == self.enc(),
    ;

    /// Decode one value off the front of a buffer.
    fn from_bytes(b: &[u8]) -> (r: Option<Self>)
        ensures
            forall|x: Self| enc_prefix(x.enc(), b@) ==> r == Some(x),
    ;
}

/// What a key type must support.
pub trait KeyType: Ordered + Codec {
}

/// What a value type must support.
pub trait ValueType: Ordered + Codec {
}

impl<T: Ordered + Codec> KeyType for T {
}

impl<T: Ordered + Codec> ValueType for T {
}

impl Ordered for u8 {
    open spec fn le(self, other: u8) -> bool {
        self <= other
    }

    proof fn lemma_le_total(a: u8, b: u8) {
    }

    proof fn lemma_le_trans(a: u8, b: u8, c: u8) {
    }

    fn compare(&self, other: &u8) -> (c: Cmp) {
        if *self < *other {
            Cmp::Less
        } else if *self == *other {
            Cmp::Equal
        } else {
            Cmp::Greater
        }
    }

    fn dup(&self) -> (r: u8) {
        *self
    }
}

impl Codec for u8 {
    open spec fn enc(self) -> Seq<u8> {
        enc_u8(self)
    }

    fn to_bytes(&self) -> (r: Vec<u8>) {
        codec::encode_u8(*self)
    }

    fn from_bytes(b: &[u8]) -> (r: Option<u8>) {
        codec::decode_u8(b)
    }
}

impl Ordered for i32 {
    open spec fn le(self, other: i32) -> bool {
        self <= other
    }

    proof fn lemma_le_total(a: i32, b: i32) {
    }

    proof fn lemma_le_trans(a: i32, b: i32, c: i32) {
    }

    fn compare(&self, other: &i32) -> (c: Cmp) {
        if *self < *other {
            Cmp::Less
        } else if *self == *other {
            Cmp::Equal
        } else {
            Cmp::Greater
        }
    }

    fn dup(&self) -> (r: i32) {
        *self
    }
}

impl Codec for i32 {
    open spec fn enc(self) -> Seq<u8> {
        enc_i32(self)
    }

    fn to_bytes(&self) -> (r: Vec<u8>) {
        codec::encode_i32(*self)
    }

    fn from_bytes(b: &[u8]) -> (r: Option<i32>) {
        codec::decode_i32(b)
    }
}

/// Distinct characters have distinct code points.
proof fn lemma_char_distinct(a: char, b: char)
    requires
        a != b,
    ensures
        (a as u32) != (b as u32),
{
    if (a as u32) == (b as u32) {
        vstd::utf8::char_u32_cast(a, a as u32);
        vstd::utf8::char_u32_cast(b, b as u32);
    }
}

/// The lexicographic order on character sequences is total.
pub proof fn lemma_chars_le_total(a: Seq<char>, b: Seq<char>)
    ensures
        chars_le(a, b) || chars_le(b, a),
    decreases a.len(),
{
    if a.len() == 0 {
    } else if b.len() == 0 {
    } else if a[0] == b[0] {
        lemma_chars_le_total(a.drop_first(), b.drop_first());
    } else {
        lemma_char_distinct(a[0], b[0]);
    }
}

/// The lexicographic order on character sequences is transitive.
pub proof fn lemma_chars_le_trans(a: Seq<char>, b: Seq<char>, c: Seq<char>)
    requires
        chars_le(a, b),
        chars_le(b, c),
    ensures
        chars_le(a, c),
    decreases a.len(),
{
    if a.len() == 0 {
    } else if b.len() == 0 {
        assert(false);
    } else if c.len() == 0 {
        assert(false);
    } else if a[0] == b[0] && b[0] == c[0] {
        lemma_chars_le_trans(a.drop_first(), b.drop_first(), c.drop_first());
    } else {
        if a[0] != b[0] {
            lemma_char_distinct(a[0], b[0]);
        }
        if b[0] != c[0] {
            lemma_char_distinct(b[0], c[0]);
        }
        if a[0] != c[0] {
            lemma_char_distinct(a[0], c[0]);
        }
    }
}

impl Ordered for String {
    open spec fn le(self, other: String) -> bool {
        chars_le(self@, other@)
    }

    proof fn lemma_le_total(a: String, b: String) {
        lemma_chars_le_total(a@, b@);
    }

    proof fn lemma_le_trans(a: String, b: String, c: String) {
        lemma_chars_le_trans(a@, b@, c@);
    }

    fn compare(&self, other: &String) -> (c: Cmp) {
        if codec::str_le(self, other) {
            if codec::str_le(other, self) {
                Cmp::Equal
            } else {
                Cmp::Less
            }
        } else {
            proof {
                lemma_chars_le_total(self@, other@);
            }
            Cmp::Greater
        }
    }

    fn dup(&self) -> (r: String) {
        self.clone()
    }
}

impl Codec for String {
    open spec fn enc(self) -> Seq<u8> {
        enc_str(self)
    }

    fn to_bytes(&self) -> (r: Vec<u8>) {
        codec::encode_str(self)
    }

    fn from_bytes(b: &[u8]) -> (r: Option<String>) {
        codec::decode_str(b)
    }
}

} // verus!
