//! The record log: a flat sequence of fixed-width byte slots, each holding
//! one encoded key-value pair, zero-padded to the slot width.
//!
//! The same mechanism serves as the write-ahead log (records in arrival
//! order) and as the on-disk sorted store (records in ascending order).  A
//! `RecordFile` holds the byte image of the file together with the decoded
//! records; well-formedness ties the two together, so the byte image that
//! the caller persists always re-opens to the same records.

use vstd::prelude::*;
use vstd::arithmetic::div_mod::{
    lemma_fundamental_div_mod, lemma_fundamental_div_mod_converse,
};
use crate::codec::{enc_prefix, zero_padded};
use crate::sorted::{eqv, lemma_eqv_lt_trans, lemma_eqv_trans, lemma_lt_eqv_trans, lemma_lt_trans};
use crate::storable::{Cmp, Codec, KeyType, Ordered, ValueType};

verus! {

/// An ordered pair of one key and one value: the unit of storage, log
/// record, and merge-stream element.
pub struct KeyValuePair<K: KeyType, V: ValueType> {
    pub key: K,
    pub value: V,
}

/// Pairs order lexicographically: by key first, and by value between pairs
/// whose keys are equivalent.
impl<K: KeyType, V: ValueType> Ordered for KeyValuePair<K, V> {
    open spec fn le(self, other: Self) -> bool {
        if eqv(self.key, other.key) {
            self.value.le(other.value)
        } else {
            self.key.le(other.key)
        }
    }

    proof fn lemma_le_total(a: Self, b: Self) {
        K::lemma_le_total(a.key, b.key);
        V::lemma_le_total(a.value, b.value);
    }

    proof fn lemma_le_trans(a: Self, b: Self, c: Self) {
        if eqv(a.key, b.key) && eqv(b.key, c.key) {
            lemma_eqv_trans(a.key, b.key, c.key);
            V::lemma_le_trans(a.value, b.value, c.value);
        } else if eqv(a.key, b.key) {
            lemma_eqv_lt_trans(a.key, b.key, c.key);
        } else if eqv(b.key, c.key) {
            lemma_lt_eqv_trans(a.key, b.key, c.key);
        } else {
            lemma_lt_trans(a.key, b.key, c.key);
        }
    }

    fn compare(&self, other: &Self) -> (c: Cmp) {
        match self.key.compare(&other.key) {
            Cmp::Less => Cmp::Less,
            Cmp::Greater => Cmp::Greater,
            Cmp::Equal => self.value.compare(&other.value),
        }
    }

    fn dup(&self) -> (r: Self) {
        KeyValuePair { key: self.key.dup(), value: self.value.dup() }
    }
}

/// The error kinds the storage core can surface.
#[derive(Clone, Copy, Debug, PartialEq, Eq, Structural)]
pub enum StoreError {
    /// A record whose natural encoding exceeds the configured slot width.
    EncodingTooLarge,
    /// A file image that is not a valid record log for its slot geometry.
    BadFormat,
}

/// `n` zero bytes.
pub open spec fn zeros(n: nat) -> Seq<u8> {
    Seq::new(n, |i: int| 0u8)
}

/// An encoding padded with zeros up to width `w`.
pub open spec fn pad_to(e: Seq<u8>, w: nat) -> Seq<u8>
    recommends
        e.len() <= w,
{
    e + zeros((w - e.len()) as nat)
}

/// The pair's natural encoding fits one slot: the key's and the value's
/// encodings together take at most `kw + vw` bytes.
pub open spec fn fits<K: KeyType, V: ValueType>(p: KeyValuePair<K, V>, kw: nat, vw: nat) -> bool {
    p.key.enc().len() + p.value.enc().len() <= kw + vw
}

/// Every record of the sequence fits the configured widths.
pub open spec fn fits_all<K: KeyType, V: ValueType>(
    rs: Seq<KeyValuePair<K, V>>,
    kw: nat,
    vw: nat,
) -> bool {
    forall|i: int| 0 <= i < rs.len() ==> fits(#[trigger] rs[i], kw, vw)
}

/// The slot that stores one record: the pair's encoding — the key's
/// encoding followed by the value's — zero-padded to the slot width.
pub open spec fn slot_of<K: KeyType, V: ValueType>(
    p: KeyValuePair<K, V>,
    kw: nat,
    vw: nat,
) -> Seq<u8> {
    pad_to(p.key.enc() + p.value.enc(), kw + vw)
}

/// The byte image of a record log holding `rs`, slot by slot.
pub open spec fn log_bytes<K: KeyType, V: ValueType>(
    rs: Seq<KeyValuePair<K, V>>,
    kw: nat,
    vw: nat,
) -> Seq<u8>
    decreases rs.len(),
{
    if rs.len() == 0 {
        Seq::<u8>::empty()
    } else {
        log_bytes(rs.drop_last(), kw, vw) + slot_of(rs.last(), kw, vw)
    }
}

/// `bytes` is the exact image of some record log for this slot geometry.
pub open spec fn valid_log<K: KeyType, V: ValueType>(bytes: Seq<u8>, kw: nat, vw: nat) -> bool {
    exists|rs: Seq<KeyValuePair<K, V>>|
        bytes == log_bytes(rs, kw, vw) && fits_all(rs, kw, vw)
}

/// A padded encoding satisfies the decoder's padding predicate.
proof fn lemma_pad_zero_padded(e: Seq<u8>, w: nat)
    requires
        e.len() <= w,
    ensures
        zero_padded(e, pad_to(e, w)),
        pad_to(e, w).len() == w,
{
    assert(pad_to(e, w).take(e.len() as int) =~= e);
}

/// The image of a log is one slot width per record.
pub proof fn lemma_log_bytes_len<K: KeyType, V: ValueType>(
    rs: Seq<KeyValuePair<K, V>>,
    kw: nat,
    vw: nat,
)
    requires
        fits_all(rs, kw, vw),
    ensures
        log_bytes(rs, kw, vw).len() == rs.len() * (kw + vw),
    decreases rs.len(),
{
    if rs.len() == 0 {
    } else {
        assert(fits_all(rs.drop_last(), kw, vw)) by {
            assert forall|i: int| 0 <= i < rs.drop_last().len() implies fits(
                #[trigger] rs.drop_last()[i],
                kw,
                vw,
            ) by {
                assert(rs.drop_last()[i] == rs[i]);
            }
        }
        lemma_log_bytes_len(rs.drop_last(), kw, vw);
        assert(fits(rs.last(), kw, vw)) by {
            assert(rs.last() == rs[rs.len() - 1]);
        }
        lemma_pad_zero_padded(rs.last().key.enc() + rs.last().value.enc(), kw + vw);
        assert((rs.len() - 1) * (kw + vw) + (kw + vw) == rs.len() * (kw + vw)) by (nonlinear_arith);
    }
}

/// Appending a record appends its slot to the image.
pub proof fn lemma_log_bytes_push<K: KeyType, V: ValueType>(
    rs: Seq<KeyValuePair<K, V>>,
    p: KeyValuePair<K, V>,
    kw: nat,
    vw: nat,
)
    ensures
        log_bytes(rs.push(p), kw, vw) == log_bytes(rs, kw, vw) + slot_of(p, kw, vw),
{
    assert(rs.push(p).drop_last() =~= rs);
    assert(rs.push(p).last() == p);
}

/// The slot of record `i` sits at byte offset `i` slot widths into the
/// image.
pub proof fn lemma_log_bytes_slot<K: KeyType, V: ValueType>(
    rs: Seq<KeyValuePair<K, V>>,
    kw: nat,
    vw: nat,
    i: int,
)
    requires
        fits_all(rs, kw, vw),
        0 <= i < rs.len(),
    ensures
        log_bytes(rs, kw, vw).subrange(i * ((kw + vw) as int), (i + 1) * ((kw + vw) as int))
            == slot_of(rs[i], kw, vw),
    decreases rs.len(),
{
    let s = (kw + vw) as int;
    lemma_log_bytes_len(rs, kw, vw);
    assert(fits_all(rs.drop_last(), kw, vw)) by {
        assert forall|k: int| 0 <= k < rs.drop_last().len() implies fits(
            #[trigger] rs.drop_last()[k],
            kw,
            vw,
        ) by {
            assert(rs.drop_last()[k] == rs[k]);
        }
    }
    lemma_log_bytes_len(rs.drop_last(), kw, vw);
    assert(fits(rs.last(), kw, vw)) by {
        assert(rs.last() == rs[rs.len() - 1]);
    }
    lemma_pad_zero_padded(rs.last().key.enc() + rs.last().value.enc(), kw + vw);
    if i == rs.len() - 1 {
        assert((rs.len() - 1) * s == log_bytes(rs.drop_last(), kw, vw).len() as int) by (
        nonlinear_arith)
            requires
                log_bytes(rs.drop_last(), kw, vw).len() == rs.drop_last().len() * (kw + vw),
                rs.drop_last().len() == rs.len() - 1,
                s == kw + vw,
        ;
        assert(i * s + s == (i + 1) * s) by (nonlinear_arith);
        assert(log_bytes(rs, kw, vw).subrange(i * s, (i + 1) * s) =~= slot_of(
            rs[i],
            kw,
            vw,
        ));
    } else {
        lemma_log_bytes_slot(rs.drop_last(), kw, vw, i);
        assert(rs.drop_last()[i] == rs[i]);
        assert(0 <= i * s && i * s <= (i + 1) * s && (i + 1) * s <= (rs.len() - 1) * s) by (
        nonlinear_arith)
            requires
                0 <= i,
                i + 1 <= rs.len() - 1,
                s >= 0,
        ;
        assert(log_bytes(rs.drop_last(), kw, vw).len() as int == (rs.len() - 1) * s) by (
        nonlinear_arith)
            requires
                log_bytes(rs.drop_last(), kw, vw).len() == rs.drop_last().len() * (kw + vw),
                rs.drop_last().len() == rs.len() - 1,
                s == kw + vw,
        ;
        assert(log_bytes(rs, kw, vw).subrange(i * s, (i + 1) * s) =~= log_bytes(
            rs.drop_last(),
            kw,
            vw,
        ).subrange(i * s, (i + 1) * s));
    }
}

/// The record log abstraction: a byte image made of fixed-width slots, and
/// the records it stores.
pub struct RecordFile<K: KeyType, V: ValueType> {
    /// The byte image of the file, exactly as it sits on disk.
    pub data: Vec<u8>,
    /// The records the image encodes, in file order.
    pub records: Vec<KeyValuePair<K, V>>,
    /// Width of a key's slot share, in bytes.
    pub key_size: usize,
    /// Width of a value's slot share, in bytes.
    pub value_size: usize,
}

impl<K: KeyType, V: ValueType> View for RecordFile<K, V> {
    type V = Seq<KeyValuePair<K, V>>;

    open spec fn view(&self) -> Seq<KeyValuePair<K, V>> {
        self.records@
    }
}

impl<K: KeyType, V: ValueType> RecordFile<K, V> {
    /// The byte image and the records agree, and the geometry is sane.
    pub open spec fn wf(self) -> bool {
        &&& 0 < self.key_size
        &&& 0 < self.value_size
        &&& self.key_size + self.value_size <= usize::MAX
        &&& fits_all(self.records@, self.key_size as nat, self.value_size as nat)
        &&& self.data@ == log_bytes(self.records@, self.key_size as nat, self.value_size as nat)
    }

    /// One whole slot, in bytes.
    pub open spec fn spec_slot_size(self) -> nat {
        self.key_size as nat + self.value_size as nat
    }

    /// A fresh, empty record log with the given slot geometry.
    pub fn new(key_size: usize, value_size: usize) -> (r: Self)
        requires
            0 < key_size,
            0 < value_size,
            key_size + value_size <= usize::MAX,
        ensures
            r.wf(),
            r@ == Seq::<KeyValuePair<K, V>>::empty(),
            r.data@ == Seq::<u8>::empty(),
            r.key_size == key_size,
            r.value_size == value_size,
    {
        RecordFile { data: Vec::new(), records: Vec::new(), key_size, value_size }
    }

    /// Whether the log holds no records yet.
    pub fn is_new(&self) -> (r: Result<bool, StoreError>)
        requires
            self.wf(),
        ensures
            r == Ok::<bool, StoreError>(self@.len() == 0),
    {
        proof {
            lemma_log_bytes_len(self.records@, self.key_size as nat, self.value_size as nat);
            assert(self.records@.len() * (self.key_size + self.value_size) == 0 <==> self.records@.len() == 0)
                by (nonlinear_arith)
                requires
                    self.key_size + self.value_size > 0,
            ;
        }
        Ok(self.data.len() == 0)
    }

    /// The number of records, derived from the byte length; a length that
    /// is not a whole number of slots is a format error.
    pub fn count(&self) -> (r: Result<u64, StoreError>)
        requires
            self.wf(),
        ensures
            r == Ok::<u64, StoreError>(self@.len() as u64),
    {
        let slot = self.key_size + self.value_size;
        proof {
            lemma_log_bytes_len(self.records@, self.key_size as nat, self.value_size as nat);
            lemma_fundamental_div_mod_converse(
                self.data@.len() as int,
                slot as int,
                self.records@.len() as int,
                0,
            );
        }
        if self.data.len() % slot != 0 {
            return Err(StoreError::BadFormat);
        }
        Ok((self.data.len() / slot) as u64)
    }

    /// Append one record: encode it, fail if the pair's natural encoding
    /// exceeds the slot width, otherwise extend the image by exactly one
    /// zero-padded slot.  On failure nothing changes.
    pub fn insert_record(&mut self, kv: &KeyValuePair<K, V>) -> (r: Result<(), StoreError>)
        requires
            old(self).wf(),
        ensures
            final(self).wf(),
            final(self).key_size == old(self).key_size,
            final(self).value_size == old(self).value_size,
            match r {
                Ok(()) => {
                    &&& fits(*kv, old(self).key_size as nat, old(self).value_size as nat)
                    &&& final(self)@ == old(self)@.push(*kv)
                    &&& final(self).data@ == old(self).data@ + slot_of(
                        *kv,
                        old(self).key_size as nat,
                        old(self).value_size as nat,
                    )
                },
                Err(e) => {
                    &&& e == StoreError::EncodingTooLarge
                    &&& !fits(*kv, old(self).key_size as nat, old(self).value_size as nat)
                    &&& *final(self) == *old(self)
                },
            },
    {
        let kb = kv.key.to_bytes();
        let vb = kv.value.to_bytes();
        let slot = self.key_size + self.value_size;
        if kb.len() > slot || vb.len() > slot - kb.len() {
            return Err(StoreError::EncodingTooLarge);
        }
        let ghost old_data = self.data@;
        let rest = slot - kb.len();
        push_bytes(&mut self.data, &kb);
        push_padded(&mut self.data, &vb, rest);
        self.records.push(kv.dup());
        proof {
            let kw = self.key_size as nat;
            let vw = self.value_size as nat;
            assert(self.data@ =~= old_data + slot_of(*kv, kw, vw));
            lemma_log_bytes_push(old(self).records@, *kv, kw, vw);
            assert(fits_all(self.records@, kw, vw)) by {
                assert forall|i: int| 0 <= i < self.records@.len() implies fits(
                    #[trigger] self.records@[i],
                    kw,
                    vw,
                ) by {
                    if i < self.records@.len() - 1 {
                        assert(self.records@[i] == old(self).records@[i]);
                    }
                }
            }
        }
        Ok(())
    }
}

/// How slot `i` of a log image reads back as record `i`: the slot starts
/// with the key's encoding, what follows it starts with the value's
/// encoding, and only zeros come after.
proof fn lemma_parse_slot<K: KeyType, V: ValueType>(
    data: Seq<u8>,
    rs: Seq<KeyValuePair<K, V>>,
    kw: nat,
    vw: nat,
    i: int,
)
    requires
        data == log_bytes(rs, kw, vw),
        fits_all(rs, kw, vw),
        0 <= i < rs.len(),
    ensures
        ({
            let s = (kw + vw) as int;
            let slot = data.subrange(i * s, (i + 1) * s);
            let ke = rs[i].key.enc();
            let ve = rs[i].value.enc();
            &&& slot == slot_of(rs[i], kw, vw)
            &&& slot.len() == kw + vw
            &&& zero_padded(ke + ve, slot)
            &&& enc_prefix(ke, slot)
            &&& slot.skip(ke.len() as int) == pad_to(ve, ((kw + vw) - ke.len()) as nat)
            &&& enc_prefix(ve, slot.skip(ke.len() as int))
        }),
{
    let s = (kw + vw) as int;
    lemma_log_bytes_slot(rs, kw, vw, i);
    lemma_log_bytes_len(rs, kw, vw);
    let ke = rs[i].key.enc();
    let ve = rs[i].value.enc();
    assert(fits(rs[i], kw, vw));
    lemma_pad_zero_padded(ke + ve, kw + vw);
    assert(0 <= i * s && i * s + s == (i + 1) * s && (i + 1) * s <= rs.len() * s) by (
    nonlinear_arith)
        requires
            0 <= i,
            i + 1 <= rs.len(),
            s >= 0,
    ;
    assert(data.len() as int == rs.len() * s) by (nonlinear_arith)
        requires
            data.len() == rs.len() * (kw + vw),
            s == kw + vw,
    ;
    let slot = data.subrange(i * s, (i + 1) * s);
    assert(slot == slot_of(rs[i], kw, vw));
    assert(slot.take(ke.len() as int) =~= ke);
    assert(slot.skip(ke.len() as int) =~= pad_to(ve, ((kw + vw) - ke.len()) as nat));
    lemma_pad_zero_padded(ve, ((kw + vw) - ke.len()) as nat);
}

/// Copy `len` bytes of `data` starting at `start`.
fn sub_bytes(data: &Vec<u8>, start: usize, len: usize) -> (r: Vec<u8>)
    requires
        start + len <= data@.len(),
    ensures
        r@ == data@.subrange(start as int, start as int + len as int),
{
    let mut r: Vec<u8> = Vec::new();
    proof {
        vstd::std_specs::vec::axiom_spec_len(data);
        assert(r@ =~= data@.subrange(start as int, start as int));
    }
    let mut i: usize = 0;
    while i < len
        invariant
            i <= len,
            start + len <= data@.len(),
            data@.len() <= usize::MAX,
            r@ == data@.subrange(start as int, start as int + i as int),
        decreases len - i,
    {
        r.push(data[start + i]);
        proof {
            assert(r@ =~= data@.subrange(start as int, start as int + (i + 1) as int));
        }
        i = i + 1;
    }
    r
}

/// Whether `b` is exactly `e` followed by zeros.
fn check_padded(b: &Vec<u8>, e: &Vec<u8>) -> (r: bool)
    ensures
        r == zero_padded(e@, b@),
{
    if e.len() > b.len() {
        return false;
    }
    let mut i: usize = 0;
    while i < b.len()
        invariant
            i <= b@.len(),
            e@.len() <= b@.len(),
            forall|k: int|
                0 <= k < i ==> #[trigger] b@[k] == (if k < e@.len() {
                    e@[k]
                } else {
                    0u8
                }),
        decreases b.len() - i,
    {
        let expected: u8 = if i < e.len() {
            e[i]
        } else {
            0u8
        };
        if b[i] != expected {
            proof {
                if zero_padded(e@, b@) {
                    if (i as int) < e@.len() {
                        assert(b@.take(e@.len() as int)[i as int] == b@[i as int]);
                    }
                }
            }
            return false;
        }
        i = i + 1;
    }
    proof {
        assert(b@.take(e@.len() as int) =~= e@);
    }
    true
}

impl<K: KeyType, V: ValueType> RecordFile<K, V> {
    /// Open a record log from the byte image of its file.
    ///
    /// The image is accepted exactly when it is a whole number of slots,
    /// each the zero-padded encoding of one record; anything else is a
    /// format error, never silently repaired.  On success the records are
    /// the unique ones the image encodes, so reopening the bytes a
    /// well-formed log wrote always yields that log's records back.
    pub fn open(data: Vec<u8>, key_size: usize, value_size: usize) -> (r: Result<
        Self,
        StoreError,
    >)
        requires
            0 < key_size,
            0 < value_size,
            key_size + value_size <= usize::MAX,
        ensures
            match r {
                Ok(rf) => {
                    &&& rf.wf()
                    &&& rf.key_size == key_size
                    &&& rf.value_size == value_size
                    &&& rf.data@ == data@
                    &&& valid_log::<K, V>(data@, key_size as nat, value_size as nat)
                    &&& (forall|rs: Seq<KeyValuePair<K, V>>|
                        #![trigger log_bytes(rs, key_size as nat, value_size as nat)]
                        (data@ == log_bytes(rs, key_size as nat, value_size as nat) && fits_all(
                            rs,
                            key_size as nat,
                            value_size as nat,
                        )) ==> rf@ == rs)
                },
                Err(e) => {
                    &&& e == StoreError::BadFormat
                    &&& !valid_log::<K, V>(data@, key_size as nat, value_size as nat)
                },
            },
            (data@.len() as int) % ((key_size + value_size) as int) != 0 ==> r is Err,
    {
        let ghost kw = key_size as nat;
        let ghost vw = value_size as nat;
        let slot = key_size + value_size;
        if data.len() % slot != 0 {
            proof {
                if valid_log::<K, V>(data@, kw, vw) {
                    let rs = choose|rs: Seq<KeyValuePair<K, V>>|
                        data@ == log_bytes(rs, kw, vw) && fits_all(rs, kw, vw);
                    lemma_log_bytes_len(rs, kw, vw);
                    lemma_fundamental_div_mod_converse(
                        data@.len() as int,
                        slot as int,
                        rs.len() as int,
                        0,
                    );
                }
            }
            return Err(StoreError::BadFormat);
        }
        let n = data.len() / slot;
        proof {
            lemma_fundamental_div_mod(data@.len() as int, slot as int);
            assert(data@.len() as int == (n as int) * (slot as int)) by (nonlinear_arith)
                requires
                    data@.len() as int == (slot as int) * (n as int),
            ;
        }
        let mut records: Vec<KeyValuePair<K, V>> = Vec::new();
        proof {
            assert(log_bytes(records@, kw, vw) =~= data@.take(0));
            assert forall|rs: Seq<KeyValuePair<K, V>>|
                #![trigger log_bytes(rs, kw, vw)]
                (data@ == log_bytes(rs, kw, vw) && fits_all(rs, kw, vw)) implies (rs.len() == n
                && rs.take(0) == records@) by {
                lemma_log_bytes_len(rs, kw, vw);
                assert(rs.len() == n) by (nonlinear_arith)
                    requires
                        rs.len() * (slot as int) == (n as int) * (slot as int),
                        slot > 0,
                ;
                assert(rs.take(0) =~= records@);
            }
        }
        proof {
            vstd::std_specs::vec::axiom_spec_len(&data);
        }
        let mut i: usize = 0;
        while i < n
            invariant
                i <= n,
                0 < key_size,
                0 < value_size,
                key_size + value_size <= usize::MAX,
                slot == key_size + value_size,
                kw == key_size as nat,
                vw == value_size as nat,
                data@.len() <= usize::MAX,
                data@.len() as int == (n as int) * (slot as int),
                records@.len() == i,
                fits_all(records@, kw, vw),
                log_bytes(records@, kw, vw) == data@.take((i as int) * (slot as int)),
                forall|rs: Seq<KeyValuePair<K, V>>|
                    #![trigger log_bytes(rs, kw, vw)]
                    (data@ == log_bytes(rs, kw, vw) && fits_all(rs, kw, vw)) ==> (rs.len() == n
                        && rs.take(i as int) == records@),
            decreases n - i,
        {
            proof {
                assert(0 <= (i as int) * (slot as int) && (i as int) * (slot as int) + slot as int
                    == ((i + 1) as int) * (slot as int) && ((i + 1) as int) * (slot as int) <= (
                n as int) * (slot as int)) by (nonlinear_arith)
                    requires
                        0 <= i,
                        i + 1 <= n,
                        slot >= 0,
                ;
            }
            let base = i * slot;
            let sb = sub_bytes(&data, base, slot);
            let dk_opt = K::from_bytes(sb.as_slice());
            let ghost gdk_opt = dk_opt;
            let dk = match dk_opt {
                Some(k) => k,
                None => {
                    proof {
                        if valid_log::<K, V>(data@, kw, vw) {
                            let rs = choose|rs: Seq<KeyValuePair<K, V>>|
                                data@ == log_bytes(rs, kw, vw) && fits_all(rs, kw, vw);
                            lemma_parse_slot(data@, rs, kw, vw, i as int);
                        }
                    }
                    return Err(StoreError::BadFormat);
                },
            };
            let kb = dk.to_bytes();
            let ghost gkb = kb@;
            if kb.len() > slot {
                proof {
                    if valid_log::<K, V>(data@, kw, vw) {
                        let rs = choose|rs: Seq<KeyValuePair<K, V>>|
                            data@ == log_bytes(rs, kw, vw) && fits_all(rs, kw, vw);
                        lemma_parse_slot(data@, rs, kw, vw, i as int);
                        assert(dk == rs[i as int].key);
                        assert(fits(rs[i as int], kw, vw));
                    }
                }
                return Err(StoreError::BadFormat);
            }
            let rest = sub_bytes(&sb, kb.len(), slot - kb.len());
            let dv_opt = V::from_bytes(rest.as_slice());
            let ghost gdv_opt = dv_opt;
            let dv = match dv_opt {
                Some(v) => v,
                None => {
                    proof {
                        if valid_log::<K, V>(data@, kw, vw) {
                            let rs = choose|rs: Seq<KeyValuePair<K, V>>|
                                data@ == log_bytes(rs, kw, vw) && fits_all(rs, kw, vw);
                            lemma_parse_slot(data@, rs, kw, vw, i as int);
                            assert(dk == rs[i as int].key);
                            assert(gkb == rs[i as int].key.enc());
                            assert(rest@ =~= sb@.skip(gkb.len() as int));
                        }
                    }
                    return Err(StoreError::BadFormat);
                },
            };
            let vb = dv.to_bytes();
            let ghost gvb = vb@;
            let mut kvb = kb;
            let mut vtail = vb;
            kvb.append(&mut vtail);
            proof {
                assert(kvb@ == gkb + gvb);
            }
            let slot_ok = check_padded(&sb, &kvb);
            if !slot_ok {
                proof {
                    if valid_log::<K, V>(data@, kw, vw) {
                        let rs = choose|rs: Seq<KeyValuePair<K, V>>|
                            data@ == log_bytes(rs, kw, vw) && fits_all(rs, kw, vw);
                        lemma_parse_slot(data@, rs, kw, vw, i as int);
                        assert(dk == rs[i as int].key);
                        assert(gkb == rs[i as int].key.enc());
                        assert(rest@ =~= sb@.skip(gkb.len() as int));
                        assert(dv == rs[i as int].value);
                        assert(kvb@ == rs[i as int].key.enc() + rs[i as int].value.enc());
                    }
                }
                return Err(StoreError::BadFormat);
            }
            let pair = KeyValuePair { key: dk, value: dv };
            proof {
                // The check passed, so the slot is exactly the pair's
                // zero-padded encoding.
                assert(kvb@ == pair.key.enc() + pair.value.enc());
                assert(sb@ =~= pad_to(pair.key.enc() + pair.value.enc(), (kw + vw) as nat));
                assert(data@.subrange(base as int, base as int + slot as int) == sb@);
                assert(data@.subrange(base as int, base as int + slot as int) == slot_of(
                    pair,
                    kw,
                    vw,
                ));
                assert(fits(pair, kw, vw));
            }
            let ghost prev = records@;
            records.push(pair);
            proof {
                assert(fits_all(records@, kw, vw)) by {
                    assert forall|k: int| 0 <= k < records@.len() implies fits(
                        #[trigger] records@[k],
                        kw,
                        vw,
                    ) by {
                        if k < records@.len() - 1 {
                            assert(records@[k] == prev[k]);
                        }
                    }
                }
                lemma_log_bytes_push(prev, pair, kw, vw);
                assert(log_bytes(records@, kw, vw) =~= data@.take(((i + 1) as int) * (
                slot as int)));
                assert forall|rs: Seq<KeyValuePair<K, V>>|
                    #![trigger log_bytes(rs, kw, vw)]
                    (data@ == log_bytes(rs, kw, vw) && fits_all(rs, kw, vw)) implies (rs.len()
                    == n && rs.take((i + 1) as int) == records@) by {
                    assert(rs.len() == n && rs.take(i as int) == prev);
                    lemma_parse_slot(data@, rs, kw, vw, i as int);
                    assert(gdk_opt == Some(rs[i as int].key));
                    assert(gkb == rs[i as int].key.enc());
                    assert(rest@ =~= sb@.skip(gkb.len() as int));
                    assert(gdv_opt == Some(rs[i as int].value));
                    assert(rs[i as int] == pair);
                    assert(rs.take((i + 1) as int) =~= rs.take(i as int).push(rs[i as int]));
                }
            }
            i = i + 1;
        }
        proof {
            assert(data@.take((n as int) * (slot as int)) =~= data@);
        }
        Ok(RecordFile { data, records, key_size, value_size })
    }

    /// A restartable forward iteration over the records, from the start.
    pub fn into_iter(&self) -> (it: RecordFileIterator<'_, K, V>)
        requires
            self.wf(),
        ensures
            it.wf(),
            it.file == self,
            it.remaining() == self@,
    {
        let it = RecordFileIterator { file: self, pos: 0 };
        proof {
            assert(it.remaining() =~= self@);
        }
        it
    }
}

/// A forward iteration over a record log's records.
pub struct RecordFileIterator<'a, K: KeyType, V: ValueType> {
    /// The log being read.
    pub file: &'a RecordFile<K, V>,
    /// Index of the next record to yield.
    pub pos: usize,
}

impl<'a, K: KeyType, V: ValueType> RecordFileIterator<'a, K, V> {
    /// The iterator points into a well-formed log.
    pub open spec fn wf(self) -> bool {
        self.file.wf() && self.pos <= self.file@.len()
    }

    /// The records not yet yielded.
    pub open spec fn remaining(self) -> Seq<KeyValuePair<K, V>> {
        self.file@.skip(self.pos as int)
    }

    /// Yield the next record, or nothing at the end of the log.
    pub fn next(&mut self) -> (r: Option<KeyValuePair<K, V>>)
        requires
            old(self).wf(),
        ensures
            final(self).wf(),
            final(self).file == old(self).file,
            match r {
                Some(p) => {
                    &&& old(self).remaining().len() > 0
                    &&& p == old(self).remaining()[0]
                    &&& final(self).remaining() == old(self).remaining().drop_first()
                },
                None => {
                    &&& old(self).remaining().len() == 0
                    &&& *final(self) == *old(self)
                },
            },
    {
        if self.pos < self.file.records.len() {
            let p = self.file.records[self.pos].dup();
            proof {
                assert(old(self).remaining()[0] == self.file@[self.pos as int]);
                assert(self.file@.skip((self.pos + 1) as int) =~= old(
                    self,
                ).remaining().drop_first());
            }
            self.pos = self.pos + 1;
            Some(p)
        } else {
            None
        }
    }
}

/// The slot-width invariant: a well-formed record log's byte length is an
/// exact multiple of its slot width, one slot per record.
pub proof fn lemma_slot_width_invariant<K: KeyType, V: ValueType>(rf: RecordFile<K, V>)
    requires
        rf.wf(),
    ensures
        rf.data@.len() == rf@.len() * rf.spec_slot_size(),
        (rf.data@.len() as int) % (rf.spec_slot_size() as int) == 0,
{
    lemma_log_bytes_len(rf.records@, rf.key_size as nat, rf.value_size as nat);
    lemma_fundamental_div_mod_converse(
        rf.data@.len() as int,
        rf.spec_slot_size() as int,
        rf@.len() as int,
        0,
    );
}

/// Extend `data` with `bytes` as they are.
fn push_bytes(data: &mut Vec<u8>, bytes: &Vec<u8>)
    ensures
        final(data)@ == old(data)@ + bytes@,
{
    let mut i: usize = 0;
    while i < bytes.len()
        invariant
            i <= bytes.len(),
            data@ == old(data)@ + bytes@.take(i as int),
        decreases bytes.len() - i,
    {
        data.push(bytes[i]);
        proof {
            assert(old(data)@ + bytes@.take(i as int) + seq![bytes@[i as int]] =~= old(data)@
                + bytes@.take(i + 1));
        }
        i = i + 1;
    }
    proof {
        assert(bytes@.take(bytes@.len() as int) =~= bytes@);
    }
}

/// Extend `data` with `bytes` padded by zeros up to `width`.
fn push_padded(data: &mut Vec<u8>, bytes: &Vec<u8>, width: usize)
    requires
        bytes@.len() <= width,
    ensures
        final(data)@ == old(data)@ + pad_to(bytes@, width as nat),
{
    let mut i: usize = 0;
    while i < bytes.len()
        invariant
            i <= bytes.len(),
            data@ == old(data)@ + bytes@.take(i as int),
        decreases bytes.len() - i,
    {
        data.push(bytes[i]);
        proof {
            assert(old(data)@ + bytes@.take(i as int) + seq![bytes@[i as int]] =~= old(data)@
                + bytes@.take(i + 1));
        }
        i = i + 1;
    }
    proof {
        assert(bytes@.take(bytes@.len() as int) =~= bytes@);
    }
    let mut j: usize = bytes.len();
    while j < width
        invariant
            bytes@.len() <= j <= width,
            data@ == old(data)@ + bytes@ + zeros((j - bytes@.len()) as nat),
        decreases width - j,
    {
        data.push(0u8);
        proof {
            assert(old(data)@ + bytes@ + zeros((j - bytes@.len()) as nat) + seq![0u8] =~= old(
                data,
            )@ + bytes@ + zeros((j + 1 - bytes@.len()) as nat));
        }
        j = j + 1;
    }
    proof {
        assert(old(data)@ + bytes@ + zeros((width - bytes@.len()) as nat) =~= old(data)@ + pad_to(
            bytes@,
            width as nat,
        ));
    }
}

} // verus!
