//! The on-disk sorted store: a record log whose records are one sorted
//! run, in strictly ascending pair order with no duplicates.
//!
//! Exactly one run is live per engine instance; compaction builds a new
//! one from the merge of the memtable and the previous run.

use vstd::prelude::*;
use crate::multi_map::{collect_values, contains_key_spec, key_values, lemma_key_values_nonempty};
use crate::sorted::{lemma_push_sorted, lt, strict_sorted};
use crate::storable::{KeyType, Ordered, ValueType};
use crate::wal_file::{
    fits, fits_all, log_bytes, valid_log, KeyValuePair, RecordFile, RecordFileIterator,
    StoreError,
};

verus! {

/// `bytes` is the image of a sorted run.
pub open spec fn valid_sorted_log<K: KeyType, V: ValueType>(
    bytes: Seq<u8>,
    kw: nat,
    vw: nat,
) -> bool {
    exists|rs: Seq<KeyValuePair<K, V>>|
        bytes == log_bytes(rs, kw, vw) && fits_all(rs, kw, vw) && strict_sorted(rs)
}

/// The on-disk sorted store, backed by one record log.
pub struct OnDiskBTree<K: KeyType, V: ValueType> {
    /// The record log holding the run.
    pub file: RecordFile<K, V>,
}

impl<K: KeyType, V: ValueType> View for OnDiskBTree<K, V> {
    type V = Seq<KeyValuePair<K, V>>;

    open spec fn view(&self) -> Seq<KeyValuePair<K, V>> {
        self.file@
    }
}

impl<K: KeyType, V: ValueType> OnDiskBTree<K, V> {
    /// The backing log is well formed and its records are one sorted run.
    pub open spec fn wf(self) -> bool {
        self.file.wf() && strict_sorted(self.file@)
    }

    /// A fresh, empty store.
    pub fn new(key_size: usize, value_size: usize) -> (r: Self)
        requires
            0 < key_size,
            0 < value_size,
            key_size + value_size <= usize::MAX,
        ensures
            r.wf(),
            r@ == Seq::<KeyValuePair<K, V>>::empty(),
            r.file.data@ == Seq::<u8>::empty(),
            r.file.key_size == key_size,
            r.file.value_size == value_size,
    {
        OnDiskBTree { file: RecordFile::new(key_size, value_size) }
    }

    /// Open a store from the byte image of its file; the image must be a
    /// valid record log holding a sorted run, else a format error.
    #[verifier::loop_isolation(false)]
    pub fn open(data: Vec<u8>, key_size: usize, value_size: usize) -> (r: Result<
        Self,
        StoreError,
    >)
        requires
            0 < key_size,
            0 < value_size,
            key_size + value_size <= usize::MAX,
        ensures
            match r {
                Ok(t) => {
                    &&& t.wf()
                    &&& t.file.key_size == key_size
                    &&& t.file.value_size == value_size
                    &&& t.file.data@ == data@
                    &&& valid_sorted_log::<K, V>(data@, key_size as nat, value_size as nat)
                    &&& (forall|rs: Seq<KeyValuePair<K, V>>|
                        #![trigger log_bytes(rs, key_size as nat, value_size as nat)]
                        (data@ == log_bytes(rs, key_size as nat, value_size as nat) && fits_all(
                            rs,
                            key_size as nat,
                            value_size as nat,
                        )) ==> t@ == rs)
                },
                Err(e) => {
                    &&& e == StoreError::BadFormat
                    &&& !valid_sorted_log::<K, V>(data@, key_size as nat, value_size as nat)
                },
            },
    {
        let ghost kw = key_size as nat;
        let ghost vw = value_size as nat;
        let ghost data0 = data@;
        let file = match RecordFile::<K, V>::open(data, key_size, value_size) {
            Ok(f) => f,
            Err(e) => {
                proof {
                    if valid_sorted_log::<K, V>(data@, kw, vw) {
                        let rs = choose|rs: Seq<KeyValuePair<K, V>>|
                            data@ == log_bytes(rs, kw, vw) && fits_all(rs, kw, vw)
                                && strict_sorted(rs);
                        assert(valid_log::<K, V>(data@, kw, vw));
                    }
                }
                return Err(e);
            },
        };
        // The log is valid; check that its records are one sorted run.
        let n = file.records.len();
        let mut i: usize = 1;
        while i < n
            invariant
                file.wf(),
                n == file@.len(),
                1 <= i || n == 0,
                i <= n || n == 0,
                kw == key_size as nat,
                vw == value_size as nat,
                valid_log::<K, V>(data0, kw, vw),
                forall|rs: Seq<KeyValuePair<K, V>>|
                    #![trigger log_bytes(rs, kw, vw)]
                    (data0 == log_bytes(rs, kw, vw) && fits_all(rs, kw, vw)) ==> file@ == rs,
                forall|p: int, q: int| #![trigger file@[p], file@[q]]
                    0 <= p < q < i ==> lt(file@[p], file@[q]),
            decreases n - i,
        {
            match file.records[i - 1].compare(&file.records[i]) {
                crate::storable::Cmp::Less => {
                    proof {
                        assert forall|p: int, q: int| #![trigger file@[p], file@[q]]
                            0 <= p < q < i + 1 implies lt(file@[p], file@[q]) by {
                            if q == i && p < i - 1 {
                                crate::sorted::lemma_lt_trans(
                                    file@[p],
                                    file@[i - 1],
                                    file@[i as int],
                                );
                            }
                        }
                    }
                },
                _ => {
                    proof {
                        if valid_sorted_log::<K, V>(data0, kw, vw) {
                            let rs = choose|rs: Seq<KeyValuePair<K, V>>|
                                data0 == log_bytes(rs, kw, vw) && fits_all(rs, kw, vw)
                                    && strict_sorted(rs);
                            assert(file@ == rs);
                            crate::sorted::lemma_total_cases(file@[i - 1], file@[i as int]);
                        }
                    }
                    return Err(StoreError::BadFormat);
                },
            }
            i = i + 1;
        }
        proof {
            assert(strict_sorted(file@));
            assert(data@ == log_bytes(file@, kw, vw) && fits_all(file@, kw, vw) && strict_sorted(
                file@,
            ));
        }
        Ok(OnDiskBTree { file })
    }

    /// Whether the store holds no records yet.
    pub fn is_new(&self) -> (r: Result<bool, StoreError>)
        requires
            self.wf(),
        ensures
            r == Ok::<bool, StoreError>(self@.len() == 0),
    {
        self.file.is_new()
    }

    /// The number of records in the run.
    pub fn count(&self) -> (r: Result<u64, StoreError>)
        requires
            self.wf(),
        ensures
            r == Ok::<u64, StoreError>(self@.len() as u64),
    {
        self.file.count()
    }

    /// Append a record that sorts above everything stored, keeping the run
    /// sorted; fails without changing anything if its encoding does not
    /// fit the slot.
    pub fn insert_record(&mut self, kv: &KeyValuePair<K, V>) -> (r: Result<(), StoreError>)
        requires
            old(self).wf(),
            forall|i: int| 0 <= i < old(self)@.len() ==> lt(#[trigger] old(self)@[i], *kv),
        ensures
            final(self).wf(),
            final(self).file.key_size == old(self).file.key_size,
            final(self).file.value_size == old(self).file.value_size,
            match r {
                Ok(()) => {
                    &&& fits(*kv, old(self).file.key_size as nat, old(self).file.value_size as nat)
                    &&& final(self)@ == old(self)@.push(*kv)
                },
                Err(e) => {
                    &&& e == StoreError::EncodingTooLarge
                    &&& !fits(*kv, old(self).file.key_size as nat, old(self).file.value_size as nat)
                    &&& *final(self) == *old(self)
                },
            },
    {
        proof {
            assert forall|i: int| 0 <= i < self.file@.len() implies lt(
                #[trigger] self.file@[i],
                *kv,
            ) by {
                assert(lt(old(self)@[i], *kv));
            }
            lemma_push_sorted(self.file@, *kv);
        }
        self.file.insert_record(kv)
    }

    /// Whether the run holds any record with this key.
    pub fn contains_key(&self, key: &K) -> (r: bool)
        requires
            self.wf(),
        ensures
            r == contains_key_spec(self@, *key),
    {
        proof {
            lemma_key_values_nonempty(self@, *key);
        }
        let vs = collect_values(&self.file.records, key);
        vs.len() > 0
    }

    /// The ordered values stored under `key` in the run.
    pub fn get_values(&self, key: &K) -> (r: Vec<V>)
        requires
            self.wf(),
        ensures
            r@ == key_values(self@, *key),
    {
        collect_values(&self.file.records, key)
    }

    /// A forward iteration over the run, in ascending order.
    pub fn into_iter(&self) -> (it: OnDiskBTreeIterator<'_, K, V>)
        requires
            self.wf(),
        ensures
            it.inner.wf(),
            it.inner.remaining() == self@,
    {
        OnDiskBTreeIterator { inner: self.file.into_iter() }
    }
}

/// A forward iteration over the store's sorted run.
pub struct OnDiskBTreeIterator<'a, K: KeyType, V: ValueType> {
    /// The underlying record-log iteration.
    pub inner: RecordFileIterator<'a, K, V>,
}

impl<'a, K: KeyType, V: ValueType> OnDiskBTreeIterator<'a, K, V> {
    /// Yield the next record of the run, or nothing at its end.
    pub fn next(&mut self) -> (r: Option<KeyValuePair<K, V>>)
        requires
            old(self).inner.wf(),
        ensures
            final(self).inner.wf(),
            match r {
                Some(p) => {
                    &&& old(self).inner.remaining().len() > 0
                    &&& p == old(self).inner.remaining()[0]
                    &&& final(self).inner.remaining() == old(self).inner.remaining().drop_first()
                },
                None => {
                    &&& old(self).inner.remaining().len() == 0
                    &&& *final(self) == *old(self)
                },
            },
    {
        self.inner.next()
    }
}

} // verus!
