//! An embedded, ordered, multi-valued key-value storage engine.
//!
//! A durable append-only record log (the write-ahead log) backstops an
//! in-memory sorted multimap, which is merged into an on-disk sorted run
//! once it grows past a configurable threshold.  The engine works on the
//! byte images of its two files; the caller persists those images and
//! hands them back on reopen, and replaying the write-ahead log then
//! rebuilds exactly the buffered records that had not yet been compacted
//! away.

use vstd::prelude::*;

pub mod codec;
pub mod disk_btree;
pub mod multi_map;
pub mod sorted;
pub mod storable;
pub mod wal_file;

use crate::disk_btree::{valid_sorted_log, OnDiskBTree};
use crate::multi_map::{collect_values, key_values, lemma_key_values_sorted, MultiMap};
use crate::sorted::{
    insert_sorted, lemma_merged_membership, lemma_merged_sorted, lemma_replay_membership,
    lt, merge_sorted, merged, replay, strict_sorted,
};
use crate::storable::{KeyType, Ordered, ValueType};
use crate::wal_file::{
    fits, fits_all, log_bytes, valid_log, KeyValuePair, RecordFile, StoreError,
};

verus! {

/// The default compaction threshold, in buffered records.
pub const MAX_MEMORY_ITEMS: usize = 1000;

/// The write-ahead log image with a torn trailing fragment, if any,
/// ignored: the longest whole-slot prefix.
pub open spec fn wal_usable(b: Seq<u8>, slot: nat) -> Seq<u8>
    recommends
        slot > 0,
{
    b.take((b.len() - b.len() % slot) as int)
}

/// The storage engine: one write-ahead log, one in-memory sorted multimap,
/// and one on-disk sorted store, sharing one slot geometry.
pub struct BTree<K: KeyType, V: ValueType> {
    /// Width of a key's slot share, in bytes.
    pub key_size: usize,
    /// Width of a value's slot share, in bytes.
    pub value_size: usize,
    /// The compaction threshold: the memtable is folded into the on-disk
    /// store once it holds more than this many records.
    pub max_memory_items: usize,
    /// The write-ahead log: every insert, in arrival order.
    pub wal_file: RecordFile<K, V>,
    /// The memtable: the not-yet-compacted records, sorted.
    pub mem_tree: MultiMap<K, V>,
    /// The on-disk store: the last compacted sorted run.
    pub tree_file: OnDiskBTree<K, V>,
}

impl<K: KeyType, V: ValueType> BTree<K, V> {
    /// The engine invariant.  Besides each component's own invariant, the
    /// memtable is exactly the replay of the write-ahead log: that is what
    /// makes every buffered record durable.
    pub open spec fn wf(self) -> bool {
        &&& 0 < self.key_size
        &&& 0 < self.value_size
        &&& self.key_size + self.value_size <= usize::MAX
        &&& 1 <= self.max_memory_items
        &&& self.wal_file.wf()
        &&& self.wal_file.key_size == self.key_size
        &&& self.wal_file.value_size == self.value_size
        &&& self.mem_tree.wf()
        &&& self.tree_file.wf()
        &&& self.tree_file.file.key_size == self.key_size
        &&& self.tree_file.file.value_size == self.value_size
        &&& self.mem_tree@ == replay(self.wal_file@)
    }

    /// All values stored under a key, from both the memtable and the
    /// on-disk store, merged in ascending order.
    pub open spec fn lookup(self, k: K) -> Seq<V> {
        merged(key_values(self.mem_tree@, k), key_values(self.tree_file@, k))
    }

    /// Open an engine from the byte images of its two files.
    ///
    /// The store image must be a record log holding a sorted run.  The
    /// write-ahead log image may end in a torn partial slot, which is
    /// treated as absent; the whole-slot prefix must be a valid record
    /// log, and replaying it rebuilds the memtable, so every insert whose
    /// append completed before an interruption is recovered.
    pub fn new(wal_data: Vec<u8>, tree_data: Vec<u8>, key_size: usize, value_size: usize) -> (r:
        Result<BTree<K, V>, StoreError>)
        requires
            0 < key_size,
            0 < value_size,
            key_size + value_size <= usize::MAX,
        ensures
            match r {
                Ok(bt) => {
                    &&& bt.wf()
                    &&& bt.key_size == key_size
                    &&& bt.value_size == value_size
                    &&& bt.max_memory_items == MAX_MEMORY_ITEMS
                    &&& valid_sorted_log::<K, V>(tree_data@, key_size as nat, value_size as nat)
                    &&& (forall|rs: Seq<KeyValuePair<K, V>>|
                        #![trigger log_bytes(rs, key_size as nat, value_size as nat)]
                        (tree_data@ == log_bytes(rs, key_size as nat, value_size as nat)
                            && fits_all(rs, key_size as nat, value_size as nat)) ==> bt.tree_file@
                            == rs)
                    &&& valid_log::<K, V>(
                        wal_usable(wal_data@, (key_size + value_size) as nat),
                        key_size as nat,
                        value_size as nat,
                    )
                    &&& (forall|rs: Seq<KeyValuePair<K, V>>|
                        #![trigger log_bytes(rs, key_size as nat, value_size as nat)]
                        (wal_usable(wal_data@, (key_size + value_size) as nat) == log_bytes(
                            rs,
                            key_size as nat,
                            value_size as nat,
                        ) && fits_all(rs, key_size as nat, value_size as nat)) ==> (bt.wal_file@
                            == rs && bt.mem_tree@ == replay(rs)))
                },
                Err(e) => {
                    &&& e == StoreError::BadFormat
                    &&& (!valid_sorted_log::<K, V>(tree_data@, key_size as nat, value_size as nat)
                        || !valid_log::<K, V>(
                        wal_usable(wal_data@, (key_size + value_size) as nat),
                        key_size as nat,
                        value_size as nat,
                    ))
                },
            },
    {
        let slot = key_size + value_size;
        let ghost wal0 = wal_data@;
        // Ignore a torn trailing fragment left by a crash mid-append.
        proof {
            assert(0 <= (wal0.len() as int) % (slot as int) <= wal0.len() as int) by (
            nonlinear_arith)
                requires
                    slot > 0,
                    wal0.len() >= 0,
            ;
        }
        let usable = wal_data.len() - wal_data.len() % slot;
        let mut wal_data = wal_data;
        wal_data.truncate(usable);
        proof {
            assert(wal_data@ =~= wal_usable(wal0, slot as nat));
        }
        let wal_file = match RecordFile::<K, V>::open(wal_data, key_size, value_size) {
            Ok(f) => f,
            Err(e) => {
                return Err(e);
            },
        };
        let tree_file = match OnDiskBTree::<K, V>::open(tree_data, key_size, value_size) {
            Ok(t) => t,
            Err(e) => {
                return Err(e);
            },
        };
        // Replay the write-ahead log into a fresh memtable.
        let mut mem_tree: MultiMap<K, V> = MultiMap::new();
        proof {
            assert(wal_file@.take(0) =~= Seq::<KeyValuePair<K, V>>::empty());
        }
        let n = wal_file.records.len();
        let mut i: usize = 0;
        while i < n
            invariant
                wal_file.wf(),
                n == wal_file@.len(),
                i <= n,
                mem_tree.wf(),
                mem_tree@ == replay(wal_file@.take(i as int)),
            decreases n - i,
        {
            let p = wal_file.records[i].dup();
            let ghost p0 = p;
            let KeyValuePair { key, value } = p;
            mem_tree.insert(key, value);
            proof {
                assert(KeyValuePair { key: key, value: value } == p0);
                assert(wal_file@.take((i + 1) as int).drop_last() =~= wal_file@.take(i as int));
                assert(wal_file@.take((i + 1) as int).last() == wal_file@[i as int]);
            }
            i = i + 1;
        }
        proof {
            assert(wal_file@.take(n as int) =~= wal_file@);
        }
        Ok(
            BTree {
                key_size,
                value_size,
                max_memory_items: MAX_MEMORY_ITEMS,
                wal_file,
                mem_tree,
                tree_file,
            },
        )
    }

    /// Change the compaction threshold.
    pub fn set_max_memory_items(&mut self, max_memory_items: usize)
        requires
            old(self).wf(),
            1 <= max_memory_items,
        ensures
            final(self).wf(),
            *final(self) == (BTree { max_memory_items, ..*old(self) }),
    {
        self.max_memory_items = max_memory_items;
    }

    /// Insert one record.
    ///
    /// The record is first appended to the write-ahead log, which makes it
    /// durable, then added to the memtable.  If the memtable then holds
    /// more than the threshold, the engine compacts before returning.  A
    /// record whose encodings do not fit the slot geometry is rejected
    /// whole: nothing changes.
    pub fn insert(&mut self, key: K, value: V) -> (r: Result<(), StoreError>)
        requires
            old(self).wf(),
        ensures
            final(self).wf(),
            final(self).key_size == old(self).key_size,
            final(self).value_size == old(self).value_size,
            final(self).max_memory_items == old(self).max_memory_items,
            match r {
                Ok(()) => ({
                    let p = KeyValuePair { key: key, value: value };
                    let wal1 = old(self).wal_file@.push(p);
                    let mem1 = insert_sorted(old(self).mem_tree@, p);
                    &&& fits(p, old(self).key_size as nat, old(self).value_size as nat)
                    &&& if mem1.len() > old(self).max_memory_items {
                        &&& final(self).mem_tree@ == Seq::<KeyValuePair<K, V>>::empty()
                        &&& final(self).wal_file@ == Seq::<KeyValuePair<K, V>>::empty()
                        &&& final(self).tree_file@ == merged(mem1, old(self).tree_file@)
                    } else {
                        &&& final(self).wal_file@ == wal1
                        &&& final(self).mem_tree@ == mem1
                        &&& final(self).tree_file@ == old(self).tree_file@
                    }
                }),
                Err(e) => {
                    &&& e == StoreError::EncodingTooLarge
                    &&& !fits(
                        KeyValuePair { key: key, value: value },
                        old(self).key_size as nat,
                        old(self).value_size as nat,
                    )
                    &&& *final(self) == *old(self)
                },
            },
    {
        let record = KeyValuePair { key, value };
        match self.wal_file.insert_record(&record) {
            Ok(()) => (),
            Err(e) => {
                proof {
                    assert(*self =~= *old(self));
                }
                return Err(e);
            },
        }
        let KeyValuePair { key, value } = record;
        let ghost p = KeyValuePair { key: key, value: value };
        let size = self.mem_tree.insert(key, value);
        proof {
            assert(self.wal_file@.drop_last() =~= old(self).wal_file@);
            assert(self.wal_file@.last() == p);
        }
        if size > self.max_memory_items {
            match self.compact() {
                Ok(()) => (),
                Err(e) => {
                    return Err(e);
                },
            }
        }
        Ok(())
    }

    /// All values stored under `key`, from the memtable and the on-disk
    /// store together, in ascending order; nothing if the key is unknown
    /// to both.
    pub fn get(&self, key: &K) -> (r: Option<Vec<V>>)
        requires
            self.wf(),
        ensures
            match r {
                Some(vs) => {
                    &&& vs@ == self.lookup(*key)
                    &&& vs@.len() > 0
                },
                None => self.lookup(*key).len() == 0,
            },
    {
        let mem_vs = collect_values(&self.mem_tree.pairs, key);
        let disk_vs = self.tree_file.get_values(key);
        proof {
            lemma_key_values_sorted(self.mem_tree@, *key);
            lemma_key_values_sorted(self.tree_file@, *key);
        }
        let vs = merge_sorted(&mem_vs, &disk_vs);
        if vs.len() == 0 {
            None
        } else {
            Some(vs)
        }
    }

    /// Fold the memtable into the on-disk store.
    ///
    /// The memtable's sorted run and the store's run are merged, with
    /// duplicates across the two collapsed, into a brand-new run that
    /// replaces the store; the write-ahead log is then truncated to empty
    /// and the memtable cleared, since every buffered record is now
    /// durably in the store.
    pub fn compact(&mut self) -> (r: Result<(), StoreError>)
        requires
            old(self).wf(),
        ensures
            final(self).wf(),
            final(self).key_size == old(self).key_size,
            final(self).value_size == old(self).value_size,
            final(self).max_memory_items == old(self).max_memory_items,
            r is Ok,
            final(self).tree_file@ == merged(old(self).mem_tree@, old(self).tree_file@),
            final(self).mem_tree@ == Seq::<KeyValuePair<K, V>>::empty(),
            final(self).wal_file@ == Seq::<KeyValuePair<K, V>>::empty(),
    {
        let ghost kw = self.key_size as nat;
        let ghost vw = self.value_size as nat;
        let mem_pairs = self.mem_tree.sorted_pairs();
        let merged_pairs = merge_sorted(&mem_pairs, &self.tree_file.file.records);
        proof {
            lemma_merged_sorted(mem_pairs@, self.tree_file@);
            lemma_merged_membership(mem_pairs@, self.tree_file@);
            lemma_replay_membership(self.wal_file@);
            assert(fits_all(merged_pairs@, kw, vw)) by {
                assert forall|j: int| 0 <= j < merged_pairs@.len() implies fits(
                    #[trigger] merged_pairs@[j],
                    kw,
                    vw,
                ) by {
                    assert(merged_pairs@.contains(merged_pairs@[j]));
                    if mem_pairs@.contains(merged_pairs@[j]) {
                        assert(replay(self.wal_file@).contains(merged_pairs@[j]));
                        let w = choose|w: int|
                            0 <= w < self.wal_file@.len() && self.wal_file@[w]
                                == merged_pairs@[j];
                        assert(fits(self.wal_file@[w], kw, vw));
                    } else {
                        let d = choose|d: int|
                            0 <= d < self.tree_file@.len() && self.tree_file@[d]
                                == merged_pairs@[j];
                        assert(fits(self.tree_file@[d], kw, vw));
                    }
                }
            }
        }
        // Write the merged run into a brand-new store.
        let mut new_tree: OnDiskBTree<K, V> = OnDiskBTree::new(self.key_size, self.value_size);
        let n = merged_pairs.len();
        let mut i: usize = 0;
        while i < n
            invariant
                new_tree.wf(),
                new_tree.file.key_size == self.key_size,
                new_tree.file.value_size == self.value_size,
                0 < self.key_size,
                0 < self.value_size,
                kw == self.key_size as nat,
                vw == self.value_size as nat,
                n == merged_pairs@.len(),
                i <= n,
                strict_sorted(merged_pairs@),
                fits_all(merged_pairs@, kw, vw),
                new_tree@ == merged_pairs@.take(i as int),
            decreases n - i,
        {
            proof {
                assert forall|j: int| 0 <= j < new_tree@.len() implies lt(
                    #[trigger] new_tree@[j],
                    merged_pairs@[i as int],
                ) by {
                    assert(new_tree@[j] == merged_pairs@[j]);
                }
            }
            match new_tree.insert_record(&merged_pairs[i]) {
                Ok(()) => {
                    proof {
                        assert(new_tree@ =~= merged_pairs@.take((i + 1) as int));
                    }
                },
                Err(e) => {
                    proof {
                        assert(fits(merged_pairs@[i as int], kw, vw));
                        assert(false);
                    }
                    return Err(e);
                },
            }
            i = i + 1;
        }
        proof {
            assert(merged_pairs@.take(n as int) =~= merged_pairs@);
        }
        // The new run is complete: it replaces the store, and the buffer
        // it drained is reset.
        self.tree_file = new_tree;
        self.wal_file = RecordFile::new(self.key_size, self.value_size);
        self.mem_tree = MultiMap::new();
        Ok(())
    }
}

/// Durability: in every well-formed engine the memtable is exactly the
/// replay of the write-ahead log, whose byte image is a whole number of
/// slots; so opening the image the engine holds (see `BTree::new`) yields
/// those same records and rebuilds this same memtable.
pub proof fn lemma_durability<K: KeyType, V: ValueType>(bt: BTree<K, V>)
    requires
        bt.wf(),
    ensures
        bt.mem_tree@ == replay(bt.wal_file@),
        bt.wal_file.data@ == log_bytes(bt.wal_file@, bt.key_size as nat, bt.value_size as nat),
        fits_all(bt.wal_file@, bt.key_size as nat, bt.value_size as nat),
        wal_usable(bt.wal_file.data@, (bt.key_size + bt.value_size) as nat) == bt.wal_file.data@,
{
    crate::wal_file::lemma_slot_width_invariant(bt.wal_file);
    assert(wal_usable(bt.wal_file.data@, (bt.key_size + bt.value_size) as nat) =~= bt
        .wal_file.data@);
}

} // verus!
