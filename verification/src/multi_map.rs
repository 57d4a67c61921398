//! The in-memory sorted multimap buffering recent inserts.
//!
//! A key maps to an ordered set of distinct values: duplicates of the same
//! (key, value) pair collapse, distinct values for one key coexist.  The
//! whole map is held as one flat run of key-value pairs in strictly
//! ascending pair order, which is also the order its iteration yields and
//! the order the compactor consumes.

use vstd::prelude::*;
use crate::sorted::{
    contains_eqv, eqv, insert_sorted, lemma_eqv_trans, lemma_insert_sorted_already,
    lemma_insert_sorted_at, lemma_insert_sorted_membership, lemma_insert_sorted_sorted,
    lemma_remove_eqv_absent, lemma_remove_eqv_at, lemma_remove_sorted, lemma_scan_absent,
    lemma_cons_sorted, lemma_drop_first_sorted, lt, remove_eqv, scan_position, strict_sorted,
};
use crate::storable::{KeyType, Ordered, ValueType};
use crate::wal_file::KeyValuePair;

verus! {

/// The ordered sequence of values stored under keys equivalent to `k`, in
/// run order.
pub open spec fn key_values<K: KeyType, V: ValueType>(
    s: Seq<KeyValuePair<K, V>>,
    k: K,
) -> Seq<V>
    decreases s.len(),
{
    if s.len() == 0 {
        Seq::<V>::empty()
    } else if eqv(s[0].key, k) {
        seq![s[0].value] + key_values(s.drop_first(), k)
    } else {
        key_values(s.drop_first(), k)
    }
}

/// How one appended pair extends the stored values of a key.
pub proof fn lemma_key_values_push<K: KeyType, V: ValueType>(
    s: Seq<KeyValuePair<K, V>>,
    p: KeyValuePair<K, V>,
    k: K,
)
    ensures
        key_values(s.push(p), k) == key_values(s, k) + (if eqv(p.key, k) {
            seq![p.value]
        } else {
            Seq::<V>::empty()
        }),
    decreases s.len(),
{
    let tail = (if eqv(p.key, k) {
        seq![p.value]
    } else {
        Seq::<V>::empty()
    });
    if s.len() == 0 {
        assert(s.push(p)[0] == p);
        assert(s.push(p).drop_first() =~= Seq::<KeyValuePair<K, V>>::empty());
        assert(key_values(s.push(p).drop_first(), k) =~= Seq::<V>::empty());
        assert(key_values(s.push(p), k) =~= key_values(s, k) + tail);
    } else {
        assert(s.push(p)[0] == s[0]);
        assert(s.push(p).drop_first() =~= s.drop_first().push(p));
        lemma_key_values_push(s.drop_first(), p, k);
        if eqv(s[0].key, k) {
            assert(key_values(s.push(p), k) == seq![s[0].value] + (key_values(s.drop_first(), k)
                + tail));
            assert(seq![s[0].value] + (key_values(s.drop_first(), k) + tail) =~= (
            seq![s[0].value] + key_values(s.drop_first(), k)) + tail);
        }
    }
}

/// Every stored value of a key comes from a pair of the run with an
/// equivalent key; and every such pair contributes its value.
pub proof fn lemma_key_values_membership<K: KeyType, V: ValueType>(
    s: Seq<KeyValuePair<K, V>>,
    k: K,
)
    ensures
        forall|y: V| #[trigger]
            key_values(s, k).contains(y) ==> exists|i: int|
                0 <= i < s.len() && eqv(#[trigger] s[i].key, k) && s[i].value == y,
        forall|i: int|
            0 <= i < s.len() && eqv(#[trigger] s[i].key, k) ==> key_values(s, k).contains(
                s[i].value,
            ),
    decreases s.len(),
{
    if s.len() == 0 {
    } else {
        let t = s.drop_first();
        lemma_key_values_membership(t, k);
        assert forall|y: V| #[trigger] key_values(s, k).contains(y) implies exists|i: int|
            0 <= i < s.len() && eqv(#[trigger] s[i].key, k) && s[i].value == y by {
            if eqv(s[0].key, k) {
                let j = choose|j: int|
                    0 <= j < key_values(s, k).len() && key_values(s, k)[j] == y;
                if j == 0 {
                    assert(eqv(s[0].key, k) && s[0].value == y);
                } else {
                    assert(key_values(t, k)[j - 1] == y);
                    assert(key_values(t, k).contains(y));
                    let i = choose|i: int|
                        0 <= i < t.len() && eqv(#[trigger] t[i].key, k) && t[i].value == y;
                    assert(t[i] == s[i + 1]);
                    assert(eqv(s[i + 1].key, k) && s[i + 1].value == y);
                }
            } else {
                assert(key_values(t, k).contains(y));
                let i = choose|i: int|
                    0 <= i < t.len() && eqv(#[trigger] t[i].key, k) && t[i].value == y;
                assert(t[i] == s[i + 1]);
                assert(eqv(s[i + 1].key, k) && s[i + 1].value == y);
            }
        }
        assert forall|i: int| 0 <= i < s.len() && eqv(#[trigger] s[i].key, k) implies key_values(
            s,
            k,
        ).contains(s[i].value) by {
            if i == 0 {
                assert(key_values(s, k)[0] == s[0].value);
            } else {
                assert(t[i - 1] == s[i]);
                assert(key_values(t, k).contains(t[i - 1].value));
                let j = choose|j: int|
                    0 <= j < key_values(t, k).len() && key_values(t, k)[j] == s[i].value;
                if eqv(s[0].key, k) {
                    assert(key_values(s, k)[j + 1] == s[i].value);
                } else {
                    assert(key_values(s, k)[j] == s[i].value);
                }
            }
        }
    }
}

/// A key has stored values exactly when the run holds a pair with an
/// equivalent key.
pub proof fn lemma_key_values_nonempty<K: KeyType, V: ValueType>(
    s: Seq<KeyValuePair<K, V>>,
    k: K,
)
    ensures
        key_values(s, k).len() > 0 <==> exists|i: int|
            0 <= i < s.len() && eqv(#[trigger] s[i].key, k),
    decreases s.len(),
{
    if s.len() == 0 {
    } else {
        lemma_key_values_nonempty(s.drop_first(), k);
        if eqv(s[0].key, k) {
            assert(eqv(s[0].key, k));
        } else {
            if exists|i: int| 0 <= i < s.len() && eqv(#[trigger] s[i].key, k) {
                let i = choose|i: int| 0 <= i < s.len() && eqv(#[trigger] s[i].key, k);
                assert(i > 0);
                assert(s.drop_first()[i - 1] == s[i]);
                assert(eqv(s.drop_first()[i - 1].key, k));
            }
            if exists|i: int| 0 <= i < s.drop_first().len() && eqv(
                #[trigger] s.drop_first()[i].key,
                k,
            ) {
                let i = choose|i: int|
                    0 <= i < s.drop_first().len() && eqv(#[trigger] s.drop_first()[i].key, k);
                assert(s.drop_first()[i] == s[i + 1]);
                assert(eqv(s[i + 1].key, k));
            }
        }
    }
}

/// In a sorted run, the values of one key appear in strictly ascending
/// value order.
pub proof fn lemma_key_values_sorted<K: KeyType, V: ValueType>(s: Seq<KeyValuePair<K, V>>, k: K)
    requires
        strict_sorted(s),
    ensures
        strict_sorted(key_values(s, k)),
    decreases s.len(),
{
    if s.len() == 0 {
    } else {
        let t = s.drop_first();
        lemma_drop_first_sorted(s);
        lemma_key_values_sorted(t, k);
        if eqv(s[0].key, k) {
            lemma_key_values_membership(t, k);
            assert forall|j: int| 0 <= j < key_values(t, k).len() implies lt(
                s[0].value,
                #[trigger] key_values(t, k)[j],
            ) by {
                assert(key_values(t, k).contains(key_values(t, k)[j]));
                let i = choose|i: int|
                    0 <= i < t.len() && eqv(#[trigger] t[i].key, k) && t[i].value == key_values(
                        t,
                        k,
                    )[j];
                assert(t[i] == s[i + 1]);
                assert(lt(s[0], s[i + 1]));
                assert(eqv(s[0].key, s[i + 1].key)) by {
                    lemma_eqv_trans(s[0].key, k, s[i + 1].key);
                }
            }
            lemma_cons_sorted(s[0].value, key_values(t, k));
        }
    }
}

/// A pair is equivalent to another exactly when key and value each are.
pub proof fn lemma_pair_eqv<K: KeyType, V: ValueType>(
    p: KeyValuePair<K, V>,
    q: KeyValuePair<K, V>,
)
    ensures
        eqv(p, q) <==> (eqv(p.key, q.key) && eqv(p.value, q.value)),
{
}

/// Multimap semantics: after inserting (k, v1) and then (k, v2) into a
/// sorted run, the values stored under k include representatives of both
/// v1 and v2, in strictly ascending value order; and re-inserting (k, v1)
/// afterwards changes nothing, so it neither duplicates the pair nor
/// changes the record count.
pub proof fn lemma_multimap_semantics<K: KeyType, V: ValueType>(
    s: Seq<KeyValuePair<K, V>>,
    k: K,
    v1: V,
    v2: V,
)
    requires
        strict_sorted(s),
    ensures
        ({
            let s1 = insert_sorted(s, KeyValuePair { key: k, value: v1 });
            let s2 = insert_sorted(s1, KeyValuePair { key: k, value: v2 });
            &&& contains_eqv(key_values(s2, k), v1)
            &&& contains_eqv(key_values(s2, k), v2)
            &&& strict_sorted(key_values(s2, k))
            &&& insert_sorted(s2, KeyValuePair { key: k, value: v1 }) == s2
        }),
{
    let p1 = KeyValuePair { key: k, value: v1 };
    let p2 = KeyValuePair { key: k, value: v2 };
    let s1 = insert_sorted(s, p1);
    let s2 = insert_sorted(s1, p2);
    lemma_insert_sorted_sorted(s, p1);
    lemma_insert_sorted_sorted(s1, p2);
    lemma_insert_sorted_membership(s, p1);
    lemma_insert_sorted_membership(s1, p2);
    lemma_key_values_membership(s2, k);
    lemma_key_values_sorted(s2, k);
    // A representative of p1 survives into s2.
    let i1 = choose|i: int| 0 <= i < s1.len() && eqv(s1[i], p1);
    assert(s1.contains(s1[i1]));
    assert(s2.contains(s1[i1]));
    let j1 = choose|j: int| 0 <= j < s2.len() && s2[j] == s1[i1];
    assert(eqv(s2[j1], p1));
    assert(contains_eqv(s2, p1));
    // Each representative contributes its value to the key's value run.
    assert forall|p: KeyValuePair<K, V>, v: V|
        contains_eqv(s2, p) && p.key == k && p.value == v implies contains_eqv(
        key_values(s2, k),
        v,
    ) by {
        let j = choose|j: int| 0 <= j < s2.len() && eqv(s2[j], p);
        lemma_pair_eqv(s2[j], p);
        assert(eqv(s2[j].key, k));
        assert(key_values(s2, k).contains(s2[j].value));
        let m = choose|m: int|
            0 <= m < key_values(s2, k).len() && key_values(s2, k)[m] == s2[j].value;
        assert(eqv(key_values(s2, k)[m], v));
    }
    assert(contains_eqv(key_values(s2, k), v1));
    assert(contains_eqv(key_values(s2, k), v2));
    lemma_insert_sorted_already(s2, p1);
}

/// The in-memory sorted multimap.
pub struct MultiMap<K: KeyType, V: ValueType> {
    /// The stored pairs, in strictly ascending pair order.
    pub pairs: Vec<KeyValuePair<K, V>>,
}

impl<K: KeyType, V: ValueType> View for MultiMap<K, V> {
    type V = Seq<KeyValuePair<K, V>>;

    open spec fn view(&self) -> Seq<KeyValuePair<K, V>> {
        self.pairs@
    }
}

impl<K: KeyType, V: ValueType> MultiMap<K, V> {
    /// The stored run is strictly sorted, so it holds no duplicate pair.
    pub open spec fn wf(self) -> bool {
        strict_sorted(self.pairs@)
    }

    /// An empty multimap.
    pub fn new() -> (r: MultiMap<K, V>)
        ensures
            r.wf(),
            r@ == Seq::<KeyValuePair<K, V>>::empty(),
    {
        MultiMap { pairs: Vec::new() }
    }

    /// Add `value` to `key`'s value set; a no-op if an equivalent pair is
    /// already stored.  Returns the new total record count.
    pub fn insert(&mut self, key: K, value: V) -> (r: usize)
        requires
            old(self).wf(),
        ensures
            final(self).wf(),
            final(self)@ == insert_sorted(old(self)@, KeyValuePair { key: key, value: value }),
            r == final(self)@.len(),
    {
        let pair = KeyValuePair { key, value };
        let (i, found) = scan_position(&self.pairs, &pair);
        if found {
            proof {
                assert(contains_eqv(self.pairs@, pair));
                lemma_insert_sorted_already(self.pairs@, pair);
            }
            return self.pairs.len();
        }
        proof {
            lemma_insert_sorted_at(self.pairs@, pair, i as int);
            lemma_insert_sorted_sorted(self.pairs@, pair);
        }
        self.pairs.insert(i, pair);
        self.pairs.len()
    }

    /// Remove `value` from `key`'s value set if an equivalent pair is
    /// stored; a no-op otherwise.  Returns the new total record count.
    pub fn delete(&mut self, key: K, value: V) -> (r: usize)
        requires
            old(self).wf(),
        ensures
            final(self).wf(),
            final(self)@ == remove_eqv(old(self)@, KeyValuePair { key: key, value: value }),
            r == final(self)@.len(),
    {
        let pair = KeyValuePair { key, value };
        let (i, found) = scan_position(&self.pairs, &pair);
        if found {
            proof {
                lemma_remove_eqv_at(self.pairs@, pair, i as int);
                lemma_remove_sorted(self.pairs@, i as int);
            }
            self.pairs.remove(i);
        } else {
            proof {
                lemma_scan_absent(self.pairs@, pair, i as int);
                lemma_remove_eqv_absent(self.pairs@, pair);
            }
        }
        self.pairs.len()
    }

    /// The ordered values stored under `key`, or nothing if the key is
    /// unknown.
    pub fn get(&self, key: &K) -> (r: Option<Vec<V>>)
        requires
            self.wf(),
        ensures
            match r {
                Some(vs) => {
                    &&& key_values(self@, *key).len() > 0
                    &&& vs@ == key_values(self@, *key)
                },
                None => key_values(self@, *key).len() == 0,
            },
    {
        let vs = collect_values(&self.pairs, key);
        if vs.len() == 0 {
            None
        } else {
            Some(vs)
        }
    }

    /// Whether the key has a non-empty value set.
    pub fn contains_key(&self, key: &K) -> (r: bool)
        requires
            self.wf(),
        ensures
            r == contains_key_spec(self@, *key),
    {
        proof {
            lemma_key_values_nonempty(self@, *key);
        }
        match self.get(key) {
            Some(_) => true,
            None => false,
        }
    }

    /// The total record count: the sum of the value-set sizes.
    pub fn size(&self) -> (r: usize)
        ensures
            r == self@.len(),
    {
        self.pairs.len()
    }

    /// An owned copy of the stored run, in sorted order.
    pub fn sorted_pairs(&self) -> (r: Vec<KeyValuePair<K, V>>)
        ensures
            r@ == self@,
    {
        let mut r: Vec<KeyValuePair<K, V>> = Vec::new();
        let mut i: usize = 0;
        while i < self.pairs.len()
            invariant
                i <= self.pairs@.len(),
                r@ == self.pairs@.take(i as int),
            decreases self.pairs@.len() - i,
        {
            r.push(self.pairs[i].dup());
            proof {
                assert(r@ =~= self.pairs@.take((i + 1) as int));
            }
            i = i + 1;
        }
        proof {
            assert(self.pairs@.take(self.pairs@.len() as int) =~= self.pairs@);
        }
        r
    }

    /// A sorted, flattened iteration over all stored pairs.
    pub fn into_iter(&self) -> (it: MultiMapIterator<K, V>)
        ensures
            it.wf(),
            it.remaining() == self@,
    {
        let it = MultiMapIterator { pairs: self.sorted_pairs(), pos: 0 };
        proof {
            assert(it.remaining() =~= self@);
        }
        it
    }
}

/// Some pair of the run has a key equivalent to `k`.
pub open spec fn contains_key_spec<K: KeyType, V: ValueType>(
    s: Seq<KeyValuePair<K, V>>,
    k: K,
) -> bool {
    exists|i: int| 0 <= i < s.len() && eqv(#[trigger] s[i].key, k)
}

/// Collect the values stored under `key`, in run order.
pub fn collect_values<K: KeyType, V: ValueType>(
    pairs: &Vec<KeyValuePair<K, V>>,
    key: &K,
) -> (r: Vec<V>)
    ensures
        r@ == key_values(pairs@, *key),
{
    let mut r: Vec<V> = Vec::new();
    let mut i: usize = 0;
    while i < pairs.len()
        invariant
            i <= pairs@.len(),
            r@ == key_values(pairs@.take(i as int), *key),
        decreases pairs@.len() - i,
    {
        proof {
            lemma_key_values_push(pairs@.take(i as int), pairs@[i as int], *key);
            assert(pairs@.take((i + 1) as int) =~= pairs@.take(i as int).push(pairs@[i as int]));
        }
        match pairs[i].key.compare(key) {
            crate::storable::Cmp::Equal => {
                r.push(pairs[i].value.dup());
                proof {
                    assert(r@ =~= key_values(pairs@.take((i + 1) as int), *key));
                }
            },
            _ => {
                proof {
                    assert(r@ + Seq::<V>::empty() =~= r@);
                }
            },
        }
        i = i + 1;
    }
    proof {
        assert(pairs@.take(pairs@.len() as int) =~= pairs@);
    }
    r
}

/// A sorted, flattened iteration over a multimap's pairs.
pub struct MultiMapIterator<K: KeyType, V: ValueType> {
    /// The pairs to yield, in sorted order.
    pub pairs: Vec<KeyValuePair<K, V>>,
    /// Index of the next pair to yield.
    pub pos: usize,
}

impl<K: KeyType, V: ValueType> MultiMapIterator<K, V> {
    /// The cursor is inside the run.
    pub open spec fn wf(self) -> bool {
        self.pos <= self.pairs@.len()
    }

    /// The pairs not yet yielded.
    pub open spec fn remaining(self) -> Seq<KeyValuePair<K, V>> {
        self.pairs@.skip(self.pos as int)
    }

    /// Yield the next pair, or nothing at the end.
    pub fn next(&mut self) -> (r: Option<KeyValuePair<K, V>>)
        requires
            old(self).wf(),
        ensures
            final(self).wf(),
            match r {
                Some(p) => {
                    &&& old(self).remaining().len() > 0
                    &&& p == old(self).remaining()[0]
                    &&& final(self).remaining() == old(self).remaining().drop_first()
                },
                None => {
                    &&& old(self).remaining().len() == 0
                    &&& *final(self) == *old(self)
                },
            },
    {
        if self.pos < self.pairs.len() {
            let p = self.pairs[self.pos].dup();
            proof {
                assert(old(self).remaining()[0] == self.pairs@[self.pos as int]);
                assert(self.pairs@.skip((self.pos + 1) as int) =~= old(
                    self,
                ).remaining().drop_first());
            }
            self.pos = self.pos + 1;
            Some(p)
        } else {
            None
        }
    }
}

} // verus!
