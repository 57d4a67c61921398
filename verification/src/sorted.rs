//! Sorted-sequence machinery shared by the multimap and the compactor.
//!
//! Everything is stated over the `Ordered` total preorder.  Two values are
//! *equivalent* when each is `le` the other; sorted runs never hold two
//! equivalent elements, and the merge collapses equivalent elements across
//! its two inputs.

use vstd::prelude::*;
use crate::storable::{Cmp, Ordered};

verus! {

/// Strictly below: `a` precedes `b` and is not equivalent to it.
pub open spec fn lt<T: Ordered>(a: T, b: T) -> bool {
    a.le(b) && !b.le(a)
}

/// Equivalent: neither precedes the other.
pub open spec fn eqv<T: Ordered>(a: T, b: T) -> bool {
    a.le(b) && b.le(a)
}

/// Strictly ascending, hence free of equivalent duplicates.
pub open spec fn strict_sorted<T: Ordered>(s: Seq<T>) -> bool {
    forall|i: int, j: int| #![trigger s[i], s[j]] 0 <= i < j < s.len() ==> lt(s[i], s[j])
}

/// Some element of `s` is equivalent to `x`.
pub open spec fn contains_eqv<T: Ordered>(s: Seq<T>, x: T) -> bool {
    exists|i: int| 0 <= i < s.len() && eqv(s[i], x)
}

/// `b` is strictly below every element of `s`.
pub open spec fn below_all<T: Ordered>(b: T, s: Seq<T>) -> bool {
    forall|i: int| 0 <= i < s.len() ==> lt(b, #[trigger] s[i])
}

/// `s` with `x` inserted at its sorted position, unchanged if an
/// equivalent element is already present.
pub open spec fn insert_sorted<T: Ordered>(s: Seq<T>, x: T) -> Seq<T>
    decreases s.len(),
{
    if s.len() == 0 {
        seq![x]
    } else if lt(x, s[0]) {
        seq![x] + s
    } else if eqv(x, s[0]) {
        s
    } else {
        seq![s[0]] + insert_sorted(s.drop_first(), x)
    }
}

/// `s` with its first element equivalent to `x` removed, unchanged if none
/// is present.
pub open spec fn remove_eqv<T: Ordered>(s: Seq<T>, x: T) -> Seq<T>
    decreases s.len(),
{
    if s.len() == 0 {
        s
    } else if eqv(s[0], x) {
        s.drop_first()
    } else {
        seq![s[0]] + remove_eqv(s.drop_first(), x)
    }
}

/// Two-way merge of two runs, collapsing equivalent heads to the head of
/// `a`.  On sorted inputs this is the sorted union with duplicates across
/// the inputs collapsed.
pub open spec fn merged<T: Ordered>(a: Seq<T>, b: Seq<T>) -> Seq<T>
    decreases a.len() + b.len(),
{
    if a.len() == 0 {
        b
    } else if b.len() == 0 {
        a
    } else if eqv(a[0], b[0]) {
        seq![a[0]] + merged(a.drop_first(), b.drop_first())
    } else if lt(a[0], b[0]) {
        seq![a[0]] + merged(a.drop_first(), b)
    } else {
        seq![b[0]] + merged(a, b.drop_first())
    }
}

/// The sorted buffer that replaying a record sequence in order rebuilds.
pub open spec fn replay<T: Ordered>(s: Seq<T>) -> Seq<T>
    decreases s.len(),
{
    if s.len() == 0 {
        Seq::<T>::empty()
    } else {
        insert_sorted(replay(s.drop_last()), s.last())
    }
}

/// The order is reflexive.
pub proof fn lemma_le_refl<T: Ordered>(a: T)
    ensures
        a.le(a),
{
    T::lemma_le_total(a, a);
}

/// One of the three cases always holds.
pub proof fn lemma_total_cases<T: Ordered>(a: T, b: T)
    ensures
        lt(a, b) || eqv(a, b) || lt(b, a),
{
    T::lemma_le_total(a, b);
}

/// Strict order is transitive.
pub proof fn lemma_lt_trans<T: Ordered>(a: T, b: T, c: T)
    requires
        lt(a, b),
        lt(b, c),
    ensures
        lt(a, c),
{
    T::lemma_le_trans(a, b, c);
    if c.le(a) {
        T::lemma_le_trans(c, a, b);
    }
}

/// Strict order absorbs equivalence on the right.
pub proof fn lemma_lt_eqv_trans<T: Ordered>(a: T, b: T, c: T)
    requires
        lt(a, b),
        eqv(b, c),
    ensures
        lt(a, c),
{
    T::lemma_le_trans(a, b, c);
    if c.le(a) {
        T::lemma_le_trans(b, c, a);
    }
}

/// Strict order absorbs equivalence on the left.
pub proof fn lemma_eqv_lt_trans<T: Ordered>(a: T, b: T, c: T)
    requires
        eqv(a, b),
        lt(b, c),
    ensures
        lt(a, c),
{
    T::lemma_le_trans(a, b, c);
    if c.le(a) {
        T::lemma_le_trans(c, a, b);
    }
}

/// Equivalence is transitive.
pub proof fn lemma_eqv_trans<T: Ordered>(a: T, b: T, c: T)
    requires
        eqv(a, b),
        eqv(b, c),
    ensures
        eqv(a, c),
{
    T::lemma_le_trans(a, b, c);
    T::lemma_le_trans(c, b, a);
}

/// Dropping the first element keeps a run sorted.
pub proof fn lemma_drop_first_sorted<T: Ordered>(s: Seq<T>)
    requires
        strict_sorted(s),
        s.len() > 0,
    ensures
        strict_sorted(s.drop_first()),
{
    assert forall|i: int, j: int| 0 <= i < j < s.drop_first().len() implies lt(
        s.drop_first()[i],
        s.drop_first()[j],
    ) by {
        assert(s.drop_first()[i] == s[i + 1]);
        assert(s.drop_first()[j] == s[j + 1]);
    }
}

/// Consing an element strictly below a sorted run gives a sorted run.
pub proof fn lemma_cons_sorted<T: Ordered>(b: T, t: Seq<T>)
    requires
        strict_sorted(t),
        below_all(b, t),
    ensures
        strict_sorted(seq![b] + t),
{
    let s = seq![b] + t;
    assert forall|i: int, j: int| 0 <= i < j < s.len() implies lt(s[i], s[j]) by {
        if i == 0 {
            assert(s[j] == t[j - 1]);
        } else {
            assert(s[i] == t[i - 1]);
            assert(s[j] == t[j - 1]);
        }
    }
}

/// Where the elements of an insertion come from, and that the inserted
/// element is represented.
pub proof fn lemma_insert_sorted_membership<T: Ordered>(s: Seq<T>, x: T)
    ensures
        forall|y: T| #[trigger] insert_sorted(s, x).contains(y) ==> s.contains(y) || y == x,
        forall|y: T| #[trigger] s.contains(y) ==> insert_sorted(s, x).contains(y),
        contains_eqv(insert_sorted(s, x), x),
    decreases s.len(),
{
    lemma_le_refl(x);
    let r = insert_sorted(s, x);
    if s.len() == 0 {
        assert(r == seq![x]);
        assert(r[0] == x);
        assert(eqv(r[0], x));
    } else if lt(x, s[0]) {
        assert(r == seq![x] + s);
        assert(r[0] == x);
        assert(eqv(r[0], x));
        assert forall|y: T| #[trigger] r.contains(y) implies s.contains(y) || y == x by {
            let i = choose|i: int| 0 <= i < r.len() && r[i] == y;
            if i > 0 {
                assert(s[i - 1] == y);
            }
        }
        assert forall|y: T| #[trigger] s.contains(y) implies r.contains(y) by {
            let i = choose|i: int| 0 <= i < s.len() && s[i] == y;
            assert(r[i + 1] == y);
        }
    } else if eqv(x, s[0]) {
        assert(r == s);
        assert(eqv(s[0], x));
    } else {
        let t = s.drop_first();
        lemma_insert_sorted_membership(t, x);
        assert(r == seq![s[0]] + insert_sorted(t, x));
        assert forall|y: T| #[trigger] r.contains(y) implies s.contains(y) || y == x by {
            let i = choose|i: int| 0 <= i < r.len() && r[i] == y;
            if i == 0 {
                assert(s[0] == y);
                assert(s.contains(y));
            } else {
                assert(insert_sorted(t, x)[i - 1] == y);
                assert(insert_sorted(t, x).contains(y));
                if t.contains(y) {
                    let k = choose|k: int| 0 <= k < t.len() && t[k] == y;
                    assert(s[k + 1] == y);
                    assert(s.contains(y));
                }
            }
        }
        assert forall|y: T| #[trigger] s.contains(y) implies r.contains(y) by {
            let i = choose|i: int| 0 <= i < s.len() && s[i] == y;
            if i == 0 {
                assert(r[0] == y);
            } else {
                assert(t[i - 1] == y);
                assert(t.contains(y));
                assert(insert_sorted(t, x).contains(y));
                let k = choose|k: int|
                    0 <= k < insert_sorted(t, x).len() && insert_sorted(t, x)[k] == y;
                assert(r[k + 1] == y);
            }
        }
        let k = choose|k: int|
            0 <= k < insert_sorted(t, x).len() && eqv(insert_sorted(t, x)[k], x);
        assert(r[k + 1] == insert_sorted(t, x)[k]);
        assert(eqv(r[k + 1], x));
    }
}

/// Insertion keeps a run sorted.
pub proof fn lemma_insert_sorted_sorted<T: Ordered>(s: Seq<T>, x: T)
    requires
        strict_sorted(s),
    ensures
        strict_sorted(insert_sorted(s, x)),
    decreases s.len(),
{
    let r = insert_sorted(s, x);
    if s.len() == 0 {
        assert(strict_sorted(seq![x]));
    } else if lt(x, s[0]) {
        assert forall|i: int| 0 <= i < s.len() implies lt(x, #[trigger] s[i]) by {
            if i > 0 {
                lemma_lt_trans(x, s[0], s[i]);
            }
        }
        lemma_cons_sorted(x, s);
    } else if eqv(x, s[0]) {
    } else {
        let t = s.drop_first();
        lemma_total_cases(x, s[0]);
        lemma_drop_first_sorted(s);
        lemma_insert_sorted_sorted(t, x);
        lemma_insert_sorted_membership(t, x);
        let u = insert_sorted(t, x);
        assert forall|i: int| 0 <= i < u.len() implies lt(s[0], #[trigger] u[i]) by {
            assert(u.contains(u[i]));
            if t.contains(u[i]) {
                let k = choose|k: int| 0 <= k < t.len() && t[k] == u[i];
                assert(t[k] == s[k + 1]);
            }
        }
        lemma_cons_sorted(s[0], u);
    }
}

/// Inserting at the found boundary is the specified insertion.
pub proof fn lemma_insert_sorted_at<T: Ordered>(s: Seq<T>, x: T, j: int)
    requires
        strict_sorted(s),
        0 <= j <= s.len(),
        forall|i: int| 0 <= i < j ==> lt(#[trigger] s[i], x),
        j < s.len() ==> lt(x, s[j]),
    ensures
        insert_sorted(s, x) == s.insert(j, x),
    decreases s.len(),
{
    if j == 0 {
        if s.len() == 0 {
            assert(insert_sorted(s, x) =~= s.insert(0, x));
        } else {
            assert(insert_sorted(s, x) =~= s.insert(0, x));
        }
    } else {
        assert(lt(s[0], x));
        lemma_drop_first_sorted(s);
        lemma_insert_sorted_at(s.drop_first(), x, j - 1);
        assert(insert_sorted(s, x) =~= s.insert(j, x));
    }
}

/// Inserting an element already represented changes nothing.
pub proof fn lemma_insert_sorted_already<T: Ordered>(s: Seq<T>, x: T)
    requires
        strict_sorted(s),
        contains_eqv(s, x),
    ensures
        insert_sorted(s, x) == s,
    decreases s.len(),
{
    let j = choose|j: int| 0 <= j < s.len() && eqv(s[j], x);
    if lt(x, s[0]) {
        if j > 0 {
            lemma_lt_trans(x, s[0], s[j]);
        }
        lemma_lt_eqv_trans(x, s[j], x);
        assert(false);
    } else if eqv(x, s[0]) {
    } else {
        lemma_total_cases(x, s[0]);
        assert(lt(s[0], x));
        assert(j > 0) by {
            if j == 0 {
                lemma_lt_eqv_trans(s[0], s[0], x);
            }
        }
        lemma_drop_first_sorted(s);
        assert(eqv(s.drop_first()[j - 1], x));
        assert(contains_eqv(s.drop_first(), x));
        lemma_insert_sorted_already(s.drop_first(), x);
        assert(insert_sorted(s, x) =~= s);
    }
}

/// Removing at the first matching index is the specified removal.
pub proof fn lemma_remove_eqv_at<T: Ordered>(s: Seq<T>, x: T, j: int)
    requires
        0 <= j < s.len(),
        eqv(s[j], x),
        forall|i: int| 0 <= i < j ==> !eqv(#[trigger] s[i], x),
    ensures
        remove_eqv(s, x) == s.remove(j),
    decreases s.len(),
{
    if j == 0 {
        assert(remove_eqv(s, x) =~= s.remove(0));
    } else {
        assert(!eqv(s[0], x));
        lemma_remove_eqv_at(s.drop_first(), x, j - 1);
        assert(remove_eqv(s, x) =~= s.remove(j));
    }
}

/// Removing an element with no representative changes nothing.
pub proof fn lemma_remove_eqv_absent<T: Ordered>(s: Seq<T>, x: T)
    requires
        !contains_eqv(s, x),
    ensures
        remove_eqv(s, x) == s,
    decreases s.len(),
{
    if s.len() > 0 {
        assert(!eqv(s[0], x));
        assert forall|i: int| 0 <= i < s.drop_first().len() implies !eqv(
            #[trigger] s.drop_first()[i],
            x,
        ) by {
            assert(s.drop_first()[i] == s[i + 1]);
        }
        lemma_remove_eqv_absent(s.drop_first(), x);
        assert(remove_eqv(s, x) =~= s);
    }
}

/// Appending an element above a sorted run keeps it sorted.
pub proof fn lemma_push_sorted<T: Ordered>(s: Seq<T>, x: T)
    requires
        strict_sorted(s),
        forall|i: int| 0 <= i < s.len() ==> lt(#[trigger] s[i], x),
    ensures
        strict_sorted(s.push(x)),
{
    let r = s.push(x);
    assert forall|i: int, j: int| 0 <= i < j < r.len() implies lt(r[i], r[j]) by {
        assert(r[i] == s[i]);
        if j < s.len() {
            assert(r[j] == s[j]);
        }
    }
}

/// Membership across a cons.
proof fn lemma_cons_contains<T>(h: T, t: Seq<T>)
    ensures
        forall|y: T| #[trigger] (seq![h] + t).contains(y) <==> (y == h || t.contains(y)),
{
    assert forall|y: T| #[trigger] (seq![h] + t).contains(y) implies (y == h || t.contains(y)) by {
        let i = choose|i: int| 0 <= i < (seq![h] + t).len() && (seq![h] + t)[i] == y;
        if i > 0 {
            assert(t[i - 1] == y);
        }
    }
    assert forall|y: T| (y == h || t.contains(y)) implies #[trigger] (seq![h] + t).contains(y) by {
        if y == h {
            assert((seq![h] + t)[0] == y);
        } else {
            let i = choose|i: int| 0 <= i < t.len() && t[i] == y;
            assert((seq![h] + t)[i + 1] == y);
        }
    }
}

/// A representative across a cons.
proof fn lemma_cons_contains_eqv<T: Ordered>(h: T, t: Seq<T>, x: T)
    ensures
        contains_eqv(seq![h] + t, x) <==> (eqv(h, x) || contains_eqv(t, x)),
{
    let s = seq![h] + t;
    if contains_eqv(s, x) {
        let i = choose|i: int| 0 <= i < s.len() && eqv(s[i], x);
        if i > 0 {
            assert(t[i - 1] == s[i]);
            assert(eqv(t[i - 1], x));
        }
    }
    if eqv(h, x) {
        assert(eqv(s[0], x));
    }
    if contains_eqv(t, x) {
        let i = choose|i: int| 0 <= i < t.len() && eqv(t[i], x);
        assert(s[i + 1] == t[i]);
        assert(eqv(s[i + 1], x));
    }
}

/// Where the elements of a merge come from.
pub proof fn lemma_merged_membership<T: Ordered>(a: Seq<T>, b: Seq<T>)
    ensures
        forall|y: T| #[trigger] merged(a, b).contains(y) ==> a.contains(y) || b.contains(y),
    decreases a.len() + b.len(),
{
    if a.len() == 0 || b.len() == 0 {
    } else {
        assert(a =~= seq![a[0]] + a.drop_first());
        assert(b =~= seq![b[0]] + b.drop_first());
        lemma_cons_contains(a[0], a.drop_first());
        lemma_cons_contains(b[0], b.drop_first());
        if eqv(a[0], b[0]) {
            lemma_merged_membership(a.drop_first(), b.drop_first());
            lemma_cons_contains(a[0], merged(a.drop_first(), b.drop_first()));
        } else if lt(a[0], b[0]) {
            lemma_merged_membership(a.drop_first(), b);
            lemma_cons_contains(a[0], merged(a.drop_first(), b));
        } else {
            lemma_merged_membership(a, b.drop_first());
            lemma_cons_contains(b[0], merged(a, b.drop_first()));
        }
    }
}

/// The merge keeps exactly the representatives of both inputs.
pub proof fn lemma_merged_contains_eqv<T: Ordered>(a: Seq<T>, b: Seq<T>, x: T)
    ensures
        contains_eqv(merged(a, b), x) <==> (contains_eqv(a, x) || contains_eqv(b, x)),
    decreases a.len() + b.len(),
{
    if a.len() == 0 || b.len() == 0 {
    } else {
        assert(a =~= seq![a[0]] + a.drop_first());
        assert(b =~= seq![b[0]] + b.drop_first());
        lemma_cons_contains_eqv(a[0], a.drop_first(), x);
        lemma_cons_contains_eqv(b[0], b.drop_first(), x);
        if eqv(a[0], b[0]) {
            lemma_merged_contains_eqv(a.drop_first(), b.drop_first(), x);
            lemma_cons_contains_eqv(a[0], merged(a.drop_first(), b.drop_first()), x);
            if eqv(b[0], x) {
                lemma_eqv_trans(a[0], b[0], x);
            }
            if eqv(a[0], x) {
                lemma_eqv_trans(b[0], a[0], x);
            }
        } else if lt(a[0], b[0]) {
            lemma_merged_contains_eqv(a.drop_first(), b, x);
            lemma_cons_contains_eqv(a[0], merged(a.drop_first(), b), x);
        } else {
            lemma_merged_contains_eqv(a, b.drop_first(), x);
            lemma_cons_contains_eqv(b[0], merged(a, b.drop_first()), x);
        }
    }
}

/// Merging two sorted runs gives a sorted run.
pub proof fn lemma_merged_sorted<T: Ordered>(a: Seq<T>, b: Seq<T>)
    requires
        strict_sorted(a),
        strict_sorted(b),
    ensures
        strict_sorted(merged(a, b)),
    decreases a.len() + b.len(),
{
    if a.len() == 0 || b.len() == 0 {
    } else {
        lemma_drop_first_sorted(a);
        lemma_drop_first_sorted(b);
        if eqv(a[0], b[0]) {
            let m2 = merged(a.drop_first(), b.drop_first());
            lemma_merged_sorted(a.drop_first(), b.drop_first());
            lemma_merged_membership(a.drop_first(), b.drop_first());
            assert forall|i: int| 0 <= i < m2.len() implies lt(a[0], #[trigger] m2[i]) by {
                assert(m2.contains(m2[i]));
                if a.drop_first().contains(m2[i]) {
                    let k = choose|k: int|
                        0 <= k < a.drop_first().len() && a.drop_first()[k] == m2[i];
                    assert(a.drop_first()[k] == a[k + 1]);
                } else {
                    let k = choose|k: int|
                        0 <= k < b.drop_first().len() && b.drop_first()[k] == m2[i];
                    assert(b.drop_first()[k] == b[k + 1]);
                    lemma_eqv_lt_trans(a[0], b[0], b[k + 1]);
                }
            }
            lemma_cons_sorted(a[0], m2);
        } else if lt(a[0], b[0]) {
            let m2 = merged(a.drop_first(), b);
            lemma_merged_sorted(a.drop_first(), b);
            lemma_merged_membership(a.drop_first(), b);
            assert forall|i: int| 0 <= i < m2.len() implies lt(a[0], #[trigger] m2[i]) by {
                assert(m2.contains(m2[i]));
                if a.drop_first().contains(m2[i]) {
                    let k = choose|k: int|
                        0 <= k < a.drop_first().len() && a.drop_first()[k] == m2[i];
                    assert(a.drop_first()[k] == a[k + 1]);
                } else {
                    let k = choose|k: int| 0 <= k < b.len() && b[k] == m2[i];
                    if k > 0 {
                        lemma_lt_trans(a[0], b[0], b[k]);
                    }
                }
            }
            lemma_cons_sorted(a[0], m2);
        } else {
            lemma_total_cases(a[0], b[0]);
            let m2 = merged(a, b.drop_first());
            lemma_merged_sorted(a, b.drop_first());
            lemma_merged_membership(a, b.drop_first());
            assert forall|i: int| 0 <= i < m2.len() implies lt(b[0], #[trigger] m2[i]) by {
                assert(m2.contains(m2[i]));
                if b.drop_first().contains(m2[i]) {
                    let k = choose|k: int|
                        0 <= k < b.drop_first().len() && b.drop_first()[k] == m2[i];
                    assert(b.drop_first()[k] == b[k + 1]);
                } else {
                    let k = choose|k: int| 0 <= k < a.len() && a[k] == m2[i];
                    if k > 0 {
                        lemma_lt_trans(b[0], a[0], a[k]);
                    }
                }
            }
            lemma_cons_sorted(b[0], m2);
        }
    }
}

/// Sorted-merge correctness: on sorted inputs the merge is sorted, its
/// elements all come from the inputs, and it represents exactly the union
/// of the inputs, duplicates across the two collapsed.
pub proof fn lemma_merged_sorted_union<T: Ordered>(a: Seq<T>, b: Seq<T>)
    requires
        strict_sorted(a),
        strict_sorted(b),
    ensures
        strict_sorted(merged(a, b)),
        forall|y: T| #[trigger] merged(a, b).contains(y) ==> a.contains(y) || b.contains(y),
        forall|y: T|
            #![trigger contains_eqv(merged(a, b), y)]
            contains_eqv(merged(a, b), y) <==> (contains_eqv(a, y) || contains_eqv(b, y)),
{
    lemma_merged_sorted(a, b);
    lemma_merged_membership(a, b);
    assert forall|y: T|
        #![trigger contains_eqv(merged(a, b), y)]
        contains_eqv(merged(a, b), y) <==> (contains_eqv(a, y) || contains_eqv(b, y)) by {
        lemma_merged_contains_eqv(a, b, y);
    }
}

/// A sorted run is canonical: two sorted runs that represent the same
/// elements have the same length and are equivalent position by position.
/// Together with `lemma_merged_sorted_union` this makes the merge *the*
/// sorted, duplicate-collapsed union of its inputs.
pub proof fn lemma_sorted_run_unique<T: Ordered>(a: Seq<T>, b: Seq<T>)
    requires
        strict_sorted(a),
        strict_sorted(b),
        forall|y: T| contains_eqv(a, y) <==> contains_eqv(b, y),
    ensures
        a.len() == b.len(),
        forall|i: int| 0 <= i < a.len() ==> eqv(#[trigger] a[i], b[i]),
    decreases a.len() + b.len(),
{
    if a.len() == 0 {
        if b.len() > 0 {
            lemma_le_refl(b[0]);
            assert(contains_eqv(b, b[0]));
            assert(contains_eqv(a, b[0]));
            assert(false);
        }
    } else if b.len() == 0 {
        lemma_le_refl(a[0]);
        assert(contains_eqv(a, a[0]));
        assert(contains_eqv(b, a[0]));
        assert(false);
    } else {
        lemma_le_refl(a[0]);
        lemma_le_refl(b[0]);
        // The heads are equivalent: were one strictly below the other, its
        // representative in the other run would sit even further down.
        assert(eqv(a[0], b[0])) by {
            assert(contains_eqv(a, a[0]));
            assert(contains_eqv(b, a[0]));
            assert(contains_eqv(b, b[0]));
            assert(contains_eqv(a, b[0]));
            if lt(a[0], b[0]) {
                let j = choose|j: int| 0 <= j < b.len() && eqv(b[j], a[0]);
                if j > 0 {
                    lemma_lt_eqv_trans(b[0], b[j], a[0]);
                    lemma_lt_trans(a[0], b[0], a[0]);
                } else {
                    lemma_lt_eqv_trans(a[0], b[0], a[0]);
                }
                assert(false);
            } else if lt(b[0], a[0]) {
                let j = choose|j: int| 0 <= j < a.len() && eqv(a[j], b[0]);
                if j > 0 {
                    lemma_lt_eqv_trans(a[0], a[j], b[0]);
                    lemma_lt_trans(b[0], a[0], b[0]);
                } else {
                    lemma_lt_eqv_trans(b[0], a[0], b[0]);
                }
                assert(false);
            } else {
                lemma_total_cases(a[0], b[0]);
            }
        }
        lemma_drop_first_sorted(a);
        lemma_drop_first_sorted(b);
        assert forall|y: T| contains_eqv(a.drop_first(), y) <==> contains_eqv(
            b.drop_first(),
            y,
        ) by {
            if contains_eqv(a.drop_first(), y) {
                let i = choose|i: int| 0 <= i < a.drop_first().len() && eqv(a.drop_first()[i], y);
                assert(a.drop_first()[i] == a[i + 1]);
                assert(contains_eqv(a, y));
                assert(contains_eqv(b, y));
                let j = choose|j: int| 0 <= j < b.len() && eqv(b[j], y);
                if j == 0 {
                    // then the head would be equivalent to a later element
                    lemma_eqv_trans(a[0], b[0], y);
                    lemma_eqv_trans(a[0], y, a[i + 1]);
                    assert(lt(a[0], a[i + 1]));
                    assert(false);
                }
                assert(b.drop_first()[j - 1] == b[j]);
                assert(contains_eqv(b.drop_first(), y));
            }
            if contains_eqv(b.drop_first(), y) {
                let i = choose|i: int| 0 <= i < b.drop_first().len() && eqv(b.drop_first()[i], y);
                assert(b.drop_first()[i] == b[i + 1]);
                assert(contains_eqv(b, y));
                assert(contains_eqv(a, y));
                let j = choose|j: int| 0 <= j < a.len() && eqv(a[j], y);
                if j == 0 {
                    lemma_eqv_trans(b[0], a[0], y);
                    assert(eqv(b[i + 1], y));
                    lemma_eqv_trans(b[0], y, b[i + 1]);
                    assert(lt(b[0], b[i + 1]));
                    assert(false);
                }
                assert(a.drop_first()[j - 1] == a[j]);
                assert(contains_eqv(a.drop_first(), y));
            }
        }
        lemma_sorted_run_unique(a.drop_first(), b.drop_first());
        assert forall|i: int| 0 <= i < a.len() implies eqv(#[trigger] a[i], b[i]) by {
            if i > 0 {
                assert(eqv(a.drop_first()[i - 1], b.drop_first()[i - 1]));
                assert(a.drop_first()[i - 1] == a[i]);
                assert(b.drop_first()[i - 1] == b[i]);
            }
        }
    }
}

/// Compaction is idempotent: once the buffer has been drained, merging the
/// now-empty buffer with the run it produced copies that run unchanged.
pub proof fn lemma_compact_idempotent<T: Ordered>(s: Seq<T>)
    ensures
        merged(Seq::<T>::empty(), s) == s,
        merged(replay(Seq::<T>::empty()), s) == s,
{
    assert(replay(Seq::<T>::empty()) == Seq::<T>::empty());
    if s.len() == 0 {
        assert(merged(Seq::<T>::empty(), s) == s);
    }
}

/// The replayed buffer holds only records that the log holds.
pub proof fn lemma_replay_membership<T: Ordered>(s: Seq<T>)
    ensures
        forall|y: T| #[trigger] replay(s).contains(y) ==> s.contains(y),
    decreases s.len(),
{
    if s.len() > 0 {
        let t = s.drop_last();
        lemma_replay_membership(t);
        lemma_insert_sorted_membership(replay(t), s.last());
        assert forall|y: T| #[trigger] replay(s).contains(y) implies s.contains(y) by {
            if replay(t).contains(y) {
                let i = choose|i: int| 0 <= i < t.len() && t[i] == y;
                assert(s[i] == y);
            } else {
                assert(y == s.last());
                assert(s[s.len() - 1] == y);
            }
        }
    }
}

/// Find where `x` sits in a sorted run: the index of its representative if
/// one is present, else the index where it would be inserted.
pub fn scan_position<T: Ordered>(v: &Vec<T>, x: &T) -> (r: (usize, bool))
    requires
        strict_sorted(v@),
    ensures
        r.0 <= v@.len(),
        forall|k: int| 0 <= k < r.0 ==> lt(#[trigger] v@[k], *x),
        r.1 ==> r.0 < v@.len() && eqv(v@[r.0 as int], *x),
        (!r.1 && r.0 < v@.len()) ==> lt(*x, v@[r.0 as int]),
{
    let mut i: usize = 0;
    while i < v.len()
        invariant
            strict_sorted(v@),
            i <= v@.len(),
            forall|k: int| 0 <= k < i ==> lt(#[trigger] v@[k], *x),
        decreases v@.len() - i,
    {
        match x.compare(&v[i]) {
            Cmp::Less => {
                return (i, false);
            },
            Cmp::Equal => {
                return (i, true);
            },
            Cmp::Greater => {
                i = i + 1;
            },
        }
    }
    (i, false)
}

/// When the scan finds no representative, none exists anywhere in the run.
pub proof fn lemma_scan_absent<T: Ordered>(s: Seq<T>, x: T, i: int)
    requires
        strict_sorted(s),
        0 <= i <= s.len(),
        forall|k: int| 0 <= k < i ==> lt(#[trigger] s[k], x),
        i < s.len() ==> lt(x, s[i]),
    ensures
        !contains_eqv(s, x),
{
    assert forall|k: int| 0 <= k < s.len() implies !eqv(#[trigger] s[k], x) by {
        if k < i {
        } else if i < s.len() {
            if k > i {
                lemma_lt_trans(x, s[i], s[k]);
            }
        }
    }
}

/// Merge two sorted runs into one.
pub fn merge_sorted<T: Ordered>(a: &Vec<T>, b: &Vec<T>) -> (r: Vec<T>)
    requires
        strict_sorted(a@),
        strict_sorted(b@),
    ensures
        r@ == merged(a@, b@),
{
    let mut r: Vec<T> = Vec::new();
    let mut i: usize = 0;
    let mut j: usize = 0;
    proof {
        assert(a@.skip(0) =~= a@);
        assert(b@.skip(0) =~= b@);
    }
    while i < a.len() || j < b.len()
        invariant
            i <= a.len(),
            j <= b.len(),
            strict_sorted(a@),
            strict_sorted(b@),
            merged(a@, b@) == r@ + merged(a@.skip(i as int), b@.skip(j as int)),
        decreases a.len() - i + b.len() - j,
    {
        let ghost sa = a@.skip(i as int);
        let ghost sb = b@.skip(j as int);
        if i < a.len() && j < b.len() {
            proof {
                assert(sa[0] == a@[i as int]);
                assert(sb[0] == b@[j as int]);
                assert(sa.drop_first() =~= a@.skip(i + 1));
                assert(sb.drop_first() =~= b@.skip(j + 1));
            }
            match a[i].compare(&b[j]) {
                Cmp::Equal => {
                    r.push(a[i].dup());
                    proof {
                        assert(merged(sa, sb) == seq![sa[0]] + merged(
                            sa.drop_first(),
                            sb.drop_first(),
                        ));
                        assert(r@ + merged(a@.skip(i + 1), b@.skip(j + 1)) =~= (r@.drop_last()
                            + seq![sa[0]]) + merged(sa.drop_first(), sb.drop_first()));
                        assert(r@.drop_last() + (seq![sa[0]] + merged(
                            sa.drop_first(),
                            sb.drop_first(),
                        )) =~= (r@.drop_last() + seq![sa[0]]) + merged(
                            sa.drop_first(),
                            sb.drop_first(),
                        ));
                    }
                    i = i + 1;
                    j = j + 1;
                }
                Cmp::Less => {
                    r.push(a[i].dup());
                    proof {
                        assert(merged(sa, sb) == seq![sa[0]] + merged(sa.drop_first(), sb));
                        assert(r@ + merged(a@.skip(i + 1), b@.skip(j as int)) =~= (r@.drop_last()
                            + seq![sa[0]]) + merged(sa.drop_first(), sb));
                        assert(r@.drop_last() + (seq![sa[0]] + merged(sa.drop_first(), sb)) =~= (
                        r@.drop_last() + seq![sa[0]]) + merged(sa.drop_first(), sb));
                    }
                    i = i + 1;
                }
                Cmp::Greater => {
                    r.push(b[j].dup());
                    proof {
                        assert(merged(sa, sb) == seq![sb[0]] + merged(sa, sb.drop_first()));
                        assert(r@ + merged(a@.skip(i as int), b@.skip(j + 1)) =~= (r@.drop_last()
                            + seq![sb[0]]) + merged(sa, sb.drop_first()));
                        assert(r@.drop_last() + (seq![sb[0]] + merged(sa, sb.drop_first())) =~= (
                        r@.drop_last() + seq![sb[0]]) + merged(sa, sb.drop_first()));
                    }
                    j = j + 1;
                }
            }
        } else if i < a.len() {
            proof {
                assert(sa[0] == a@[i as int]);
                assert(sb.len() == 0);
                assert(sa.drop_first() =~= a@.skip(i + 1));
                assert(merged(sa, sb) =~= seq![sa[0]] + merged(a@.skip(i + 1), sb));
            }
            r.push(a[i].dup());
            proof {
                assert(r@ + merged(a@.skip(i + 1), b@.skip(j as int)) =~= (r@.drop_last()
                    + seq![sa[0]]) + merged(a@.skip(i + 1), sb));
                assert(r@.drop_last() + (seq![sa[0]] + merged(a@.skip(i + 1), sb)) =~= (
                r@.drop_last() + seq![sa[0]]) + merged(a@.skip(i + 1), sb));
            }
            i = i + 1;
        } else {
            proof {
                assert(sb[0] == b@[j as int]);
                assert(sa.len() == 0);
                assert(sb.drop_first() =~= b@.skip(j + 1));
                assert(merged(sa, sb) =~= seq![sb[0]] + merged(sa, b@.skip(j + 1)));
            }
            r.push(b[j].dup());
            proof {
                assert(r@ + merged(a@.skip(i as int), b@.skip(j + 1)) =~= (r@.drop_last()
                    + seq![sb[0]]) + merged(sa, b@.skip(j + 1)));
                assert(r@.drop_last() + (seq![sb[0]] + merged(sa, b@.skip(j + 1))) =~= (
                r@.drop_last() + seq![sb[0]]) + merged(sa, b@.skip(j + 1)));
            }
            j = j + 1;
        }
    }
    proof {
        assert(a@.skip(i as int) =~= Seq::<T>::empty());
        assert(b@.skip(j as int) =~= Seq::<T>::empty());
        assert(merged(a@.skip(i as int), b@.skip(j as int)) =~= Seq::<T>::empty());
        assert(r@ + Seq::<T>::empty() =~= r@);
    }
    r
}

/// Removing an index keeps a run sorted.
pub proof fn lemma_remove_sorted<T: Ordered>(s: Seq<T>, j: int)
    requires
        strict_sorted(s),
        0 <= j < s.len(),
    ensures
        strict_sorted(s.remove(j)),
{
    let r = s.remove(j);
    assert forall|p: int, q: int| 0 <= p < q < r.len() implies lt(r[p], r[q]) by {
        let p0 = if p < j { p } else { p + 1 };
        let q0 = if q < j { q } else { q + 1 };
        assert(r[p] == s[p0]);
        assert(r[q] == s[q0]);
    }
}

} // verus!
