//! Sorting.

use vstd::prelude::*;
use vstd::relations::{sorted_by, total_ordering};
use vstd::seq_lib::{lemma_multiset_commutative, lemma_sorted_unique, to_multiset_build};

verus! {

/// Something with a key by which it is ordered.
pub trait Ordered: Sized {
    /// What the order looks at.
    type Key;

    /// The key of a value.
    spec fn key(&self) -> Self::Key;

    /// Whether one key comes before another or is the same.
    spec fn leq(a: Self::Key, b: Self::Key) -> bool;

    /// The order is total.
    proof fn lemma_total(a: Self::Key, b: Self::Key, c: Self::Key)
        ensures
            Self::leq(a, a),
            Self::leq(a, b) || Self::leq(b, a),
            Self::leq(a, b) && Self::leq(b, a) ==> a == b,
            Self::leq(a, b) && Self::leq(b, c) ==> Self::leq(a, c),
    ;

    /// Whether one value comes before another or has the same key.
    fn le(&self, other: &Self) -> (le: bool)
        ensures
            le == Self::leq(self.key(), other.key()),
    ;

    /// A copy of the value.
    fn copy(&self) -> (copy: Self)
        ensures
            copy.key() == self.key(),
    ;
}

/// The keys of values.
pub open spec fn keys<T: Ordered>(items: Seq<T>) -> Seq<T::Key> {
    items.map_values(|t: T| t.key())
}

/// The order as a relation.
pub open spec fn order<T: Ordered>() -> spec_fn(T::Key, T::Key) -> bool {
    |a: T::Key, b: T::Key| T::leq(a, b)
}

/// Keys in ascending order.
pub open spec fn ascending<T: Ordered>(keys: Seq<T::Key>) -> Seq<T::Key> {
    keys.sort_by(order::<T>())
}

pub proof fn lemma_order<T: Ordered>()
    ensures
        total_ordering(order::<T>()),
{
    let leq = order::<T>();
    assert forall|a: T::Key| #[trigger] leq(a, a) by {
        T::lemma_total(a, a, a);
    }
    assert forall|a: T::Key, b: T::Key| #[trigger] leq(a, b) && #[trigger] leq(b, a) implies a
        == b by {
        T::lemma_total(a, b, a);
    }
    assert forall|a: T::Key, b: T::Key| #[trigger] leq(a, b) || #[trigger] leq(b, a) by {
        T::lemma_total(a, b, a);
    }
    assert forall|a: T::Key, b: T::Key, c: T::Key| #[trigger] leq(a, b) && #[trigger] leq(
        b,
        c,
    ) implies leq(a, c) by {
        T::lemma_total(a, b, c);
    }
}

/// What [`ascending`] gives: the same keys, in order.
pub proof fn lemma_ascending<T: Ordered>(s: Seq<T::Key>)
    ensures
        sorted_by(ascending::<T>(s), order::<T>()),
        ascending::<T>(s).to_multiset() == s.to_multiset(),
{
    lemma_order::<T>();
    s.lemma_sort_by_ensures(order::<T>());
}

/// Only one arrangement of the same keys is in order.
pub proof fn lemma_ascending_unique<T: Ordered>(sorted: Seq<T::Key>, s: Seq<T::Key>)
    requires
        sorted_by(sorted, order::<T>()),
        sorted.to_multiset() == s.to_multiset(),
    ensures
        sorted == ascending::<T>(s),
{
    lemma_order::<T>();
    lemma_ascending::<T>(s);
    lemma_sorted_unique(sorted, ascending::<T>(s), order::<T>());
}

/// The keys at some positions.
spec fn keys_at<T: Ordered>(items: Seq<T>, positions: Seq<usize>) -> Seq<T::Key> {
    Seq::new(positions.len(), |i: int| items[positions[i] as int].key())
}

/// Positions are in range and their keys in order.
spec fn in_order<T: Ordered>(items: Seq<T>, positions: Seq<usize>) -> bool {
    &&& forall|i: int| 0 <= i < positions.len() ==> (#[trigger] positions[i]) < items.len()
    &&& forall|i: int, j: int|
        0 <= i < j < positions.len() ==> T::leq(
            items[#[trigger] positions[i] as int].key(),
            items[#[trigger] positions[j] as int].key(),
        )
}

/// Merges two runs of positions.
fn merge<T: Ordered>(items: &Vec<T>, left: &Vec<usize>, right: &Vec<usize>) -> (out: Vec<usize>)
    requires
        in_order(items@, left@),
        in_order(items@, right@),
        left@.len() + right@.len() <= usize::MAX,
    ensures
        in_order(items@, out@),
        keys_at(items@, out@).to_multiset() == (keys_at(items@, left@) + keys_at(
            items@,
            right@,
        )).to_multiset(),
{
    let mut out: Vec<usize> = Vec::new();
    let mut i: usize = 0;
    let mut j: usize = 0;
    let ghost lk = keys_at(items@, left@);
    let ghost rk = keys_at(items@, right@);
    assert(keys_at(items@, out@) =~= lk.take(0) + rk.take(0));
    while i < left.len() || j < right.len()
        invariant
            in_order(items@, left@),
            in_order(items@, right@),
            in_order(items@, out@),
            lk == keys_at(items@, left@),
            rk == keys_at(items@, right@),
            i <= left@.len(),
            j <= right@.len(),
            keys_at(items@, out@).to_multiset() == (lk.take(i as int) + rk.take(
                j as int,
            )).to_multiset(),
            forall|x: int, y: int|
                0 <= x < out@.len() && i <= y < left@.len() ==> T::leq(
                    items@[#[trigger] out@[x] as int].key(),
                    items@[#[trigger] left@[y] as int].key(),
                ),
            forall|x: int, y: int|
                0 <= x < out@.len() && j <= y < right@.len() ==> T::leq(
                    items@[#[trigger] out@[x] as int].key(),
                    items@[#[trigger] right@[y] as int].key(),
                ),
        decreases left@.len() - i + right@.len() - j,
    {
        let from_left: bool = i < left.len() && (j >= right.len() || items[left[i]].le(
            &items[right[j]],
        ));
        let ghost before = out@;
        if from_left {
            let p: usize = left[i];
            out.push(p);
            proof {
                assert forall|y: int| i <= y < left@.len() implies T::leq(
                    items@[p as int].key(),
                    items@[#[trigger] left@[y] as int].key(),
                ) by {
                    T::lemma_total(items@[p as int].key(), items@[p as int].key(), items@[p as int].key());
                    if y > i {
                        assert(left@[i as int] == p);
                    }
                }
                assert forall|y: int| j <= y < right@.len() implies T::leq(
                    items@[p as int].key(),
                    items@[#[trigger] right@[y] as int].key(),
                ) by {
                    if y > j {
                        assert(T::leq(
                            items@[right@[j as int] as int].key(),
                            items@[right@[y] as int].key(),
                        ));
                        T::lemma_total(
                            items@[p as int].key(),
                            items@[right@[j as int] as int].key(),
                            items@[right@[y] as int].key(),
                        );
                    }
                }
                assert(lk.take(i + 1) =~= lk.take(i as int).push(lk[i as int]));
                assert(keys_at(items@, out@) =~= keys_at(items@, before).push(lk[i as int]));
                to_multiset_build(keys_at(items@, before), lk[i as int]);
                lemma_multiset_commutative(lk.take(i as int), rk.take(j as int));
                lemma_multiset_commutative(lk.take(i + 1), rk.take(j as int));
                to_multiset_build(lk.take(i as int), lk[i as int]);
            }
            i = i + 1;
        } else {
            let p: usize = right[j];
            out.push(p);
            proof {
                assert forall|y: int| j <= y < right@.len() implies T::leq(
                    items@[p as int].key(),
                    items@[#[trigger] right@[y] as int].key(),
                ) by {
                    T::lemma_total(items@[p as int].key(), items@[p as int].key(), items@[p as int].key());
                    if y > j {
                        assert(right@[j as int] == p);
                    }
                }
                assert forall|y: int| i <= y < left@.len() implies T::leq(
                    items@[p as int].key(),
                    items@[#[trigger] left@[y] as int].key(),
                ) by {
                    T::lemma_total(
                        items@[left@[i as int] as int].key(),
                        items@[p as int].key(),
                        items@[p as int].key(),
                    );
                    if y > i {
                        assert(T::leq(
                            items@[left@[i as int] as int].key(),
                            items@[left@[y] as int].key(),
                        ));
                        T::lemma_total(
                            items@[p as int].key(),
                            items@[left@[i as int] as int].key(),
                            items@[left@[y] as int].key(),
                        );
                    }
                }
                assert(rk.take(j + 1) =~= rk.take(j as int).push(rk[j as int]));
                assert(keys_at(items@, out@) =~= keys_at(items@, before).push(rk[j as int]));
                to_multiset_build(keys_at(items@, before), rk[j as int]);
                lemma_multiset_commutative(lk.take(i as int), rk.take(j as int));
                lemma_multiset_commutative(lk.take(i as int), rk.take(j + 1));
                to_multiset_build(rk.take(j as int), rk[j as int]);
            }
            j = j + 1;
        }
    }
    assert(lk.take(i as int) =~= lk);
    assert(rk.take(j as int) =~= rk);
    out
}

/// The positions from `lo` to `hi`, by ascending key.
fn sort_positions<T: Ordered>(items: &Vec<T>, lo: usize, hi: usize) -> (out: Vec<usize>)
    requires
        lo <= hi <= items@.len(),
    ensures
        in_order(items@, out@),
        keys_at(items@, out@).to_multiset() == keys(items@).subrange(
            lo as int,
            hi as int,
        ).to_multiset(),
        out@.len() == hi - lo,
    decreases hi - lo,
{
    let ghost all = keys(items@);
    if hi - lo <= 1 {
        let mut out: Vec<usize> = Vec::new();
        if hi - lo == 1 {
            out.push(lo);
        }
        assert(keys_at(items@, out@) =~= all.subrange(lo as int, hi as int));
        return out;
    }
    let mid: usize = lo + (hi - lo) / 2;
    let left = sort_positions(items, lo, mid);
    let right = sort_positions(items, mid, hi);
    let out = merge(items, &left, &right);
    proof {
        let l = all.subrange(lo as int, mid as int);
        let r = all.subrange(mid as int, hi as int);
        lemma_multiset_commutative(keys_at(items@, left@), keys_at(items@, right@));
        lemma_multiset_commutative(l, r);
        assert(all.subrange(lo as int, hi as int) =~= l + r);
        vstd::seq_lib::to_multiset_len(keys_at(items@, out@));
        vstd::seq_lib::to_multiset_len(all.subrange(lo as int, hi as int));
    }
    out
}

/// Copies of values, by ascending key.
pub(crate) fn sorted<T: Ordered>(items: &Vec<T>) -> (out: Vec<T>)
    ensures
        keys(out@) == ascending::<T>(keys(items@)),
{
    let positions = sort_positions(items, 0, items.len());
    let mut out: Vec<T> = Vec::new();
    let mut i: usize = 0;
    while i < positions.len()
        invariant
            i <= positions@.len(),
            in_order(items@, positions@),
            keys(out@) == keys_at(items@, positions@).take(i as int),
        decreases positions@.len() - i,
    {
        let ghost before = keys(out@);
        out.push(items[positions[i]].copy());
        assert(keys(out@) =~= before.push(items@[positions@[i as int] as int].key()));
        i = i + 1;
        assert(keys(out@) =~= keys_at(items@, positions@).take(i as int));
    }
    proof {
        let found = keys_at(items@, positions@);
        assert(found.take(i as int) =~= found);
        assert(keys(items@).subrange(0, items@.len() as int) =~= keys(items@));
        assert forall|a: int, b: int| 0 <= a < b < found.len() implies #[trigger] order::<T>()(
            found[a],
            found[b],
        ) by {
            let pa = positions@[a];
            let pb = positions@[b];
        }
        lemma_ascending_unique::<T>(found, keys(items@));
    }
    out
}

/// What is sorted has the same keys, each as often, and none before a smaller one.
pub proof fn sorted_keys_are_the_same_keys_in_order<T: Ordered>(s: Seq<T::Key>, i: int, j: int)
    requires
        0 <= i < j < s.len(),
    ensures
        ascending::<T>(s).to_multiset() == s.to_multiset(),
        ascending::<T>(s).len() == s.len(),
        T::leq(ascending::<T>(s)[i], ascending::<T>(s)[j]),
{
    lemma_ascending::<T>(s);
    s.to_multiset_ensures();
    ascending::<T>(s).to_multiset_ensures();
    let leq = order::<T>();
    assert(leq(ascending::<T>(s)[i], ascending::<T>(s)[j]));
}

/// The key of each value stands where the value does.
pub proof fn keys_stand_where_their_values_do<T: Ordered>(items: Seq<T>, i: int)
    requires
        0 <= i < items.len(),
    ensures
        keys(items).len() == items.len(),
        keys(items)[i] == items[i].key(),
{
}

} // verus!
