//! A merge sort for any type whose view carries a total order.

use vstd::multiset::Multiset;
use vstd::prelude::*;
use vstd::relations::{sorted_by, total_ordering};

verus! {

/// A type whose values are put in order by their views.
pub trait TotalOrder: View + Sized {
    /// `a` does not come after `b`.
    spec fn key_le(a: Self::V, b: Self::V) -> bool;

    /// Tests whether `self` does not come after `other`.
    fn le(&self, other: &Self) -> (r: bool)
        ensures
            r == Self::key_le(self@, other@),
    ;

    proof fn key_le_is_total()
        ensures
            forall|a: Self::V| #[trigger] Self::key_le(a, a),
            forall|a: Self::V, b: Self::V| #[trigger]
                Self::key_le(a, b) && #[trigger] Self::key_le(b, a) ==> a == b,
            forall|a: Self::V, b: Self::V, c: Self::V| #[trigger]
                Self::key_le(a, b) && #[trigger] Self::key_le(b, c) ==> Self::key_le(a, c),
            forall|a: Self::V, b: Self::V| #[trigger] Self::key_le(a, b) || #[trigger] Self::key_le(b, a),
    ;
}

/// The order of `T`'s views as a relation.
pub open spec fn order<T: TotalOrder>() -> spec_fn(T::V, T::V) -> bool {
    |a: T::V, b: T::V| T::key_le(a, b)
}

proof fn lemma_order_is_total<T: TotalOrder>()
    ensures
        total_ordering(order::<T>()),
{
    T::key_le_is_total();
}

/// The views of the items of `s`, in the same places.
pub open spec fn keys<T: View>(s: Seq<T>) -> Seq<T::V> {
    Seq::new(s.len(), |i: int| s[i]@)
}

/// What the views of `s` are once they have been put in order.
pub open spec fn sorted_keys<T: TotalOrder>(s: Seq<T>) -> Seq<T::V> {
    keys(s).sort_by(order::<T>())
}

proof fn lemma_keys_drop_last<T: View>(s: Seq<T>)
    requires
        s.len() > 0,
    ensures
        keys(s.subrange(0, s.len() - 1)) == keys(s).drop_last(),
        keys(s).to_multiset() == keys(s).drop_last().to_multiset().insert(keys(s).last()),
{
    broadcast use vstd::seq_lib::group_to_multiset_ensures;

    assert(keys(s.subrange(0, s.len() - 1)) =~= keys(s).drop_last());
    assert(keys(s) =~= keys(s).drop_last().push(keys(s).last()));
}

proof fn lemma_prepend<K>(x: K, tail: Seq<K>)
    ensures
        (seq![x] + tail).to_multiset() == tail.to_multiset().insert(x),
{
    broadcast use vstd::seq_lib::group_to_multiset_ensures;

    assert(seq![x] + tail =~= tail.insert(0, x));
}

/// Moves the largest remaining item of `from` to the end of `out`, which is filled from the
/// largest item down.
fn move_last<T: TotalOrder>(from: &mut Vec<T>, out: &mut Vec<T>)
    requires
        old(from)@.len() > 0,
    ensures
        keys(final(from)@) == keys(old(from)@).drop_last(),
        keys(final(out)@).reverse() == seq![keys(old(from)@).last()] + keys(old(out)@).reverse(),
        final(from)@.len() == old(from)@.len() - 1,
        final(out)@.len() == old(out)@.len() + 1,
{
    proof {
        lemma_keys_drop_last(from@);
    }
    if let Some(x) = from.pop() {
        out.push(x);
        assert(keys(out@).reverse() =~= seq![keys(old(from)@).last()] + keys(old(out)@).reverse());
    }
}

/// The smallest items wait in `a` and `b`, the rest stands in `tail`, and all are in order.
spec fn merging<T: TotalOrder>(a: Seq<T::V>, b: Seq<T::V>, tail: Seq<T::V>, all: Multiset<T::V>) -> bool {
    &&& sorted_by(a, order::<T>())
    &&& sorted_by(b, order::<T>())
    &&& sorted_by(tail, order::<T>())
    &&& tail.len() > 0 ==> forall|i: int| 0 <= i < a.len() ==> T::key_le(#[trigger] a[i], tail[0])
    &&& tail.len() > 0 ==> forall|i: int| 0 <= i < b.len() ==> T::key_le(#[trigger] b[i], tail[0])
    &&& a.to_multiset().add(b.to_multiset()).add(tail.to_multiset()) == all
}

proof fn lemma_merge_step<T: TotalOrder>(a: Seq<T::V>, b: Seq<T::V>, tail: Seq<T::V>, all: Multiset<T::V>)
    requires
        merging::<T>(a, b, tail, all),
        a.len() > 0,
        b.len() > 0 ==> T::key_le(b.last(), a.last()),
    ensures
        merging::<T>(a.drop_last(), b, seq![a.last()] + tail, all),
        merging::<T>(b, a.drop_last(), seq![a.last()] + tail, all),
{
    broadcast use vstd::seq_lib::group_to_multiset_ensures;

    lemma_order_is_total::<T>();
    let le = order::<T>();
    let x = a.last();
    assert(le(x, x));
    lemma_prepend(x, tail);
    assert(a =~= a.drop_last().push(x));
    assert forall|i: int| 0 <= i < b.len() implies T::key_le(#[trigger] b[i], x) by {
        assert(le(b[i], b.last()));
        assert(le(b.last(), x));
    }
    assert forall|i: int| 0 <= i < a.len() - 1 implies T::key_le(#[trigger] a.drop_last()[i], x) by {
        assert(le(a[i], a[a.len() - 1]));
    }
    let grown = seq![x] + tail;
    assert forall|i: int, j: int| 0 <= i < j < grown.len() implies #[trigger] le(grown[i], grown[j]) by {
        if i == 0 {
            assert(le(x, tail[0]));
            assert(le(tail[0], tail[j - 1]));
        } else {
            assert(le(tail[i - 1], tail[j - 1]));
        }
    }
    assert(sorted_by(a.drop_last(), le)) by {
        assert forall|i: int, j: int| 0 <= i < j < a.len() - 1 implies #[trigger] le(
            a.drop_last()[i],
            a.drop_last()[j],
        ) by {
            assert(le(a[i], a[j]));
        }
    }
    let m = a.drop_last().to_multiset();
    assert(m.add(b.to_multiset()).add(grown.to_multiset()) =~= all);
    assert(b.to_multiset().add(m).add(grown.to_multiset()) =~= all);
}

proof fn lemma_merging_swap<T: TotalOrder>(a: Seq<T::V>, b: Seq<T::V>, tail: Seq<T::V>, all: Multiset<T::V>)
    requires
        merging::<T>(a, b, tail, all),
    ensures
        merging::<T>(b, a, tail, all),
{
    assert(a.to_multiset().add(b.to_multiset()) =~= b.to_multiset().add(a.to_multiset()));
}

/// Merges two vectors that are in order into one, largest item first.
fn merge_down<T: TotalOrder>(mut a: Vec<T>, mut b: Vec<T>) -> (out: Vec<T>)
    requires
        sorted_by(keys(a@), order::<T>()),
        sorted_by(keys(b@), order::<T>()),
    ensures
        sorted_by(keys(out@).reverse(), order::<T>()),
        keys(out@).reverse().to_multiset() == keys(a@).to_multiset().add(keys(b@).to_multiset()),
{
    let mut out: Vec<T> = Vec::new();
    let ghost all = keys(a@).to_multiset().add(keys(b@).to_multiset());
    proof {
        broadcast use vstd::seq_lib::group_to_multiset_ensures;

        assert(keys(out@).reverse().to_multiset() =~= Multiset::empty());
        assert(all.add(Multiset::empty()) =~= all);
    }
    while a.len() > 0 || b.len() > 0
        invariant
            merging::<T>(keys(a@), keys(b@), keys(out@).reverse(), all),
        decreases a@.len() + b@.len(),
    {
        let from_a: bool = if a.len() == 0 {
            false
        } else if b.len() == 0 {
            true
        } else {
            b[b.len() - 1].le(&a[a.len() - 1])
        };
        proof {
            lemma_order_is_total::<T>();
            if a@.len() > 0 && b@.len() > 0 {
                let le = order::<T>();
                assert(le(keys(a@).last(), keys(b@).last()) || le(keys(b@).last(), keys(a@).last()));
            }
            if from_a {
                lemma_merge_step::<T>(keys(a@), keys(b@), keys(out@).reverse(), all);
            } else {
                lemma_merging_swap::<T>(keys(a@), keys(b@), keys(out@).reverse(), all);
                lemma_merge_step::<T>(keys(b@), keys(a@), keys(out@).reverse(), all);
            }
        }
        if from_a {
            move_last(&mut a, &mut out);
        } else {
            move_last(&mut b, &mut out);
        }
    }
    proof {
        broadcast use vstd::seq_lib::group_to_multiset_ensures;

        assert(keys(a@).to_multiset().add(keys(b@).to_multiset()).add(keys(out@).reverse().to_multiset())
            =~= keys(out@).reverse().to_multiset());
    }
    out
}

fn reversed<T: TotalOrder>(mut v: Vec<T>) -> (out: Vec<T>)
    ensures
        keys(out@) == keys(v@).reverse(),
{
    let mut out: Vec<T> = Vec::new();
    let ghost whole = keys(v@);
    while v.len() > 0
        invariant
            keys(out@) + keys(v@).reverse() == whole.reverse(),
        decreases v@.len(),
    {
        let ghost before = keys(v@);
        let ghost done = keys(out@);
        proof {
            lemma_keys_drop_last(v@);
        }
        if let Some(x) = v.pop() {
            out.push(x);
            assert(keys(out@) =~= done.push(before.last()));
            assert(keys(out@) + keys(v@).reverse() =~= done + before.reverse());
        }
    }
    assert(keys(out@) =~= keys(out@) + keys(v@).reverse());
    out
}

/// Puts `v` in order, smallest view first.
pub fn merge_sort<T: TotalOrder>(mut v: Vec<T>) -> (out: Vec<T>)
    ensures
        keys(out@) == sorted_keys(v@),
    decreases v@.len(),
{
    let ghost le = order::<T>();
    proof {
        lemma_order_is_total::<T>();
        keys(v@).lemma_sort_by_ensures(le);
    }
    if v.len() <= 1 {
        proof {
            vstd::seq_lib::lemma_sorted_unique(keys(v@), sorted_keys(v@), le);
        }
        return v;
    }
    let ghost whole = v@;
    let half: usize = v.len() / 2;
    let right: Vec<T> = v.split_off(half);
    let ghost (l, r) = (v@, right@);
    proof {
        assert(keys(whole) =~= keys(l) + keys(r));
        vstd::seq_lib::lemma_multiset_commutative(keys(l), keys(r));
        keys(l).lemma_sort_by_ensures(le);
        keys(r).lemma_sort_by_ensures(le);
    }
    let left: Vec<T> = merge_sort(v);
    let right: Vec<T> = merge_sort(right);
    let down: Vec<T> = merge_down(left, right);
    proof {
        vstd::seq_lib::lemma_sorted_unique(keys(down@).reverse(), sorted_keys(whole), le);
    }
    reversed(down)
}

/// `s` put in order has the items of `s`, and its views never step down.
pub proof fn lemma_sorted_keys<T: TotalOrder>(s: Seq<T>)
    ensures
        sorted_by(sorted_keys(s), order::<T>()),
        sorted_keys(s).to_multiset() == keys(s).to_multiset(),
        sorted_keys(s).len() == s.len(),
{
    broadcast use vstd::seq_lib::group_to_multiset_ensures;

    lemma_order_is_total::<T>();
    keys(s).lemma_sort_by_ensures(order::<T>());
    assert(sorted_keys(s).to_multiset().len() == keys(s).to_multiset().len());
}

/// The order of the items makes no difference to the sorted result.
pub proof fn lemma_sort_ignores_order<T: TotalOrder>(s: Seq<T::V>, t: Seq<T::V>)
    requires
        s.to_multiset() == t.to_multiset(),
    ensures
        s.sort_by(order::<T>()) == t.sort_by(order::<T>()),
{
    lemma_order_is_total::<T>();
    s.lemma_sort_by_ensures(order::<T>());
    t.lemma_sort_by_ensures(order::<T>());
    vstd::seq_lib::lemma_sorted_unique(s.sort_by(order::<T>()), t.sort_by(order::<T>()), order::<T>());
}

impl TotalOrder for u16 {
    open spec fn key_le(a: u16, b: u16) -> bool {
        a <= b
    }

    fn le(&self, other: &u16) -> (r: bool) {
        *self <= *other
    }

    proof fn key_le_is_total() {
    }
}

impl TotalOrder for (u32, u32) {
    open spec fn key_le(a: (u32, u32), b: (u32, u32)) -> bool {
        a.0 < b.0 || (a.0 == b.0 && a.1 <= b.1)
    }

    fn le(&self, other: &(u32, u32)) -> (r: bool) {
        self.0 < other.0 || (self.0 == other.0 && self.1 <= other.1)
    }

    proof fn key_le_is_total() {
    }
}

/// Byte strings in dictionary order: a proper prefix comes first.
pub open spec fn bytes_le(a: Seq<u8>, b: Seq<u8>) -> bool
    decreases a.len(),
{
    if a.len() == 0 {
        true
    } else if b.len() == 0 {
        false
    } else if a[0] != b[0] {
        a[0] < b[0]
    } else {
        bytes_le(a.skip(1), b.skip(1))
    }
}

proof fn lemma_bytes_le_total(a: Seq<u8>, b: Seq<u8>)
    ensures
        bytes_le(a, a),
        bytes_le(a, b) || bytes_le(b, a),
        bytes_le(a, b) && bytes_le(b, a) ==> a == b,
    decreases a.len() + b.len(),
{
    if a.len() > 0 {
        lemma_bytes_le_total(a.skip(1), if b.len() > 0 { b.skip(1) } else { b });
    }
    if a.len() > 0 && b.len() > 0 && a[0] == b[0] && a.skip(1) == b.skip(1) {
        assert(a =~= seq![a[0]] + a.skip(1));
        assert(b =~= seq![b[0]] + b.skip(1));
    }
    if a.len() == 0 && b.len() == 0 {
        assert(a =~= b);
    }
}

proof fn lemma_bytes_le_trans(a: Seq<u8>, b: Seq<u8>, c: Seq<u8>)
    requires
        bytes_le(a, b),
        bytes_le(b, c),
    ensures
        bytes_le(a, c),
    decreases a.len(),
{
    if a.len() > 0 && b.len() > 0 && c.len() > 0 && a[0] == b[0] && b[0] == c[0] {
        lemma_bytes_le_trans(a.skip(1), b.skip(1), c.skip(1));
    }
}

impl TotalOrder for Vec<u8> {
    open spec fn key_le(a: Seq<u8>, b: Seq<u8>) -> bool {
        bytes_le(a, b)
    }

    fn le(&self, other: &Vec<u8>) -> (r: bool) {
        let mut i: usize = 0;
        assert(self@.skip(0) =~= self@);
        assert(other@.skip(0) =~= other@);
        while i < self.len()
            invariant
                i <= self@.len(),
                i <= other@.len(),
                bytes_le(self@, other@) == bytes_le(self@.skip(i as int), other@.skip(i as int)),
            decreases self@.len() - i,
        {
            if i >= other.len() {
                return false;
            }
            if self[i] != other[i] {
                return self[i] < other[i];
            }
            assert(self@.skip(i as int).skip(1) =~= self@.skip(i + 1));
            assert(other@.skip(i as int).skip(1) =~= other@.skip(i + 1));
            i = i + 1;
        }
        true
    }

    proof fn key_le_is_total() {
        assert forall|a: Seq<u8>| #[trigger] bytes_le(a, a) by {
            lemma_bytes_le_total(a, a);
        }
        assert forall|a: Seq<u8>, b: Seq<u8>| #[trigger] bytes_le(a, b) && #[trigger] bytes_le(
            b,
            a,
        ) implies a == b by {
            lemma_bytes_le_total(a, b);
        }
        assert forall|a: Seq<u8>, b: Seq<u8>, c: Seq<u8>| #[trigger]
            bytes_le(a, b) && #[trigger] bytes_le(b, c) implies bytes_le(a, c) by {
            lemma_bytes_le_trans(a, b, c);
        }
        assert forall|a: Seq<u8>, b: Seq<u8>| #[trigger] bytes_le(a, b) || #[trigger] bytes_le(b, a) by {
            lemma_bytes_le_total(a, b);
        }
    }
}

} // verus!
