//! Sorting by a strict ranking, and the canonical order of an item set.

use vstd::prelude::*;
use vstd::multiset::Multiset;
use vstd::seq_lib::{to_multiset_contains, to_multiset_insert, to_multiset_remove};
use crate::item::{lemma_item_order, ConcretizedItem};

verus! {

/// A type whose values are ranked by a strict weak order.
pub trait Ranked: Sized {
    /// `self` ranks strictly before `other`.
    spec fn ranks_before(&self, other: &Self) -> bool;

    /// Whether `self` ranks strictly before `other`.
    fn is_before(&self, other: &Self) -> (r: bool)
        ensures
            r == self.ranks_before(other),
    ;

    /// The ranking is irreflexive and transitive, and so is its complement.
    proof fn lemma_ranking(a: &Self, b: &Self, c: &Self)
        ensures
            !a.ranks_before(a),
            a.ranks_before(b) && b.ranks_before(c) ==> a.ranks_before(c),
            !a.ranks_before(b) && !b.ranks_before(c) ==> !a.ranks_before(c),
    ;
}

/// No element of `s` ranks before an earlier one.
pub open spec fn ascending<T: Ranked>(s: Seq<T>) -> bool {
    forall|i: int, j: int| 0 <= i < j < s.len() ==> !#[trigger] s[j].ranks_before(&s[i])
}

/// Sorts `v` by rank. The result holds the elements of `v`, each as often as
/// `v` does, and none of them ranks before an earlier one.
pub fn sort<T: Ranked>(v: Vec<T>) -> (out: Vec<T>)
    ensures
        ascending(out@),
        out@.to_multiset() == v@.to_multiset(),
{
    let ghost all = v@;
    let mut rest = v;
    let mut out: Vec<T> = Vec::new();
    assert(out@.to_multiset().add(rest@.to_multiset()) =~= all.to_multiset()) by {
        out@.to_multiset_ensures();
    }
    while rest.len() > 0
        invariant
            ascending(out@),
            out@.to_multiset().add(rest@.to_multiset()) == all.to_multiset(),
        decreases rest@.len(),
    {
        let ghost rest_before = rest@;
        let ghost out_before = out@;
        let x = rest.pop().unwrap();
        let mut p: usize = 0;
        while p < out.len() && !x.is_before(&out[p])
            invariant
                p <= out@.len(),
                out@ == out_before,
                forall|q: int| 0 <= q < p ==> !x.ranks_before(&#[trigger] out@[q]),
            decreases out@.len() - p,
        {
            p += 1;
        }
        out.insert(p, x);
        proof {
            broadcast use vstd::multiset::group_multiset_axioms;

            assert(rest@ =~= rest_before.remove(rest_before.len() - 1));
            to_multiset_remove(rest_before, rest_before.len() - 1);
            to_multiset_insert(out_before, p as int, x);
            assert(rest_before.contains(x)) by {
                assert(rest_before[rest_before.len() - 1] == x);
            }
            to_multiset_contains(rest_before, x);
            assert(out@.to_multiset().add(rest@.to_multiset()) =~= all.to_multiset());
            assert forall|i: int, j: int| 0 <= i < j < out@.len() implies !#[trigger] out@[j].ranks_before(
                &out@[i],
            ) by {
                if j == p {
                    assert(out@[i] == out_before[i]);
                } else if i == p {
                    assert(out@[j] == out_before[j - 1]);
                    T::lemma_ranking(&out_before[j - 1], &x, &out_before[p as int]);
                    T::lemma_ranking(&x, &out_before[p as int], &x);
                } else {
                    let i0 = if i < p { i } else { i - 1 };
                    let j0 = if j < p { j } else { j - 1 };
                    assert(out@[i] == out_before[i0]);
                    assert(out@[j] == out_before[j0]);
                }
            }
        }
    }
    assert(rest@.to_multiset() =~= Multiset::<T>::empty()) by {
        rest@.to_multiset_ensures();
    }
    assert(out@.to_multiset() =~= out@.to_multiset().add(rest@.to_multiset()));
    out
}

impl Ranked for ConcretizedItem {
    open spec fn ranks_before(&self, other: &Self) -> bool {
        self.lt(*other)
    }

    fn is_before(&self, other: &Self) -> (r: bool) {
        self.precedes(*other)
    }

    proof fn lemma_ranking(a: &Self, b: &Self, c: &Self) {
        lemma_item_order(*a, *b, *c);
    }
}

/// Each element of `s` comes strictly before every later one in the
/// canonical order of items.
pub open spec fn increasing(s: Seq<ConcretizedItem>) -> bool {
    forall|i: int, j: int| 0 <= i < j < s.len() ==> (#[trigger] s[i]).lt(#[trigger] s[j])
}

/// `s` lists the items of `set` in canonical order.
pub open spec fn lists_in_order(s: Seq<ConcretizedItem>, set: Set<ConcretizedItem>) -> bool {
    increasing(s) && s.to_set() == set
}

/// The items of a finite set in canonical order.
pub open spec fn canonical(set: Set<ConcretizedItem>) -> Seq<ConcretizedItem> {
    choose|s: Seq<ConcretizedItem>| lists_in_order(s, set)
}

/// An increasing sequence holds nothing twice.
pub proof fn lemma_increasing_distinct(s: Seq<ConcretizedItem>)
    requires
        increasing(s),
    ensures
        s.no_duplicates(),
{
    assert forall|i: int, j: int| 0 <= i < s.len() && 0 <= j < s.len() && i != j implies s[i]
        != s[j] by {
        if i < j {
            assert(s[i].lt(s[j]));
        } else {
            assert(s[j].lt(s[i]));
        }
    }
}

/// Two increasing sequences with the same items are the same sequence.
pub proof fn lemma_order_unique(a: Seq<ConcretizedItem>, b: Seq<ConcretizedItem>)
    requires
        increasing(a),
        increasing(b),
        a.to_set() == b.to_set(),
    ensures
        a == b,
    decreases a.len(),
{
    lemma_increasing_distinct(a);
    lemma_increasing_distinct(b);
    a.unique_seq_to_set();
    b.unique_seq_to_set();
    if a.len() > 0 {
        let x = a.last();
        let y = b.last();
        // The last element of each is the greatest item of the set.
        assert(a.to_set().contains(x));
        assert(b.contains(x));
        assert(b.to_set().contains(y));
        assert(a.contains(y));
        let i = choose|i: int| 0 <= i < b.len() && b[i] == x;
        let j = choose|j: int| 0 <= j < a.len() && a[j] == y;
        lemma_item_order(x, y, x);
        if i < b.len() - 1 {
            assert(b[i].lt(b[b.len() - 1]));
        }
        if j < a.len() - 1 {
            assert(a[j].lt(a[a.len() - 1]));
        }
        assert(x == y);
        let a0 = a.drop_last();
        let b0 = b.drop_last();
        assert forall|z: ConcretizedItem| a0.to_set().contains(z) <==> b0.to_set().contains(z) by {
            if a0.contains(z) {
                let k = choose|k: int| 0 <= k < a0.len() && a0[k] == z;
                assert(a[k] == z);
                assert(a.to_set().contains(z));
                assert(b.contains(z));
                let m = choose|m: int| 0 <= m < b.len() && b[m] == z;
                assert(a[k].lt(a[a.len() - 1]));
                assert(b0[m] == z);
            }
            if b0.contains(z) {
                let k = choose|k: int| 0 <= k < b0.len() && b0[k] == z;
                assert(b[k] == z);
                assert(b.to_set().contains(z));
                assert(a.contains(z));
                let m = choose|m: int| 0 <= m < a.len() && a[m] == z;
                assert(b[k].lt(b[b.len() - 1]));
                assert(a0[m] == z);
            }
        }
        assert(a0.to_set() =~= b0.to_set());
        lemma_order_unique(a0, b0);
        assert(a =~= a0.push(x));
        assert(b =~= b0.push(y));
    } else {
        assert(a =~= b);
    }
}

proof fn lemma_to_seq_distinct(set: Set<ConcretizedItem>)
    requires
        set.finite(),
    ensures
        set.to_seq().no_duplicates(),
        set.to_seq().to_set() == set,
    decreases set.len(),
{
    broadcast use vstd::set::group_set_axioms;

    set.lemma_to_seq_to_set_id();
    if set.len() != 0 {
        let x = set.choose();
        let rest = set.remove(x);
        lemma_to_seq_distinct(rest);
        let s = set.to_seq();
        assert(s =~= seq![x] + rest.to_seq());
        assert forall|i: int, j: int| 0 <= i < s.len() && 0 <= j < s.len() && i != j implies s[i]
            != s[j] by {
            if i > 0 {
                assert(rest.to_seq().to_set().contains(rest.to_seq()[i - 1]));
            }
            if j > 0 {
                assert(rest.to_seq().to_set().contains(rest.to_seq()[j - 1]));
            }
        }
    }
}

/// Every finite set of items has a canonical order.
pub proof fn lemma_canonical_exists(set: Set<ConcretizedItem>)
    requires
        set.finite(),
    ensures
        lists_in_order(canonical(set), set),
{
    let unordered = set.to_seq();
    lemma_to_seq_distinct(set);
    let le = |a: ConcretizedItem, b: ConcretizedItem| a.lt(b) || a == b;
    assert(vstd::relations::total_ordering(le));
    unordered.lemma_sort_by_ensures(le);
    let s = unordered.sort_by(le);
    unordered.lemma_multiset_has_no_duplicates();
    s.lemma_multiset_has_no_duplicates_conv();
    assert forall|x: ConcretizedItem| s.to_set().contains(x) <==> set.contains(x) by {
        to_multiset_contains(s, x);
        to_multiset_contains(unordered, x);
    }
    assert(s.to_set() =~= set);
    assert forall|i: int, j: int| 0 <= i < j < s.len() implies (#[trigger] s[i]).lt(#[trigger] s[j]) by {
        assert(le(s[i], s[j]));
    }
    assert(lists_in_order(s, set));
}

/// The items of `items` in canonical order.
pub fn sort_items(items: &Vec<ConcretizedItem>) -> (out: Vec<ConcretizedItem>)
    requires
        items@.no_duplicates(),
    ensures
        lists_in_order(out@, items@.to_set()),
        out@ == canonical(items@.to_set()),
        out@.len() == items@.len(),
{
    let mut copy: Vec<ConcretizedItem> = Vec::new();
    let mut i: usize = 0;
    while i < items.len()
        invariant
            i <= items@.len(),
            copy@ == items@.take(i as int),
        decreases items@.len() - i,
    {
        copy.push(items[i]);
        assert(items@.take(i as int + 1) =~= items@.take(i as int).push(items@[i as int]));
        i += 1;
    }
    assert(items@.take(i as int) =~= items@);
    let out = sort(copy);
    proof {
        assert(out@.to_multiset() == items@.to_multiset());
        items@.lemma_multiset_has_no_duplicates();
        out@.lemma_multiset_has_no_duplicates_conv();
        assert forall|x: ConcretizedItem| out@.to_set().contains(x) <==> items@.to_set().contains(
            x,
        ) by {
            to_multiset_contains(out@, x);
            to_multiset_contains(items@, x);
        }
        assert(out@.to_set() =~= items@.to_set());
        assert forall|i: int, j: int| 0 <= i < j < out@.len() implies (#[trigger] out@[i]).lt(
            #[trigger] out@[j],
        ) by {
            assert(!out@[j].ranks_before(&out@[i]));
            lemma_item_order(out@[i], out@[j], out@[i]);
        }
        assert(lists_in_order(out@, items@.to_set()));
        lemma_order_unique(out@, canonical(items@.to_set()));
        out@.unique_seq_to_set();
        items@.unique_seq_to_set();
    }
    out
}

} // verus!
