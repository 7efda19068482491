//! The item set and the edge map of an instantiation graph.

use vstd::prelude::*;
use rustc_data_structures::fx::FxHashSet;
use crate::fx::{seen_contains, seen_insert};
use crate::item::{lemma_key_injective, ConcretizedItem, ItemKey};

verus! {

/// A directed reference from one item to another.
#[derive(Clone, Copy, Debug, PartialEq, Eq, Structural, Hash)]
pub struct Edge {
    pub from: ConcretizedItem,
    pub to: ConcretizedItem,
}

/// A set of concretized items. An item is in the set at most once.
#[derive(Debug)]
pub struct ItemSet {
    /// The items, each once, in the order in which they came.
    items: Vec<ConcretizedItem>,
    /// The keys of the items.
    seen: FxHashSet<ItemKey>,
}

impl View for ItemSet {
    type V = Set<ConcretizedItem>;

    closed spec fn view(&self) -> Set<ConcretizedItem> {
        self.items@.to_set()
    }
}

/// `seen` holds the key of an item exactly where `items` holds the item.
pub open spec fn indexes(seen: Set<ItemKey>, items: Seq<ConcretizedItem>) -> bool {
    forall|item: ConcretizedItem| #[trigger] seen.contains(item.spec_key()) <==> items.contains(item)
}

impl ItemSet {
    /// The representation holds each item once, and its key.
    pub closed spec fn wf(&self) -> bool {
        self.items@.no_duplicates() && indexes(self.seen@, self.items@)
    }

    /// The empty set.
    pub fn new() -> (s: Self)
        ensures
            s.wf(),
            s@ == Set::<ConcretizedItem>::empty(),
    {
        let s = ItemSet { items: Vec::new(), seen: FxHashSet::default() };
        assert(s.items@.to_set() =~= Set::<ConcretizedItem>::empty());
        s
    }

    /// The set of the items of a sequence in which nothing occurs twice,
    /// with their keys.
    pub(crate) fn from_distinct(items: Vec<ConcretizedItem>, seen: FxHashSet<ItemKey>) -> (s: Self)
        requires
            items@.no_duplicates(),
            indexes(seen@, items@),
        ensures
            s.wf(),
            s@ == items@.to_set(),
    {
        ItemSet { items, seen }
    }

    /// An item set is finite.
    pub proof fn lemma_finite(&self)
        ensures
            self@.finite(),
    {
    }

    /// Whether `item` is in the set.
    pub fn contains(&self, item: ConcretizedItem) -> (r: bool)
        requires
            self.wf(),
        ensures
            r == self@.contains(item),
    {
        seen_contains(&self.seen, item.key())
    }

    /// Adds `item` and says whether it was new.
    pub fn insert(&mut self, item: ConcretizedItem) -> (fresh: bool)
        requires
            old(self).wf(),
        ensures
            final(self).wf(),
            final(self)@ == old(self)@.insert(item),
            fresh == !old(self)@.contains(item),
    {
        let ghost before = self.items@;
        let fresh = take_in(&mut self.items, &mut self.seen, item);
        assert(self.items@.to_set() =~= before.to_set().insert(item)) by {
            assert forall|x: ConcretizedItem|
                self.items@.to_set().contains(x) <==> before.to_set().insert(item).contains(x) by {
                if before.contains(x) {
                    let i = choose|i: int| 0 <= i < before.len() && before[i] == x;
                    assert(self.items@[i] == x);
                }
                if x == item && fresh {
                    assert(self.items@[before.len() as int] == x);
                }
            }
        }
        fresh
    }

    /// The number of items in the set.
    pub fn len(&self) -> (n: usize)
        requires
            self.wf(),
        ensures
            n == self@.len(),
            self@.finite(),
    {
        proof {
            self.items@.unique_seq_to_set();
        }
        self.items.len()
    }

    /// The items of the set, each once, in no order that callers may rely on.
    pub fn to_vec(&self) -> (v: Vec<ConcretizedItem>)
        requires
            self.wf(),
        ensures
            v@.no_duplicates(),
            v@.to_set() == self@,
    {
        let mut v: Vec<ConcretizedItem> = Vec::new();
        let mut i: usize = 0;
        while i < self.items.len()
            invariant
                i <= self.items@.len(),
                v@ == self.items@.take(i as int),
            decreases self.items@.len() - i,
        {
            v.push(self.items[i]);
            assert(self.items@.take(i as int + 1) =~= self.items@.take(i as int).push(
                self.items@[i as int],
            ));
            i += 1;
        }
        assert(self.items@.take(i as int) =~= self.items@);
        v
    }
}

/// Appends `item` to `items` unless it is there already, and says whether
/// it was new. `seen` holds the keys of the items before and after.
pub(crate) fn take_in(items: &mut Vec<ConcretizedItem>, seen: &mut FxHashSet<ItemKey>, item: ConcretizedItem) -> (fresh:
    bool)
    requires
        old(items)@.no_duplicates(),
        indexes(old(seen)@, old(items)@),
    ensures
        fresh == !old(items)@.contains(item),
        final(items)@ == (if fresh {
            old(items)@.push(item)
        } else {
            old(items)@
        }),
        final(items)@.no_duplicates(),
        indexes(final(seen)@, final(items)@),
{
    let ghost before = items@;
    let fresh = seen_insert(seen, item.key());
    if fresh {
        items.push(item);
    }
    proof {
        assert forall|x: ConcretizedItem| #[trigger]
            seen@.contains(x.spec_key()) <==> items@.contains(x) by {
            lemma_key_injective(x, item);
            if before.contains(x) {
                let i = choose|i: int| 0 <= i < before.len() && before[i] == x;
                assert(items@[i] == x);
            }
            if x == item && fresh {
                assert(items@[before.len() as int] == x);
            }
        }
    }
    fresh
}

/// The reference edges of a graph. A pair of items is recorded at most once,
/// from however many call sites the first references the second.
#[derive(Debug)]
pub struct EdgeMap {
    pairs: Vec<Edge>,
}

impl View for EdgeMap {
    type V = Set<Edge>;

    closed spec fn view(&self) -> Set<Edge> {
        self.pairs@.to_set()
    }
}

impl EdgeMap {
    /// The representation holds each edge once.
    pub closed spec fn wf(&self) -> bool {
        self.pairs@.no_duplicates()
    }

    /// The map without edges.
    pub fn new() -> (m: Self)
        ensures
            m.wf(),
            m@ == Set::<Edge>::empty(),
    {
        let m = EdgeMap { pairs: Vec::new() };
        assert(m.pairs@.to_set() =~= Set::<Edge>::empty());
        m
    }

    /// The map of the edges of a sequence in which no edge occurs twice.
    pub(crate) fn from_distinct(pairs: Vec<Edge>) -> (m: Self)
        requires
            pairs@.no_duplicates(),
        ensures
            m.wf(),
            m@ == pairs@.to_set(),
    {
        EdgeMap { pairs }
    }

    fn find(&self, edge: Edge) -> (r: bool)
        ensures
            r == self@.contains(edge),
    {
        let mut i: usize = 0;
        while i < self.pairs.len()
            invariant
                i <= self.pairs@.len(),
                forall|j: int| 0 <= j < i ==> self.pairs@[j] != edge,
            decreases self.pairs@.len() - i,
        {
            if self.pairs[i] == edge {
                return true;
            }
            i += 1;
        }
        false
    }

    /// Whether the edge from `from` to `to` is recorded.
    pub fn contains(&self, from: ConcretizedItem, to: ConcretizedItem) -> (r: bool)
        ensures
            r == self@.contains(Edge { from, to }),
    {
        self.find(Edge { from, to })
    }

    /// Whether an edge joins the two items, in either direction.
    pub fn links(&self, a: ConcretizedItem, b: ConcretizedItem) -> (r: bool)
        ensures
            r == linked(self@, a, b),
    {
        self.find(Edge { from: a, to: b }) || self.find(Edge { from: b, to: a })
    }

    /// Records the edge from `from` to `to` and says whether it was new.
    pub fn insert(&mut self, from: ConcretizedItem, to: ConcretizedItem) -> (fresh: bool)
        requires
            old(self).wf(),
        ensures
            final(self).wf(),
            final(self)@ == old(self)@.insert(Edge { from, to }),
            fresh == !old(self)@.contains(Edge { from, to }),
    {
        let edge = Edge { from, to };
        if self.find(edge) {
            assert(self.pairs@.to_set() =~= self.pairs@.to_set().insert(edge));
            false
        } else {
            let ghost before = self.pairs@;
            self.pairs.push(edge);
            assert(self.pairs@.to_set() =~= before.to_set().insert(edge)) by {
                assert forall|x: Edge|
                    self.pairs@.to_set().contains(x) <==> before.to_set().insert(edge).contains(
                        x,
                    ) by {
                    if before.contains(x) {
                        let i = choose|i: int| 0 <= i < before.len() && before[i] == x;
                        assert(self.pairs@[i] == x);
                    }
                    if x == edge {
                        assert(self.pairs@[before.len() as int] == x);
                    }
                }
            }
            true
        }
    }

    /// The number of recorded edges.
    pub fn len(&self) -> (n: usize)
        requires
            self.wf(),
        ensures
            n == self@.len(),
            self@.finite(),
    {
        proof {
            self.pairs@.unique_seq_to_set();
        }
        self.pairs.len()
    }

    /// The recorded edges, each once, in no order that callers may rely on.
    pub fn to_vec(&self) -> (v: Vec<Edge>)
        requires
            self.wf(),
        ensures
            v@.no_duplicates(),
            v@.to_set() == self@,
    {
        let mut v: Vec<Edge> = Vec::new();
        let mut i: usize = 0;
        while i < self.pairs.len()
            invariant
                i <= self.pairs@.len(),
                v@ == self.pairs@.take(i as int),
            decreases self.pairs@.len() - i,
        {
            v.push(self.pairs[i]);
            assert(self.pairs@.take(i as int + 1) =~= self.pairs@.take(i as int).push(
                self.pairs@[i as int],
            ));
            i += 1;
        }
        assert(self.pairs@.take(i as int) =~= self.pairs@);
        v
    }
}

/// An edge joins `a` and `b`, in either direction.
pub open spec fn linked(edges: Set<Edge>, a: ConcretizedItem, b: ConcretizedItem) -> bool {
    edges.contains(Edge { from: a, to: b }) || edges.contains(Edge { from: b, to: a })
}

/// Step `i` of `path` follows an edge of `edges`.
pub open spec fn hop(edges: Set<Edge>, path: Seq<ConcretizedItem>, i: int) -> bool {
    edges.contains(Edge { from: path[i], to: path[i + 1] })
}

/// `path` leads from `root` along edges of `edges`.
pub open spec fn is_path(
    edges: Set<Edge>,
    root: ConcretizedItem,
    path: Seq<ConcretizedItem>,
) -> bool {
    &&& path.len() >= 1
    &&& path[0] == root
    &&& forall|i: int| 0 <= i < path.len() - 1 ==> #[trigger] hop(edges, path, i)
}

/// `item` can be reached from `root` along edges of `edges`.
pub open spec fn connects(edges: Set<Edge>, root: ConcretizedItem, item: ConcretizedItem) -> bool {
    exists|path: Seq<ConcretizedItem>| #[trigger] is_path(edges, root, path) && path.last() == item
}

} // verus!
