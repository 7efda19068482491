//! Concretized items: the nodes of the instantiation graph.

use vstd::prelude::*;

verus! {

/// One fully substituted, non-generic function or static.
///
/// An item is identified by its definition identifier and, for a function,
/// by the identifier under which the program representation interned its
/// concrete type and const arguments. Two items with equal fields are the
/// same item, however many call sites reach them.
#[derive(Clone, Copy, Debug, PartialEq, Eq, Structural, Hash)]
pub enum ConcretizedItem {
    /// An instantiated function.
    Fn { def: u64, args: u64 },
    /// A static datum.
    Static { def: u64 },
}

/// The key under which an item is indexed: a kind tag, the definition
/// identifier and the argument identifier (zero for a static).
pub type ItemKey = (u8, u64, u64);

impl ConcretizedItem {
    /// The definition identifier of the item.
    pub open spec fn spec_def_id(self) -> u64 {
        match self {
            ConcretizedItem::Fn { def, .. } => def,
            ConcretizedItem::Static { def } => def,
        }
    }

    /// The definition identifier of the item.
    #[verifier::when_used_as_spec(spec_def_id)]
    pub fn def_id(self) -> (r: u64)
        ensures
            r == self.spec_def_id(),
    {
        match self {
            ConcretizedItem::Fn { def, .. } => def,
            ConcretizedItem::Static { def } => def,
        }
    }

    /// The index key of the item. Distinct items have distinct keys.
    pub open spec fn spec_key(self) -> ItemKey {
        match self {
            ConcretizedItem::Fn { def, args } => (0u8, def, args),
            ConcretizedItem::Static { def } => (1u8, def, 0u64),
        }
    }

    /// The index key of the item.
    #[verifier::when_used_as_spec(spec_key)]
    pub fn key(self) -> (r: ItemKey)
        ensures
            r == self.spec_key(),
    {
        match self {
            ConcretizedItem::Fn { def, args } => (0u8, def, args),
            ConcretizedItem::Static { def } => (1u8, def, 0u64),
        }
    }

    /// The canonical strict order on items: functions before statics, then
    /// by definition identifier, then by argument identifier.
    pub open spec fn lt(self, other: ConcretizedItem) -> bool {
        let a = self.spec_key();
        let b = other.spec_key();
        a.0 < b.0 || (a.0 == b.0 && (a.1 < b.1 || (a.1 == b.1 && a.2 < b.2)))
    }

    /// Whether `self` comes strictly before `other` in the canonical order.
    pub fn precedes(self, other: ConcretizedItem) -> (r: bool)
        ensures
            r == self.lt(other),
    {
        let a = self.key();
        let b = other.key();
        a.0 < b.0 || (a.0 == b.0 && (a.1 < b.1 || (a.1 == b.1 && a.2 < b.2)))
    }
}

/// The key is injective: items with equal keys are equal.
pub proof fn lemma_key_injective(a: ConcretizedItem, b: ConcretizedItem)
    ensures
        a.spec_key() == b.spec_key() <==> a == b,
{
}

/// The canonical order is a strict total order.
pub proof fn lemma_item_order(a: ConcretizedItem, b: ConcretizedItem, c: ConcretizedItem)
    ensures
        !a.lt(a),
        a.lt(b) && b.lt(c) ==> a.lt(c),
        a.lt(b) || b.lt(a) || a == b,
        !(a.lt(b) && b.lt(a)),
{
}

} // verus!
