//! The typed program representation that the collector walks.
//!
//! A program is a table of definitions, each listing the operations its body
//! performs and the items it references, together with a table that resolves
//! dynamic-dispatch call sites for a known concrete receiver type.

use vstd::prelude::*;
use crate::item::ConcretizedItem;

verus! {

/// An operation that a body performs and that an execution target may or may
/// not support, named by an opaque code.
#[derive(Clone, Copy, Debug, PartialEq, Eq, Structural, Hash)]
pub struct Operation {
    pub code: u64,
}

/// One reference made by an item's body.
#[derive(Clone, Copy, Debug, PartialEq, Eq, Structural, Hash)]
pub enum Reference {
    /// A call of, or a read of, a known concrete item.
    Direct { target: ConcretizedItem },
    /// A dynamic-dispatch call site with the concrete receiver type known at
    /// that site.
    Dispatch { site: u64, receiver: u64 },
}

/// The body of one item, as far as the collector reads it.
#[derive(Clone, Debug)]
pub struct Definition {
    pub item: ConcretizedItem,
    pub operations: Vec<Operation>,
    pub references: Vec<Reference>,
}

/// One line of the dispatch table: calls at `site` on a receiver of type
/// `receiver` go to `target`.
#[derive(Clone, Copy, Debug, PartialEq, Eq, Structural, Hash)]
pub struct Resolution {
    pub site: u64,
    pub receiver: u64,
    pub target: ConcretizedItem,
}

/// A closed, specialized program.
#[derive(Clone, Debug)]
pub struct Program {
    pub definitions: Vec<Definition>,
    pub resolutions: Vec<Resolution>,
}

impl Program {
    /// `i` is the first definition of `item`.
    pub open spec fn defines_at(&self, i: int, item: ConcretizedItem) -> bool {
        &&& 0 <= i < self.definitions@.len()
        &&& self.definitions@[i].item == item
        &&& forall|j: int| 0 <= j < i ==> (#[trigger] self.definitions@[j]).item != item
    }

    /// The program holds a definition of `item`.
    pub open spec fn is_defined(&self, item: ConcretizedItem) -> bool {
        exists|i: int| self.defines_at(i, item)
    }

    /// The index of the definition that stands for `item`: the first one.
    pub open spec fn definition_of(&self, item: ConcretizedItem) -> int {
        choose|i: int| self.defines_at(i, item)
    }

    /// The references that `item` makes, in body order. An item without a
    /// definition makes none.
    pub open spec fn references_of(&self, item: ConcretizedItem) -> Seq<Reference> {
        if self.is_defined(item) {
            self.definitions@[self.definition_of(item)].references@
        } else {
            Seq::empty()
        }
    }

    /// The operations that `item` performs, in body order. An item without a
    /// definition performs none.
    pub open spec fn operations_of(&self, item: ConcretizedItem) -> Seq<Operation> {
        if self.is_defined(item) {
            self.definitions@[self.definition_of(item)].operations@
        } else {
            Seq::empty()
        }
    }

    /// Line `k` of the dispatch table speaks of this call site and receiver.
    pub open spec fn resolution_matches(&self, k: int, site: u64, receiver: u64) -> bool {
        &&& 0 <= k < self.resolutions@.len()
        &&& self.resolutions@[k].site == site
        &&& self.resolutions@[k].receiver == receiver
    }

    /// The call site resolves to `target` and to nothing else.
    pub open spec fn resolves_to(&self, site: u64, receiver: u64, target: ConcretizedItem) -> bool {
        &&& exists|k: int| self.resolution_matches(k, site, receiver)
        &&& forall|k: int| #[trigger]
            self.resolution_matches(k, site, receiver) ==> self.resolutions@[k].target == target
    }

    /// The single concrete target of a dispatch site, if the table gives
    /// exactly one.
    pub open spec fn resolution_of(&self, site: u64, receiver: u64) -> Option<ConcretizedItem> {
        if exists|t: ConcretizedItem| self.resolves_to(site, receiver, t) {
            Some(choose|t: ConcretizedItem| self.resolves_to(site, receiver, t))
        } else {
            None
        }
    }

    /// Looks up the definition of `item`.
    pub fn find_definition(&self, item: ConcretizedItem) -> (r: Option<usize>)
        ensures
            r is Some <==> self.is_defined(item),
            r matches Some(i) ==> i as int == self.definition_of(item) && self.defines_at(
                i as int,
                item,
            ),
    {
        let mut i: usize = 0;
        while i < self.definitions.len()
            invariant
                i <= self.definitions@.len(),
                forall|j: int| 0 <= j < i ==> (#[trigger] self.definitions@[j]).item != item,
            decreases self.definitions@.len() - i,
        {
            if self.definitions[i].item == item {
                assert(self.defines_at(i as int, item));
                return Some(i);
            }
            i += 1;
        }
        None
    }

    /// Resolves a dynamic-dispatch call site for a concrete receiver type.
    /// The site resolves when the table names one target for it; it does not
    /// when the table has no line for it or names two different targets.
    pub fn resolve(&self, site: u64, receiver: u64) -> (r: Option<ConcretizedItem>)
        ensures
            r == self.resolution_of(site, receiver),
    {
        let mut found: Option<ConcretizedItem> = None;
        let mut k: usize = 0;
        while k < self.resolutions.len()
            invariant
                k <= self.resolutions@.len(),
                found is None ==> forall|j: int|
                    0 <= j < k ==> !#[trigger] self.resolution_matches(j, site, receiver),
                found matches Some(t) ==> {
                    &&& exists|j: int| 0 <= j < k && self.resolution_matches(j, site, receiver)
                    &&& forall|j: int|
                        0 <= j < k && #[trigger] self.resolution_matches(j, site, receiver)
                            ==> self.resolutions@[j].target == t
                },
            decreases self.resolutions@.len() - k,
        {
            let line = self.resolutions[k];
            if line.site == site && line.receiver == receiver {
                assert(self.resolution_matches(k as int, site, receiver));
                match found {
                    None => {
                        found = Some(line.target);
                    },
                    Some(t) => {
                        if t != line.target {
                            assert forall|u: ConcretizedItem|
                                !self.resolves_to(site, receiver, u) by {
                                if self.resolves_to(site, receiver, u) {
                                    let j = choose|j: int|
                                        0 <= j < k && self.resolution_matches(j, site, receiver);
                                    assert(self.resolutions@[j].target == u);
                                    assert(self.resolutions@[k as int].target == u);
                                }
                            }
                            return None;
                        }
                    },
                }
            }
            k += 1;
        }
        proof {
            match found {
                None => {
                    assert forall|u: ConcretizedItem| !self.resolves_to(site, receiver, u) by {
                        if self.resolves_to(site, receiver, u) {
                            let j = choose|j: int| self.resolution_matches(j, site, receiver);
                            assert(!self.resolution_matches(j, site, receiver));
                        }
                    }
                },
                Some(t) => {
                    assert(self.resolves_to(site, receiver, t));
                    let u = choose|u: ConcretizedItem| self.resolves_to(site, receiver, u);
                    let j = choose|j: int| 0 <= j < k && self.resolution_matches(j, site, receiver);
                    assert(self.resolutions@[j].target == u);
                },
            }
        }
        found
    }
}

} // verus!
