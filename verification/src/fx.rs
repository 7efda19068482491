//! The hash collections of `rustc_data_structures::fx` that the library
//! keeps: what is believed of them, in one place.

use vstd::prelude::*;
use rustc_data_structures::fx::{FxHashMap, FxHashSet};
use crate::item::ItemKey;
use crate::report::UnitTag;

verus! {

/// `rustc_data_structures::fx::FxHasher`, the hasher of an `FxHashMap` and
/// of an `FxHashSet`. Nothing is claimed of it; it only stands in their
/// types.
#[verifier::external_type_specification]
#[verifier::external_body]
pub struct ExFxHasher(rustc_data_structures::fx::FxHasher);

/// `std::hash::BuildHasherDefault`, which builds the hasher of an
/// `FxHashMap` and of an `FxHashSet`. Nothing is claimed of it; it only
/// stands in their types.
#[verifier::external_type_specification]
#[verifier::external_body]
#[verifier::reject_recursive_types(H)]
pub struct ExBuildHasherDefault<H>(std::hash::BuildHasherDefault<H>);

/// `FxHashSet::insert` of `rustc_data_structures::fx`: afterwards the set
/// holds `key` and what it held before; the result says whether `key` was
/// new. The keys are tuples of integers.
#[verifier::external_body]
pub(crate) fn seen_insert(seen: &mut FxHashSet<ItemKey>, key: ItemKey) -> (fresh: bool)
    ensures
        final(seen)@ == old(seen)@.insert(key),
        fresh == !old(seen)@.contains(key),
{
    seen.insert(key)
}

/// `FxHashSet::contains` of `rustc_data_structures::fx`: whether the set
/// holds `key`.
#[verifier::external_body]
pub(crate) fn seen_contains(seen: &FxHashSet<ItemKey>, key: ItemKey) -> (r: bool)
    ensures
        r == seen@.contains(key),
{
    seen.contains(&key)
}

/// `FxHashMap::insert` of `rustc_data_structures::fx`, the result dropped:
/// afterwards the map holds `tags` under `key`, and under every other key
/// what it held before. The keys are tuples of integers.
#[verifier::external_body]
pub(crate) fn index_insert(
    index: &mut FxHashMap<ItemKey, Vec<UnitTag>>,
    key: ItemKey,
    tags: Vec<UnitTag>,
)
    ensures
        final(index)@ == old(index)@.insert(key, tags),
{
    index.insert(key, tags);
}

/// `FxHashMap::remove` of `rustc_data_structures::fx`: returns what the map
/// held under `key`, if anything; afterwards the map holds nothing under
/// `key`, and under every other key what it held before.
#[verifier::external_body]
pub(crate) fn index_remove(index: &mut FxHashMap<ItemKey, Vec<UnitTag>>, key: ItemKey) -> (tags:
    Option<Vec<UnitTag>>)
    ensures
        tags == (if old(index)@.contains_key(key) {
            Some(old(index)@[key])
        } else {
            None
        }),
        final(index)@ == old(index)@.remove(key),
{
    index.remove(&key)
}

} // verus!
