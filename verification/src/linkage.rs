//! The linkage assigner: one external root, everything else internal.

use vstd::prelude::*;
use crate::item::ConcretizedItem;
use crate::partition::{
    covers_once, unit_views, CompilationUnit, Linkage, UnitEntry, UnitView, Visibility,
};

verus! {

/// The final entry of an item: external for the root, internal for any other
/// item, with default visibility.
pub open spec fn finalized_entry(entry: UnitEntry, root: ConcretizedItem) -> UnitEntry {
    UnitEntry {
        item: entry.item,
        linkage: if entry.item == root {
            Linkage::External
        } else {
            Linkage::Internal
        },
        visibility: Visibility::Default,
    }
}

/// A unit with the final linkage of each of its entries.
pub open spec fn finalized_unit(unit: UnitView, root: ConcretizedItem) -> UnitView {
    UnitView {
        name: unit.name,
        entries: unit.entries.map_values(|e: UnitEntry| finalized_entry(e, root)),
    }
}

/// The units with the final linkage of every entry.
pub open spec fn finalized(units: Seq<UnitView>, root: ConcretizedItem) -> Seq<UnitView> {
    units.map_values(|u: UnitView| finalized_unit(u, root))
}

/// The items of each unit, in order.
pub open spec fn unit_items(units: Seq<UnitView>) -> Seq<Seq<ConcretizedItem>> {
    units.map_values(|u: UnitView| u.entries.map_values(|e: UnitEntry| e.item))
}

/// Entry `j` of unit `k` has external linkage.
pub open spec fn external_at(units: Seq<UnitView>, k: int, j: int) -> bool {
    &&& 0 <= k < units.len()
    &&& 0 <= j < units[k].entries.len()
    &&& units[k].entries[j].linkage == Linkage::External
}

/// Exactly one entry of all units has external linkage, and it is the root's.
pub open spec fn single_external_root(units: Seq<UnitView>, root: ConcretizedItem) -> bool {
    exists|k: int, j: int|
        {
            &&& #[trigger] external_at(units, k, j)
            &&& units[k].entries[j].item == root
            &&& forall|k2: int, j2: int| #[trigger]
                external_at(units, k2, j2) ==> k2 == k && j2 == j
        }
}

/// Every entry of every unit is internal with default visibility, but the
/// root's, which is external with default visibility.
pub open spec fn linkage_is_final(units: Seq<UnitView>, root: ConcretizedItem) -> bool {
    forall|k: int, j: int|
        0 <= k < units.len() && 0 <= j < units[k].entries.len() ==> (#[trigger] units[k].entries[j])
            == finalized_entry(units[k].entries[j], root)
}

/// Sets the linkage of every item of every unit: external for the root,
/// internal for every other item, default visibility for all. Whatever
/// linkage an entry had before is overwritten. Names, items and their order
/// stay as they are.
pub fn finalize(units: Vec<CompilationUnit>, root: ConcretizedItem) -> (out: Vec<CompilationUnit>)
    ensures
        unit_views(out@) == finalized(unit_views(units@), root),
        linkage_is_final(unit_views(out@), root),
{
    let mut out: Vec<CompilationUnit> = Vec::new();
    let mut k: usize = 0;
    while k < units.len()
        invariant
            k <= units@.len(),
            out@.len() == k,
            forall|i: int| 0 <= i < k ==> (#[trigger] out@[i])@ == finalized_unit(units@[i]@, root),
        decreases units@.len() - k,
    {
        let unit = &units[k];
        let mut entries: Vec<UnitEntry> = Vec::new();
        let mut j: usize = 0;
        while j < unit.entries.len()
            invariant
                j <= unit.entries@.len(),
                entries@.len() == j,
                forall|i: int|
                    0 <= i < j ==> #[trigger] entries@[i] == finalized_entry(unit.entries@[i], root),
            decreases unit.entries@.len() - j,
        {
            let item = unit.entries[j].item;
            let linkage = if item == root {
                Linkage::External
            } else {
                Linkage::Internal
            };
            entries.push(UnitEntry { item, linkage, visibility: Visibility::Default });
            j += 1;
        }
        assert(entries@ =~= unit.entries@.map_values(|e: UnitEntry| finalized_entry(e, root)));
        out.push(CompilationUnit { name: unit.name.clone(), entries });
        k += 1;
    }
    assert(unit_views(out@) =~= finalized(unit_views(units@), root));
    out
}

/// Single-root linkage: where the units hold every item of a set exactly
/// once and the root is in the set, finalizing leaves exactly one entry with
/// external linkage, and that entry is the root's.
pub proof fn lemma_single_external_root(
    units: Seq<UnitView>,
    items: Set<ConcretizedItem>,
    root: ConcretizedItem,
)
    requires
        covers_once(unit_items(units), items),
        items.contains(root),
    ensures
        single_external_root(finalized(units, root), root),
        linkage_is_final(finalized(units, root), root),
{
    let all = unit_items(units);
    let done = finalized(units, root);
    let (k, j) = choose|k: int, j: int|
        0 <= k < all.len() && 0 <= j < all[k].len() && #[trigger] all[k][j] == root;
    assert(all[k][j] == units[k].entries[j].item);
    assert(external_at(done, k, j));
    assert forall|k2: int, j2: int| #[trigger] external_at(done, k2, j2) implies k2 == k && j2
        == j by {
        assert(done[k2].entries[j2].item == root);
        assert(all[k2][j2] == root);
    }
}

} // verus!
