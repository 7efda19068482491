//! The whole run: collect, partition, finalize linkage, and list.

use vstd::prelude::*;
use crate::collector::{collect, walk_of, CollectError};
use crate::graph::ItemSet;
use crate::item::ConcretizedItem;
use crate::linkage::{
    finalize, finalized, lemma_single_external_root, single_external_root, unit_items,
};
use crate::partition::{
    covers_once, lemma_partition_covers, partition, planned, planned_groups, unit_views,
    CompilationUnit, PartitionStrategy,
};
use crate::program::Program;
use crate::report::{describes, line_items, report, ReportLine};
use crate::stubbing::{CapabilityDescriptor, StubRuleSet};
use crate::text::text_lt;

verus! {

/// What a run hands to its collaborators.
#[derive(Debug)]
pub struct PartitionResult {
    /// The definition identifier of every reachable item, each once.
    pub definitions: Vec<u64>,
    /// The compilation units, with final linkage.
    pub units: Vec<CompilationUnit>,
    /// The listing of the items and their units, where it was asked for.
    pub listing: Option<Vec<ReportLine>>,
}

/// The definition identifiers of the items of a set.
pub open spec fn definitions_of(items: Set<ConcretizedItem>) -> Set<u64> {
    Set::new(|def: u64| exists|item: ConcretizedItem| items.contains(item) && item.spec_def_id() == def)
}

/// Lists the definition identifier of every item of the set, each once.
pub fn definition_ids(items: &ItemSet) -> (defs: Vec<u64>)
    requires
        items.wf(),
    ensures
        defs@.no_duplicates(),
        defs@.to_set() == definitions_of(items@),
{
    let listed = items.to_vec();
    let mut defs: Vec<u64> = Vec::new();
    let mut i: usize = 0;
    while i < listed.len()
        invariant
            i <= listed@.len(),
            defs@.no_duplicates(),
            forall|d: u64|
                defs@.contains(d) <==> exists|a: int|
                    0 <= a < i && (#[trigger] listed@[a]).spec_def_id() == d,
        decreases listed@.len() - i,
    {
        let d = listed[i].def_id();
        let ghost before = defs@;
        let mut seen = false;
        let mut k: usize = 0;
        while k < defs.len()
            invariant
                k <= defs@.len(),
                seen <==> exists|a: int| 0 <= a < k && defs@[a] == d,
            decreases defs@.len() - k,
        {
            if defs[k] == d {
                seen = true;
            }
            k += 1;
        }
        if !seen {
            defs.push(d);
            assert(defs@[before.len() as int] == d);
        }
        proof {
            assert forall|x: u64|
                defs@.contains(x) <==> exists|a: int|
                    0 <= a < i + 1 && (#[trigger] listed@[a]).spec_def_id() == x by {
                if before.contains(x) {
                    let a = choose|a: int| 0 <= a < before.len() && before[a] == x;
                    assert(defs@[a] == x);
                    let b = choose|b: int| 0 <= b < i && (#[trigger] listed@[b]).spec_def_id() == x;
                    assert(0 <= b < i + 1 && listed@[b].spec_def_id() == x);
                }
                if x == d {
                    assert(listed@[i as int].spec_def_id() == x);
                    if seen {
                        let a = choose|a: int| 0 <= a < before.len() && before[a] == d;
                        assert(defs@[a] == d);
                    }
                }
                if exists|a: int| 0 <= a < i + 1 && (#[trigger] listed@[a]).spec_def_id() == x {
                    let a = choose|a: int|
                        0 <= a < i + 1 && (#[trigger] listed@[a]).spec_def_id() == x;
                    if a < i {
                        assert(before.contains(x));
                    }
                }
                if defs@.contains(x) && x != d {
                    let a = choose|a: int| 0 <= a < defs@.len() && defs@[a] == x;
                    assert(before[a] == x);
                }
            }
        }
        i += 1;
    }
    proof {
        assert forall|d: u64| defs@.to_set().contains(d) <==> definitions_of(items@).contains(d) by {
            if defs@.contains(d) {
                let a = choose|a: int| 0 <= a < i && (#[trigger] listed@[a]).spec_def_id() == d;
                assert(listed@.to_set().contains(listed@[a]));
            }
            if definitions_of(items@).contains(d) {
                let item = choose|item: ConcretizedItem|
                    items@.contains(item) && item.spec_def_id() == d;
                assert(listed@.contains(item));
                let a = choose|a: int| 0 <= a < listed@.len() && listed@[a] == item;
                assert(listed@[a].spec_def_id() == d);
            }
        }
        assert(defs@.to_set() =~= definitions_of(items@));
    }
    defs
}

/// Determines what must be generated for `root` on a target, and packages
/// it.
///
/// Collects the items reachable from `root`, with stubbing applied; groups
/// them into units as `strategy` says; gives the root external linkage and
/// every other item internal linkage; and, where `print_items` is set, lists
/// the items with their units. The run fails, and hands out nothing, exactly
/// when some reachable item makes a reference that fails.
pub fn collect_and_partition_mono_items(
    program: &Program,
    root: ConcretizedItem,
    capability: &CapabilityDescriptor,
    rules: &StubRuleSet,
    strategy: PartitionStrategy,
    print_items: bool,
) -> (res: Result<PartitionResult, CollectError>)
    requires
        strategy.valid(),
    ensures
        ({
            let w = walk_of(program, root, capability, rules);
            &&& res is Ok <==> w.clean()
            &&& match res {
                Ok(r) => {
                    let units = unit_views(r.units@);
                    &&& r.definitions@.no_duplicates()
                    &&& r.definitions@.to_set() == definitions_of(w.closure())
                    &&& units == finalized(planned(w.closure(), w.closure_edges(), strategy), root)
                    &&& covers_once(unit_items(units), w.closure())
                    &&& single_external_root(units, root)
                    &&& r.listing is Some <==> print_items
                    &&& r.listing matches Some(lines) ==> {
                        &&& lines@.len() == w.closure().len()
                        &&& line_items(lines@).no_duplicates()
                        &&& line_items(lines@).to_set() == w.closure()
                        &&& forall|i: int|
                            0 <= i < lines@.len() ==> describes((#[trigger] lines@[i])@, units)
                        &&& forall|i: int, j: int|
                            0 <= i < j < lines@.len() ==> text_lt(
                                (#[trigger] lines@[i]).name@,
                                (#[trigger] lines@[j]).name@,
                            )
                    }
                },
                Err(e) => {
                    &&& w.discovery() == Err::<Seq<ConcretizedItem>, CollectError>(e)
                    &&& exists|a: ConcretizedItem| w.reachable(a) && w.fails(a, e)
                },
            }
        }),
{
    let ghost w = walk_of(program, root, capability, rules);
    let (items, edges) = match collect(program, root, capability, rules) {
        Ok(found) => found,
        Err(e) => {
            return Err(e);
        },
    };
    let tentative = partition(&items, &edges, strategy);
    let units = finalize(tentative, root);
    proof {
        items.lemma_finite();
        lemma_partition_covers(items@, edges@, strategy);
        let plan = planned(items@, edges@, strategy);
        assert(unit_items(plan) =~= planned_groups(items@, edges@, strategy)) by {
            let groups = planned_groups(items@, edges@, strategy);
            assert forall|k: int| 0 <= k < groups.len() implies #[trigger] unit_items(plan)[k]
                == groups[k] by {
                assert(unit_items(plan)[k] =~= groups[k]);
            }
        }
        lemma_single_external_root(plan, items@, root);
        assert(unit_items(finalized(plan, root)) =~= unit_items(plan)) by {
            assert forall|k: int| 0 <= k < plan.len() implies #[trigger] unit_items(
                finalized(plan, root),
            )[k] == unit_items(plan)[k] by {
                assert(unit_items(finalized(plan, root))[k] =~= unit_items(plan)[k]);
            }
        }
    }
    let definitions = definition_ids(&items);
    let listing = if print_items {
        Some(report(&items, &units))
    } else {
        None
    };
    Ok(PartitionResult { definitions, units, listing })
}

} // verus!
