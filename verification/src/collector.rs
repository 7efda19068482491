//! The instantiation graph builder: the closure of the items reachable from
//! a root, with stubbing applied to every item before it is taken in.

use vstd::prelude::*;
use vstd::set_lib::lemma_len_subset;
use rustc_data_structures::fx::FxHashSet;
use crate::graph::{connects, hop, indexes, is_path, take_in, Edge, EdgeMap, ItemSet};
use crate::item::{ConcretizedItem, ItemKey};
use crate::program::{Definition, Operation, Program, Reference, Resolution};
use crate::stubbing::{
    filter, filter_outcome, lemma_replacement_is_stub, CapabilityDescriptor, FilterOutcome,
    StubRule, StubRuleSet,
};

verus! {

/// Why a program cannot be specialized for a target as configured.
#[derive(Clone, Copy, Debug, PartialEq, Eq, Structural, Hash)]
pub enum CollectError {
    /// `item` holds a dynamic-dispatch call site that does not resolve to a
    /// single concrete target.
    UnresolvableDispatch { item: ConcretizedItem, site: u64, receiver: u64 },
    /// `item` performs `operation`, which the target lacks and no stub rule
    /// covers.
    UnsupportedOperation { item: ConcretizedItem, operation: Operation },
    /// The rule for `item` replaces it by `replacement`, which itself needs
    /// stubbing.
    StubCycle { item: ConcretizedItem, replacement: ConcretizedItem },
}

/// The inputs of one collection run.
pub struct Walk {
    pub program: Program,
    pub capability: Set<Operation>,
    pub rules: Seq<StubRule>,
    pub root: ConcretizedItem,
}

/// The run that `collect` makes on these arguments.
pub open spec fn walk_of(
    program: &Program,
    root: ConcretizedItem,
    capability: &CapabilityDescriptor,
    rules: &StubRuleSet,
) -> Walk {
    Walk { program: *program, capability: capability@, rules: rules@, root }
}

impl Walk {
    /// The verdict of the capability filter on `item`.
    pub open spec fn verdict(self, item: ConcretizedItem) -> FilterOutcome {
        filter_outcome(item, self.program.operations_of(item), self.capability, self.rules)
    }

    /// The item that a reference to `item` leads to once stubbing is applied.
    ///
    /// The root is taken as it is. Any other item goes through the filter; a
    /// replacement must pass the filter unchanged.
    pub open spec fn stubbed(self, item: ConcretizedItem) -> Result<ConcretizedItem, CollectError> {
        if item == self.root {
            Ok(item)
        } else {
            match self.verdict(item) {
                FilterOutcome::Unchanged(_) => Ok(item),
                FilterOutcome::Rejected { operation } => Err(
                    CollectError::UnsupportedOperation { item, operation },
                ),
                FilterOutcome::Replaced(stub) => if self.verdict(stub) is Unchanged {
                    Ok(stub)
                } else {
                    Err(CollectError::StubCycle { item, replacement: stub })
                },
            }
        }
    }

    /// The item that `reference`, made by `owner`, leads to.
    pub open spec fn target(self, owner: ConcretizedItem, reference: Reference) -> Result<
        ConcretizedItem,
        CollectError,
    > {
        match reference {
            Reference::Direct { target } => self.stubbed(target),
            Reference::Dispatch { site, receiver } => match self.program.resolution_of(
                site,
                receiver,
            ) {
                Some(target) => self.stubbed(target),
                None => Err(CollectError::UnresolvableDispatch { item: owner, site, receiver }),
            },
        }
    }

    /// The number of references that `owner` makes.
    pub open spec fn fan_out(self, owner: ConcretizedItem) -> int {
        self.program.references_of(owner).len() as int
    }

    /// The item that reference `j` of `owner` leads to.
    pub open spec fn link(self, owner: ConcretizedItem, j: int) -> Result<
        ConcretizedItem,
        CollectError,
    > {
        self.target(owner, self.program.references_of(owner)[j])
    }

    /// After stubbing, `a` references `b`.
    pub open spec fn edge(self, a: ConcretizedItem, b: ConcretizedItem) -> bool {
        exists|j: int| 0 <= j < self.fan_out(a) && #[trigger] self.link(a, j) == Ok::<
            ConcretizedItem,
            CollectError,
        >(b)
    }

    /// Some reference of `a` fails with `e`.
    pub open spec fn fails(self, a: ConcretizedItem, e: CollectError) -> bool {
        exists|j: int| 0 <= j < self.fan_out(a) && #[trigger] self.link(a, j) == Err::<
            ConcretizedItem,
            CollectError,
        >(e)
    }

    /// The reference relation of the whole program after stubbing.
    pub open spec fn edges(self) -> Set<Edge> {
        Set::new(|e: Edge| self.edge(e.from, e.to))
    }

    /// `item` is reachable from the root.
    pub open spec fn reachable(self, item: ConcretizedItem) -> bool {
        connects(self.edges(), self.root, item)
    }

    /// No reachable item makes a reference that fails.
    pub open spec fn clean(self) -> bool {
        forall|a: ConcretizedItem, e: CollectError| self.reachable(a) ==> !#[trigger] self.fails(a, e)
    }

    /// The reachability closure of the root.
    pub open spec fn closure(self) -> Set<ConcretizedItem> {
        Set::new(|item: ConcretizedItem| self.reachable(item))
    }

    /// The edges that leave the items of the closure.
    pub open spec fn closure_edges(self) -> Set<Edge> {
        Set::new(|e: Edge| self.reachable(e.from) && self.edge(e.from, e.to))
    }
}

/// The root is reachable.
pub proof fn lemma_root_reachable(w: Walk)
    ensures
        w.reachable(w.root),
{
    let path = seq![w.root];
    assert(is_path(w.edges(), w.root, path));
    assert(path.last() == w.root);
}

/// What a reachable item references is reachable.
pub proof fn lemma_step_reachable(w: Walk, a: ConcretizedItem, b: ConcretizedItem)
    requires
        w.reachable(a),
        w.edge(a, b),
    ensures
        w.reachable(b),
{
    let p = choose|p: Seq<ConcretizedItem>| #[trigger] is_path(w.edges(), w.root, p) && p.last() == a;
    let q = p.push(b);
    assert forall|i: int| 0 <= i < q.len() - 1 implies #[trigger] hop(w.edges(), q, i) by {
        if i < p.len() - 1 {
            assert(hop(w.edges(), p, i));
        } else {
            assert(w.edges().contains(Edge { from: a, to: b }));
        }
    }
    assert(is_path(w.edges(), w.root, q));
    assert(q.last() == b);
}

/// A set that holds the root and is closed under the reference relation
/// holds every reachable item.
pub proof fn lemma_closed_set_holds_closure(w: Walk, s: Set<ConcretizedItem>, item: ConcretizedItem)
    requires
        s.contains(w.root),
        forall|a: ConcretizedItem, b: ConcretizedItem| s.contains(a) && w.edge(a, b) ==> s.contains(b),
        w.reachable(item),
    ensures
        s.contains(item),
{
    let p = choose|p: Seq<ConcretizedItem>|
        #[trigger] is_path(w.edges(), w.root, p) && p.last() == item;
    lemma_path_stays_inside(w, s, p, p.len() - 1);
}

proof fn lemma_path_stays_inside(w: Walk, s: Set<ConcretizedItem>, p: Seq<ConcretizedItem>, i: int)
    requires
        s.contains(w.root),
        forall|a: ConcretizedItem, b: ConcretizedItem| s.contains(a) && w.edge(a, b) ==> s.contains(b),
        is_path(w.edges(), w.root, p),
        0 <= i < p.len(),
    ensures
        s.contains(p[i]),
    decreases i,
{
    if i > 0 {
        lemma_path_stays_inside(w, s, p, i - 1);
        assert(hop(w.edges(), p, i - 1));
        assert(w.edge(p[i - 1], p[i]));
    }
}

/// Every item on a path from the root is reachable.
pub proof fn lemma_path_is_reachable(w: Walk, p: Seq<ConcretizedItem>, i: int)
    requires
        is_path(w.edges(), w.root, p),
        0 <= i < p.len(),
    ensures
        w.reachable(p[i]),
{
    let q = p.take(i + 1);
    assert forall|k: int| 0 <= k < q.len() - 1 implies #[trigger] hop(w.edges(), q, k) by {
        assert(hop(w.edges(), p, k));
    }
    assert(is_path(w.edges(), w.root, q));
    assert(q.last() == p[i]);
}

/// The target of a direct reference, and `fallback` for any other.
pub open spec fn direct_or(reference: Reference, fallback: ConcretizedItem) -> ConcretizedItem {
    match reference {
        Reference::Direct { target } => target,
        Reference::Dispatch { .. } => fallback,
    }
}

/// The items that the bodies of `defs` name, and `fallback` where a body
/// holds a dispatch site.
pub open spec fn named_in(defs: Seq<Definition>, fallback: ConcretizedItem) -> Set<ConcretizedItem>
    decreases defs.len(),
{
    if defs.len() == 0 {
        Set::empty()
    } else {
        named_in(defs.drop_last(), fallback).union(
            defs.last().references@.map_values(|r: Reference| direct_or(r, fallback)).to_set(),
        )
    }
}

proof fn lemma_named_in(defs: Seq<Definition>, fallback: ConcretizedItem)
    ensures
        named_in(defs, fallback).finite(),
        forall|d: int, j: int|
            0 <= d < defs.len() && 0 <= j < defs[d].references@.len() ==> named_in(
                defs,
                fallback,
            ).contains(direct_or(#[trigger] defs[d].references@[j], fallback)),
    decreases defs.len(),
{
    if defs.len() > 0 {
        let rest = defs.drop_last();
        lemma_named_in(rest, fallback);
        let last = defs.last().references@.map_values(|r: Reference| direct_or(r, fallback));
        assert forall|d: int, j: int|
            0 <= d < defs.len() && 0 <= j < defs[d].references@.len() implies named_in(
            defs,
            fallback,
        ).contains(direct_or(#[trigger] defs[d].references@[j], fallback)) by {
            if d < defs.len() - 1 {
                assert(rest[d] == defs[d]);
            } else {
                assert(last[j] == direct_or(defs[d].references@[j], fallback));
                assert(last.to_set().contains(last[j]));
            }
        }
    }
}

impl Walk {
    /// Every item that a run can come upon: the root, what the bodies name,
    /// what the dispatch table names, and the replacements of the rules.
    pub open spec fn universe(self) -> Set<ConcretizedItem> {
        named_in(self.program.definitions@, self.root).union(
            self.program.resolutions@.map_values(|r: Resolution| r.target).to_set(),
        ).union(self.rules.map_values(|r: StubRule| r.replacement).to_set()).insert(self.root)
    }
}

/// The universe of a run is finite and holds the root and every item that a
/// reference leads to.
pub proof fn lemma_universe(w: Walk)
    ensures
        w.universe().finite(),
        w.universe().contains(w.root),
        forall|a: ConcretizedItem, j: int|
            0 <= j < w.fan_out(a) && (#[trigger] w.link(a, j)) is Ok ==> w.universe().contains(
                w.link(a, j)->Ok_0,
            ),
{
    lemma_named_in(w.program.definitions@, w.root);
    let targets = w.program.resolutions@.map_values(|r: Resolution| r.target);
    let stubs = w.rules.map_values(|r: StubRule| r.replacement);
    assert forall|a: ConcretizedItem, j: int|
        0 <= j < w.fan_out(a) && (#[trigger] w.link(a, j)) is Ok implies w.universe().contains(
        w.link(a, j)->Ok_0,
    ) by {
        let d = w.program.definition_of(a);
        assert(w.program.is_defined(a));
        assert(w.program.defines_at(d, a));
        let reference = w.program.definitions@[d].references@[j];
        let named: ConcretizedItem = match reference {
            Reference::Direct { target } => target,
            Reference::Dispatch { site, receiver } => w.program.resolution_of(site, receiver)->Some_0,
        };
        assert(w.universe().contains(named)) by {
            match reference {
                Reference::Direct { target } => {
                    assert(direct_or(reference, w.root) == target);
                },
                Reference::Dispatch { site, receiver } => {
                    assert(w.program.resolves_to(site, receiver, named));
                    let k = choose|k: int| w.program.resolution_matches(k, site, receiver);
                    assert(targets[k] == named);
                    assert(targets.to_set().contains(targets[k]));
                },
            }
        }
        assert(w.link(a, j) == w.stubbed(named));
        lemma_replacement_is_stub(named, w.program.operations_of(named), w.capability, w.rules);
        if w.stubbed(named)->Ok_0 != named {
            let stub = w.stubbed(named)->Ok_0;
            let k = choose|k: int| 0 <= k < w.rules.len() && (#[trigger] w.rules[k]).replacement == stub;
            assert(stubs[k] == stub);
            assert(stubs.to_set().contains(stubs[k]));
        }
    }
}

/// Applies stubbing to one referenced item.
///
/// The root is returned as it is. Another item is returned as it is where the
/// target supports all its operations, and is replaced as the rules say where
/// it does not. The call fails where no rule covers an operation that the
/// target lacks, and where the replacement would need stubbing in turn.
pub fn settle(
    program: &Program,
    root: ConcretizedItem,
    capability: &CapabilityDescriptor,
    rules: &StubRuleSet,
    item: ConcretizedItem,
) -> (r: Result<ConcretizedItem, CollectError>)
    ensures
        r == walk_of(program, root, capability, rules).stubbed(item),
{
    if item == root {
        return Ok(item);
    }
    match filter(program, item, capability, rules) {
        FilterOutcome::Unchanged(_) => Ok(item),
        FilterOutcome::Rejected { operation } => Err(
            CollectError::UnsupportedOperation { item, operation },
        ),
        FilterOutcome::Replaced(stub) => {
            match filter(program, stub, capability, rules) {
                FilterOutcome::Unchanged(_) => Ok(stub),
                _ => Err(CollectError::StubCycle { item, replacement: stub }),
            }
        },
    }
}

/// Follows one reference made by `owner` to the item it leads to.
pub fn follow(
    program: &Program,
    root: ConcretizedItem,
    capability: &CapabilityDescriptor,
    rules: &StubRuleSet,
    owner: ConcretizedItem,
    reference: Reference,
) -> (r: Result<ConcretizedItem, CollectError>)
    ensures
        r == walk_of(program, root, capability, rules).target(owner, reference),
{
    match reference {
        Reference::Direct { target } => settle(program, root, capability, rules, target),
        Reference::Dispatch { site, receiver } => match program.resolve(site, receiver) {
            Some(target) => settle(program, root, capability, rules, target),
            None => Err(CollectError::UnresolvableDispatch { item: owner, site, receiver }),
        },
    }
}

impl Walk {
    /// Reference `j` of `owner` leads to an item of `order`.
    pub open spec fn lands_in(self, order: Seq<ConcretizedItem>, owner: ConcretizedItem, j: int) -> bool {
        self.link(owner, j) is Ok && order.contains(self.link(owner, j)->Ok_0)
    }

    /// `order` holds distinct reachable items.
    pub open spec fn admits(self, order: Seq<ConcretizedItem>) -> bool {
        &&& order.no_duplicates()
        &&& forall|i: int| 0 <= i < order.len() ==> self.reachable(#[trigger] order[i])
        &&& forall|i: int| 0 <= i < order.len() ==> self.universe().contains(#[trigger] order[i])
    }

    /// The first `j` references of `owner` lead to `b`.
    pub open spec fn edge_before(self, owner: ConcretizedItem, j: int, b: ConcretizedItem) -> bool {
        exists|k: int| 0 <= k < j && k < self.fan_out(owner) && #[trigger] self.link(owner, k) == Ok::<
            ConcretizedItem,
            CollectError,
        >(b)
    }
}

impl Walk {
    /// The items taken in so far, `order`, after following the references of
    /// `owner` from reference `j` on: each item that a reference leads to
    /// and that `order` lacks is appended. The first reference that fails
    /// ends it.
    pub open spec fn absorb(self, order: Seq<ConcretizedItem>, owner: ConcretizedItem, j: int) -> Result<
        Seq<ConcretizedItem>,
        CollectError,
    >
        decreases self.fan_out(owner) - j,
    {
        if 0 <= j < self.fan_out(owner) {
            match self.link(owner, j) {
                Err(e) => Err(e),
                Ok(b) => self.absorb(
                    if order.contains(b) {
                        order
                    } else {
                        order.push(b)
                    },
                    owner,
                    j + 1,
                ),
            }
        } else {
            Ok(order)
        }
    }

    /// The walk over `order` from position `cursor` on, for at most `fuel`
    /// items: the references of each item are followed in turn, and what
    /// they append is walked after what was there.
    pub open spec fn walk(self, order: Seq<ConcretizedItem>, cursor: int, fuel: nat) -> Result<
        Seq<ConcretizedItem>,
        CollectError,
    >
        decreases fuel,
    {
        if fuel == 0 || !(0 <= cursor < order.len()) {
            Ok(order)
        } else {
            match self.absorb(order, order[cursor], 0) {
                Err(e) => Err(e),
                Ok(next) => self.walk(next, cursor + 1, (fuel - 1) as nat),
            }
        }
    }

    /// The walk from the root: the items in the order in which they are
    /// taken in, or the first failure that the walk meets. The walk takes
    /// each item of the universe in at most once, so it never runs out of
    /// fuel.
    pub open spec fn discovery(self) -> Result<Seq<ConcretizedItem>, CollectError> {
        self.walk(seq![self.root], 0, self.universe().len())
    }
}

/// `edge` stands in `pairs` at or after position `start`.
pub open spec fn held_since(pairs: Seq<Edge>, start: int, edge: Edge) -> bool {
    exists|k: int| start <= k < pairs.len() && #[trigger] pairs[k] == edge
}

/// Whether `edge` stands in `pairs` at or after position `start`.
fn recorded_since(pairs: &Vec<Edge>, start: usize, edge: Edge) -> (r: bool)
    requires
        start <= pairs@.len(),
    ensures
        r == held_since(pairs@, start as int, edge),
{
    let mut k: usize = start;
    while k < pairs.len()
        invariant
            start <= k <= pairs@.len(),
            forall|i: int| start <= i < k ==> pairs@[i] != edge,
        decreases pairs@.len() - k,
    {
        if pairs[k] == edge {
            return true;
        }
        k += 1;
    }
    false
}

/// Takes in what one item references: follows each of its references,
/// appends the items not seen before to `order`, and records each distinct
/// edge in `pairs`. Stops at the first reference that fails.
fn expand(
    program: &Program,
    root: ConcretizedItem,
    capability: &CapabilityDescriptor,
    rules: &StubRuleSet,
    owner: ConcretizedItem,
    order: &mut Vec<ConcretizedItem>,
    seen: &mut FxHashSet<ItemKey>,
    pairs: &mut Vec<Edge>,
) -> (r: Result<(), CollectError>)
    requires
        walk_of(program, root, capability, rules).admits(old(order)@),
        indexes(old(seen)@, old(order)@),
        old(order)@.contains(owner),
        old(pairs)@.no_duplicates(),
        forall|k: int| 0 <= k < old(pairs)@.len() ==> (#[trigger] old(pairs)@[k]).from != owner,
    ensures
        ({
            let w = walk_of(program, root, capability, rules);
            match r {
                Ok(_) => {
                    &&& w.absorb(old(order)@, owner, 0) == Ok::<Seq<ConcretizedItem>, CollectError>(
                        final(order)@,
                    )
                    &&& w.admits(final(order)@)
                    &&& indexes(final(seen)@, final(order)@)
                    &&& old(order)@.is_prefix_of(final(order)@)
                    &&& forall|j: int| 0 <= j < w.fan_out(owner) ==> w.lands_in(final(order)@, owner, j)
                    &&& final(pairs)@.no_duplicates()
                    &&& forall|e: Edge|
                        final(pairs)@.contains(e) <==> old(pairs)@.contains(e) || (e.from == owner
                            && w.edge(owner, e.to))
                },
                Err(e) => w.fails(owner, e) && w.absorb(old(order)@, owner, 0) == Err::<
                    Seq<ConcretizedItem>,
                    CollectError,
                >(e),
            }
        }),
{
    let ghost w = walk_of(program, root, capability, rules);
    let ghost order0 = order@;
    let ghost pairs0 = pairs@;
    let at = match program.find_definition(owner) {
        None => {
            return Ok(());
        },
        Some(at) => at,
    };
    let refs = &program.definitions[at].references;
    let start = pairs.len();
    let mut j: usize = 0;
    while j < refs.len()
        invariant
            w == walk_of(program, root, capability, rules),
            refs@ == w.program.references_of(owner),
            j <= refs@.len(),
            order0 == old(order)@,
            w.absorb(order0, owner, 0) == w.absorb(order@, owner, j as int),
            w.admits(order@),
            indexes(seen@, order@),
            order0.is_prefix_of(order@),
            order0.contains(owner),
            forall|k: int| 0 <= k < j ==> w.lands_in(order@, owner, k),
            pairs@.no_duplicates(),
            start == pairs0.len(),
            pairs0.is_prefix_of(pairs@),
            forall|k: int| 0 <= k < pairs0.len() ==> (#[trigger] pairs0[k]).from != owner,
            forall|k: int|
                start <= k < pairs@.len() ==> (#[trigger] pairs@[k]).from == owner && w.edge_before(
                    owner,
                    j as int,
                    pairs@[k].to,
                ),
            forall|b: ConcretizedItem| #[trigger]
                w.edge_before(owner, j as int, b) ==> held_since(
                    pairs@,
                    start as int,
                    Edge { from: owner, to: b },
                ),
        decreases refs@.len() - j,
    {
        let b = match follow(program, root, capability, rules, owner, refs[j]) {
            Err(e) => {
                assert(w.link(owner, j as int) == Err::<ConcretizedItem, CollectError>(e));
                assert(w.absorb(order@, owner, j as int) == Err::<Seq<ConcretizedItem>, CollectError>(
                    e,
                ));
                return Err(e);
            },
            Ok(b) => b,
        };
        assert(w.link(owner, j as int) == Ok::<ConcretizedItem, CollectError>(b));
        let edge = Edge { from: owner, to: b };
        let ghost pairs_before = pairs@;
        if !recorded_since(pairs, start, edge) {
            pairs.push(edge);
            assert forall|x: int, y: int|
                0 <= x < pairs@.len() && 0 <= y < pairs@.len() && x != y implies pairs@[x]
                != pairs@[y] by {
                if x < pairs_before.len() && y < pairs_before.len() {
                } else {
                    let other = if x < pairs_before.len() { x } else { y };
                    if other < start {
                        assert(pairs0[other] == pairs_before[other]);
                    }
                }
            }
        }
        assert(pairs0.is_prefix_of(pairs@));
        assert forall|k: int| start <= k < pairs@.len() implies (#[trigger] pairs@[k]).from == owner
            && w.edge_before(owner, j + 1, pairs@[k].to) by {
            if k < pairs_before.len() {
                assert(pairs@[k] == pairs_before[k]);
                assert(w.edge_before(owner, j as int, pairs@[k].to));
                let i = choose|i: int|
                    0 <= i < j && i < w.fan_out(owner) && #[trigger] w.link(owner, i) == Ok::<
                        ConcretizedItem,
                        CollectError,
                    >(pairs@[k].to);
                assert(0 <= i < j + 1 && w.link(owner, i) == Ok::<ConcretizedItem, CollectError>(pairs@[k].to));
            } else {
                assert(pairs@[k] == edge);
            }
        }
        let ghost next = j as int + 1;
        assert forall|c: ConcretizedItem| #[trigger] w.edge_before(owner, next, c) implies held_since(
            pairs@,
            start as int,
            Edge { from: owner, to: c },
        ) by {
            let i = choose|i: int|
                0 <= i < next && i < w.fan_out(owner) && #[trigger] w.link(owner, i) == Ok::<
                    ConcretizedItem,
                    CollectError,
                >(c);
            if i < j {
                assert(w.edge_before(owner, j as int, c));
                let k = choose|k: int|
                    start <= k < pairs_before.len() && #[trigger] pairs_before[k] == (Edge {
                        from: owner,
                        to: c,
                    });
                assert(pairs@[k] == pairs_before[k]);
            } else {
                assert(c == b);
                if held_since(pairs_before, start as int, edge) {
                    let k = choose|k: int|
                        start <= k < pairs_before.len() && #[trigger] pairs_before[k] == edge;
                    assert(pairs@[k] == edge);
                } else {
                    assert(pairs@[pairs_before.len() as int] == edge);
                }
            }
        }
        let ghost order_before = order@;
        proof {
            assert(w.edge(owner, b));
            let o = choose|o: int| 0 <= o < order0.len() && order0[o] == owner;
            assert(order@[o] == owner);
            lemma_step_reachable(w, owner, b);
            lemma_universe(w);
        }
        let fresh = take_in(order, seen, b);
        proof {
            assert(order_before.is_prefix_of(order@));
            if fresh {
                assert(order@[order_before.len() as int] == b);
            }
        }
        assert(order@.contains(b)) by {
            if order_before.contains(b) {
                let i = choose|i: int| 0 <= i < order_before.len() && order_before[i] == b;
                assert(order@[i] == b);
            }
        }
        assert forall|k: int| 0 <= k < j + 1 implies w.lands_in(order@, owner, k) by {
            if k < j {
                assert(w.lands_in(order_before, owner, k));
                let t = w.link(owner, k)->Ok_0;
                let i = choose|i: int| 0 <= i < order_before.len() && order_before[i] == t;
                assert(order@[i] == t);
            }
        }
        j += 1;
    }
    proof {
        assert forall|e: Edge|
            pairs@.contains(e) <==> pairs0.contains(e) || (e.from == owner && w.edge(
                owner,
                e.to,
            )) by {
            if pairs@.contains(e) {
                let k = choose|k: int| 0 <= k < pairs@.len() && pairs@[k] == e;
                if k < start {
                    assert(pairs0[k] == e);
                } else {
                    assert(w.edge_before(owner, j as int, pairs@[k].to));
                }
            }
            if pairs0.contains(e) {
                let k = choose|k: int| 0 <= k < pairs0.len() && pairs0[k] == e;
                assert(pairs@[k] == e);
            }
            if e.from == owner && w.edge(owner, e.to) {
                assert(w.edge_before(owner, j as int, e.to));
            }
        }
    }
    Ok(())
}

/// Collects the items reachable from `root` and the edges between them.
///
/// The walk starts at the root and follows every reference of every item it
/// takes in. A referenced item goes through the capability filter first; the
/// edge recorded is the one to the item that the filter settles on. The run
/// succeeds exactly when no reachable item makes a reference that fails, and
/// then returns the reachability closure of the root and the edges that leave
/// its items. Otherwise it returns the failure of a reference that a
/// reachable item makes.
pub fn collect(
    program: &Program,
    root: ConcretizedItem,
    capability: &CapabilityDescriptor,
    rules: &StubRuleSet,
) -> (res: Result<(ItemSet, EdgeMap), CollectError>)
    ensures
        ({
            let w = walk_of(program, root, capability, rules);
            &&& res is Ok <==> w.clean()
            &&& match res {
                Ok((items, edges)) => {
                    &&& items.wf()
                    &&& edges.wf()
                    &&& w.discovery() matches Ok(order) && items@ == order.to_set()
                    &&& items@ == w.closure()
                    &&& edges@ == w.closure_edges()
                    &&& items@.contains(root)
                    &&& forall|a: ConcretizedItem, j: int|
                        items@.contains(a) && 0 <= j < w.fan_out(a) ==> (#[trigger] w.link(a, j)) is Ok
                            && items@.contains(w.link(a, j)->Ok_0)
                    &&& forall|item: ConcretizedItem|
                        items@.contains(item) ==> connects(edges@, root, item)
                },
                Err(e) => {
                    &&& w.discovery() == Err::<Seq<ConcretizedItem>, CollectError>(e)
                    &&& exists|a: ConcretizedItem| w.reachable(a) && w.fails(a, e)
                },
            }
        }),
{
    let ghost w = walk_of(program, root, capability, rules);
    let mut order: Vec<ConcretizedItem> = Vec::new();
    let mut seen: FxHashSet<ItemKey> = FxHashSet::default();
    take_in(&mut order, &mut seen, root);
    let mut pairs: Vec<Edge> = Vec::new();
    let mut cursor: usize = 0;
    proof {
        lemma_root_reachable(w);
        lemma_universe(w);
        assert(order@ =~= seq![root]);
        order@.unique_seq_to_set();
        assert(order@.to_set().subset_of(w.universe())) by {
            assert forall|x: ConcretizedItem| order@.to_set().contains(x) implies w.universe().contains(
                x,
            ) by {
                let i = choose|i: int| 0 <= i < order@.len() && order@[i] == x;
            }
        }
        lemma_len_subset(order@.to_set(), w.universe());
    }
    while cursor < order.len()
        invariant
            w == walk_of(program, root, capability, rules),
            cursor <= order@.len(),
            order@.len() >= 1,
            order@[0] == root,
            w.admits(order@),
            indexes(seen@, order@),
            w.universe().finite(),
            order@.len() <= w.universe().len(),
            w.discovery() == w.walk(order@, cursor as int, (w.universe().len() - cursor) as nat),
            forall|i: int, j: int|
                0 <= i < cursor && 0 <= j < w.fan_out(order@[i]) ==> #[trigger] w.lands_in(
                    order@,
                    order@[i],
                    j,
                ),
            pairs@.no_duplicates(),
            forall|e: Edge|
                pairs@.contains(e) <==> (exists|i: int| 0 <= i < cursor && order@[i] == e.from)
                    && w.edge(e.from, e.to),
        decreases w.universe().len() - cursor,
    {
        let owner = order[cursor];
        let ghost order_before = order@;
        let ghost pairs_before = pairs@;
        proof {
            assert forall|k: int| 0 <= k < pairs@.len() implies (#[trigger] pairs@[k]).from
                != owner by {
                assert(pairs@.contains(pairs@[k]));
                let i = choose|i: int| 0 <= i < cursor && order@[i] == pairs@[k].from;
                assert(order@[i] != order@[cursor as int]);
            }
        }
        match expand(program, root, capability, rules, owner, &mut order, &mut seen, &mut pairs) {
            Err(e) => {
                assert(w.reachable(owner) && w.fails(owner, e));
                return Err(e);
            },
            Ok(_) => {},
        }
        proof {
            assert forall|i: int, j: int|
                0 <= i < cursor + 1 && 0 <= j < w.fan_out(order@[i]) implies #[trigger] w.lands_in(
                order@,
                order@[i],
                j,
            ) by {
                if i < cursor {
                    assert(order@[i] == order_before[i]);
                    assert(w.lands_in(order_before, order_before[i], j));
                    let t = w.link(order@[i], j)->Ok_0;
                    let k = choose|k: int| 0 <= k < order_before.len() && order_before[k] == t;
                    assert(order@[k] == t);
                }
            }
            assert forall|e: Edge|
                pairs@.contains(e) <==> (exists|i: int| 0 <= i < cursor + 1 && order@[i] == e.from)
                    && w.edge(e.from, e.to) by {
                if pairs_before.contains(e) {
                    let i = choose|i: int| 0 <= i < cursor && order_before[i] == e.from;
                    assert(0 <= i < cursor + 1 && order@[i] == e.from);
                }
                if (exists|i: int| 0 <= i < cursor + 1 && order@[i] == e.from) && w.edge(
                    e.from,
                    e.to,
                ) {
                    let i = choose|i: int| 0 <= i < cursor + 1 && order@[i] == e.from;
                    if i < cursor {
                        assert(order_before[i] == e.from);
                    }
                }
                if e.from == owner {
                    assert(order@[cursor as int] == e.from);
                }
            }
            // The walk ends: the items taken in are distinct items of a finite universe.
            order@.unique_seq_to_set();
            assert(order@.to_set().subset_of(w.universe())) by {
                assert forall|x: ConcretizedItem| order@.to_set().contains(x) implies w.universe().contains(
                    x,
                ) by {
                    let i = choose|i: int| 0 <= i < order@.len() && order@[i] == x;
                }
            }
            lemma_len_subset(order@.to_set(), w.universe());
        }
        cursor += 1;
    }
    proof {
        let s = order@.to_set();
        assert forall|a: ConcretizedItem, j: int| s.contains(a) && 0 <= j < w.fan_out(a) implies (
        #[trigger] w.link(a, j)) is Ok && s.contains(w.link(a, j)->Ok_0) by {
            let i = choose|i: int| 0 <= i < order@.len() && order@[i] == a;
            assert(w.lands_in(order@, order@[i], j));
        }
        assert forall|a: ConcretizedItem, b: ConcretizedItem| s.contains(a) && w.edge(a, b) implies s.contains(
            b,
        ) by {
            let j = choose|j: int|
                0 <= j < w.fan_out(a) && #[trigger] w.link(a, j) == Ok::<ConcretizedItem, CollectError>(
                    b,
                );
            assert((w.link(a, j)) is Ok && s.contains(w.link(a, j)->Ok_0));
        }
        assert(s.contains(root)) by {
            assert(order@[0] == root);
        }
        assert forall|x: ConcretizedItem| s.contains(x) <==> w.reachable(x) by {
            if w.reachable(x) {
                lemma_closed_set_holds_closure(w, s, x);
            }
            if s.contains(x) {
                let i = choose|i: int| 0 <= i < order@.len() && order@[i] == x;
            }
        }
        assert(s =~= w.closure());
        assert(pairs@.to_set() =~= w.closure_edges()) by {
            assert forall|e: Edge| pairs@.to_set().contains(e) <==> w.closure_edges().contains(e) by {
                if w.reachable(e.from) && w.edge(e.from, e.to) {
                    assert(s.contains(e.from));
                    let i = choose|i: int| 0 <= i < order@.len() && order@[i] == e.from;
                    assert(pairs@.contains(e));
                }
                if pairs@.contains(e) {
                    let i = choose|i: int| 0 <= i < cursor && order@[i] == e.from;
                    assert(w.reachable(order@[i]));
                }
            }
        }
        assert(w.clean()) by {
            assert forall|a: ConcretizedItem, e: CollectError| w.reachable(a) implies !#[trigger] w.fails(
                a,
                e,
            ) by {
                if w.fails(a, e) {
                    let j = choose|j: int|
                        0 <= j < w.fan_out(a) && #[trigger] w.link(a, j) == Err::<
                            ConcretizedItem,
                            CollectError,
                        >(e);
                    assert(s.contains(a));
                    assert((w.link(a, j)) is Ok);
                }
            }
        }
        assert forall|item: ConcretizedItem| s.contains(item) implies connects(
            w.closure_edges(),
            root,
            item,
        ) by {
            lemma_closure_is_connected(w, item);
        }
    }
    Ok((ItemSet::from_distinct(order, seen), EdgeMap::from_distinct(pairs)))
}

/// Soundness of the closure: where no reachable item makes a reference that
/// fails, every reference of an item of the closure leads to an item of the
/// closure.
pub proof fn lemma_closure_is_sound(w: Walk, item: ConcretizedItem, j: int)
    requires
        w.clean(),
        w.closure().contains(item),
        0 <= j < w.fan_out(item),
    ensures
        w.link(item, j) is Ok,
        w.closure().contains(w.link(item, j)->Ok_0),
{
    if w.link(item, j) is Err {
        assert(w.fails(item, w.link(item, j)->Err_0));
    }
    assert(w.edge(item, w.link(item, j)->Ok_0));
    lemma_step_reachable(w, item, w.link(item, j)->Ok_0);
}

/// Minimality of the closure: every item of the closure is reached from the
/// root along edges that leave items of the closure.
pub proof fn lemma_closure_is_connected(w: Walk, item: ConcretizedItem)
    requires
        w.closure().contains(item),
    ensures
        connects(w.closure_edges(), w.root, item),
{
    let p = choose|p: Seq<ConcretizedItem>|
        #[trigger] is_path(w.edges(), w.root, p) && p.last() == item;
    assert forall|i: int| 0 <= i < p.len() - 1 implies #[trigger] hop(w.closure_edges(), p, i) by {
        lemma_path_is_reachable(w, p, i);
        assert(hop(w.edges(), p, i));
    }
    assert(is_path(w.closure_edges(), w.root, p));
}

} // verus!
