//! The capability filter: which items a restricted target can take as they
//! are, which are replaced by a stub, and which cannot be specialized.

use vstd::prelude::*;
use crate::item::ConcretizedItem;
use crate::program::{Operation, Program};

verus! {

/// What an execution target can do: the set of operations it supports.
#[derive(Clone, Debug)]
pub struct CapabilityDescriptor {
    pub supported: Vec<Operation>,
}

/// How a stub behaves on the target in place of the operation it replaces.
/// The collector carries the behavior through and never branches on it.
#[derive(Clone, Copy, Debug, PartialEq, Eq, Structural, Hash)]
pub enum StubBehavior {
    NoOp,
    TargetPanic,
    ExplicitError,
}

/// A rule that replaces every item performing `operation` by `replacement`.
#[derive(Clone, Copy, Debug, PartialEq, Eq, Structural, Hash)]
pub struct StubRule {
    pub operation: Operation,
    pub behavior: StubBehavior,
    pub replacement: ConcretizedItem,
}

/// The stub rules of one target. Where two rules speak of one operation, the
/// earlier one applies.
#[derive(Clone, Debug)]
pub struct StubRuleSet {
    pub rules: Vec<StubRule>,
}

/// The verdict of the capability filter on one item.
#[derive(Clone, Copy, Debug, PartialEq, Eq, Structural, Hash)]
pub enum FilterOutcome {
    /// The target supports every operation of the item.
    Unchanged(ConcretizedItem),
    /// The item is replaced by the given stub.
    Replaced(ConcretizedItem),
    /// The item performs `operation`, which the target lacks and no rule covers.
    Rejected { operation: Operation },
}

impl View for CapabilityDescriptor {
    type V = Set<Operation>;

    open spec fn view(&self) -> Set<Operation> {
        self.supported@.to_set()
    }
}

impl CapabilityDescriptor {
    /// Whether the target supports `op`.
    pub fn supports(&self, op: Operation) -> (r: bool)
        ensures
            r == self@.contains(op),
    {
        let mut i: usize = 0;
        while i < self.supported.len()
            invariant
                i <= self.supported@.len(),
                forall|j: int| 0 <= j < i ==> self.supported@[j] != op,
            decreases self.supported@.len() - i,
        {
            if self.supported[i] == op {
                return true;
            }
            i += 1;
        }
        false
    }
}

impl View for StubRuleSet {
    type V = Seq<StubRule>;

    open spec fn view(&self) -> Seq<StubRule> {
        self.rules@
    }
}

/// Rule `k` is the first rule for `op`.
pub open spec fn is_rule_for(rules: Seq<StubRule>, k: int, op: Operation) -> bool {
    &&& 0 <= k < rules.len()
    &&& rules[k].operation == op
    &&& forall|j: int| 0 <= j < k ==> (#[trigger] rules[j]).operation != op
}

/// Some rule speaks of `op`.
pub open spec fn covers(rules: Seq<StubRule>, op: Operation) -> bool {
    exists|k: int| is_rule_for(rules, k, op)
}

/// The rule that applies to `op`.
pub open spec fn rule_for(rules: Seq<StubRule>, op: Operation) -> StubRule {
    rules[choose|k: int| is_rule_for(rules, k, op)]
}

impl StubRuleSet {
    /// The rule that applies to `op`, if any.
    pub fn find_rule(&self, op: Operation) -> (r: Option<StubRule>)
        ensures
            r is Some <==> covers(self@, op),
            r matches Some(rule) ==> rule == rule_for(self@, op),
    {
        let mut k: usize = 0;
        while k < self.rules.len()
            invariant
                k <= self.rules@.len(),
                forall|j: int| 0 <= j < k ==> (#[trigger] self.rules@[j]).operation != op,
            decreases self.rules@.len() - k,
        {
            if self.rules[k].operation == op {
                assert(is_rule_for(self@, k as int, op));
                return Some(self.rules[k]);
            }
            k += 1;
        }
        None
    }
}

/// Operation `i` of `ops` is one the target lacks.
pub open spec fn unsupported_at(ops: Seq<Operation>, capability: Set<Operation>, i: int) -> bool {
    0 <= i < ops.len() && !capability.contains(ops[i])
}

/// Operation `i` is the first that the target lacks.
pub open spec fn first_unsupported(
    ops: Seq<Operation>,
    capability: Set<Operation>,
    i: int,
) -> bool {
    &&& unsupported_at(ops, capability, i)
    &&& forall|j: int| 0 <= j < i ==> !#[trigger] unsupported_at(ops, capability, j)
}

/// Operation `i` is one the target lacks and no rule covers.
pub open spec fn uncovered_at(
    ops: Seq<Operation>,
    capability: Set<Operation>,
    rules: Seq<StubRule>,
    i: int,
) -> bool {
    unsupported_at(ops, capability, i) && !covers(rules, ops[i])
}

/// Operation `i` is the first that the target lacks and no rule covers.
pub open spec fn first_uncovered(
    ops: Seq<Operation>,
    capability: Set<Operation>,
    rules: Seq<StubRule>,
    i: int,
) -> bool {
    &&& uncovered_at(ops, capability, rules, i)
    &&& forall|j: int| 0 <= j < i ==> !#[trigger] uncovered_at(ops, capability, rules, j)
}

/// The verdict on an item that performs `ops`.
///
/// If the target lacks an operation that no rule covers, the item is
/// rejected, naming the first such operation. Otherwise, if the target lacks
/// any operation, the item is replaced as the rule for the first such
/// operation says. Otherwise the item stays as it is.
pub open spec fn filter_outcome(
    item: ConcretizedItem,
    ops: Seq<Operation>,
    capability: Set<Operation>,
    rules: Seq<StubRule>,
) -> FilterOutcome {
    if exists|i: int| uncovered_at(ops, capability, rules, i) {
        FilterOutcome::Rejected {
            operation: ops[choose|i: int| first_uncovered(ops, capability, rules, i)],
        }
    } else if exists|i: int| unsupported_at(ops, capability, i) {
        FilterOutcome::Replaced(
            rule_for(rules, ops[choose|i: int| first_unsupported(ops, capability, i)]).replacement,
        )
    } else {
        FilterOutcome::Unchanged(item)
    }
}

/// Checks every operation of `item` against the capability descriptor and
/// the stub rules.
pub fn filter(
    program: &Program,
    item: ConcretizedItem,
    capability: &CapabilityDescriptor,
    rules: &StubRuleSet,
) -> (outcome: FilterOutcome)
    ensures
        outcome == filter_outcome(item, program.operations_of(item), capability@, rules@),
{
    let at = match program.find_definition(item) {
        None => {
            return FilterOutcome::Unchanged(item);
        },
        Some(at) => at,
    };
    let ops = &program.definitions[at].operations;
    let ghost cap = capability@;
    let mut stub: Option<StubRule> = None;
    let mut i: usize = 0;
    while i < ops.len()
        invariant
            i <= ops@.len(),
            cap == capability@,
            ops@ == program.operations_of(item),
            forall|j: int| 0 <= j < i ==> !#[trigger] uncovered_at(ops@, cap, rules@, j),
            stub is None ==> forall|j: int| 0 <= j < i ==> !#[trigger] unsupported_at(ops@, cap, j),
            stub matches Some(rule) ==> exists|f: int|
                0 <= f < i && first_unsupported(ops@, cap, f) && rule == rule_for(rules@, ops@[f]),
        decreases ops@.len() - i,
    {
        let op = ops[i];
        if !capability.supports(op) {
            match rules.find_rule(op) {
                None => {
                    proof {
                        assert(uncovered_at(ops@, cap, rules@, i as int));
                        assert(first_uncovered(ops@, cap, rules@, i as int));
                        let c = choose|c: int| first_uncovered(ops@, cap, rules@, c);
                        assert(c == i);
                    }
                    return FilterOutcome::Rejected { operation: op };
                },
                Some(rule) => {
                    if stub.is_none() {
                        assert(first_unsupported(ops@, cap, i as int));
                        stub = Some(rule);
                    }
                },
            }
        }
        i += 1;
    }
    match stub {
        None => FilterOutcome::Unchanged(item),
        Some(rule) => {
            proof {
                let f = choose|f: int|
                    0 <= f < i && first_unsupported(ops@, cap, f) && rule == rule_for(
                        rules@,
                        ops@[f],
                    );
                assert(unsupported_at(ops@, cap, f));
                let c = choose|c: int| first_unsupported(ops@, cap, c);
                assert(c == f);
            }
            FilterOutcome::Replaced(rule.replacement)
        },
    }
}

/// Where some operation is one the target lacks, one of them is the first.
pub proof fn lemma_first_unsupported(ops: Seq<Operation>, capability: Set<Operation>, i: int)
    requires
        unsupported_at(ops, capability, i),
    ensures
        exists|f: int| first_unsupported(ops, capability, f),
    decreases i,
{
    if exists|j: int| 0 <= j < i && unsupported_at(ops, capability, j) {
        let j = choose|j: int| 0 <= j < i && unsupported_at(ops, capability, j);
        lemma_first_unsupported(ops, capability, j);
    } else {
        assert(first_unsupported(ops, capability, i));
    }
}

/// An item is only ever replaced by the replacement of one of the rules.
pub proof fn lemma_replacement_is_stub(
    item: ConcretizedItem,
    ops: Seq<Operation>,
    capability: Set<Operation>,
    rules: Seq<StubRule>,
)
    ensures
        filter_outcome(item, ops, capability, rules) matches FilterOutcome::Replaced(stub)
            ==> exists|k: int| 0 <= k < rules.len() && (#[trigger] rules[k]).replacement == stub,
{
    if filter_outcome(item, ops, capability, rules) is Replaced {
        let i = choose|i: int| unsupported_at(ops, capability, i);
        lemma_first_unsupported(ops, capability, i);
        let f = choose|f: int| first_unsupported(ops, capability, f);
        assert(unsupported_at(ops, capability, f));
        assert(!uncovered_at(ops, capability, rules, f));
        let k = choose|k: int| is_rule_for(rules, k, ops[f]);
        assert(rules[k].replacement == rule_for(rules, ops[f]).replacement);
    }
}

/// The filter is a function of the item's operations, the capability set and
/// the rules alone: two runs on the same inputs give the same verdict.
pub proof fn lemma_filter_deterministic(
    item: ConcretizedItem,
    first: &Program,
    second: &Program,
    capability: &CapabilityDescriptor,
    other_capability: &CapabilityDescriptor,
    rules: &StubRuleSet,
    other_rules: &StubRuleSet,
)
    requires
        first.operations_of(item) == second.operations_of(item),
        capability@ == other_capability@,
        rules@ == other_rules@,
    ensures
        filter_outcome(item, first.operations_of(item), capability@, rules@) == filter_outcome(
            item,
            second.operations_of(item),
            other_capability@,
            other_rules@,
        ),
{
}

} // verus!
