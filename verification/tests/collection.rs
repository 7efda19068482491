use kernel_collector::collector::{collect, follow, settle, CollectError};
use kernel_collector::graph::{EdgeMap, ItemSet};
use kernel_collector::item::ConcretizedItem;
use kernel_collector::program::{Definition, Operation, Program, Reference, Resolution};
use kernel_collector::stubbing::{
    filter, CapabilityDescriptor, FilterOutcome, StubBehavior, StubRule, StubRuleSet,
};

fn func(def: u64) -> ConcretizedItem {
    ConcretizedItem::Fn { def, args: 0 }
}

fn direct(def: u64) -> Reference {
    Reference::Direct { target: func(def) }
}

fn body(def: u64, operations: Vec<u64>, references: Vec<Reference>) -> Definition {
    Definition {
        item: func(def),
        operations: operations.into_iter().map(|code| Operation { code }).collect(),
        references,
    }
}

fn supports(codes: Vec<u64>) -> CapabilityDescriptor {
    CapabilityDescriptor { supported: codes.into_iter().map(|code| Operation { code }).collect() }
}

fn no_rules() -> StubRuleSet {
    StubRuleSet { rules: vec![] }
}

fn rule(code: u64, replacement: u64) -> StubRule {
    StubRule {
        operation: Operation { code },
        behavior: StubBehavior::NoOp,
        replacement: func(replacement),
    }
}

fn sorted_items(items: &ItemSet) -> Vec<ConcretizedItem> {
    let mut v = items.to_vec();
    v.sort_by_key(|item| item.key());
    v
}

fn diamond() -> Program {
    Program {
        definitions: vec![
            body(1, vec![], vec![direct(2), direct(3)]),
            body(2, vec![], vec![direct(4)]),
            body(3, vec![], vec![direct(4)]),
            body(4, vec![], vec![]),
        ],
        resolutions: vec![],
    }
}

#[test]
fn shared_item_is_collected_once() {
    let (items, edges) = collect(&diamond(), func(1), &supports(vec![]), &no_rules()).unwrap();
    assert_eq!(sorted_items(&items), vec![func(1), func(2), func(3), func(4)]);
    assert_eq!(items.len(), 4);
    assert_eq!(edges.len(), 4);
    assert!(edges.contains(func(1), func(2)));
    assert!(edges.contains(func(1), func(3)));
    assert!(edges.contains(func(2), func(4)));
    assert!(edges.contains(func(3), func(4)));
    assert!(!edges.contains(func(4), func(1)));
}

#[test]
fn unsupported_item_is_replaced_by_its_stub() {
    let program = Program {
        definitions: vec![body(1, vec![], vec![direct(5)]), body(5, vec![77], vec![direct(9)])],
        resolutions: vec![],
    };
    let rules = StubRuleSet { rules: vec![rule(77, 50)] };
    let (items, edges) = collect(&program, func(1), &supports(vec![1, 2]), &rules).unwrap();
    assert_eq!(sorted_items(&items), vec![func(1), func(50)]);
    assert!(edges.contains(func(1), func(50)));
    assert!(!edges.contains(func(1), func(5)));
    assert_eq!(edges.len(), 1);
}

#[test]
fn unsupported_item_without_rule_fails_the_run() {
    let program = Program {
        definitions: vec![body(1, vec![], vec![direct(6)]), body(6, vec![77], vec![])],
        resolutions: vec![],
    };
    let res = collect(&program, func(1), &supports(vec![1]), &no_rules());
    assert_eq!(
        res.err(),
        Some(CollectError::UnsupportedOperation {
            item: func(6),
            operation: Operation { code: 77 }
        })
    );
}

#[test]
fn direct_recursion_gives_one_item_and_one_edge() {
    let program = Program { definitions: vec![body(1, vec![], vec![direct(1)])], resolutions: vec![] };
    let (items, edges) = collect(&program, func(1), &supports(vec![]), &no_rules()).unwrap();
    assert_eq!(items.to_vec(), vec![func(1)]);
    assert_eq!(edges.len(), 1);
    assert!(edges.contains(func(1), func(1)));
}

#[test]
fn repeated_reference_is_one_edge() {
    let program = Program {
        definitions: vec![body(1, vec![], vec![direct(2), direct(2), direct(2)])],
        resolutions: vec![],
    };
    let (items, edges) = collect(&program, func(1), &supports(vec![]), &no_rules()).unwrap();
    assert_eq!(items.len(), 2);
    assert_eq!(edges.len(), 1);
}

#[test]
fn cycle_between_two_items_ends() {
    let program = Program {
        definitions: vec![body(1, vec![], vec![direct(2)]), body(2, vec![], vec![direct(1)])],
        resolutions: vec![],
    };
    let (items, edges) = collect(&program, func(1), &supports(vec![]), &no_rules()).unwrap();
    assert_eq!(sorted_items(&items), vec![func(1), func(2)]);
    assert_eq!(edges.len(), 2);
}

#[test]
fn unreachable_definitions_stay_out() {
    let mut program = diamond();
    program.definitions.push(body(8, vec![], vec![direct(1)]));
    let (items, _) = collect(&program, func(1), &supports(vec![]), &no_rules()).unwrap();
    assert!(!items.contains(func(8)));
    assert_eq!(items.len(), 4);
}

#[test]
fn every_reference_of_a_collected_item_is_collected() {
    let program = diamond();
    let cap = supports(vec![]);
    let (items, edges) = collect(&program, func(1), &cap, &no_rules()).unwrap();
    for item in items.to_vec() {
        let at = program.find_definition(item).unwrap();
        for reference in &program.definitions[at].references {
            let target = follow(&program, func(1), &cap, &no_rules(), item, *reference).unwrap();
            assert!(items.contains(target));
            assert!(edges.contains(item, target));
        }
    }
}

#[test]
fn every_collected_item_has_a_recorded_way_from_the_root() {
    let (items, edges) = collect(&diamond(), func(1), &supports(vec![]), &no_rules()).unwrap();
    let mut reached = vec![func(1)];
    let mut i = 0;
    while i < reached.len() {
        for edge in edges.to_vec() {
            if edge.from == reached[i] && !reached.contains(&edge.to) {
                reached.push(edge.to);
            }
        }
        i += 1;
    }
    for item in items.to_vec() {
        assert!(reached.contains(&item));
    }
}

#[test]
fn dispatch_site_resolves_to_its_single_target() {
    let program = Program {
        definitions: vec![body(1, vec![], vec![Reference::Dispatch { site: 10, receiver: 20 }])],
        resolutions: vec![
            Resolution { site: 10, receiver: 21, target: func(3) },
            Resolution { site: 10, receiver: 20, target: func(2) },
            Resolution { site: 10, receiver: 20, target: func(2) },
        ],
    };
    assert_eq!(program.resolve(10, 20), Some(func(2)));
    let (items, edges) = collect(&program, func(1), &supports(vec![]), &no_rules()).unwrap();
    assert_eq!(sorted_items(&items), vec![func(1), func(2)]);
    assert!(edges.contains(func(1), func(2)));
}

#[test]
fn dispatch_site_without_target_fails_the_run() {
    let program = Program {
        definitions: vec![body(1, vec![], vec![Reference::Dispatch { site: 10, receiver: 20 }])],
        resolutions: vec![Resolution { site: 10, receiver: 21, target: func(3) }],
    };
    assert_eq!(program.resolve(10, 20), None);
    let res = collect(&program, func(1), &supports(vec![]), &no_rules());
    assert_eq!(
        res.err(),
        Some(CollectError::UnresolvableDispatch { item: func(1), site: 10, receiver: 20 })
    );
}

#[test]
fn dispatch_site_with_two_targets_fails_the_run() {
    let program = Program {
        definitions: vec![body(1, vec![], vec![Reference::Dispatch { site: 10, receiver: 20 }])],
        resolutions: vec![
            Resolution { site: 10, receiver: 20, target: func(2) },
            Resolution { site: 10, receiver: 20, target: func(3) },
        ],
    };
    assert_eq!(program.resolve(10, 20), None);
    assert!(collect(&program, func(1), &supports(vec![]), &no_rules()).is_err());
}

#[test]
fn stub_that_needs_stubbing_fails_the_run() {
    let program = Program {
        definitions: vec![
            body(1, vec![], vec![direct(5)]),
            body(5, vec![77], vec![]),
            body(50, vec![78], vec![]),
        ],
        resolutions: vec![],
    };
    let rules = StubRuleSet { rules: vec![rule(77, 50), rule(78, 51)] };
    let res = collect(&program, func(1), &supports(vec![]), &rules);
    assert_eq!(
        res.err(),
        Some(CollectError::StubCycle { item: func(5), replacement: func(50) })
    );
}

#[test]
fn root_is_taken_as_it_is() {
    let program = Program {
        definitions: vec![body(1, vec![77], vec![direct(1), direct(2)])],
        resolutions: vec![],
    };
    let cap = supports(vec![]);
    assert_eq!(settle(&program, func(1), &cap, &no_rules(), func(1)), Ok(func(1)));
    let (items, _) = collect(&program, func(1), &cap, &no_rules()).unwrap();
    assert_eq!(sorted_items(&items), vec![func(1), func(2)]);
}

#[test]
fn filter_verdicts() {
    let program = Program {
        definitions: vec![
            body(1, vec![1, 2], vec![]),
            body(2, vec![1, 77, 78], vec![]),
            body(3, vec![78, 77], vec![]),
            body(4, vec![77, 99], vec![]),
        ],
        resolutions: vec![],
    };
    let cap = supports(vec![1, 2]);
    let rules = StubRuleSet { rules: vec![rule(77, 50), rule(78, 60), rule(77, 70)] };
    assert_eq!(filter(&program, func(1), &cap, &rules), FilterOutcome::Unchanged(func(1)));
    assert_eq!(filter(&program, func(2), &cap, &rules), FilterOutcome::Replaced(func(50)));
    assert_eq!(filter(&program, func(3), &cap, &rules), FilterOutcome::Replaced(func(60)));
    assert_eq!(
        filter(&program, func(4), &cap, &rules),
        FilterOutcome::Rejected { operation: Operation { code: 99 } }
    );
    assert_eq!(filter(&program, func(9), &cap, &rules), FilterOutcome::Unchanged(func(9)));
}

#[test]
fn filter_gives_the_same_verdict_twice() {
    let program =
        Program { definitions: vec![body(2, vec![1, 77, 78], vec![])], resolutions: vec![] };
    let cap = supports(vec![1]);
    let rules = StubRuleSet { rules: vec![rule(78, 60), rule(77, 50)] };
    let first = filter(&program, func(2), &cap, &rules);
    let second = filter(&program, func(2), &cap, &rules);
    assert_eq!(first, second);
    assert_eq!(first, FilterOutcome::Replaced(func(50)));
}

#[test]
fn first_definition_stands_for_an_item() {
    let program = Program {
        definitions: vec![body(1, vec![], vec![direct(2)]), body(1, vec![], vec![direct(3)])],
        resolutions: vec![],
    };
    assert_eq!(program.find_definition(func(1)), Some(0));
    assert_eq!(program.find_definition(func(2)), None);
    let (items, _) = collect(&program, func(1), &supports(vec![]), &no_rules()).unwrap();
    assert_eq!(sorted_items(&items), vec![func(1), func(2)]);
}

#[test]
fn item_set_holds_an_item_once() {
    let mut set = ItemSet::new();
    assert!(set.insert(func(1)));
    assert!(!set.insert(func(1)));
    assert!(set.insert(ConcretizedItem::Static { def: 1 }));
    assert_eq!(set.len(), 2);
    assert!(set.contains(func(1)));
    assert!(!set.contains(func(2)));
}

#[test]
fn edge_map_holds_a_pair_once() {
    let mut edges = EdgeMap::new();
    assert!(edges.insert(func(1), func(2)));
    assert!(!edges.insert(func(1), func(2)));
    assert!(edges.insert(func(2), func(1)));
    assert_eq!(edges.len(), 2);
    assert!(edges.links(func(2), func(1)));
    assert!(!edges.links(func(1), func(3)));
}

#[test]
fn items_are_ordered_by_kind_definition_and_arguments() {
    let a = ConcretizedItem::Fn { def: 9, args: 9 };
    let b = ConcretizedItem::Static { def: 0 };
    let c = ConcretizedItem::Fn { def: 9, args: 10 };
    let d = ConcretizedItem::Fn { def: 10, args: 0 };
    assert!(a.precedes(b));
    assert!(a.precedes(c));
    assert!(c.precedes(d));
    assert!(!b.precedes(a));
    assert!(!a.precedes(a));
    assert_eq!(a.key(), (0, 9, 9));
    assert_eq!(b.key(), (1, 0, 0));
    assert_eq!(b.def_id(), 0);
}
