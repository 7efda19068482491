use kernel_collector::collector::{collect, CollectError};
use kernel_collector::graph::{EdgeMap, ItemSet};
use kernel_collector::item::ConcretizedItem;
use kernel_collector::linkage::finalize;
use kernel_collector::partition::{
    hash_items, make_unit, partition, CompilationUnit, Linkage, PartitionStrategy, UnitEntry,
    Visibility,
};
use kernel_collector::pipeline::{collect_and_partition_mono_items, definition_ids};
use kernel_collector::program::{Definition, Operation, Program, Reference};
use kernel_collector::ranking::{sort, sort_items};
use kernel_collector::report::{abbreviate, name_item, render, report, ReportLine, UnitTag};
use kernel_collector::stubbing::{CapabilityDescriptor, StubRuleSet};
use kernel_collector::text::{push_decimal, text_before};

fn func(def: u64) -> ConcretizedItem {
    ConcretizedItem::Fn { def, args: 0 }
}

fn set_of(defs: &[u64]) -> ItemSet {
    let mut set = ItemSet::new();
    for def in defs {
        set.insert(func(*def));
    }
    set
}

fn diamond_edges(order: &[(u64, u64)]) -> EdgeMap {
    let mut edges = EdgeMap::new();
    for (from, to) in order {
        edges.insert(func(*from), func(*to));
    }
    edges
}

fn diamond() -> Program {
    let body = |def: u64, targets: Vec<u64>| Definition {
        item: func(def),
        operations: vec![],
        references: targets.into_iter().map(|t| Reference::Direct { target: func(t) }).collect(),
    };
    Program {
        definitions: vec![body(1, vec![2, 3]), body(2, vec![4]), body(3, vec![4]), body(4, vec![])],
        resolutions: vec![],
    }
}

fn items_of(unit: &CompilationUnit) -> Vec<ConcretizedItem> {
    unit.entries.iter().map(|e| e.item).collect()
}

#[test]
fn one_unit_holds_every_item() {
    let units = partition(&set_of(&[3, 1, 4, 2]), &EdgeMap::new(), PartitionStrategy::FixedUnitCount(1));
    assert_eq!(units.len(), 1);
    assert_eq!(items_of(&units[0]), vec![func(1), func(2), func(3), func(4)]);
    assert_eq!(units[0].name, "unit-852027294405974549-0");
    for entry in &units[0].entries {
        assert_eq!(entry.linkage, Linkage::External);
        assert_eq!(entry.visibility, Visibility::Default);
    }
}

#[test]
fn items_are_dealt_out_in_turn() {
    let units = partition(&set_of(&[4, 3, 2, 1]), &EdgeMap::new(), PartitionStrategy::FixedUnitCount(2));
    assert_eq!(units.len(), 2);
    assert_eq!(items_of(&units[0]), vec![func(1), func(3)]);
    assert_eq!(items_of(&units[1]), vec![func(2), func(4)]);
    assert_eq!(units[0].name, "unit-14641963043065111473-0");
    assert_eq!(units[1].name, "unit-13725175771682770899-1");
}

#[test]
fn more_units_than_items_leaves_units_empty() {
    let units = partition(&set_of(&[1]), &EdgeMap::new(), PartitionStrategy::FixedUnitCount(3));
    assert_eq!(units.len(), 3);
    assert_eq!(items_of(&units[0]), vec![func(1)]);
    assert!(units[1].entries.is_empty());
    assert!(units[2].entries.is_empty());
    assert_eq!(units[0].name, "unit-15657234800422177934-0");
    assert_eq!(units[1].name, "unit-14695981039346656037-1");
    assert_eq!(units[2].name, "unit-14695981039346656037-2");
}

#[test]
fn empty_set_gives_empty_units() {
    let units = partition(&ItemSet::new(), &EdgeMap::new(), PartitionStrategy::FixedUnitCount(1));
    assert_eq!(units.len(), 1);
    assert!(units[0].entries.is_empty());
    let none = partition(&ItemSet::new(), &EdgeMap::new(), PartitionStrategy::LocalityBalanced);
    assert!(none.is_empty());
}

#[test]
fn partition_does_not_depend_on_input_order() {
    for strategy in [
        PartitionStrategy::FixedUnitCount(1),
        PartitionStrategy::FixedUnitCount(3),
        PartitionStrategy::LocalityBalanced,
    ] {
        let first = partition(
            &set_of(&[1, 2, 3, 4]),
            &diamond_edges(&[(1, 2), (1, 3), (2, 4), (3, 4)]),
            strategy,
        );
        let second = partition(
            &set_of(&[4, 2, 3, 1]),
            &diamond_edges(&[(3, 4), (2, 4), (1, 3), (1, 2)]),
            strategy,
        );
        assert_eq!(first.len(), second.len());
        for (a, b) in first.iter().zip(second.iter()) {
            assert_eq!(a.name, b.name);
            assert_eq!(a.entries, b.entries);
        }
    }
}

#[test]
fn partition_twice_gives_the_same_units() {
    let items = set_of(&[7, 5, 6]);
    let edges = diamond_edges(&[(5, 6)]);
    let first = partition(&items, &edges, PartitionStrategy::LocalityBalanced);
    let second = partition(&items, &edges, PartitionStrategy::LocalityBalanced);
    assert_eq!(first.len(), second.len());
    for (a, b) in first.iter().zip(second.iter()) {
        assert_eq!(a.name, b.name);
        assert_eq!(a.entries, b.entries);
    }
}

#[test]
fn linked_items_share_a_unit() {
    let units = partition(
        &set_of(&[1, 2, 3, 4]),
        &diamond_edges(&[(1, 2), (1, 3), (2, 4), (3, 4)]),
        PartitionStrategy::LocalityBalanced,
    );
    assert_eq!(units.len(), 2);
    assert_eq!(items_of(&units[0]), vec![func(1), func(2), func(3)]);
    assert_eq!(items_of(&units[1]), vec![func(4)]);
    assert_eq!(units[0].name, "unit-12517234941178328147-0");
    assert_eq!(units[1].name, "unit-15654365075073114899-1");
}

#[test]
fn unlinked_items_stand_alone() {
    let units = partition(&set_of(&[1, 2, 3]), &EdgeMap::new(), PartitionStrategy::LocalityBalanced);
    assert_eq!(units.len(), 3);
    for (i, unit) in units.iter().enumerate() {
        assert_eq!(items_of(unit), vec![func(i as u64 + 1)]);
    }
}

#[test]
fn every_item_is_in_exactly_one_unit() {
    for strategy in [PartitionStrategy::FixedUnitCount(3), PartitionStrategy::LocalityBalanced] {
        let items = set_of(&[9, 1, 5, 3, 7, 2]);
        let units = partition(&items, &diamond_edges(&[(1, 5), (9, 7), (3, 2), (5, 3)]), strategy);
        let mut seen: Vec<ConcretizedItem> = vec![];
        for unit in &units {
            for entry in &unit.entries {
                assert!(items.contains(entry.item));
                assert!(!seen.contains(&entry.item));
                seen.push(entry.item);
            }
        }
        assert_eq!(seen.len(), items.len());
    }
}

#[test]
fn content_hash_of_items() {
    assert_eq!(hash_items(&vec![]), 14695981039346656037);
    assert_eq!(hash_items(&vec![func(1)]), 15657234800422177934);
    assert_eq!(
        hash_items(&vec![func(1), ConcretizedItem::Static { def: 7 }]),
        15264215156212456458
    );
    let unit = make_unit(&vec![func(1), ConcretizedItem::Static { def: 7 }], 12);
    assert_eq!(unit.name, "unit-15264215156212456458-12");
    assert_eq!(
        unit.entries,
        vec![
            UnitEntry { item: func(1), linkage: Linkage::External, visibility: Visibility::Default },
            UnitEntry {
                item: ConcretizedItem::Static { def: 7 },
                linkage: Linkage::External,
                visibility: Visibility::Default
            },
        ]
    );
}

#[test]
fn finalize_makes_the_root_external_and_the_rest_internal() {
    let units = vec![
        CompilationUnit {
            name: "a".to_string(),
            entries: vec![
                UnitEntry { item: func(2), linkage: Linkage::WeakAny, visibility: Visibility::Hidden },
                UnitEntry { item: func(1), linkage: Linkage::Private, visibility: Visibility::Protected },
            ],
        },
        CompilationUnit {
            name: "b".to_string(),
            entries: vec![UnitEntry {
                item: func(3),
                linkage: Linkage::External,
                visibility: Visibility::Default,
            }],
        },
    ];
    let done = finalize(units, func(1));
    assert_eq!(done.len(), 2);
    assert_eq!(done[0].name, "a");
    assert_eq!(done[1].name, "b");
    assert_eq!(
        done[0].entries,
        vec![
            UnitEntry { item: func(2), linkage: Linkage::Internal, visibility: Visibility::Default },
            UnitEntry { item: func(1), linkage: Linkage::External, visibility: Visibility::Default },
        ]
    );
    assert_eq!(
        done[1].entries,
        vec![UnitEntry { item: func(3), linkage: Linkage::Internal, visibility: Visibility::Default }]
    );
}

#[test]
fn exactly_one_entry_is_external_after_a_run() {
    for strategy in [
        PartitionStrategy::FixedUnitCount(1),
        PartitionStrategy::FixedUnitCount(3),
        PartitionStrategy::LocalityBalanced,
    ] {
        let result = collect_and_partition_mono_items(
            &diamond(),
            func(1),
            &CapabilityDescriptor { supported: vec![] },
            &StubRuleSet { rules: vec![] },
            strategy,
            false,
        )
        .unwrap();
        let mut external = vec![];
        for unit in &result.units {
            for entry in &unit.entries {
                assert_eq!(entry.visibility, Visibility::Default);
                if entry.linkage == Linkage::External {
                    external.push(entry.item);
                } else {
                    assert_eq!(entry.linkage, Linkage::Internal);
                }
            }
        }
        assert_eq!(external, vec![func(1)]);
        assert!(result.listing.is_none());
    }
}

#[test]
fn whole_run_on_a_shared_item() {
    let result = collect_and_partition_mono_items(
        &diamond(),
        func(1),
        &CapabilityDescriptor { supported: vec![] },
        &StubRuleSet { rules: vec![] },
        PartitionStrategy::FixedUnitCount(1),
        true,
    )
    .unwrap();
    let mut defs = result.definitions.clone();
    defs.sort();
    assert_eq!(defs, vec![1, 2, 3, 4]);
    assert_eq!(result.units.len(), 1);
    assert_eq!(
        result.units[0].entries,
        vec![
            UnitEntry { item: func(1), linkage: Linkage::External, visibility: Visibility::Default },
            UnitEntry { item: func(2), linkage: Linkage::Internal, visibility: Visibility::Default },
            UnitEntry { item: func(3), linkage: Linkage::Internal, visibility: Visibility::Default },
            UnitEntry { item: func(4), linkage: Linkage::Internal, visibility: Visibility::Default },
        ]
    );
    let texts = render(&result.listing.unwrap());
    assert_eq!(
        texts,
        vec![
            "ITEM fn 1<0> @@ unit-852027294405974549-0[External]",
            "ITEM fn 2<0> @@ unit-852027294405974549-0[Internal]",
            "ITEM fn 3<0> @@ unit-852027294405974549-0[Internal]",
            "ITEM fn 4<0> @@ unit-852027294405974549-0[Internal]",
        ]
    );
}

#[test]
fn failed_run_hands_out_nothing() {
    let program = Program {
        definitions: vec![
            Definition {
                item: func(1),
                operations: vec![],
                references: vec![Reference::Direct { target: func(6) }],
            },
            Definition { item: func(6), operations: vec![Operation { code: 5 }], references: vec![] },
        ],
        resolutions: vec![],
    };
    let res = collect_and_partition_mono_items(
        &program,
        func(1),
        &CapabilityDescriptor { supported: vec![] },
        &StubRuleSet { rules: vec![] },
        PartitionStrategy::FixedUnitCount(1),
        true,
    );
    assert_eq!(
        res.err(),
        Some(CollectError::UnsupportedOperation { item: func(6), operation: Operation { code: 5 } })
    );
    assert!(collect(
        &program,
        func(1),
        &CapabilityDescriptor { supported: vec![] },
        &StubRuleSet { rules: vec![] }
    )
    .is_err());
}

#[test]
fn definition_identifiers_are_listed_once() {
    let mut items = ItemSet::new();
    items.insert(ConcretizedItem::Fn { def: 3, args: 1 });
    items.insert(ConcretizedItem::Fn { def: 3, args: 2 });
    items.insert(ConcretizedItem::Static { def: 3 });
    items.insert(ConcretizedItem::Static { def: 8 });
    let mut defs = definition_ids(&items);
    defs.sort();
    assert_eq!(defs, vec![3, 8]);
}

#[test]
fn listing_is_sorted_by_name_and_lists_every_unit() {
    let mut items = ItemSet::new();
    items.insert(ConcretizedItem::Static { def: 2 });
    items.insert(func(10));
    items.insert(func(9));
    items.insert(func(5));
    let entry = |item, linkage| UnitEntry { item, linkage, visibility: Visibility::Default };
    let units = vec![
        CompilationUnit {
            name: "zeta".to_string(),
            entries: vec![entry(func(10), Linkage::Internal), entry(func(9), Linkage::External)],
        },
        CompilationUnit {
            name: "alpha".to_string(),
            entries: vec![
                entry(func(10), Linkage::WeakODR),
                entry(func(10), Linkage::AvailableExternally),
                entry(func(10), Linkage::WeakODR),
                entry(ConcretizedItem::Static { def: 2 }, Linkage::Common),
                entry(func(77), Linkage::Private),
            ],
        },
    ];
    let lines = report(&items, &units);
    assert_eq!(
        render(&lines),
        vec![
            "ITEM fn 10<0> @@ alpha[Available] alpha[WeakODR] zeta[Internal]",
            "ITEM fn 5<0> @@",
            "ITEM fn 9<0> @@ zeta[External]",
            "ITEM static 2 @@ alpha[Common]",
        ]
    );
    assert_eq!(lines[0].item, func(10));
    assert_eq!(lines[0].tags.len(), 3);
    assert_eq!(lines[3].text(), "ITEM static 2 @@ alpha[Common]");
}

#[test]
fn line_text_of_given_tags() {
    let line = ReportLine {
        item: ConcretizedItem::Fn { def: 12, args: 3 },
        name: name_item(ConcretizedItem::Fn { def: 12, args: 3 }),
        tags: vec![
            UnitTag { unit: "u0".to_string(), linkage: Linkage::LinkOnceAny },
            UnitTag { unit: "u1".to_string(), linkage: Linkage::ExternalWeak },
        ],
    };
    assert_eq!(line.text(), "ITEM fn 12<3> @@ u0[OnceAny] u1[ExternalWeak]");
}

#[test]
fn names_and_linkage_words() {
    assert_eq!(name_item(ConcretizedItem::Fn { def: 0, args: 18446744073709551615 }), "fn 0<18446744073709551615>");
    assert_eq!(name_item(ConcretizedItem::Static { def: 40 }), "static 40");
    assert_eq!(abbreviate(Linkage::External), "External");
    assert_eq!(abbreviate(Linkage::AvailableExternally), "Available");
    assert_eq!(abbreviate(Linkage::LinkOnceAny), "OnceAny");
    assert_eq!(abbreviate(Linkage::LinkOnceODR), "OnceODR");
    assert_eq!(abbreviate(Linkage::WeakAny), "WeakAny");
    assert_eq!(abbreviate(Linkage::WeakODR), "WeakODR");
    assert_eq!(abbreviate(Linkage::Appending), "Appending");
    assert_eq!(abbreviate(Linkage::Internal), "Internal");
    assert_eq!(abbreviate(Linkage::Private), "Private");
    assert_eq!(abbreviate(Linkage::ExternalWeak), "ExternalWeak");
    assert_eq!(abbreviate(Linkage::Common), "Common");
}

#[test]
fn decimal_numerals() {
    let mut out = String::from("n=");
    push_decimal(&mut out, 0);
    out.push(',');
    push_decimal(&mut out, 10);
    out.push(',');
    push_decimal(&mut out, 9070);
    out.push(',');
    push_decimal(&mut out, u64::MAX);
    assert_eq!(out, "n=0,10,9070,18446744073709551615");
}

#[test]
fn texts_are_ordered_by_their_bytes() {
    assert!(text_before("", "a"));
    assert!(!text_before("a", ""));
    assert!(!text_before("a", "a"));
    assert!(text_before("a", "ab"));
    assert!(text_before("ab", "b"));
    assert!(text_before("fn 10<0>", "fn 9<0>"));
    assert!(text_before("z", "\u{e9}"));
}

#[test]
fn sort_orders_by_rank_and_keeps_every_element() {
    let sorted = sort(vec![func(3), func(1), func(3), func(2)]);
    assert_eq!(sorted, vec![func(1), func(2), func(3), func(3)]);
    let items = sort_items(&vec![ConcretizedItem::Static { def: 0 }, func(5), func(4)]);
    assert_eq!(items, vec![func(4), func(5), ConcretizedItem::Static { def: 0 }]);
    assert_eq!(sort(Vec::<ConcretizedItem>::new()), vec![]);
}
