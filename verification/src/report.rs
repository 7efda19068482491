//! The reporter: a deterministic listing of which unit holds which item.

use vstd::prelude::*;
use vstd::seq_lib::{to_multiset_contains, to_multiset_len};
use vstd::string::StringExecFns;
use rustc_data_structures::fx::FxHashMap;
use crate::fx::{index_insert, index_remove};
use crate::graph::ItemSet;
use crate::item::{lemma_key_injective, ConcretizedItem, ItemKey};
use crate::partition::{unit_views, CompilationUnit, Linkage, UnitView};
use crate::ranking::{ascending, sort, Ranked};
use crate::text::{
    decimal, is_digit, lemma_decimal_digits, lemma_decimal_unique, lemma_text_order, push_decimal,
    text_before, text_lt,
};

verus! {

/// A unit in which an item appears, with the linkage it has there.
#[derive(Clone, Debug)]
pub struct UnitTag {
    pub unit: String,
    pub linkage: Linkage,
}

/// What a unit tag holds.
pub struct TagView {
    pub unit: Seq<char>,
    pub linkage: Linkage,
}

impl View for UnitTag {
    type V = TagView;

    open spec fn view(&self) -> TagView {
        TagView { unit: self.unit@, linkage: self.linkage }
    }
}

/// What a list of unit tags holds.
pub open spec fn tag_views(tags: Seq<UnitTag>) -> Seq<TagView> {
    tags.map_values(|t: UnitTag| t@)
}

/// The place of a linkage in the order of linkages.
pub open spec fn linkage_rank(linkage: Linkage) -> nat {
    match linkage {
        Linkage::External => 0,
        Linkage::AvailableExternally => 1,
        Linkage::LinkOnceAny => 2,
        Linkage::LinkOnceODR => 3,
        Linkage::WeakAny => 4,
        Linkage::WeakODR => 5,
        Linkage::Appending => 6,
        Linkage::Internal => 7,
        Linkage::Private => 8,
        Linkage::ExternalWeak => 9,
        Linkage::Common => 10,
    }
}

fn rank_of(linkage: Linkage) -> (r: u8)
    ensures
        r == linkage_rank(linkage),
{
    match linkage {
        Linkage::External => 0,
        Linkage::AvailableExternally => 1,
        Linkage::LinkOnceAny => 2,
        Linkage::LinkOnceODR => 3,
        Linkage::WeakAny => 4,
        Linkage::WeakODR => 5,
        Linkage::Appending => 6,
        Linkage::Internal => 7,
        Linkage::Private => 8,
        Linkage::ExternalWeak => 9,
        Linkage::Common => 10,
    }
}

/// The order of unit tags: by unit name in the order of texts, then by
/// linkage.
pub open spec fn tag_lt(a: TagView, b: TagView) -> bool {
    text_lt(a.unit, b.unit) || (a.unit == b.unit && linkage_rank(a.linkage) < linkage_rank(
        b.linkage,
    ))
}

/// The order of unit tags is a strict total order.
pub proof fn lemma_tag_order(a: TagView, b: TagView, c: TagView)
    ensures
        !tag_lt(a, a),
        tag_lt(a, b) && tag_lt(b, c) ==> tag_lt(a, c),
        tag_lt(a, b) || tag_lt(b, a) || a == b,
        !tag_lt(a, b) && !tag_lt(b, c) ==> !tag_lt(a, c),
{
    lemma_text_order(a.unit, b.unit, c.unit);
    lemma_text_order(b.unit, a.unit, c.unit);
    lemma_text_order(c.unit, b.unit, a.unit);
}

impl Ranked for UnitTag {
    open spec fn ranks_before(&self, other: &Self) -> bool {
        tag_lt(self@, other@)
    }

    fn is_before(&self, other: &Self) -> (r: bool) {
        text_before(self.unit.as_str(), other.unit.as_str()) || (self.unit == other.unit && rank_of(
            self.linkage,
        ) < rank_of(other.linkage))
    }

    proof fn lemma_ranking(a: &Self, b: &Self, c: &Self) {
        lemma_tag_order(a@, b@, c@);
    }
}

/// One line of the listing: an item, its name, and the units it appears in.
#[derive(Clone, Debug)]
pub struct ReportLine {
    pub item: ConcretizedItem,
    pub name: String,
    pub tags: Vec<UnitTag>,
}

/// What a line of the listing holds.
pub struct LineView {
    pub item: ConcretizedItem,
    pub name: Seq<char>,
    pub tags: Seq<TagView>,
}

impl View for ReportLine {
    type V = LineView;

    open spec fn view(&self) -> LineView {
        LineView { item: self.item, name: self.name@, tags: tag_views(self.tags@) }
    }
}

impl Ranked for ReportLine {
    open spec fn ranks_before(&self, other: &Self) -> bool {
        text_lt(self.name@, other.name@)
    }

    fn is_before(&self, other: &Self) -> (r: bool) {
        text_before(self.name.as_str(), other.name.as_str())
    }

    proof fn lemma_ranking(a: &Self, b: &Self, c: &Self) {
        lemma_text_order(a.name@, b.name@, c.name@);
    }
}

/// The stable name of an item.
pub open spec fn item_name(item: ConcretizedItem) -> Seq<char> {
    match item {
        ConcretizedItem::Fn { def, args } => "fn "@ + decimal(def as nat) + "<"@ + decimal(
            args as nat,
        ) + ">"@,
        ConcretizedItem::Static { def } => "static "@ + decimal(def as nat),
    }
}

/// Different items have different names.
pub proof fn lemma_item_name_unique(a: ConcretizedItem, b: ConcretizedItem)
    requires
        item_name(a) == item_name(b),
    ensures
        a == b,
{
    reveal_strlit("fn ");
    reveal_strlit("static ");
    reveal_strlit("<");
    reveal_strlit(">");
    let x = item_name(a);
    let y = item_name(b);
    assert(x[0] == y[0]);
    match (a, b) {
        (ConcretizedItem::Static { def: d1 }, ConcretizedItem::Static { def: d2 }) => {
            assert(x.skip(7) =~= decimal(d1 as nat));
            assert(y.skip(7) =~= decimal(d2 as nat));
            lemma_decimal_unique(d1 as nat, d2 as nat);
        },
        (
            ConcretizedItem::Fn { def: d1, args: a1 },
            ConcretizedItem::Fn { def: d2, args: a2 },
        ) => {
            let p1 = decimal(d1 as nat);
            let n1 = p1.len() as int;
            let p2 = decimal(d2 as nat);
            let n2 = p2.len() as int;
            let q1 = decimal(a1 as nat);
            let q2 = decimal(a2 as nat);
            lemma_decimal_digits(d1 as nat);
            lemma_decimal_digits(d2 as nat);
            lemma_decimal_digits(a1 as nat);
            lemma_decimal_digits(a2 as nat);
            assert(x.len() == 3 + n1 + 1 + q1.len() + 1);
            assert(y.len() == 3 + n2 + 1 + q2.len() + 1);
            if n1 < n2 {
                assert(x[3 + n1] == '<');
                assert(y[3 + n1] == p2[n1]);
                assert(is_digit(p2[n1]));
                assert(false);
            } else if n2 < n1 {
                assert(y[3 + n2] == '<');
                assert(x[3 + n2] == p1[n2]);
                assert(is_digit(p1[n2]));
                assert(false);
            } else {
                assert(x.subrange(3, 3 + n1) =~= p1);
                assert(y.subrange(3, 3 + n2) =~= p2);
                lemma_decimal_unique(d1 as nat, d2 as nat);
                assert(x.subrange(4 + n1, x.len() - 1) =~= q1);
                assert(y.subrange(4 + n2, y.len() - 1) =~= q2);
                lemma_decimal_unique(a1 as nat, a2 as nat);
            }
        },
        (ConcretizedItem::Fn { .. }, ConcretizedItem::Static { .. }) => {
            assert(x[0] == 'f');
            assert(y[0] == 's');
        },
        (ConcretizedItem::Static { .. }, ConcretizedItem::Fn { .. }) => {
            assert(x[0] == 's');
            assert(y[0] == 'f');
        },
    }
}

/// Makes the stable name of an item.
pub fn name_item(item: ConcretizedItem) -> (name: String)
    ensures
        name@ == item_name(item),
{
    match item {
        ConcretizedItem::Fn { def, args } => {
            let mut name = String::from_str("fn ");
            push_decimal(&mut name, def);
            name.append("<");
            push_decimal(&mut name, args);
            name.append(">");
            name
        },
        ConcretizedItem::Static { def } => {
            let mut name = String::from_str("static ");
            push_decimal(&mut name, def);
            name
        },
    }
}

/// The word that the listing prints for a linkage.
pub open spec fn linkage_abbrev(linkage: Linkage) -> Seq<char> {
    match linkage {
        Linkage::External => "External"@,
        Linkage::AvailableExternally => "Available"@,
        Linkage::LinkOnceAny => "OnceAny"@,
        Linkage::LinkOnceODR => "OnceODR"@,
        Linkage::WeakAny => "WeakAny"@,
        Linkage::WeakODR => "WeakODR"@,
        Linkage::Appending => "Appending"@,
        Linkage::Internal => "Internal"@,
        Linkage::Private => "Private"@,
        Linkage::ExternalWeak => "ExternalWeak"@,
        Linkage::Common => "Common"@,
    }
}

/// The word that the listing prints for a linkage.
pub fn abbreviate(linkage: Linkage) -> (word: &'static str)
    ensures
        word@ == linkage_abbrev(linkage),
{
    match linkage {
        Linkage::External => "External",
        Linkage::AvailableExternally => "Available",
        Linkage::LinkOnceAny => "OnceAny",
        Linkage::LinkOnceODR => "OnceODR",
        Linkage::WeakAny => "WeakAny",
        Linkage::WeakODR => "WeakODR",
        Linkage::Appending => "Appending",
        Linkage::Internal => "Internal",
        Linkage::Private => "Private",
        Linkage::ExternalWeak => "ExternalWeak",
        Linkage::Common => "Common",
    }
}

/// Entry `j` of unit `k` holds `item` under `tag`.
pub open spec fn appears_at(
    units: Seq<UnitView>,
    item: ConcretizedItem,
    tag: TagView,
    k: int,
    j: int,
) -> bool {
    &&& 0 <= k < units.len()
    &&& 0 <= j < units[k].entries.len()
    &&& units[k].entries[j].item == item
    &&& tag == TagView { unit: units[k].name, linkage: units[k].entries[j].linkage }
}

/// Some unit holds `item` under `tag`.
pub open spec fn appears(units: Seq<UnitView>, item: ConcretizedItem, tag: TagView) -> bool {
    exists|k: int, j: int| appears_at(units, item, tag, k, j)
}

/// An entry before entry `j` of unit `k` holds `item` under `tag`.
pub open spec fn appears_before(
    units: Seq<UnitView>,
    item: ConcretizedItem,
    tag: TagView,
    k: int,
    j: int,
) -> bool {
    exists|k0: int, j0: int|
        #[trigger] appears_at(units, item, tag, k0, j0) && (k0 < k || (k0 == k && j0 < j))
}

/// The index lists `tag` under `item`.
pub open spec fn indexed(
    index: Map<ItemKey, Vec<UnitTag>>,
    item: ConcretizedItem,
    tag: TagView,
) -> bool {
    index.contains_key(item.spec_key()) && tag_views(index[item.spec_key()]@).contains(tag)
}

/// Indexes the units by item: lists, under the key of each item, the tag of
/// every entry that holds the item.
fn build_index(units: &Vec<CompilationUnit>) -> (index: FxHashMap<ItemKey, Vec<UnitTag>>)
    ensures
        forall|item: ConcretizedItem, tag: TagView| #[trigger]
            indexed(index@, item, tag) <==> appears(unit_views(units@), item, tag),
{
    let ghost all = unit_views(units@);
    let mut index: FxHashMap<ItemKey, Vec<UnitTag>> = FxHashMap::default();
    let mut k: usize = 0;
    while k < units.len()
        invariant
            k <= units@.len(),
            all == unit_views(units@),
            forall|item: ConcretizedItem, tag: TagView| #[trigger]
                indexed(index@, item, tag) <==> appears_before(all, item, tag, k as int, 0),
        decreases units@.len() - k,
    {
        let unit = &units[k];
        assert(all[k as int] == unit@);
        let mut j: usize = 0;
        while j < unit.entries.len()
            invariant
                k < units@.len(),
                j <= unit.entries@.len(),
                all == unit_views(units@),
                all[k as int] == unit@,
                forall|item: ConcretizedItem, tag: TagView| #[trigger]
                    indexed(index@, item, tag) <==> appears_before(all, item, tag, k as int, j as int),
            decreases unit.entries@.len() - j,
        {
            let entry = unit.entries[j];
            let key = entry.item.key();
            let ghost before = index@;
            let mut tags = match index_remove(&mut index, key) {
                Some(tags) => tags,
                None => Vec::new(),
            };
            let ghost tags_before = tags@;
            let added = UnitTag { unit: unit.name.clone(), linkage: entry.linkage };
            tags.push(added);
            index_insert(&mut index, key, tags);
            proof {
                let new_tag = TagView { unit: unit@.name, linkage: entry.linkage };
                assert(added@ == new_tag);
                assert(appears_at(all, entry.item, new_tag, k as int, j as int));
                assert(tag_views(tags@) =~= tag_views(tags_before).push(new_tag));
                assert forall|item: ConcretizedItem, tag: TagView| #[trigger]
                    indexed(index@, item, tag) <==> appears_before(
                        all,
                        item,
                        tag,
                        k as int,
                        j as int + 1,
                    ) by {
                    lemma_key_injective(item, entry.item);
                    if item == entry.item {
                        if tag == new_tag {
                            assert(tag_views(tags@)[tags_before.len() as int] == tag);
                        } else {
                            if indexed(before, item, tag) {
                                let i = choose|i: int|
                                    0 <= i < tags_before.len() && tag_views(tags_before)[i] == tag;
                                assert(tag_views(tags@)[i] == tag);
                            }
                            if indexed(index@, item, tag) {
                                let i = choose|i: int|
                                    0 <= i < tags@.len() && tag_views(tags@)[i] == tag;
                                assert(tag_views(tags_before)[i] == tag);
                            }
                        }
                    } else {
                        assert(indexed(index@, item, tag) == indexed(before, item, tag));
                    }
                    if appears_before(all, item, tag, k as int, j as int) {
                        let (k0, j0) = choose|k0: int, j0: int|
                            #[trigger] appears_at(all, item, tag, k0, j0) && (k0 < k || (k0 == k
                                && j0 < j));
                        assert(appears_at(all, item, tag, k0, j0) && (k0 < k || (k0 == k && j0 < j
                            + 1)));
                    }
                    if appears_before(all, item, tag, k as int, j as int + 1) {
                        let (k0, j0) = choose|k0: int, j0: int|
                            #[trigger] appears_at(all, item, tag, k0, j0) && (k0 < k || (k0 == k
                                && j0 < j + 1));
                        if k0 == k && j0 == j {
                            assert(item == entry.item && tag == new_tag);
                        } else {
                            assert(appears_at(all, item, tag, k0, j0) && (k0 < k || (k0 == k && j0
                                < j)));
                        }
                    }
                }
            }
            j += 1;
        }
        proof {
            assert forall|item: ConcretizedItem, tag: TagView| #[trigger]
                indexed(index@, item, tag) <==> appears_before(all, item, tag, k as int + 1, 0) by {
                if appears_before(all, item, tag, k as int, j as int) {
                    let (k0, j0) = choose|k0: int, j0: int|
                        #[trigger] appears_at(all, item, tag, k0, j0) && (k0 < k || (k0 == k && j0
                            < j));
                    assert(appears_at(all, item, tag, k0, j0) && (k0 < k + 1 || (k0 == k + 1 && j0
                        < 0)));
                }
                if appears_before(all, item, tag, k as int + 1, 0) {
                    let (k0, j0) = choose|k0: int, j0: int|
                        #[trigger] appears_at(all, item, tag, k0, j0) && (k0 < k + 1 || (k0 == k
                            + 1 && j0 < 0));
                    assert(appears_at(all, item, tag, k0, j0) && (k0 < k || (k0 == k && j0 < j)));
                }
            }
        }
        k += 1;
    }
    proof {
        assert forall|item: ConcretizedItem, tag: TagView| #[trigger]
            indexed(index@, item, tag) <==> appears(all, item, tag) by {
            if appears(all, item, tag) {
                let (k0, j0) = choose|k0: int, j0: int| appears_at(all, item, tag, k0, j0);
                assert(appears_at(all, item, tag, k0, j0) && (k0 < k || (k0 == k && j0 < 0)));
            }
        }
    }
    index
}

/// Each tag of `tags` comes strictly before every later one.
pub open spec fn tags_increasing(tags: Seq<TagView>) -> bool {
    forall|i: int, j: int| 0 <= i < j < tags.len() ==> tag_lt(#[trigger] tags[i], #[trigger] tags[j])
}

/// Drops the repeated tags of a sorted list.
fn dedup_tags(sorted: Vec<UnitTag>) -> (out: Vec<UnitTag>)
    requires
        ascending(sorted@),
    ensures
        tags_increasing(tag_views(out@)),
        forall|tag: TagView| tag_views(out@).contains(tag) <==> tag_views(sorted@).contains(tag),
{
    let ghost all = tag_views(sorted@);
    let mut out: Vec<UnitTag> = Vec::new();
    let mut i: usize = 0;
    while i < sorted.len()
        invariant
            i <= sorted@.len(),
            all == tag_views(sorted@),
            ascending(sorted@),
            tags_increasing(tag_views(out@)),
            forall|tag: TagView|
                tag_views(out@).contains(tag) <==> all.take(i as int).contains(tag),
            i > 0 ==> out@.len() > 0 && out@[out@.len() - 1]@ == all[i - 1],
            i == 0 ==> out@.len() == 0,
        decreases sorted@.len() - i,
    {
        let tag = &sorted[i];
        let ghost out_before = tag_views(out@);
        let ghost prev = all.take(i as int);
        let ghost next = all.take(i as int + 1);
        assert(all[i as int] == tag@);
        assert(next =~= prev.push(tag@));
        let repeated = if out.len() == 0 {
            false
        } else {
            let last = &out[out.len() - 1];
            last.unit == tag.unit && last.linkage == tag.linkage
        };
        if !repeated {
            proof {
                if i > 0 {
                    let last = out_before[out_before.len() - 1];
                    assert(last == all[i - 1]);
                    assert(!sorted@[i as int].ranks_before(&sorted@[i - 1]));
                    lemma_tag_order(last, tag@, last);
                    assert(tag_lt(last, tag@));
                    assert forall|a: int| 0 <= a < out_before.len() implies tag_lt(
                        #[trigger] out_before[a],
                        tag@,
                    ) by {
                        lemma_tag_order(out_before[a], last, tag@);
                    }
                }
            }
            out.push(UnitTag { unit: tag.unit.clone(), linkage: tag.linkage });
            assert(tag_views(out@) =~= out_before.push(tag@));
            assert forall|t: TagView|
                tag_views(out@).contains(t) <==> next.contains(t) by {
                if out_before.contains(t) {
                    let a = choose|a: int| 0 <= a < out_before.len() && out_before[a] == t;
                    assert(tag_views(out@)[a] == t);
                }
                if prev.contains(t) {
                    let a = choose|a: int| 0 <= a < prev.len() && prev[a] == t;
                    assert(next[a] == t);
                }
                if t == tag@ {
                    assert(tag_views(out@)[out_before.len() as int] == t);
                    assert(next[i as int] == t);
                }
                if next.contains(t) {
                    let a = choose|a: int| 0 <= a < next.len() && next[a] == t;
                    if a < i {
                        assert(prev[a] == t);
                    }
                }
            }
        } else {
            assert(out_before[out_before.len() - 1] == tag@);
            assert forall|t: TagView|
                tag_views(out@).contains(t) <==> next.contains(t) by {
                if prev.contains(t) {
                    let a = choose|a: int| 0 <= a < prev.len() && prev[a] == t;
                    assert(next[a] == t);
                }
                if next.contains(t) {
                    let a = choose|a: int| 0 <= a < next.len() && next[a] == t;
                    if a < i {
                        assert(prev[a] == t);
                    }
                }
            }
        }
        i += 1;
    }
    assert(all.take(i as int) =~= all);
    out
}

/// The line names its item, and lists, in increasing order and each once,
/// the tags under which the units hold the item.
pub open spec fn describes(line: LineView, units: Seq<UnitView>) -> bool {
    &&& line.name == item_name(line.item)
    &&& tags_increasing(line.tags)
    &&& forall|tag: TagView| line.tags.contains(tag) <==> appears(units, line.item, tag)
}

/// The items of a list of lines.
pub open spec fn line_items(lines: Seq<ReportLine>) -> Seq<ConcretizedItem> {
    lines.map_values(|l: ReportLine| l.item)
}

proof fn lemma_same_tags(a: Seq<UnitTag>, b: Seq<UnitTag>)
    requires
        a.to_multiset() == b.to_multiset(),
    ensures
        forall|tag: TagView| tag_views(a).contains(tag) <==> tag_views(b).contains(tag),
{
    assert forall|tag: TagView| tag_views(a).contains(tag) <==> tag_views(b).contains(tag) by {
        if tag_views(a).contains(tag) {
            let i = choose|i: int| 0 <= i < a.len() && tag_views(a)[i] == tag;
            to_multiset_contains(a, a[i]);
            to_multiset_contains(b, a[i]);
            assert(a.contains(a[i]));
            let j = choose|j: int| 0 <= j < b.len() && b[j] == a[i];
            assert(tag_views(b)[j] == tag);
        }
        if tag_views(b).contains(tag) {
            let i = choose|i: int| 0 <= i < b.len() && tag_views(b)[i] == tag;
            to_multiset_contains(a, b[i]);
            to_multiset_contains(b, b[i]);
            assert(b.contains(b[i]));
            let j = choose|j: int| 0 <= j < a.len() && a[j] == b[i];
            assert(tag_views(a)[j] == tag);
        }
    }
}

/// Lists, for every item of the set, the units that hold it.
///
/// The listing has one line for each item. A line gives the stable name of
/// its item and the tags under which the units hold the item: the name of the
/// unit and the linkage there, in increasing order, each once. The lines
/// stand in the order of texts of their names.
pub fn report(items: &ItemSet, units: &Vec<CompilationUnit>) -> (lines: Vec<ReportLine>)
    requires
        items.wf(),
    ensures
        lines@.len() == items@.len(),
        line_items(lines@).no_duplicates(),
        line_items(lines@).to_set() == items@,
        forall|i: int|
            0 <= i < lines@.len() ==> describes((#[trigger] lines@[i])@, unit_views(units@)),
        forall|i: int, j: int|
            0 <= i < j < lines@.len() ==> text_lt(
                (#[trigger] lines@[i]).name@,
                (#[trigger] lines@[j]).name@,
            ),
{
    let ghost all = unit_views(units@);
    let mut index = build_index(units);
    let listed = items.to_vec();
    let mut lines: Vec<ReportLine> = Vec::new();
    let mut i: usize = 0;
    while i < listed.len()
        invariant
            i <= listed@.len(),
            listed@.no_duplicates(),
            all == unit_views(units@),
            lines@.len() == i,
            forall|a: int| 0 <= a < i ==> (#[trigger] lines@[a]).item == listed@[a],
            forall|a: int| 0 <= a < i ==> describes((#[trigger] lines@[a])@, all),
            forall|a: int, tag: TagView|
                i <= a < listed@.len() ==> (#[trigger] indexed(index@, listed@[a], tag) <==> appears(
                    all,
                    listed@[a],
                    tag,
                )),
        decreases listed@.len() - i,
    {
        let item = listed[i];
        let ghost before = index@;
        let found = match index_remove(&mut index, item.key()) {
            Some(tags) => tags,
            None => Vec::new(),
        };
        proof {
            assert forall|tag: TagView| tag_views(found@).contains(tag) <==> appears(
                all,
                item,
                tag,
            ) by {
                assert(indexed(before, listed@[i as int], tag) <==> appears(all, listed@[i as int], tag));
            }
            assert forall|a: int, tag: TagView| i + 1 <= a < listed@.len() implies (#[trigger] indexed(
                index@,
                listed@[a],
                tag,
            ) <==> appears(all, listed@[a], tag)) by {
                lemma_key_injective(listed@[a], item);
                assert(indexed(before, listed@[a], tag) <==> appears(all, listed@[a], tag));
            }
        }
        let sorted = sort(found);
        proof {
            lemma_same_tags(sorted@, found@);
        }
        let tags = dedup_tags(sorted);
        let line = ReportLine { item, name: name_item(item), tags };
        assert(describes(line@, all));
        lines.push(line);
        i += 1;
    }
    let ghost unsorted = lines@;
    let lines = sort(lines);
    proof {
        to_multiset_len(unsorted);
        to_multiset_len(lines@);
        assert(line_items(unsorted) =~= listed@);
        assert(unsorted.no_duplicates()) by {
            assert forall|a: int, b: int|
                0 <= a < unsorted.len() && 0 <= b < unsorted.len() && a != b implies unsorted[a]
                != unsorted[b] by {
                assert(unsorted[a].item == listed@[a]);
                assert(unsorted[b].item == listed@[b]);
            }
        }
        unsorted.lemma_multiset_has_no_duplicates();
        lines@.lemma_multiset_has_no_duplicates_conv();
        listed@.unique_seq_to_set();
        assert forall|a: int| 0 <= a < lines@.len() implies describes(
            (#[trigger] lines@[a])@,
            all,
        ) && exists|b: int| 0 <= b < unsorted.len() && unsorted[b] == lines@[a] by {
            to_multiset_contains(lines@, lines@[a]);
            to_multiset_contains(unsorted, lines@[a]);
            assert(lines@.contains(lines@[a]));
            let b = choose|b: int| 0 <= b < unsorted.len() && unsorted[b] == lines@[a];
            assert(describes(unsorted[b]@, all));
        }
        assert forall|a: int, b: int|
            0 <= a < lines@.len() && 0 <= b < lines@.len() && a != b implies line_items(lines@)[a]
            != line_items(lines@)[b] by {
            let a0 = choose|x: int| 0 <= x < unsorted.len() && unsorted[x] == lines@[a];
            let b0 = choose|x: int| 0 <= x < unsorted.len() && unsorted[x] == lines@[b];
            assert(unsorted[a0].item == listed@[a0]);
            assert(unsorted[b0].item == listed@[b0]);
        }
        assert forall|x: ConcretizedItem| line_items(lines@).to_set().contains(x)
            <==> listed@.to_set().contains(x) by {
            if line_items(lines@).contains(x) {
                let a = choose|a: int| 0 <= a < lines@.len() && line_items(lines@)[a] == x;
                let a0 = choose|y: int| 0 <= y < unsorted.len() && unsorted[y] == lines@[a];
                assert(listed@[a0] == x);
            }
            if listed@.contains(x) {
                let a0 = choose|a: int| 0 <= a < listed@.len() && listed@[a] == x;
                to_multiset_contains(lines@, unsorted[a0]);
                to_multiset_contains(unsorted, unsorted[a0]);
                assert(unsorted.contains(unsorted[a0]));
                let a = choose|a: int| 0 <= a < lines@.len() && lines@[a] == unsorted[a0];
                assert(line_items(lines@)[a] == x);
            }
        }
        assert(line_items(lines@).to_set() =~= listed@.to_set());
        assert forall|a: int, b: int| 0 <= a < b < lines@.len() implies text_lt(
            (#[trigger] lines@[a]).name@,
            (#[trigger] lines@[b]).name@,
        ) by {
            assert(!lines@[b].ranks_before(&lines@[a]));
            assert(line_items(lines@)[a] != line_items(lines@)[b]);
            assert(describes(lines@[a]@, all));
            assert(describes(lines@[b]@, all));
            if lines@[a].name@ == lines@[b].name@ {
                lemma_item_name_unique(lines@[a].item, lines@[b].item);
            }
            lemma_text_order(lines@[a].name@, lines@[b].name@, lines@[a].name@);
        }
    }
    lines
}

/// The text of a list of tags: a space, the unit name and, in square
/// brackets, the word for the linkage, for each tag in turn.
pub open spec fn tags_text(tags: Seq<TagView>) -> Seq<char>
    decreases tags.len(),
{
    if tags.len() == 0 {
        Seq::empty()
    } else {
        tags_text(tags.drop_last()) + " "@ + tags.last().unit + "["@ + linkage_abbrev(
            tags.last().linkage,
        ) + "]"@
    }
}

/// The text of a line of the listing.
pub open spec fn line_text(line: LineView) -> Seq<char> {
    "ITEM "@ + line.name + " @@"@ + tags_text(line.tags)
}

impl ReportLine {
    /// The text of the line: `ITEM`, the name of the item, `@@`, and then
    /// each unit that holds the item with the linkage there in brackets.
    pub fn text(&self) -> (out: String)
        ensures
            out@ == line_text(self@),
    {
        let mut out = String::from_str("ITEM ");
        out.append(self.name.as_str());
        out.append(" @@");
        let ghost head = out@;
        let mut i: usize = 0;
        assert(tag_views(self.tags@).take(0) =~= Seq::<TagView>::empty());
        assert(out@ =~= head + tags_text(tag_views(self.tags@).take(0)));
        while i < self.tags.len()
            invariant
                i <= self.tags@.len(),
                out@ == head + tags_text(tag_views(self.tags@).take(i as int)),
            decreases self.tags@.len() - i,
        {
            let tag = &self.tags[i];
            let ghost done = tag_views(self.tags@).take(i as int);
            let ghost next = tag_views(self.tags@).take(i as int + 1);
            assert(next.drop_last() =~= done);
            assert(next.last() == tag@);
            out.append(" ");
            out.append(tag.unit.as_str());
            out.append("[");
            out.append(abbreviate(tag.linkage));
            out.append("]");
            assert(out@ =~= head + tags_text(next));
            i += 1;
        }
        assert(tag_views(self.tags@).take(i as int) =~= tag_views(self.tags@));
        out
    }
}

/// The texts of the lines of a listing, in order.
pub fn render(lines: &Vec<ReportLine>) -> (texts: Vec<String>)
    ensures
        texts@.len() == lines@.len(),
        forall|i: int| 0 <= i < texts@.len() ==> (#[trigger] texts@[i])@ == line_text(lines@[i]@),
{
    let mut texts: Vec<String> = Vec::new();
    let mut i: usize = 0;
    while i < lines.len()
        invariant
            i <= lines@.len(),
            texts@.len() == i,
            forall|a: int| 0 <= a < i ==> (#[trigger] texts@[a])@ == line_text(lines@[a]@),
        decreases lines@.len() - i,
    {
        texts.push(lines[i].text());
        i += 1;
    }
    texts
}

} // verus!
