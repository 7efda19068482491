//! The partitioner: grouping an item set into named compilation units.

use vstd::prelude::*;
use vstd::string::StringExecFns;
use crate::graph::{linked, Edge, EdgeMap, ItemSet};
use crate::item::ConcretizedItem;
use crate::ranking::{canonical, lemma_canonical_exists, lemma_increasing_distinct, sort_items};
use crate::text::{decimal, push_decimal};

verus! {

/// How the symbol of an item is exposed to the linker.
#[derive(Clone, Copy, Debug, PartialEq, Eq, Structural, Hash)]
pub enum Linkage {
    External,
    AvailableExternally,
    LinkOnceAny,
    LinkOnceODR,
    WeakAny,
    WeakODR,
    Appending,
    Internal,
    Private,
    ExternalWeak,
    Common,
}

/// The visibility of the symbol of an item.
#[derive(Clone, Copy, Debug, PartialEq, Eq, Structural, Hash)]
pub enum Visibility {
    Default,
    Hidden,
    Protected,
}

/// One item of a compilation unit with its linkage and visibility.
#[derive(Clone, Copy, Debug, PartialEq, Eq, Structural, Hash)]
pub struct UnitEntry {
    pub item: ConcretizedItem,
    pub linkage: Linkage,
    pub visibility: Visibility,
}

/// A named group of items that is compiled on its own.
#[derive(Clone, Debug)]
pub struct CompilationUnit {
    pub name: String,
    pub entries: Vec<UnitEntry>,
}

/// What a compilation unit holds.
pub struct UnitView {
    pub name: Seq<char>,
    pub entries: Seq<UnitEntry>,
}

impl View for CompilationUnit {
    type V = UnitView;

    open spec fn view(&self) -> UnitView {
        UnitView { name: self.name@, entries: self.entries@ }
    }
}

/// What a list of compilation units holds.
pub open spec fn unit_views(units: Seq<CompilationUnit>) -> Seq<UnitView> {
    units.map_values(|u: CompilationUnit| u@)
}

/// How the partitioner distributes the items.
#[derive(Clone, Copy, Debug, PartialEq, Eq, Structural, Hash)]
pub enum PartitionStrategy {
    /// Exactly this many units, the items dealt out in turn in canonical
    /// order. The count is at least one.
    FixedUnitCount(usize),
    /// One unit for each group of items that share a leader. The leader of
    /// an item is the first item in canonical order that it is joined to by
    /// an edge, in either direction, or the item itself where none comes
    /// before it.
    LocalityBalanced,
}

impl PartitionStrategy {
    /// The strategy can be carried out.
    pub open spec fn valid(self) -> bool {
        self matches PartitionStrategy::FixedUnitCount(n) ==> n >= 1
    }
}

/// The items of `s` whose key is `k`, in the order of `s`.
pub open spec fn pick(s: Seq<ConcretizedItem>, keys: Seq<int>, k: int) -> Seq<ConcretizedItem>
    decreases s.len(),
{
    if s.len() == 0 {
        Seq::empty()
    } else if keys[s.len() - 1] == k {
        pick(s.drop_last(), keys, k).push(s.last())
    } else {
        pick(s.drop_last(), keys, k)
    }
}

/// The groups of the keys below `count`.
pub open spec fn groups(s: Seq<ConcretizedItem>, keys: Seq<int>, count: nat) -> Seq<
    Seq<ConcretizedItem>,
> {
    Seq::new(count, |k: int| pick(s, keys, k))
}

/// The keys that deal `len` items out to `n` units in turn.
pub open spec fn dealt(len: nat, n: int) -> Seq<int> {
    Seq::new(len, |i: int| i % n)
}

/// The position in `s` of the leader of item `i`, searched from position `c`.
pub open spec fn first_link(s: Seq<ConcretizedItem>, edges: Set<Edge>, i: int, c: int) -> int
    decreases i - c,
{
    if c >= i {
        i
    } else if linked(edges, s[i], s[c]) {
        c
    } else {
        first_link(s, edges, i, c + 1)
    }
}

/// The position in `s` of the leader of each item of `s`.
pub open spec fn leaders(s: Seq<ConcretizedItem>, edges: Set<Edge>) -> Seq<int> {
    Seq::new(s.len(), |i: int| first_link(s, edges, i, 0))
}

/// The groups without the empty ones, if `keep_empty` is not set.
pub open spec fn kept(all: Seq<Seq<ConcretizedItem>>, keep_empty: bool) -> Seq<Seq<ConcretizedItem>> {
    if keep_empty {
        all
    } else {
        all.filter(|g: Seq<ConcretizedItem>| g.len() > 0)
    }
}

/// The items of each unit that the partitioner makes, in order.
pub open spec fn planned_groups(
    items: Set<ConcretizedItem>,
    edges: Set<Edge>,
    strategy: PartitionStrategy,
) -> Seq<Seq<ConcretizedItem>> {
    let s = canonical(items);
    match strategy {
        PartitionStrategy::FixedUnitCount(n) => kept(
            groups(s, dealt(s.len(), n as int), n as nat),
            true,
        ),
        PartitionStrategy::LocalityBalanced => kept(groups(s, leaders(s, edges), s.len()), false),
    }
}

/// One step of the content hash.
pub open spec fn mix(h: u64, word: u64) -> u64 {
    (h ^ word).wrapping_mul(0x0000_0100_0000_01b3u64)
}

/// The content hash of a list of items: each item contributes its kind,
/// its definition identifier and its argument identifier, in this order.
pub open spec fn content_hash(items: Seq<ConcretizedItem>) -> u64
    decreases items.len(),
{
    if items.len() == 0 {
        0xcbf2_9ce4_8422_2325u64
    } else {
        let key = items.last().spec_key();
        mix(mix(mix(content_hash(items.drop_last()), key.0 as u64), key.1), key.2)
    }
}

/// The name of the unit that holds `items` and stands at position `index`.
pub open spec fn unit_name(items: Seq<ConcretizedItem>, index: nat) -> Seq<char> {
    seq!['u', 'n', 'i', 't', '-'] + decimal(content_hash(items) as nat) + seq!['-'] + decimal(index)
}

/// The entry that the partitioner makes for an item, before linkage is
/// finalized.
pub open spec fn tentative(item: ConcretizedItem) -> UnitEntry {
    UnitEntry { item, linkage: Linkage::External, visibility: Visibility::Default }
}

/// The unit that holds `items` and stands at position `index`.
pub open spec fn unit_of(items: Seq<ConcretizedItem>, index: nat) -> UnitView {
    UnitView {
        name: unit_name(items, index),
        entries: items.map_values(|item: ConcretizedItem| tentative(item)),
    }
}

/// The units of a list of groups.
pub open spec fn units_of(all: Seq<Seq<ConcretizedItem>>) -> Seq<UnitView> {
    Seq::new(all.len(), |k: int| unit_of(all[k], k as nat))
}

/// The units that the partitioner makes.
pub open spec fn planned(
    items: Set<ConcretizedItem>,
    edges: Set<Edge>,
    strategy: PartitionStrategy,
) -> Seq<UnitView> {
    units_of(planned_groups(items, edges, strategy))
}

/// Computes the content hash of a list of items.
pub fn hash_items(items: &Vec<ConcretizedItem>) -> (h: u64)
    ensures
        h == content_hash(items@),
{
    let mut h: u64 = 0xcbf2_9ce4_8422_2325u64;
    let mut i: usize = 0;
    while i < items.len()
        invariant
            i <= items@.len(),
            h == content_hash(items@.take(i as int)),
        decreases items@.len() - i,
    {
        let key = items[i].key();
        assert(items@.take(i as int + 1).drop_last() =~= items@.take(i as int));
        h = (h ^ (key.0 as u64)).wrapping_mul(0x0000_0100_0000_01b3u64);
        h = (h ^ key.1).wrapping_mul(0x0000_0100_0000_01b3u64);
        h = (h ^ key.2).wrapping_mul(0x0000_0100_0000_01b3u64);
        i += 1;
    }
    assert(items@.take(i as int) =~= items@);
    h
}

/// Makes the unit that holds `items` and stands at position `index`.
pub fn make_unit(items: &Vec<ConcretizedItem>, index: usize) -> (unit: CompilationUnit)
    ensures
        unit@ == unit_of(items@, index as nat),
{
    let mut name = String::from_str("unit-");
    proof {
        reveal_strlit("unit-");
        reveal_strlit("-");
    }
    assert(name@ =~= seq!['u', 'n', 'i', 't', '-']);
    push_decimal(&mut name, hash_items(items));
    name.append("-");
    push_decimal(&mut name, index as u64);
    assert(name@ =~= unit_name(items@, index as nat));
    let mut entries: Vec<UnitEntry> = Vec::new();
    let mut i: usize = 0;
    while i < items.len()
        invariant
            i <= items@.len(),
            entries@ == items@.take(i as int).map_values(|item: ConcretizedItem| tentative(item)),
        decreases items@.len() - i,
    {
        entries.push(
            UnitEntry {
                item: items[i],
                linkage: Linkage::External,
                visibility: Visibility::Default,
            },
        );
        assert(entries@ =~= items@.take(i as int + 1).map_values(
            |item: ConcretizedItem| tentative(item),
        ));
        i += 1;
    }
    assert(items@.take(i as int) =~= items@);
    CompilationUnit { name, entries }
}

/// The keys of a list of positions.
pub open spec fn as_keys(keys: Seq<usize>) -> Seq<int> {
    keys.map_values(|k: usize| k as int)
}

/// Gathers the items of `s` whose key is `k`.
fn gather(s: &Vec<ConcretizedItem>, keys: &Vec<usize>, k: usize) -> (g: Vec<ConcretizedItem>)
    requires
        keys@.len() == s@.len(),
    ensures
        g@ == pick(s@, as_keys(keys@), k as int),
{
    let mut g: Vec<ConcretizedItem> = Vec::new();
    let mut i: usize = 0;
    while i < s.len()
        invariant
            i <= s@.len(),
            keys@.len() == s@.len(),
            g@ == pick(s@.take(i as int), as_keys(keys@), k as int),
        decreases s@.len() - i,
    {
        assert(s@.take(i as int + 1).drop_last() =~= s@.take(i as int));
        if keys[i] == k {
            g.push(s[i]);
        }
        i += 1;
    }
    assert(s@.take(i as int) =~= s@);
    g
}

/// Makes the units of the groups of the keys below `count`.
fn assemble(s: &Vec<ConcretizedItem>, keys: &Vec<usize>, count: usize, keep_empty: bool) -> (units:
    Vec<CompilationUnit>)
    requires
        keys@.len() == s@.len(),
    ensures
        unit_views(units@) == units_of(kept(groups(s@, as_keys(keys@), count as nat), keep_empty)),
{
    let ghost all = groups(s@, as_keys(keys@), count as nat);
    let mut units: Vec<CompilationUnit> = Vec::new();
    let mut k: usize = 0;
    assert(all.take(0) =~= Seq::<Seq<ConcretizedItem>>::empty());
    assert(unit_views(units@) =~= units_of(kept(all.take(0), keep_empty)));
    while k < count
        invariant
            k <= count,
            keys@.len() == s@.len(),
            all == groups(s@, as_keys(keys@), count as nat),
            unit_views(units@) == units_of(kept(all.take(k as int), keep_empty)),
        decreases count - k,
    {
        let g = gather(s, keys, k);
        let ghost before = kept(all.take(k as int), keep_empty);
        let ghost units_before = units@;
        proof {
            assert(all.take(k as int + 1) =~= all.take(k as int).push(all[k as int]));
            assert(all[k as int] == g@);
            if !keep_empty {
                all.take(k as int).lemma_filter_push(g@, |g: Seq<ConcretizedItem>| g.len() > 0);
            }
            assert(unit_views(units@).len() == units@.len());
            assert(units_of(before).len() == before.len());
        }
        if keep_empty || g.len() > 0 {
            let unit = make_unit(&g, units.len());
            units.push(unit);
            proof {
                let after = kept(all.take(k as int + 1), keep_empty);
                assert(after =~= before.push(g@));
                assert(unit_views(units@) =~= units_of(after)) by {
                    assert forall|i: int| 0 <= i < units@.len() implies unit_views(units@)[i]
                        == units_of(after)[i] by {
                        if i < units_before.len() {
                            assert(unit_views(units_before)[i] == units_of(before)[i]);
                        }
                    }
                }
            }
        } else {
            assert(kept(all.take(k as int + 1), keep_empty) =~= before);
        }
        k += 1;
    }
    assert(all.take(k as int) =~= all);
    units
}

/// The position of the leader of item `i`.
fn leader(s: &Vec<ConcretizedItem>, edges: &EdgeMap, i: usize) -> (c: usize)
    requires
        i < s@.len(),
    ensures
        c as int == first_link(s@, edges@, i as int, 0),
        c <= i,
{
    let mut c: usize = 0;
    while c < i && !edges.links(s[i], s[c])
        invariant
            c <= i < s@.len(),
            first_link(s@, edges@, i as int, 0) == first_link(s@, edges@, i as int, c as int),
        decreases i - c,
    {
        c += 1;
    }
    c
}

/// Groups a set of items into named compilation units.
///
/// The items are taken in canonical order, whatever order they were
/// inserted in. With `FixedUnitCount(n)` the item at position `i` of that
/// order goes to unit `i % n`; with `LocalityBalanced` the items that share a
/// leader form a unit, and the units stand in the order of their leaders.
/// Every unit lists its items in canonical order, with tentative linkage, and
/// is named after the hash of its items and its position.
pub fn partition(items: &ItemSet, edges: &EdgeMap, strategy: PartitionStrategy) -> (units: Vec<
    CompilationUnit,
>)
    requires
        items.wf(),
        strategy.valid(),
    ensures
        unit_views(units@) == planned(items@, edges@, strategy),
{
    let listed = items.to_vec();
    let s = sort_items(&listed);
    let mut keys: Vec<usize> = Vec::new();
    match strategy {
        PartitionStrategy::FixedUnitCount(n) => {
            let mut i: usize = 0;
            while i < s.len()
                invariant
                    n >= 1,
                    i <= s@.len(),
                    keys@.len() == i,
                    forall|j: int| 0 <= j < i ==> keys@[j] as int == j % (n as int),
                decreases s@.len() - i,
            {
                keys.push(i % n);
                i += 1;
            }
            assert(as_keys(keys@) =~= dealt(s@.len(), n as int));
            assemble(&s, &keys, n, true)
        },
        PartitionStrategy::LocalityBalanced => {
            let mut i: usize = 0;
            while i < s.len()
                invariant
                    i <= s@.len(),
                    keys@.len() == i,
                    forall|j: int| 0 <= j < i ==> keys@[j] as int == first_link(s@, edges@, j, 0),
                decreases s@.len() - i,
            {
                keys.push(leader(&s, edges, i));
                i += 1;
            }
            assert(as_keys(keys@) =~= leaders(s@, edges@));
            assemble(&s, &keys, s.len(), false)
        },
    }
}

/// Every item of `set` stands in exactly one group of `all`, once, and the
/// groups hold nothing else.
pub open spec fn covers_once(all: Seq<Seq<ConcretizedItem>>, set: Set<ConcretizedItem>) -> bool {
    &&& forall|k: int, j: int|
        0 <= k < all.len() && 0 <= j < all[k].len() ==> set.contains(#[trigger] all[k][j])
    &&& forall|x: ConcretizedItem|
        set.contains(x) ==> exists|k: int, j: int|
            0 <= k < all.len() && 0 <= j < all[k].len() && #[trigger] all[k][j] == x
    &&& apart(all)
}

proof fn lemma_pick(s: Seq<ConcretizedItem>, keys: Seq<int>, k: int)
    requires
        keys.len() >= s.len(),
        s.no_duplicates(),
    ensures
        pick(s, keys, k).no_duplicates(),
        forall|j: int|
            0 <= j < pick(s, keys, k).len() ==> exists|i: int|
                0 <= i < s.len() && s[i] == #[trigger] pick(s, keys, k)[j] && keys[i] == k,
        forall|i: int|
            0 <= i < s.len() && keys[i] == k ==> pick(s, keys, k).contains(#[trigger] s[i]),
    decreases s.len(),
{
    if s.len() > 0 {
        let rest = s.drop_last();
        lemma_pick(rest, keys, k);
        let before = pick(rest, keys, k);
        let now = pick(s, keys, k);
        assert forall|j: int| 0 <= j < now.len() implies exists|i: int|
            0 <= i < s.len() && s[i] == #[trigger] now[j] && keys[i] == k by {
            if j < before.len() {
                let i = choose|i: int| 0 <= i < rest.len() && rest[i] == before[j] && keys[i] == k;
                assert(s[i] == now[j]);
            } else {
                assert(s[s.len() - 1] == now[j]);
            }
        }
        assert forall|i: int| 0 <= i < s.len() && keys[i] == k implies now.contains(
            #[trigger] s[i],
        ) by {
            if i < rest.len() {
                assert(before.contains(rest[i]));
                let j = choose|j: int| 0 <= j < before.len() && before[j] == rest[i];
                assert(now[j] == s[i]);
            } else {
                assert(now[now.len() - 1] == s[i]);
            }
        }
        assert forall|a: int, b: int| 0 <= a < now.len() && 0 <= b < now.len() && a != b implies now[a]
            != now[b] by {
            if a >= before.len() || b >= before.len() {
                let inner = if a < before.len() { a } else { b };
                let i = choose|i: int| 0 <= i < rest.len() && rest[i] == before[inner] && keys[i] == k;
                assert(s[i] != s[s.len() - 1]);
            }
        }
    }
}

/// The groups of a list of distinct items whose keys all lie below `count`
/// hold every item exactly once.
pub proof fn lemma_groups_cover(s: Seq<ConcretizedItem>, keys: Seq<int>, count: nat)
    requires
        s.no_duplicates(),
        keys.len() == s.len(),
        forall|i: int| 0 <= i < keys.len() ==> 0 <= #[trigger] keys[i] < count,
    ensures
        covers_once(groups(s, keys, count), s.to_set()),
{
    let all = groups(s, keys, count);
    assert forall|k: int, j: int| 0 <= k < all.len() && 0 <= j < all[k].len() implies s.to_set().contains(
        #[trigger] all[k][j],
    ) by {
        lemma_pick(s, keys, k);
    }
    assert forall|x: ConcretizedItem| s.to_set().contains(x) implies exists|k: int, j: int|
        0 <= k < all.len() && 0 <= j < all[k].len() && #[trigger] all[k][j] == x by {
        let i = choose|i: int| 0 <= i < s.len() && s[i] == x;
        let k = keys[i];
        lemma_pick(s, keys, k);
        assert(all[k].contains(s[i]));
        let j = choose|j: int| 0 <= j < all[k].len() && all[k][j] == x;
        assert(all[k][j] == x);
    }
    assert forall|k1: int, j1: int, k2: int, j2: int|
        0 <= k1 < all.len() && 0 <= j1 < all[k1].len() && 0 <= k2 < all.len() && 0 <= j2
            < all[k2].len() && #[trigger] all[k1][j1] == #[trigger] all[k2][j2] implies k1 == k2
        && j1 == j2 by {
        lemma_pick(s, keys, k1);
        lemma_pick(s, keys, k2);
        let i1 = choose|i: int| 0 <= i < s.len() && s[i] == all[k1][j1] && keys[i] == k1;
        let i2 = choose|i: int| 0 <= i < s.len() && s[i] == all[k2][j2] && keys[i] == k2;
        assert(i1 == i2);
    }
}

/// No item stands at two places of `all`.
pub open spec fn apart(all: Seq<Seq<ConcretizedItem>>) -> bool {
    forall|k1: int, j1: int, k2: int, j2: int|
        0 <= k1 < all.len() && 0 <= j1 < all[k1].len() && 0 <= k2 < all.len() && 0 <= j2
            < all[k2].len() && #[trigger] all[k1][j1] == #[trigger] all[k2][j2] ==> k1 == k2 && j1
            == j2
}

proof fn lemma_kept_distinct(all: Seq<Seq<ConcretizedItem>>)
    requires
        apart(all),
    ensures
        kept(all, false).no_duplicates(),
        forall|k: int|
            0 <= k < kept(all, false).len() ==> (#[trigger] kept(all, false)[k]).len() > 0
                && all.contains(kept(all, false)[k]),
        forall|k: int|
            0 <= k < all.len() && all[k].len() > 0 ==> kept(all, false).contains(#[trigger] all[k]),
    decreases all.len(),
{
    let ne = |g: Seq<ConcretizedItem>| g.len() > 0;
    reveal(Seq::filter);
    if all.len() > 0 {
        let rest = all.drop_last();
        assert(apart(rest)) by {
            assert forall|k1: int, j1: int, k2: int, j2: int|
                0 <= k1 < rest.len() && 0 <= j1 < rest[k1].len() && 0 <= k2 < rest.len() && 0 <= j2
                    < rest[k2].len() && #[trigger] rest[k1][j1] == #[trigger] rest[k2][j2] implies k1
                == k2 && j1 == j2 by {
                assert(all[k1][j1] == all[k2][j2]);
            }
        }
        lemma_kept_distinct(rest);
        let before = rest.filter(ne);
        let now = all.filter(ne);
        assert forall|k: int| 0 <= k < now.len() implies (#[trigger] now[k]).len() > 0 && all.contains(
            now[k],
        ) by {
            if k < before.len() {
                assert(rest.contains(before[k]));
                let i = choose|i: int| 0 <= i < rest.len() && rest[i] == before[k];
                assert(all[i] == before[k]);
            } else {
                assert(all[all.len() - 1] == now[k]);
            }
        }
        assert forall|k: int| 0 <= k < all.len() && all[k].len() > 0 implies now.contains(
            #[trigger] all[k],
        ) by {
            if k < rest.len() {
                assert(before.contains(rest[k]));
                let i = choose|i: int| 0 <= i < before.len() && before[i] == rest[k];
                assert(now[i] == all[k]);
            } else {
                assert(now[now.len() - 1] == all[k]);
            }
        }
        assert forall|a: int, b: int| 0 <= a < now.len() && 0 <= b < now.len() && a != b implies now[a]
            != now[b] by {
            if a >= before.len() || b >= before.len() {
                let inner = if a < before.len() { a } else { b };
                assert(rest.contains(before[inner]));
                let i = choose|i: int| 0 <= i < rest.len() && rest[i] == before[inner];
                let last = all.len() - 1;
                if all[i] == all[last] {
                    assert(all[i][0] == all[last][0]);
                }
            }
        }
    }
}

/// Dropping the empty groups keeps every item in exactly one group.
pub proof fn lemma_kept_cover(all: Seq<Seq<ConcretizedItem>>, set: Set<ConcretizedItem>)
    requires
        covers_once(all, set),
    ensures
        covers_once(kept(all, false), set),
        forall|k: int| 0 <= k < kept(all, false).len() ==> (#[trigger] kept(all, false)[k]).len() > 0,
{
    lemma_kept_distinct(all);
    let f = kept(all, false);
    assert forall|k: int, j: int| 0 <= k < f.len() && 0 <= j < f[k].len() implies set.contains(
        #[trigger] f[k][j],
    ) by {
        assert(all.contains(f[k]));
        let a = choose|a: int| 0 <= a < all.len() && all[a] == f[k];
        assert(all[a][j] == f[k][j]);
    }
    assert forall|x: ConcretizedItem| set.contains(x) implies exists|k: int, j: int|
        0 <= k < f.len() && 0 <= j < f[k].len() && #[trigger] f[k][j] == x by {
        let (a, j) = choose|a: int, j: int|
            0 <= a < all.len() && 0 <= j < all[a].len() && #[trigger] all[a][j] == x;
        assert(f.contains(all[a]));
        let k = choose|k: int| 0 <= k < f.len() && f[k] == all[a];
        assert(f[k][j] == x);
    }
    assert forall|k1: int, j1: int, k2: int, j2: int|
        0 <= k1 < f.len() && 0 <= j1 < f[k1].len() && 0 <= k2 < f.len() && 0 <= j2 < f[k2].len()
            && #[trigger] f[k1][j1] == #[trigger] f[k2][j2] implies k1 == k2 && j1 == j2 by {
        assert(all.contains(f[k1]));
        assert(all.contains(f[k2]));
        let a = choose|a: int| 0 <= a < all.len() && all[a] == f[k1];
        let b = choose|b: int| 0 <= b < all.len() && all[b] == f[k2];
        assert(all[a][j1] == all[b][j2]);
    }
}

proof fn lemma_first_link_bound(s: Seq<ConcretizedItem>, edges: Set<Edge>, i: int, c: int)
    requires
        0 <= c <= i,
    ensures
        c <= first_link(s, edges, i, c) <= i,
    decreases i - c,
{
    if c < i && !linked(edges, s[i], s[c]) {
        lemma_first_link_bound(s, edges, i, c + 1);
    }
}

/// The partitioner puts every item of the set in exactly one unit, once,
/// and puts nothing else in a unit. With `FixedUnitCount(n)` it makes `n`
/// units; with `LocalityBalanced` no unit is empty.
pub proof fn lemma_partition_covers(
    items: Set<ConcretizedItem>,
    edges: Set<Edge>,
    strategy: PartitionStrategy,
)
    requires
        items.finite(),
        strategy.valid(),
    ensures
        covers_once(planned_groups(items, edges, strategy), items),
        strategy matches PartitionStrategy::FixedUnitCount(n) ==> planned_groups(
            items,
            edges,
            strategy,
        ).len() == n,
        strategy is LocalityBalanced ==> forall|k: int|
            0 <= k < planned_groups(items, edges, strategy).len() ==> (#[trigger] planned_groups(
                items,
                edges,
                strategy,
            )[k]).len() > 0,
{
    lemma_canonical_exists(items);
    let s = canonical(items);
    lemma_increasing_distinct(s);
    match strategy {
        PartitionStrategy::FixedUnitCount(n) => {
            let keys = dealt(s.len(), n as int);
            assert forall|i: int| 0 <= i < keys.len() implies 0 <= #[trigger] keys[i] < n by {
                assert(0 <= i % (n as int) < n) by (nonlinear_arith)
                    requires
                        0 <= i,
                        n >= 1,
                ;
            }
            lemma_groups_cover(s, keys, n as nat);
        },
        PartitionStrategy::LocalityBalanced => {
            let keys = leaders(s, edges);
            assert forall|i: int| 0 <= i < keys.len() implies 0 <= #[trigger] keys[i] < s.len() by {
                lemma_first_link_bound(s, edges, i, 0);
            }
            lemma_groups_cover(s, keys, s.len());
            lemma_kept_cover(groups(s, keys, s.len()), items);
        },
    }
}

/// Partitioning does not depend on the order in which the items and the
/// edges were given: two lists of the same items and two lists of the same
/// edges give the same units, with the same names and the same items in each.
pub proof fn lemma_partition_order_free(
    first_items: Seq<ConcretizedItem>,
    second_items: Seq<ConcretizedItem>,
    first_edges: Seq<Edge>,
    second_edges: Seq<Edge>,
    strategy: PartitionStrategy,
)
    requires
        first_items.to_set() == second_items.to_set(),
        first_edges.to_set() == second_edges.to_set(),
    ensures
        planned(first_items.to_set(), first_edges.to_set(), strategy) == planned(
            second_items.to_set(),
            second_edges.to_set(),
            strategy,
        ),
{
}

} // verus!
