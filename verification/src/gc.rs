//! Which stored objects are garbage. What a retained manifest names stays, and
//! so does for a while what a later manifest names no more.

use crate::error::EngineError;
use crate::flush::{BlockManifest, TableTries};
use crate::keys::{
    block_key, has_path_prefix, is_graph_data_or_meta_key, object_key, object_key_spec, under,
    LOG_PREFIX, PROBE_PREFIX,
};
use crate::sorted::{
    lemma_set_items, lemma_set_items_sorted, lemma_sorted_domain, sorted_seq, OrderedKey, SortedMap,
    SortedSet,
};
use crate::text::{lemma_text_less_transitive, lemma_text_order, text_before, text_less, views};
use vstd::prelude::*;

verus! {

/// What collection keeps.
#[derive(Clone, Copy, Debug, PartialEq, Eq, Structural)]
pub struct GcConfig {
    pub enabled: bool,
    /// How many blocks before the latest are kept.
    pub blocks_to_keep: u64,
    /// How long garbage is kept.
    pub garbage_lifetime_us: i64,
}

impl Default for GcConfig {
    fn default() -> (r: GcConfig)
        ensures
            r == (GcConfig {
                enabled: false,
                blocks_to_keep: 10,
                garbage_lifetime_us: 86_400_000_000,
            }),
    {
        GcConfig { enabled: false, blocks_to_keep: 10, garbage_lifetime_us: 86_400_000_000 }
    }
}

/// The objects that are to go, in order.
#[derive(Debug)]
pub struct GcPlan {
    pub delete_keys: Vec<String>,
}

/// How many objects were to go, and how many went.
#[derive(Clone, Copy, Debug, PartialEq, Eq, Structural)]
pub struct GcReport {
    pub planned_objects: usize,
    pub deleted_objects: usize,
}

impl Default for GcReport {
    fn default() -> (r: GcReport)
        ensures
            r == (GcReport { planned_objects: 0, deleted_objects: 0 }),
    {
        GcReport { planned_objects: 0, deleted_objects: 0 }
    }
}

/// What the name of a listed object says: which manifest it holds, or from which
/// position on it holds the log.
#[derive(Clone, Copy, Debug, PartialEq, Eq, Structural)]
pub struct KeyClass {
    pub manifest_block: Option<u64>,
    pub log_position: Option<u64>,
}

/// A manifest by its number and by its place in a list.
#[derive(Clone, Copy, Debug, PartialEq, Eq, Structural)]
pub struct Place {
    pub block_id: u64,
    pub index: usize,
}

impl OrderedKey for Place {
    type Model = Place;

    open spec fn model(&self) -> Place {
        *self
    }

    open spec fn less(a: Place, b: Place) -> bool {
        if a.block_id != b.block_id {
            a.block_id < b.block_id
        } else {
            a.index < b.index
        }
    }

    proof fn order_laws(a: Place, b: Place) {
    }

    proof fn transitive(a: Place, b: Place, c: Place) {
    }

    fn before(&self, other: &Self) -> (r: bool) {
        if self.block_id != other.block_id {
            self.block_id < other.block_id
        } else {
            self.index < other.index
        }
    }
}

/// The places of a list of manifests.
pub open spec fn places(ms: Seq<BlockManifest>) -> Set<Place> {
    Set::new(|p: Place| p.index < ms.len() && p.block_id == ms[p.index as int].block_id)
}

/// The manifests in the order of their numbers; those of the same number stay
/// in the order in which they were.
pub open spec fn in_order(ms: Seq<BlockManifest>) -> Seq<BlockManifest> {
    sorted_seq::<Place>(places(ms)).map_values(|p: Place| ms[p.index as int])
}

fn order_manifests(ms: &Vec<BlockManifest>) -> (r: Vec<usize>)
    ensures
        forall|i: int| 0 <= i < r@.len() ==> (#[trigger] r@[i]) < ms@.len(),
        in_order(ms@) == r@.map_values(|k: usize| ms@[k as int]),
{
    let mut set: SortedSet<Place> = SortedSet::new();
    let mut i: usize = 0;
    assert(set@ =~= places(ms@).filter(|p: Place| p.index < 0));
    while i < ms.len()
        invariant
            i <= ms.len(),
            set.wf(),
            set@ == places(ms@).filter(|p: Place| p.index < i),
        decreases ms.len() - i,
    {
        let ghost before = set@;
        let place = Place { block_id: ms[i].block_id, index: i };
        set.insert(place);
        assert(set@ =~= places(ms@).filter(|p: Place| p.index < i + 1));
        i += 1;
        assert(set@ =~= places(ms@).filter(|p: Place| p.index < i));
    }
    assert(set@ =~= places(ms@));
    let n = set.len();
    let mut r: Vec<usize> = Vec::new();
    let ghost items = set.items();
    proof {
        lemma_set_items(set);
        lemma_set_items_sorted(set);
    }
    let mut k: usize = 0;
    while k < n
        invariant
            k <= n,
            n == items.len(),
            items == set.items(),
            items.to_set() == places(ms@),
            r@.len() == k,
            forall|j: int| 0 <= j < k ==> #[trigger] r@[j] == items[j].index,
            forall|j: int| 0 <= j < k ==> (#[trigger] r@[j]) < ms@.len(),
        decreases n - k,
    {
        let p = *set.item_at(k);
        assert(places(ms@).contains(p)) by {
            assert(items.to_set().contains(items[k as int]));
        }
        r.push(p.index);
        k += 1;
    }
    assert(in_order(ms@) =~= r@.map_values(|k: usize| ms@[k as int]));
    r
}

/// A block of an inventory of a graph.
pub struct Scoped {
    pub graph: Seq<char>,
    pub table: Seq<char>,
    pub family: Seq<char>,
    pub trie_key: Seq<char>,
}

pub open spec fn scoped(t: TableTries, j: int) -> Scoped {
    Scoped { graph: t.graph@, table: t.table@, family: t.family@, trie_key: t.tries@[j].trie_key@ }
}

pub open spec fn data_of(e: Scoped) -> Seq<char> {
    object_key_spec(e.graph, e.table, e.family, "data"@, e.trie_key)
}

pub open spec fn meta_of(e: Scoped) -> Seq<char> {
    object_key_spec(e.graph, e.table, e.family, "meta"@, e.trie_key)
}

/// The manifest names a block at this place.
pub open spec fn place_ok(m: BlockManifest, t: int, j: int) -> bool {
    0 <= t < m.tables@.len() && 0 <= j < m.tables@[t].tries@.len()
}

/// The manifest names the block.
pub open spec fn names(m: BlockManifest, e: Scoped) -> bool {
    exists|t: int, j: int| #[trigger] place_ok(m, t, j) && scoped(m.tables@[t], j) == e
}

pub open spec fn sat_sub(a: u64, b: u64) -> u64 {
    if a >= b {
        (a - b) as u64
    } else {
        0
    }
}

pub open spec fn sat_add(a: i64, b: i64) -> int {
    if a + b > i64::MAX {
        i64::MAX as int
    } else if a + b < i64::MIN {
        i64::MIN as int
    } else {
        a + b
    }
}

/// The number from which on manifests are retained.
pub open spec fn retain_from(o: Seq<BlockManifest>, cfg: GcConfig) -> u64 {
    sat_sub(o.last().block_id, cfg.blocks_to_keep)
}

pub open spec fn retained(o: Seq<BlockManifest>, cfg: GcConfig, i: int) -> bool {
    o[i].block_id >= retain_from(o, cfg)
}

/// What a manifest names and no later one does is garbage from the next one on.
/// It is kept until its lifetime is over.
pub open spec fn unexpired(o: Seq<BlockManifest>, cfg: GcConfig, i: int, e: Scoped) -> bool {
    &&& i + 1 < o.len()
    &&& forall|j: int| i < j < o.len() ==> !#[trigger] names(o[j], e)
    &&& sat_add(o[i + 1].max_system_time_us, cfg.garbage_lifetime_us)
        > o.last().max_system_time_us
}

/// The manifest's naming of the block keeps it.
pub open spec fn keeps(o: Seq<BlockManifest>, cfg: GcConfig, i: int, e: Scoped) -> bool {
    retained(o, cfg, i) || unexpired(o, cfg, i, e)
}

/// The object is kept for this block.
pub open spec fn kept_for(o: Seq<BlockManifest>, cfg: GcConfig, i: int, e: Scoped, key: Seq<char>) -> bool {
    &&& 0 <= i < o.len()
    &&& names(o[i], e)
    &&& keeps(o, cfg, i, e)
    &&& key == data_of(e) || key == meta_of(e)
}

/// The object belongs to a block that is kept.
pub open spec fn protected(o: Seq<BlockManifest>, cfg: GcConfig, key: Seq<char>) -> bool {
    exists|i: int, e: Scoped| #[trigger] kept_for(o, cfg, i, e, key)
}

/// The set holds the objects of the block at this place, if it is kept.
pub open spec fn covered(
    set: Set<Seq<char>>,
    o: Seq<BlockManifest>,
    cfg: GcConfig,
    i: int,
    t: int,
    j: int,
) -> bool {
    place_ok(o[i], t, j) && keeps(o, cfg, i, scoped(o[i].tables@[t], j)) ==> set.contains(
        data_of(scoped(o[i].tables@[t], j)),
    ) && set.contains(meta_of(scoped(o[i].tables@[t], j)))
}

/// Only objects that are kept are in the set.
pub open spec fn sound(set: Set<Seq<char>>, o: Seq<BlockManifest>, cfg: GcConfig) -> bool {
    forall|k: Seq<char>| #[trigger] set.contains(k) ==> protected(o, cfg, k)
}

fn same_scope(a: &TableTries, b: &TableTries) -> (r: bool)
    ensures
        r == (a.graph@ == b.graph@ && a.table@ == b.table@ && a.family@ == b.family@),
{
    crate::text::same_text(&a.graph, &b.graph) && crate::text::same_text(&a.table, &b.table)
        && crate::text::same_text(&a.family, &b.family)
}

/// Whether a manifest names a block of another one.
fn is_named(m: &BlockManifest, table: &TableTries, j: usize) -> (r: bool)
    requires
        j < table.tries@.len(),
    ensures
        r == names(*m, scoped(*table, j as int)),
{
    let ghost e = scoped(*table, j as int);
    let mut t: usize = 0;
    while t < m.tables.len()
        invariant
            t <= m.tables.len(),
            j < table.tries@.len(),
            e == scoped(*table, j as int),
            forall|a: int, b: int|
                0 <= a < t && #[trigger] place_ok(*m, a, b) ==> scoped(m.tables@[a], b) != e,
        decreases m.tables.len() - t,
    {
        let other = &m.tables[t];
        if same_scope(other, table) {
            let mut k: usize = 0;
            while k < other.tries.len()
                invariant
                    k <= other.tries.len(),
                    t < m.tables.len(),
                    j < table.tries@.len(),
                    *other == m.tables@[t as int],
                    e == scoped(*table, j as int),
                    other.graph@ == e.graph,
                    other.table@ == e.table,
                    other.family@ == e.family,
                    forall|b: int| 0 <= b < k ==> #[trigger] scoped(*other, b) != e,
                decreases other.tries.len() - k,
            {
                if crate::text::same_text(&other.tries[k].trie_key, &table.tries[j].trie_key) {
                    assert(place_ok(*m, t as int, k as int));
                    assert(scoped(m.tables@[t as int], k as int) == e);
                    return true;
                }
                assert(scoped(*other, k as int) != e);
                k += 1;
            }
        }
        assert forall|a: int, b: int| 0 <= a < t + 1 && #[trigger] place_ok(*m, a, b) implies scoped(
            m.tables@[a],
            b,
        ) != e by {
            if a == t {
                assert(scoped(*other, b) != e);
            }
        }
        t += 1;
    }
    false
}

/// Whether some later manifest names a block.
fn named_later(ms: &Vec<BlockManifest>, order: &Vec<usize>, i: usize, table: &TableTries, j: usize) -> (r:
    bool)
    requires
        i < order@.len(),
        j < table.tries@.len(),
        forall|k: int| 0 <= k < order@.len() ==> (#[trigger] order@[k]) < ms@.len(),
        in_order(ms@) == order@.map_values(|k: usize| ms@[k as int]),
    ensures
        r == exists|k: int|
            i < k < order@.len() && #[trigger] names(in_order(ms@)[k], scoped(*table, j as int)),
{
    let ghost o = in_order(ms@);
    let ghost e = scoped(*table, j as int);
    let total: usize = order.len();
    assert(i < total);
    let mut k: usize = i + 1;
    while k < order.len()
        invariant
            i < k <= order.len(),
            j < table.tries@.len(),
            e == scoped(*table, j as int),
            o == in_order(ms@),
            o == order@.map_values(|k: usize| ms@[k as int]),
            forall|a: int| 0 <= a < order@.len() ==> (#[trigger] order@[a]) < ms@.len(),
            forall|a: int| i < a < k ==> !#[trigger] names(o[a], e),
        decreases order.len() - k,
    {
        assert(order@[k as int] < ms@.len());
        assert(o[k as int] == ms@[order@[k as int] as int]);
        if is_named(&ms[order[k]], table, j) {
            assert(names(o[k as int], e));
            return true;
        }
        k += 1;
    }
    false
}

proof fn lemma_covered_grows(
    a: Set<Seq<char>>,
    b: Set<Seq<char>>,
    o: Seq<BlockManifest>,
    cfg: GcConfig,
    i: int,
    t: int,
    j: int,
)
    requires
        a.subset_of(b),
        covered(a, o, cfg, i, t, j),
    ensures
        covered(b, o, cfg, i, t, j),
{
}

/// What the collection works on: the manifests and their order.
pub open spec fn ordered_by(ms: Seq<BlockManifest>, order: Seq<usize>) -> bool {
    &&& forall|k: int| 0 <= k < order.len() ==> (#[trigger] order[k]) < ms.len()
    &&& in_order(ms) == order.map_values(|k: usize| ms[k as int])
}

fn protect_table(
    set: &mut SortedSet<String>,
    ms: &Vec<BlockManifest>,
    order: &Vec<usize>,
    cfg: &GcConfig,
    i: usize,
    t: usize,
    retain: bool,
    fresh: bool,
)
    requires
        old(set).wf(),
        ordered_by(ms@, order@),
        i < order@.len(),
        t < in_order(ms@)[i as int].tables@.len(),
        sound(old(set)@, in_order(ms@), *cfg),
        retain == retained(in_order(ms@), *cfg, i as int),
        fresh == (i + 1 < order@.len() && sat_add(
            in_order(ms@)[i + 1].max_system_time_us,
            cfg.garbage_lifetime_us,
        ) > in_order(ms@).last().max_system_time_us),
    ensures
        final(set).wf(),
        old(set)@.subset_of(final(set)@),
        sound(final(set)@, in_order(ms@), *cfg),
        forall|j: int|
            #[trigger] covered(final(set)@, in_order(ms@), *cfg, i as int, t as int, j),
{
    let ghost o = in_order(ms@);
    let ghost start = set@;
    assert(o[i as int] == ms@[order@[i as int] as int]);
    let m = &ms[order[i]];
    let table = &m.tables[t];
    let mut j: usize = 0;
    while j < table.tries.len()
        invariant
            j <= table.tries.len(),
            set.wf(),
            o == in_order(ms@),
            ordered_by(ms@, order@),
            i < order@.len(),
            t < o[i as int].tables@.len(),
            *m == o[i as int],
            *table == m.tables@[t as int],
            start.subset_of(set@),
            sound(set@, o, *cfg),
            retain == retained(o, *cfg, i as int),
            fresh == (i + 1 < order@.len() && sat_add(
                o[i + 1].max_system_time_us,
                cfg.garbage_lifetime_us,
            ) > o.last().max_system_time_us),
            forall|k: int|
                0 <= k < j ==> #[trigger] covered(set@, o, *cfg, i as int, t as int, k),
        decreases table.tries.len() - j,
    {
        let ghost e = scoped(*table, j as int);
        let ghost before = set@;
        let keep = retain || (fresh && !named_later(ms, order, i, table, j));
        assert(keep == keeps(o, *cfg, i as int, e)) by {
            assert(o.len() == order@.len());
        }
        if keep {
            let data = object_key(
                table.graph.as_str(),
                table.table.as_str(),
                table.family.as_str(),
                "data",
                table.tries[j].trie_key.as_str(),
            );
            let meta = object_key(
                table.graph.as_str(),
                table.table.as_str(),
                table.family.as_str(),
                "meta",
                table.tries[j].trie_key.as_str(),
            );
            set.insert(data);
            set.insert(meta);
            proof {
                assert(place_ok(o[i as int], t as int, j as int));
                assert(names(o[i as int], e));
                assert(kept_for(o, *cfg, i as int, e, data_of(e)));
                assert(kept_for(o, *cfg, i as int, e, meta_of(e)));
                assert(set@ =~= before.insert(data_of(e)).insert(meta_of(e)));
                assert forall|k: Seq<char>| #[trigger] set@.contains(k) implies protected(
                    o,
                    *cfg,
                    k,
                ) by {
                    if before.contains(k) {
                    }
                }
            }
        }
        proof {
            assert(before.subset_of(set@));
            assert forall|k: int| 0 <= k < j + 1 implies #[trigger] covered(
                set@,
                o,
                *cfg,
                i as int,
                t as int,
                k,
            ) by {
                if k < j {
                    lemma_covered_grows(before, set@, o, *cfg, i as int, t as int, k);
                }
            }
        }
        j += 1;
    }
}

fn protect_manifest(
    set: &mut SortedSet<String>,
    ms: &Vec<BlockManifest>,
    order: &Vec<usize>,
    cfg: &GcConfig,
    i: usize,
)
    requires
        old(set).wf(),
        ordered_by(ms@, order@),
        i < order@.len(),
        sound(old(set)@, in_order(ms@), *cfg),
    ensures
        final(set).wf(),
        old(set)@.subset_of(final(set)@),
        sound(final(set)@, in_order(ms@), *cfg),
        forall|t: int, j: int| #[trigger]
            covered(final(set)@, in_order(ms@), *cfg, i as int, t, j),
{
    let ghost o = in_order(ms@);
    let ghost start = set@;
    let n = order.len();
    assert(o[i as int] == ms@[order@[i as int] as int]);
    assert(o[n - 1] == ms@[order@[n - 1] as int]);
    let latest = &ms[order[n - 1]];
    let m = &ms[order[i]];
    let from: u64 = latest.block_id.saturating_sub(cfg.blocks_to_keep);
    let retain = m.block_id >= from;
    let fresh = if i + 1 < n {
        assert(o[i + 1] == ms@[order@[i + 1] as int]);
        let next: i64 = ms[order[i + 1]].max_system_time_us;
        let until: i64 = match next.checked_add(cfg.garbage_lifetime_us) {
            Some(us) => us,
            None => if cfg.garbage_lifetime_us > 0 {
                i64::MAX
            } else {
                i64::MIN
            },
        };
        until > latest.max_system_time_us
    } else {
        false
    };
    let mut t: usize = 0;
    while t < m.tables.len()
        invariant
            t <= m.tables.len(),
            set.wf(),
            o == in_order(ms@),
            ordered_by(ms@, order@),
            i < order@.len(),
            *m == o[i as int],
            start.subset_of(set@),
            sound(set@, o, *cfg),
            retain == retained(o, *cfg, i as int),
            fresh == (i + 1 < order@.len() && sat_add(
                o[i + 1].max_system_time_us,
                cfg.garbage_lifetime_us,
            ) > o.last().max_system_time_us),
            forall|a: int, j: int|
                0 <= a < t ==> #[trigger] covered(set@, o, *cfg, i as int, a, j),
        decreases m.tables.len() - t,
    {
        let ghost before = set@;
        protect_table(set, ms, order, cfg, i, t, retain, fresh);
        proof {
            assert forall|a: int, j: int| 0 <= a < t + 1 implies #[trigger] covered(
                set@,
                o,
                *cfg,
                i as int,
                a,
                j,
            ) by {
                if a < t {
                    lemma_covered_grows(before, set@, o, *cfg, i as int, a, j);
                }
            }
        }
        t += 1;
    }
}

fn protect_all(ms: &Vec<BlockManifest>, order: &Vec<usize>, cfg: &GcConfig) -> (r: SortedSet<
    String,
>)
    requires
        ordered_by(ms@, order@),
    ensures
        r.wf(),
        forall|k: Seq<char>| #[trigger] r@.contains(k) <==> protected(in_order(ms@), *cfg, k),
{
    let ghost o = in_order(ms@);
    let mut set: SortedSet<String> = SortedSet::new();
    let mut i: usize = 0;
    while i < order.len()
        invariant
            i <= order.len(),
            set.wf(),
            o == in_order(ms@),
            ordered_by(ms@, order@),
            sound(set@, o, *cfg),
            forall|a: int, t: int, j: int|
                0 <= a < i ==> #[trigger] covered(set@, o, *cfg, a, t, j),
        decreases order.len() - i,
    {
        let ghost before = set@;
        protect_manifest(&mut set, ms, order, cfg, i);
        proof {
            assert forall|a: int, t: int, j: int| 0 <= a < i + 1 implies #[trigger] covered(
                set@,
                o,
                *cfg,
                a,
                t,
                j,
            ) by {
                if a < i {
                    lemma_covered_grows(before, set@, o, *cfg, a, t, j);
                }
            }
        }
        i += 1;
    }
    proof {
        assert forall|k: Seq<char>| protected(o, *cfg, k) implies #[trigger] set@.contains(k) by {
            let (a, e) = choose|a: int, e: Scoped| #[trigger] kept_for(o, *cfg, a, e, k);
            let (t, j) = choose|t: int, j: int| #[trigger]
                place_ok(o[a], t, j) && scoped(o[a].tables@[t], j) == e;
            assert(o.len() == order@.len());
            assert(covered(set@, o, *cfg, a, t, j));
        }
    }
    set
}

/// The least watermark of the retained manifests among the first `n`.
pub open spec fn least_watermark(o: Seq<BlockManifest>, cfg: GcConfig, n: int) -> Option<u64>
    decreases n,
{
    if n <= 0 {
        None
    } else {
        let before = least_watermark(o, cfg, n - 1);
        if !retained(o, cfg, n - 1) {
            before
        } else {
            match before {
                None => Some(o[n - 1].watermark),
                Some(w) => Some(
                    if w <= o[n - 1].watermark {
                        w
                    } else {
                        o[n - 1].watermark
                    },
                ),
            }
        }
    }
}

fn find_watermark(ms: &Vec<BlockManifest>, order: &Vec<usize>, cfg: &GcConfig) -> (r: Option<u64>)
    requires
        ordered_by(ms@, order@),
    ensures
        r == least_watermark(in_order(ms@), *cfg, in_order(ms@).len() as int),
{
    let ghost o = in_order(ms@);
    let n = order.len();
    if n == 0 {
        assert(o.len() == 0);
        return None;
    }
    assert(o[n - 1] == ms@[order@[n - 1] as int]);
    let from: u64 = ms[order[n - 1]].block_id.saturating_sub(cfg.blocks_to_keep);
    let mut r: Option<u64> = None;
    let mut i: usize = 0;
    while i < n
        invariant
            i <= n,
            n == order@.len(),
            o == in_order(ms@),
            ordered_by(ms@, order@),
            from == retain_from(o, *cfg),
            r == least_watermark(o, *cfg, i as int),
        decreases n - i,
    {
        assert(o[i as int] == ms@[order@[i as int] as int]);
        let m = &ms[order[i]];
        if m.block_id >= from {
            r = match r {
                None => Some(m.watermark),
                Some(w) => Some(
                    if w <= m.watermark {
                        w
                    } else {
                        m.watermark
                    },
                ),
            };
        }
        i += 1;
    }
    r
}

/// An object of the log: from where on it holds the log, and its name.
#[derive(Debug)]
pub struct LogObject {
    pub position: u64,
    pub key: String,
}

pub struct LogObjectView {
    pub position: u64,
    pub key: Seq<char>,
}

impl OrderedKey for LogObject {
    type Model = LogObjectView;

    open spec fn model(&self) -> LogObjectView {
        LogObjectView { position: self.position, key: self.key@ }
    }

    open spec fn less(a: LogObjectView, b: LogObjectView) -> bool {
        if a.position != b.position {
            a.position < b.position
        } else {
            text_less(a.key, b.key)
        }
    }

    proof fn order_laws(a: LogObjectView, b: LogObjectView) {
        lemma_text_order(a.key, b.key);
        lemma_text_order(a.key, a.key);
    }

    proof fn transitive(a: LogObjectView, b: LogObjectView, c: LogObjectView) {
        if a.position == b.position && b.position == c.position {
            lemma_text_less_transitive(a.key, b.key, c.key);
        }
    }

    fn before(&self, other: &Self) -> (r: bool) {
        if self.position != other.position {
            self.position < other.position
        } else {
            text_before(self.key.as_str(), other.key.as_str())
        }
    }
}

/// The objects of the log among the listed ones. A name that does not tell a
/// position is not the log's.
pub open spec fn log_objects(listed: Map<Seq<char>, KeyClass>) -> Set<LogObjectView> {
    Set::new(
        |x: LogObjectView|
            listed.dom().contains(x.key) && under(x.key, LOG_PREFIX@)
                && listed[x.key].log_position == Some(x.position),
    )
}

/// An object of the log holds it up to where the next one begins. It is swept
/// once the next one begins at or before the watermark; so the last is never.
pub open spec fn log_swept(
    listed: Map<Seq<char>, KeyClass>,
    watermark: Option<u64>,
    key: Seq<char>,
) -> bool {
    &&& watermark is Some
    &&& exists|p: u64, next: LogObjectView|
        #![trigger log_objects(listed).contains(LogObjectView { position: p, key }), log_objects(listed).contains(next)]
        log_objects(listed).contains(LogObjectView { position: p, key }) && log_objects(
            listed,
        ).contains(next) && LogObject::less(LogObjectView { position: p, key }, next)
            && next.position <= watermark->0
}

/// Whether an object outside the log is garbage.
pub open spec fn is_garbage(
    o: Seq<BlockManifest>,
    cfg: GcConfig,
    key: Seq<char>,
    class: KeyClass,
) -> bool {
    if under(key, PROBE_PREFIX@) {
        true
    } else if protected(o, cfg, key) {
        false
    } else {
        match class.manifest_block {
            Some(block) => o.len() > 0 && block < retain_from(o, cfg),
            None => block_key(key),
        }
    }
}

/// Whether a listed object is to go.
pub open spec fn goes(
    o: Seq<BlockManifest>,
    cfg: GcConfig,
    listed: Map<Seq<char>, KeyClass>,
    key: Seq<char>,
) -> bool {
    if under(key, LOG_PREFIX@) {
        log_swept(listed, least_watermark(o, cfg, o.len() as int), key)
    } else {
        is_garbage(o, cfg, key, listed[key])
    }
}

/// The objects that are to go.
pub open spec fn garbage(
    ms: Seq<BlockManifest>,
    listed: Map<Seq<char>, KeyClass>,
    cfg: GcConfig,
) -> Set<Seq<char>> {
    Set::new(
        |key: Seq<char>|
            cfg.enabled && listed.dom().contains(key) && goes(in_order(ms), cfg, listed, key),
    )
}

fn should_delete_key(
    key: &String,
    class: KeyClass,
    protected_keys: &SortedSet<String>,
    retain_before: Option<u64>,
    Ghost(o): Ghost<Seq<BlockManifest>>,
    Ghost(cfg): Ghost<GcConfig>,
) -> (r: bool)
    requires
        protected_keys.wf(),
        forall|k: Seq<char>| #[trigger] protected_keys@.contains(k) <==> protected(o, cfg, k),
        retain_before == (if o.len() > 0 {
            Some(retain_from(o, cfg))
        } else {
            None
        }),
    ensures
        r == is_garbage(o, cfg, key@, class),
{
    if has_path_prefix(key.as_str(), PROBE_PREFIX) {
        return true;
    }
    if protected_keys.contains(key) {
        return false;
    }
    match class.manifest_block {
        Some(block) => match retain_before {
            Some(from) => block < from,
            None => false,
        },
        None => is_graph_data_or_meta_key(key.as_str()),
    }
}

/// The objects of the log that are to go.
fn deletable_log_keys(objects: &SortedSet<LogObject>, watermark: Option<u64>, out: &mut SortedSet<
    String,
>, Ghost(listed): Ghost<Map<Seq<char>, KeyClass>>)
    requires
        objects.wf(),
        objects@ == log_objects(listed),
        old(out).wf(),
    ensures
        final(out).wf(),
        forall|k: Seq<char>| #[trigger]
            final(out)@.contains(k) <==> old(out)@.contains(k) || log_swept(listed, watermark, k),
{
    let w: u64 = match watermark {
        None => {
            return ;
        },
        Some(w) => w,
    };
    let ghost start = out@;
    let n = objects.len();
    let ghost items = objects.items();
    proof {
        lemma_set_items(*objects);
    }
    let mut i: usize = 0;
    while i + 1 < n
        invariant
            i <= n,
            n > 0 ==> i < n,
            n == items.len(),
            items == objects.items(),
            out.wf(),
            forall|k: Seq<char>| #[trigger]
                out@.contains(k) <==> start.contains(k) || exists|a: int|
                    0 <= a < i && (#[trigger] items[a]).key == k && items[a + 1].position <= w,
        decreases n - i,
    {
        let here = objects.item_at(i);
        let next = objects.item_at(i + 1);
        let ghost before = out@;
        let sweep = next.position <= w;
        if sweep {
            out.insert(here.key.clone());
        }
        proof {
            assert forall|k: Seq<char>| #[trigger] out@.contains(k) <==> start.contains(k)
                || exists|a: int|
                0 <= a < i + 1 && (#[trigger] items[a]).key == k && items[a + 1].position
                    <= w by {
                assert(out@.contains(k) <==> before.contains(k) || (sweep && k
                    == items[i as int].key));
                if before.contains(k) && !start.contains(k) {
                    let a = choose|a: int|
                        0 <= a < i && (#[trigger] items[a]).key == k && items[a + 1].position
                            <= w;
                    assert(0 <= a < i + 1 && items[a].key == k && items[a + 1].position <= w);
                }
                if sweep && k == items[i as int].key {
                    assert(items[i as int].key == k && items[i + 1].position <= w);
                }
                if exists|a: int|
                    0 <= a < i + 1 && (#[trigger] items[a]).key == k && items[a + 1].position
                        <= w {
                    let a = choose|a: int|
                        0 <= a < i + 1 && (#[trigger] items[a]).key == k && items[a + 1].position
                            <= w;
                    if a < i {
                        assert(0 <= a < i && items[a].key == k && items[a + 1].position <= w);
                    }
                }
            }
        }
        i += 1;
    }
    proof {
        assert forall|k: Seq<char>| #[trigger] out@.contains(k) <==> start.contains(k)
            || log_swept(listed, watermark, k) by {
            if exists|a: int|
                0 <= a < i && (#[trigger] items[a]).key == k && items[a + 1].position <= w {
                let a = choose|a: int|
                    0 <= a < i && (#[trigger] items[a]).key == k && items[a + 1].position <= w;
                let x = items[a];
                let y = items[a + 1];
                assert(items.to_set().contains(x) && items.to_set().contains(y));
                assert(LogObject::less(items[a], items[a + 1]));
                assert(x == LogObjectView { position: x.position, key: k });
                assert(log_objects(listed).contains(
                    LogObjectView { position: x.position, key: k },
                ));
                assert(log_objects(listed).contains(y));
                assert(log_swept(listed, watermark, k));
            }
            if log_swept(listed, watermark, k) {
                let (p, y) = choose|p: u64, y: LogObjectView|
                    #![trigger log_objects(listed).contains(LogObjectView { position: p, key: k }), log_objects(listed).contains(y)]
                    log_objects(listed).contains(LogObjectView { position: p, key: k })
                        && log_objects(listed).contains(y) && LogObject::less(
                        LogObjectView { position: p, key: k },
                        y,
                    ) && y.position <= w;
                let x = LogObjectView { position: p, key: k };
                assert(items.to_set().contains(x) && items.to_set().contains(y));
                let a = items.index_of(x);
                let b = items.index_of(y);
                assert(items[a] == x && items[b] == y);
                LogObject::order_laws(x, y);
                if b < a {
                    assert(LogObject::less(items[b], items[a]));
                }
                assert(a < b);
                if a + 1 < b {
                    assert(LogObject::less(items[a + 1], items[b]));
                }
                assert(items[a + 1].position <= w);
                assert(items[a].key == k);
                assert(a < i);
            }
        }
    }
}

fn text_list(set: &SortedSet<String>) -> (r: Vec<String>)
    requires
        set.wf(),
    ensures
        views(r@) == sorted_seq::<String>(set@),
{
    let n = set.len();
    let mut r: Vec<String> = Vec::new();
    let mut i: usize = 0;
    while i < n
        invariant
            i <= n,
            n == set.items().len(),
            views(r@) == set.items().subrange(0, i as int),
        decreases n - i,
    {
        let s = set.item_at(i).clone();
        let ghost before = r@;
        r.push(s);
        assert(views(r@) =~= views(before).push(s@));
        assert(views(r@) =~= set.items().subrange(0, i + 1));
        i += 1;
    }
    proof {
        lemma_set_items_sorted(*set);
        assert(views(r@) =~= set.items());
    }
    r
}

/// Plans a collection over the manifests there are and the objects that are
/// listed.
pub fn plan_gc(
    manifests: &Vec<BlockManifest>,
    listed: &SortedMap<String, KeyClass>,
    config: &GcConfig,
) -> (r: GcPlan)
    requires
        listed.wf(),
    ensures
        views(r.delete_keys@) == sorted_seq::<String>(garbage(manifests@, listed@, *config)),
{
    let mut out: SortedSet<String> = SortedSet::new();
    if !config.enabled {
        assert(out@ =~= garbage(manifests@, listed@, *config));
        return GcPlan { delete_keys: text_list(&out) };
    }
    let order = order_manifests(manifests);
    let ghost o = in_order(manifests@);
    let ghost m = listed@;
    let protected_keys = protect_all(manifests, &order, config);
    let watermark = find_watermark(manifests, &order, config);
    let n_manifests = order.len();
    let retain_before: Option<u64> = if n_manifests > 0 {
        assert(o[n_manifests - 1] == manifests@[order@[n_manifests - 1] as int]);
        Some(
            manifests[order[n_manifests - 1]].block_id.saturating_sub(config.blocks_to_keep),
        )
    } else {
        None
    };
    let n = listed.len();
    let ghost keys = listed.keys();
    let mut logs: SortedSet<LogObject> = SortedSet::new();
    let mut i: usize = 0;
    proof {
        lemma_sorted_domain(*listed);
        assert(logs@ =~= log_objects(m).filter(
            |x: LogObjectView| keys.subrange(0, 0).contains(x.key),
        ));
    }
    while i < n
        invariant
            i <= n,
            n == keys.len(),
            keys == listed.keys(),
            m == listed@,
            m.dom() == keys.to_set(),
            forall|k: int|
                0 <= k < keys.len() ==> m.dom().contains(#[trigger] keys[k]) && m[keys[k]]
                    == listed.values()[k],
            protected_keys.wf(),
            forall|k: Seq<char>| #[trigger]
                protected_keys@.contains(k) <==> protected(o, *config, k),
            retain_before == (if o.len() > 0 {
                Some(retain_from(o, *config))
            } else {
                None
            }),
            out.wf(),
            logs.wf(),
            forall|k: Seq<char>| #[trigger]
                out@.contains(k) <==> keys.subrange(0, i as int).contains(k) && !under(
                    k,
                    LOG_PREFIX@,
                ) && is_garbage(o, *config, k, m[k]),
            forall|x: LogObjectView| #[trigger]
                logs@.contains(x) <==> keys.subrange(0, i as int).contains(x.key) && under(
                    x.key,
                    LOG_PREFIX@,
                ) && m[x.key].log_position == Some(x.position),
        decreases n - i,
    {
        let key = listed.key_at(i);
        let class = *listed.value_at(i);
        let ghost before = out@;
        let ghost logs0 = logs@;
        proof {
            assert(m.dom().contains(keys[i as int]));
            assert(keys.subrange(0, i + 1) =~= keys.subrange(0, i as int).push(key@));
            assert forall|k: Seq<char>| #[trigger] keys.subrange(0, i + 1).contains(k)
                <==> keys.subrange(0, i as int).contains(k) || k == key@ by {
                let a = keys.subrange(0, i as int);
                let b = keys.subrange(0, i + 1);
                if a.contains(k) {
                    let j = a.index_of(k);
                    assert(b[j] == k);
                }
                assert(b[i as int] == key@);
                if b.contains(k) {
                    let j = b.index_of(k);
                    if j < i {
                        assert(a[j] == k);
                    }
                }
            }
        }
        if has_path_prefix(key.as_str(), LOG_PREFIX) {
            match class.log_position {
                Some(position) => {
                    logs.insert(LogObject { position, key: key.clone() });
                    assert(logs@ =~= logs0.insert(LogObjectView { position, key: key@ }));
                },
                None => {},
            }
        } else if should_delete_key(
            key,
            class,
            &protected_keys,
            retain_before,
            Ghost(o),
            Ghost(*config),
        ) {
            out.insert(key.clone());
            assert(out@ =~= before.insert(key@));
        }
        i += 1;
    }
    proof {
        assert(keys.subrange(0, n as int) =~= keys);
        assert(logs@ =~= log_objects(m)) by {
            assert forall|x: LogObjectView| #[trigger] logs@.contains(x) <==> log_objects(
                m,
            ).contains(x) by {
                assert(keys.to_set().contains(x.key) <==> keys.contains(x.key));
            }
        }
    }
    deletable_log_keys(&logs, watermark, &mut out, Ghost(m));
    proof {
        assert(out@ =~= garbage(manifests@, m, *config)) by {
            assert forall|k: Seq<char>| #[trigger] out@.contains(k) <==> garbage(
                manifests@,
                m,
                *config,
            ).contains(k) by {
                assert(keys.to_set().contains(k) <==> keys.contains(k));
                if log_swept(m, watermark, k) {
                    let (p, y) = choose|p: u64, y: LogObjectView|
                        #![trigger log_objects(m).contains(LogObjectView { position: p, key: k }), log_objects(m).contains(y)]
                        log_objects(m).contains(LogObjectView { position: p, key: k })
                            && log_objects(m).contains(y) && LogObject::less(
                            LogObjectView { position: p, key: k },
                            y,
                        ) && y.position <= watermark->0;
                    assert(under(k, LOG_PREFIX@));
                }
            }
        }
    }
    GcPlan { delete_keys: text_list(&out) }
}

/// What a retained manifest names does not go, and neither does garbage whose
/// lifetime is not over.
pub proof fn law_kept_blocks_stay(
    ms: Seq<BlockManifest>,
    listed: Map<Seq<char>, KeyClass>,
    cfg: GcConfig,
    i: int,
    e: Scoped,
)
    requires
        0 <= i < in_order(ms).len(),
        names(in_order(ms)[i], e),
        keeps(in_order(ms), cfg, i, e),
    ensures
        !garbage(ms, listed, cfg).contains(data_of(e)),
        !garbage(ms, listed, cfg).contains(meta_of(e)),
{
    let o = in_order(ms);
    assert(kept_for(o, cfg, i, e, data_of(e)));
    assert(kept_for(o, cfg, i, e, meta_of(e)));
    lemma_block_outside(e.graph, e.table, e.family, "data"@, e.trie_key);
    lemma_block_outside(e.graph, e.table, e.family, "meta"@, e.trie_key);
}

proof fn lemma_block_outside(
    graph: Seq<char>,
    table: Seq<char>,
    family: Seq<char>,
    part: Seq<char>,
    trie_key: Seq<char>,
)
    ensures
        !under(object_key_spec(graph, table, family, part, trie_key), PROBE_PREFIX@),
        !under(object_key_spec(graph, table, family, part, trie_key), LOG_PREFIX@),
{
    let key = object_key_spec(graph, table, family, part, trie_key);
    reveal_strlit("v1/graphs/");
    reveal_strlit("v1/log");
    reveal_strlit("v1/probe");
    assert(key[3] == 'g');
    assert(key.len() > 8);
    assert(PROBE_PREFIX@[3] == 'p');
    assert(LOG_PREFIX@[3] == 'l');
    if under(key, PROBE_PREFIX@) {
        assert(key.subrange(0, PROBE_PREFIX@.len() as int)[3] == key[3]);
    }
    if under(key, LOG_PREFIX@) {
        assert(key.subrange(0, LOG_PREFIX@.len() as int)[3] == key[3]);
    }
}

/// Where there is no manifest no object of the log goes, nor any manifest.
pub proof fn law_no_manifest_no_sweep(
    listed: Map<Seq<char>, KeyClass>,
    cfg: GcConfig,
    key: Seq<char>,
)
    requires
        listed.dom().contains(key),
        !under(key, PROBE_PREFIX@),
        under(key, LOG_PREFIX@) || listed[key].manifest_block is Some,
    ensures
        !garbage(Seq::empty(), listed, cfg).contains(key),
{
    let ms = Seq::<BlockManifest>::empty();
    assert(places(ms) =~= Set::<Place>::empty());
    crate::sorted::lemma_sorted_exists::<Place>(places(ms));
    let s = sorted_seq::<Place>(places(ms));
    assert(s.len() == 0) by {
        if s.len() > 0 {
            assert(s.to_set().contains(s[0]));
        }
    }
    assert(in_order(ms).len() == 0);
}

/// The object that holds the end of the log never goes.
pub proof fn law_last_log_object_stays(
    ms: Seq<BlockManifest>,
    listed: Map<Seq<char>, KeyClass>,
    cfg: GcConfig,
    last: LogObjectView,
)
    requires
        log_objects(listed).contains(last),
        forall|x: LogObjectView| #[trigger]
            log_objects(listed).contains(x) ==> !LogObject::less(last, x),
    ensures
        !garbage(ms, listed, cfg).contains(last.key),
{
    let key = last.key;
    if garbage(ms, listed, cfg).contains(key) {
        let o = in_order(ms);
        let w = least_watermark(o, cfg, o.len() as int);
        let (p, y) = choose|p: u64, y: LogObjectView|
            #![trigger log_objects(listed).contains(LogObjectView { position: p, key }), log_objects(listed).contains(y)]
            log_objects(listed).contains(LogObjectView { position: p, key }) && log_objects(
                listed,
            ).contains(y) && LogObject::less(LogObjectView { position: p, key }, y) && y.position
                <= w->0;
        assert(LogObjectView { position: p, key } == last);
    }
}

/// Nothing goes that is neither a block, a manifest, an object of the log nor
/// a probe.
pub proof fn law_foreign_objects_stay(
    ms: Seq<BlockManifest>,
    listed: Map<Seq<char>, KeyClass>,
    cfg: GcConfig,
    key: Seq<char>,
)
    requires
        listed.dom().contains(key),
        !under(key, PROBE_PREFIX@),
        !block_key(key),
        listed[key] == (KeyClass { manifest_block: None, log_position: None }),
    ensures
        !garbage(ms, listed, cfg).contains(key),
{
    assert forall|p: u64| !log_objects(listed).contains(LogObjectView { position: p, key }) by {}
}

/// A collection that deletes what was planned, object by object.
pub struct GcRun {
    pub keys: Vec<String>,
    pub deleted: usize,
}

/// What a collection does next.
pub enum GcAction {
    Delete(String),
    Report(GcReport),
}

impl GcRun {
    pub open spec fn wf(&self) -> bool {
        self.deleted <= self.keys@.len()
    }

    /// The next object, or the report where all are gone.
    pub open spec fn is_next(&self, action: GcAction) -> bool {
        if self.deleted < self.keys@.len() {
            action matches GcAction::Delete(key) && key@ == self.keys@[self.deleted as int]@
        } else {
            action == GcAction::Report(
                GcReport {
                    planned_objects: self.keys@.len() as usize,
                    deleted_objects: self.deleted,
                },
            )
        }
    }

    fn next(&self) -> (r: GcAction)
        requires
            self.wf(),
        ensures
            self.is_next(r),
    {
        if self.deleted < self.keys.len() {
            GcAction::Delete(self.keys[self.deleted].clone())
        } else {
            GcAction::Report(
                GcReport { planned_objects: self.keys.len(), deleted_objects: self.deleted },
            )
        }
    }

    pub fn start(plan: GcPlan) -> (r: (GcRun, GcAction))
        ensures
            r.0.wf(),
            r.0.keys == plan.delete_keys,
            r.0.deleted == 0,
            r.0.is_next(r.1),
    {
        let run = GcRun { keys: plan.delete_keys, deleted: 0 };
        let action = run.next();
        (run, action)
    }

    /// Takes in how a deletion ended; a failure ends the collection.
    pub fn step(&mut self, outcome: Result<(), EngineError>) -> (r: Result<GcAction, EngineError>)
        requires
            old(self).wf(),
            old(self).deleted < old(self).keys@.len(),
        ensures
            final(self).wf(),
            final(self).keys == old(self).keys,
            match outcome {
                Err(e) => r == Err::<GcAction, EngineError>(e) && *final(self) == *old(self),
                Ok(()) => final(self).deleted == old(self).deleted + 1 && (r matches Ok(a)
                    && final(self).is_next(a)),
            },
    {
        match outcome {
            Err(e) => Err(e),
            Ok(()) => {
                let total: usize = self.keys.len();
                assert(self.deleted < total);
                self.deleted = self.deleted + 1;
                Ok(self.next())
            },
        }
    }
}

proof fn lemma_places(ms: Seq<BlockManifest>)
    requires
        ms.len() <= usize::MAX,
    ensures
        places(ms).finite(),
        sorted_seq::<Place>(places(ms)).to_set() == places(ms),
        crate::sorted::ascending::<Place>(sorted_seq::<Place>(places(ms))),
{
    let all = Seq::new(
        ms.len(),
        |i: int| Place { block_id: ms[i].block_id, index: i as usize },
    );
    vstd::seq_lib::seq_to_set_is_finite(all);
    assert forall|p: Place| #[trigger] places(ms).contains(p) <==> all.to_set().contains(p) by {
        if places(ms).contains(p) {
            assert(all[p.index as int] == p);
        }
    }
    assert(places(ms) =~= all.to_set());
    crate::sorted::lemma_sorted_exists::<Place>(places(ms));
}

/// The manifests in order are those given, by ascending number.
pub proof fn law_manifests_are_put_in_order(ms: Seq<BlockManifest>, i: int, a: int, b: int)
    requires
        ms.len() <= usize::MAX,
    ensures
        0 <= i < ms.len() ==> in_order(ms).contains(ms[i]),
        0 <= a < in_order(ms).len() ==> ms.contains(in_order(ms)[a]),
        0 <= a <= b < in_order(ms).len() ==> in_order(ms)[a].block_id <= in_order(ms)[b].block_id,
{
    lemma_places(ms);
    let s = sorted_seq::<Place>(places(ms));
    if 0 <= i < ms.len() {
        let p = Place { block_id: ms[i].block_id, index: i as usize };
        assert(places(ms).contains(p));
        assert(s.to_set().contains(p));
        let k = s.index_of(p);
        assert(in_order(ms)[k] == ms[i]);
    }
    if 0 <= a < in_order(ms).len() {
        assert(s.to_set().contains(s[a]));
        assert(places(ms).contains(s[a]));
        assert(ms[s[a].index as int] == in_order(ms)[a]);
        if a <= b < in_order(ms).len() {
            assert(s.to_set().contains(s[b]));
            assert(places(ms).contains(s[b]));
            if a < b {
                assert(Place::less(s[a], s[b]));
            }
        }
    }
}

/// The manifest is among the latest: no other is more than the blocks to keep
/// ahead of it.
pub open spec fn recent(ms: Seq<BlockManifest>, cfg: GcConfig, block: u64) -> bool {
    forall|k: int| 0 <= k < ms.len() ==> (#[trigger] ms[k]).block_id <= block + cfg.blocks_to_keep
}

proof fn lemma_recent_retained(ms: Seq<BlockManifest>, cfg: GcConfig, i: int) -> (x: int)
    requires
        ms.len() <= usize::MAX,
        0 <= i < ms.len(),
        recent(ms, cfg, ms[i].block_id),
    ensures
        0 <= x < in_order(ms).len(),
        in_order(ms)[x] == ms[i],
        retained(in_order(ms), cfg, x),
{
    let o = in_order(ms);
    law_manifests_are_put_in_order(ms, i, o.len() - 1, o.len() - 1);
    let x = o.index_of(ms[i]);
    assert(o[x] == ms[i]);
    law_manifests_are_put_in_order(ms, i, o.len() - 1, o.len() - 1);
    let k = ms.index_of(o.last());
    assert(ms[k] == o.last());
    x
}

/// Neither object of a block that a recent manifest names goes.
pub proof fn law_recent_blocks_stay(
    ms: Seq<BlockManifest>,
    listed: Map<Seq<char>, KeyClass>,
    cfg: GcConfig,
    i: int,
    t: int,
    j: int,
)
    requires
        ms.len() <= usize::MAX,
        0 <= i < ms.len(),
        0 <= t < ms[i].tables@.len(),
        0 <= j < ms[i].tables@[t].tries@.len(),
        recent(ms, cfg, ms[i].block_id),
    ensures
        ({
            let table = ms[i].tables@[t];
            let trie = table.tries@[j].trie_key@;
            &&& !garbage(ms, listed, cfg).contains(
                object_key_spec(table.graph@, table.table@, table.family@, "data"@, trie),
            )
            &&& !garbage(ms, listed, cfg).contains(
                object_key_spec(table.graph@, table.table@, table.family@, "meta"@, trie),
            )
        }),
{
    let x = lemma_recent_retained(ms, cfg, i);
    let e = scoped(ms[i].tables@[t], j);
    assert(place_ok(ms[i], t, j));
    assert(names(in_order(ms)[x], e));
    law_kept_blocks_stay(ms, listed, cfg, x, e);
}

/// A block that the manifests have stopped naming stays as long as its lifetime,
/// counted from the first manifest that does not name it, is not over.
pub proof fn law_garbage_has_its_lifetime(
    ms: Seq<BlockManifest>,
    listed: Map<Seq<char>, KeyClass>,
    cfg: GcConfig,
    i: int,
    e: Scoped,
)
    requires
        0 <= i,
        i + 1 < in_order(ms).len(),
        names(in_order(ms)[i], e),
        forall|j: int| i < j < in_order(ms).len() ==> !#[trigger] names(in_order(ms)[j], e),
        in_order(ms).last().max_system_time_us < i64::MAX,
        in_order(ms)[i + 1].max_system_time_us + cfg.garbage_lifetime_us > in_order(
            ms,
        ).last().max_system_time_us,
    ensures
        !garbage(ms, listed, cfg).contains(
            object_key_spec(e.graph, e.table, e.family, "data"@, e.trie_key),
        ),
        !garbage(ms, listed, cfg).contains(
            object_key_spec(e.graph, e.table, e.family, "meta"@, e.trie_key),
        ),
{
    assert(unexpired(in_order(ms), cfg, i, e));
    law_kept_blocks_stay(ms, listed, cfg, i, e);
}

/// An object of a block that no manifest names goes, and so does a probe.
pub proof fn law_unnamed_blocks_go(
    ms: Seq<BlockManifest>,
    listed: Map<Seq<char>, KeyClass>,
    cfg: GcConfig,
    key: Seq<char>,
)
    requires
        ms.len() <= usize::MAX,
        cfg.enabled,
        listed.dom().contains(key),
        under(key, PROBE_PREFIX@) || (!under(key, LOG_PREFIX@) && block_key(key)
            && listed[key].manifest_block is None && forall|i: int, t: int, j: int|
            #![trigger place_ok(ms[i], t, j)]
            0 <= i < ms.len() && place_ok(ms[i], t, j) ==> key != data_of(
                scoped(ms[i].tables@[t], j),
            ) && key != meta_of(scoped(ms[i].tables@[t], j))),
    ensures
        garbage(ms, listed, cfg).contains(key),
{
    if under(key, PROBE_PREFIX@) {
        reveal_strlit("v1/log");
        reveal_strlit("v1/probe");
        assert(PROBE_PREFIX@[3] == 'p');
        assert(LOG_PREFIX@[3] == 'l');
        assert(key[3] == 'p') by {
            if key != PROBE_PREFIX@ {
                assert(key.subrange(0, PROBE_PREFIX@.len() as int)[3] == key[3]);
            }
        }
        if under(key, LOG_PREFIX@) {
            if key != LOG_PREFIX@ {
                assert(key.subrange(0, LOG_PREFIX@.len() as int)[3] == key[3]);
            }
        }
    } else {
        let o = in_order(ms);
        if protected(o, cfg, key) {
            let (x, e) = choose|x: int, e: Scoped| #[trigger] kept_for(o, cfg, x, e, key);
            let (t, j) = choose|t: int, j: int| #[trigger]
                place_ok(o[x], t, j) && scoped(o[x].tables@[t], j) == e;
            law_manifests_are_put_in_order(ms, 0, x, x);
            let i = ms.index_of(o[x]);
            assert(place_ok(ms[i], t, j));
        }
    }
}

/// Where collection is off nothing goes; what goes is listed. A manifest goes
/// only where another is more than the blocks to keep ahead of it.
pub proof fn law_recent_manifests_stay(
    ms: Seq<BlockManifest>,
    listed: Map<Seq<char>, KeyClass>,
    cfg: GcConfig,
    key: Seq<char>,
)
    requires
        ms.len() <= usize::MAX,
        garbage(ms, listed, cfg).contains(key),
    ensures
        cfg.enabled,
        listed.dom().contains(key),
        !under(key, PROBE_PREFIX@) && !under(key, LOG_PREFIX@) ==> (listed[key].manifest_block
            matches Some(b) ==> !recent(ms, cfg, b)),
{
    let o = in_order(ms);
    if !under(key, PROBE_PREFIX@) && !under(key, LOG_PREFIX@) {
        if let Some(b) = listed[key].manifest_block {
            law_manifests_are_put_in_order(ms, 0, o.len() - 1, o.len() - 1);
            let k = ms.index_of(o.last());
            assert(ms[k] == o.last());
            assert(ms[k].block_id > b + cfg.blocks_to_keep);
        }
    }
}

proof fn lemma_least_watermark(o: Seq<BlockManifest>, cfg: GcConfig, n: int, x: int)
    requires
        0 <= x < n <= o.len(),
        retained(o, cfg, x),
    ensures
        least_watermark(o, cfg, n) matches Some(w) && w <= o[x].watermark,
    decreases n,
{
    if x < n - 1 {
        lemma_least_watermark(o, cfg, n - 1, x);
    }
}

/// An object of the log goes only where another begins no earlier than it and no
/// later than the watermark of each recent manifest: what a node that starts from
/// one of these has to read is still there.
pub proof fn law_needed_log_stays(
    ms: Seq<BlockManifest>,
    listed: Map<Seq<char>, KeyClass>,
    cfg: GcConfig,
    key: Seq<char>,
    i: int,
) -> (next: Seq<char>)
    requires
        ms.len() <= usize::MAX,
        garbage(ms, listed, cfg).contains(key),
        under(key, LOG_PREFIX@),
        0 <= i < ms.len(),
        recent(ms, cfg, ms[i].block_id),
    ensures
        next != key,
        listed.dom().contains(next),
        under(next, LOG_PREFIX@),
        listed[key].log_position is Some,
        listed[next].log_position is Some,
        listed[key].log_position->0 <= listed[next].log_position->0 <= ms[i].watermark,
{
    let o = in_order(ms);
    let x = lemma_recent_retained(ms, cfg, i);
    lemma_least_watermark(o, cfg, o.len() as int, x);
    let w = least_watermark(o, cfg, o.len() as int);
    let (p, y) = choose|p: u64, y: LogObjectView|
        #![trigger log_objects(listed).contains(LogObjectView { position: p, key }), log_objects(listed).contains(y)]
        log_objects(listed).contains(LogObjectView { position: p, key }) && log_objects(
            listed,
        ).contains(y) && LogObject::less(LogObjectView { position: p, key }, y) && y.position
            <= w->0;
    LogObject::order_laws(LogObjectView { position: p, key }, y);
    if y.key == key {
        assert(y == LogObjectView { position: p, key });
    }
    y.key
}

} // verus!
