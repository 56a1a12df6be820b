//! Which blocks are to be merged.

use super::{
    CompactionConfig, CompactionJob, CompactionOutputPlan, JobView, PlanView,
};
use crate::sorted::{
    ascending, distinct_keys, lemma_listed_same, lemma_set_items, lemma_set_items_sorted,
    lemma_sorted_domain, lemma_sorted_exists, listed, lists, sorted_seq, OrderedKey, SortedMap,
    SortedSet,
};
use crate::text::{lemma_views_push, views};
use crate::trie::{
    Recency, ScopeView, TableScope, TrieKey, TrieKeyView, TRIE_BRANCH_FACTOR,
};
use crate::types::clone_bytes;
use vstd::prelude::*;

verus! {

/// The blocks there are, with the size of each.
pub type Catalog = SortedMap<(TableScope, TrieKey), u64>;

/// The blocks that may be merged with each other: new ones of an inventory, or
/// large ones of the same level, recency and part.
#[derive(Debug)]
pub struct Shard {
    pub scope: TableScope,
    pub level: u64,
    pub recency: Recency,
    pub part: Vec<u8>,
}

#[verifier::ext_equal]
pub struct ShardView {
    pub scope: ScopeView,
    pub level: u64,
    pub recency: Recency,
    pub part: Seq<u8>,
}

impl ShardView {
    pub open spec fn parts(self) -> (ScopeView, (u64, (Recency, Seq<u8>))) {
        (self.scope, (self.level, (self.recency, self.part)))
    }
}

impl View for Shard {
    type V = ShardView;

    open spec fn view(&self) -> ShardView {
        ShardView {
            scope: self.scope@,
            level: self.level,
            recency: self.recency,
            part: self.part@,
        }
    }
}

impl OrderedKey for Shard {
    type Model = ShardView;

    open spec fn model(&self) -> ShardView {
        self@
    }

    open spec fn less(a: ShardView, b: ShardView) -> bool {
        <(TableScope, (u64, (Recency, Vec<u8>)))>::less(a.parts(), b.parts())
    }

    proof fn order_laws(a: ShardView, b: ShardView) {
        <(TableScope, (u64, (Recency, Vec<u8>)))>::order_laws(a.parts(), b.parts());
    }

    proof fn transitive(a: ShardView, b: ShardView, c: ShardView) {
        <(TableScope, (u64, (Recency, Vec<u8>)))>::transitive(a.parts(), b.parts(), c.parts());
    }

    fn before(&self, other: &Self) -> (r: bool) {
        proof {
            TableScope::order_laws(self.scope@, other.scope@);
            assert(self.part.model() =~= self.part@);
            assert(other.part.model() =~= other.part@);
        }
        if self.scope.before(&other.scope) {
            true
        } else if other.scope.before(&self.scope) {
            false
        } else if self.level != other.level {
            self.level < other.level
        } else if self.recency != other.recency {
            self.recency.before(&other.recency)
        } else {
            self.part.before(&other.part)
        }
    }
}

/// The blocks that a block may be merged with, if it is to be merged at all.
pub open spec fn shard_of(
    cfg: CompactionConfig,
    scope: ScopeView,
    key: TrieKeyView,
    size: u64,
) -> Option<ShardView> {
    if key.level == 0 {
        Some(ShardView { scope, level: 0, recency: Recency::Current, part: Seq::empty() })
    } else if size >= cfg.file_size_target {
        Some(ShardView { scope, level: key.level, recency: key.recency, part: key.part })
    } else {
        None
    }
}

fn find_shard(cfg: &CompactionConfig, scope: &TableScope, key: &TrieKey, size: u64) -> (r: Option<
    Shard,
>)
    ensures
        match r {
            Some(s) => shard_of(*cfg, scope@, key@, size) == Some(s@),
            None => shard_of(*cfg, scope@, key@, size) is None,
        },
{
    if key.level == 0 {
        let part: Vec<u8> = Vec::new();
        assert(part@ =~= Seq::<u8>::empty());
        Some(Shard { scope: scope.clone_scope(), level: 0, recency: Recency::Current, part })
    } else if size >= cfg.file_size_target {
        Some(
            Shard {
                scope: scope.clone_scope(),
                level: key.level,
                recency: key.recency,
                part: clone_bytes(&key.part),
            },
        )
    } else {
        None
    }
}

/// The blocks of a shard, each with its number.
pub open spec fn members(
    cat: Map<(ScopeView, TrieKeyView), u64>,
    cfg: CompactionConfig,
    shard: ShardView,
) -> Set<(u64, TrieKeyView)> {
    Set::new(
        |m: (u64, TrieKeyView)|
            m.0 == m.1.block && cat.dom().contains((shard.scope, m.1)) && shard_of(
                cfg,
                shard.scope,
                m.1,
                cat[(shard.scope, m.1)],
            ) == Some(shard),
    )
}

/// How many blocks of a shard there must be.
pub open spec fn needed(cfg: CompactionConfig, shard: ShardView) -> int {
    if shard.level > 0 {
        TRIE_BRANCH_FACTOR as int
    } else if cfg.full {
        1
    } else {
        cfg.log_limit as int
    }
}

/// How many blocks of a shard are merged at most.
pub open spec fn taken(cfg: CompactionConfig, shard: ShardView) -> int {
    if shard.level > 0 {
        TRIE_BRANCH_FACTOR as int
    } else {
        cfg.log_limit as int
    }
}

/// The oldest blocks of a shard, as many as are merged.
pub open spec fn inputs_of(
    cat: Map<(ScopeView, TrieKeyView), u64>,
    cfg: CompactionConfig,
    shard: ShardView,
) -> Seq<TrieKeyView> {
    let all = sorted_seq::<(u64, TrieKey)>(members(cat, cfg, shard));
    let n = if all.len() <= taken(cfg, shard) {
        all.len() as int
    } else {
        taken(cfg, shard)
    };
    Seq::new(n as nat, |i: int| all[i].1)
}

/// The number of the newest block that is merged.
pub open spec fn newest(inputs: Seq<TrieKeyView>) -> u64 {
    if inputs.len() == 0 {
        0
    } else {
        inputs.last().block
    }
}

/// A block of a smaller part.
pub open spec fn child(shard: ShardView, bucket: int, block: u64) -> TrieKeyView {
    TrieKeyView {
        level: (shard.level + 1) as u64,
        recency: shard.recency,
        part: shard.part.push(bucket as u8),
        block,
    }
}

/// The compaction of a shard.
pub open spec fn job_of(
    cat: Map<(ScopeView, TrieKeyView), u64>,
    cfg: CompactionConfig,
    shard: ShardView,
) -> JobView {
    let inputs = inputs_of(cat, cfg, shard);
    let block = newest(inputs);
    JobView {
        scope: shard.scope,
        inputs,
        plan: if shard.level == 0 {
            PlanView::L0RecencySplit { level: 1, part: Seq::empty(), block }
        } else {
            PlanView::Exact(
                Seq::new(TRIE_BRANCH_FACTOR as nat, |b: int| child(shard, b, block)),
            )
        },
    }
}

/// A shard that is to be compacted.
pub open spec fn is_due(
    cat: Map<(ScopeView, TrieKeyView), u64>,
    cfg: CompactionConfig,
    shard: ShardView,
) -> bool {
    members(cat, cfg, shard).len() > 0 && members(cat, cfg, shard).len() >= needed(cfg, shard)
}

/// The compactions that are due.
pub open spec fn due_jobs(
    cat: Map<(ScopeView, TrieKeyView), u64>,
    cfg: CompactionConfig,
) -> Set<JobView> {
    Set::new(|j: JobView| exists|s: ShardView| #[trigger] is_due(cat, cfg, s) && j == job_of(cat, cfg, s))
}

/// The groups hold the blocks of each shard among the first `n`.
spec fn grouped(
    groups: Map<ShardView, SortedSet<(u64, TrieKey)>>,
    keys: Seq<(ScopeView, TrieKeyView)>,
    cat: Map<(ScopeView, TrieKeyView), u64>,
    cfg: CompactionConfig,
    n: int,
) -> bool {
    &&& forall|s: ShardView| #[trigger]
        groups.dom().contains(s) ==> groups[s].wf() && groups[s]@.len() > 0
    &&& forall|s: ShardView, m: (u64, TrieKeyView)|
        #![trigger members(cat, cfg, s).contains(m)]
        (groups.dom().contains(s) && groups[s]@.contains(m)) <==> (members(cat, cfg, s).contains(m)
            && keys.subrange(0, n).contains((s.scope, m.1)))
    &&& forall|s: ShardView, m: (u64, TrieKeyView)|
        #![trigger groups[s]@.contains(m)]
        (groups.dom().contains(s) && groups[s]@.contains(m)) ==> members(cat, cfg, s).contains(m)
}

fn group_shards(cat: &Catalog, cfg: &CompactionConfig) -> (r: SortedMap<
    Shard,
    SortedSet<(u64, TrieKey)>,
>)
    requires
        cat.wf(),
    ensures
        r.wf(),
        forall|s: ShardView| #[trigger]
            r@.dom().contains(s) <==> members(cat@, *cfg, s).len() > 0,
        forall|s: ShardView| #[trigger]
            r@.dom().contains(s) ==> r@[s].wf() && r@[s]@ == members(cat@, *cfg, s),
{
    let n = cat.len();
    let ghost keys = cat.keys();
    let ghost m = cat@;
    let mut groups: SortedMap<Shard, SortedSet<(u64, TrieKey)>> = SortedMap::new();
    let mut i: usize = 0;
    proof {
        lemma_sorted_domain(*cat);
        assert(keys.subrange(0, 0) =~= Seq::<(ScopeView, TrieKeyView)>::empty());
    }
    while i < n
        invariant
            i <= n,
            n == keys.len(),
            keys == cat.keys(),
            m == cat@,
            m.dom() == keys.to_set(),
            forall|k: int|
                0 <= k < keys.len() ==> m.dom().contains(#[trigger] keys[k]) && m[keys[k]]
                    == cat.values()[k],
            groups.wf(),
            grouped(groups@, keys, m, *cfg, i as int),
        decreases n - i,
    {
        let (scope, key) = cat.key_at(i);
        let size: u64 = *cat.value_at(i);
        let ghost before = groups@;
        let ghost id = (scope@, key@);
        let ghost a = keys.subrange(0, i as int);
        let ghost b = keys.subrange(0, i + 1);
        proof {
            assert(m.dom().contains(keys[i as int]));
            assert(keys[i as int] == id);
            assert(b =~= a.push(id));
            assert forall|x: (ScopeView, TrieKeyView)| #[trigger] b.contains(x) <==> a.contains(x)
                || x == id by {
                if a.contains(x) {
                    let k = a.index_of(x);
                    assert(b[k] == x);
                }
                assert(b[i as int] == id);
                if b.contains(x) {
                    let k = b.index_of(x);
                    if k < i {
                        assert(a[k] == x);
                    }
                }
            }
        }
        match find_shard(cfg, scope, key, size) {
            Some(shard) => {
                let ghost sh = shard@;
                let mut set = match groups.remove(&shard) {
                    Some(set) => set,
                    None => SortedSet::new(),
                };
                let ghost set0 = set@;
                let ghost member = (key.block, key@);
                proof {
                    if before.dom().contains(sh) {
                        assert(set0 == before[sh]@);
                        assert(set.wf());
                    }
                    assert(sh.scope == scope@);
                }
                set.insert((key.block, key.clone_key()));
                assert(set@ =~= set0.insert(member));
                proof {
                    lemma_set_items(set);
                    assert(set@.contains(member));
                    assert(set@.len() > 0) by {
                        if set@.len() == 0 {
                            assert(set@ =~= Set::<(u64, TrieKeyView)>::empty());
                        }
                    }
                }
                let ghost set1 = set;
                groups.insert(shard, set);
                proof {
                    assert(groups@ =~= before.insert(sh, set1));
                    assert forall|s: ShardView, x: (u64, TrieKeyView)|
                        #![trigger members(m, *cfg, s).contains(x)]
                        (groups@.dom().contains(s) && groups@[s]@.contains(x)) <==> (members(
                            m,
                            *cfg,
                            s,
                        ).contains(x) && b.contains((s.scope, x.1))) by {
                        let was = before.dom().contains(s) && before[s]@.contains(x);
                        assert(was <==> members(m, *cfg, s).contains(x) && a.contains(
                            (s.scope, x.1),
                        ));
                        if s == sh {
                            assert((groups@.dom().contains(s) && groups@[s]@.contains(x)) <==> (was
                                || x == member));
                            if x == member {
                                assert(members(m, *cfg, s).contains(x));
                                assert(b.contains((s.scope, x.1)));
                            }
                        }
                        if (s.scope, x.1) == id && members(m, *cfg, s).contains(x) {
                            assert(s == sh);
                            assert(x == member);
                        }
                    }
                    assert forall|s: ShardView, x: (u64, TrieKeyView)|
                        #![trigger groups@[s]@.contains(x)]
                        (groups@.dom().contains(s) && groups@[s]@.contains(x)) implies members(
                        m,
                        *cfg,
                        s,
                    ).contains(x) by {
                        if s == sh {
                            if x == member {
                                assert(members(m, *cfg, s).contains(x));
                            } else {
                                assert(before[s]@.contains(x));
                            }
                        } else {
                            assert(before.dom().contains(s) && before[s]@.contains(x));
                        }
                    }
                }
            },
            None => {
                proof {
                    assert forall|s: ShardView, x: (u64, TrieKeyView)|
                        #![trigger members(m, *cfg, s).contains(x)]
                        (groups@.dom().contains(s) && groups@[s]@.contains(x)) <==> (members(
                            m,
                            *cfg,
                            s,
                        ).contains(x) && b.contains((s.scope, x.1))) by {
                        if (s.scope, x.1) == id && members(m, *cfg, s).contains(x) {
                            assert(shard_of(*cfg, s.scope, x.1, m[id]) == Some(s));
                        }
                    }
                }
            },
        }
        i += 1;
    }
    proof {
        assert(keys.subrange(0, n as int) =~= keys);
        assert forall|s: ShardView| #[trigger] groups@.dom().contains(s) implies groups@[s].wf()
            && groups@[s]@ == members(m, *cfg, s) by {
            assert forall|x: (u64, TrieKeyView)| groups@[s]@.contains(x) <==> members(
                m,
                *cfg,
                s,
            ).contains(x) by {
                if members(m, *cfg, s).contains(x) {
                    assert(m.dom().contains((s.scope, x.1)));
                    assert(keys.to_set().contains((s.scope, x.1)));
                    assert(keys.contains((s.scope, x.1)));
                }
            }
            assert(groups@[s]@ =~= members(m, *cfg, s));
        }
        assert forall|s: ShardView| #[trigger] groups@.dom().contains(s) <==> members(
            m,
            *cfg,
            s,
        ).len() > 0 by {
            if members(m, *cfg, s).len() > 0 && !groups@.dom().contains(s) {
                lemma_members_finite(m, *cfg, s);
                let x = members(m, *cfg, s).choose();
                assert(members(m, *cfg, s).contains(x));
                assert(m.dom().contains((s.scope, x.1)));
                assert(keys.to_set().contains((s.scope, x.1)));
                assert(keys.contains((s.scope, x.1)));
            }
        }
    }
    groups
}

/// A shard of finitely many blocks has finitely many.
proof fn lemma_members_finite(
    cat: Map<(ScopeView, TrieKeyView), u64>,
    cfg: CompactionConfig,
    shard: ShardView,
)
    requires
        cat.dom().finite(),
    ensures
        members(cat, cfg, shard).finite(),
{
    let f = |k: (ScopeView, TrieKeyView)| (k.1.block, k.1);
    cat.dom().lemma_map_finite(f);
    let image = cat.dom().map(f);
    assert(members(cat, cfg, shard).subset_of(image)) by {
        assert forall|x: (u64, TrieKeyView)| members(cat, cfg, shard).contains(
            x,
        ) implies image.contains(x) by {
            assert(cat.dom().contains((shard.scope, x.1)) && f((shard.scope, x.1)) == x);
        }
    }
    vstd::set_lib::lemma_set_subset_finite(image, members(cat, cfg, shard));
}

fn child_keys(shard: &Shard, block: u64) -> (r: Vec<TrieKey>)
    requires
        shard.level < u64::MAX,
    ensures
        views(r@) == Seq::new(TRIE_BRANCH_FACTOR as nat, |b: int| child(shard@, b, block)),
{
    let mut r: Vec<TrieKey> = Vec::new();
    let mut b: u8 = 0;
    while b < TRIE_BRANCH_FACTOR
        invariant
            b <= TRIE_BRANCH_FACTOR,
            shard.level < u64::MAX,
            views(r@) == Seq::new(b as nat, |b: int| child(shard@, b, block)),
        decreases TRIE_BRANCH_FACTOR - b,
    {
        let mut part = clone_bytes(&shard.part);
        part.push(b);
        let key = TrieKey { level: shard.level + 1, recency: shard.recency, part, block };
        proof {
            assert(key@ =~= child(shard@, b as int, block));
            lemma_views_push(r@, key);
        }
        r.push(key);
        b = b + 1;
        assert(views(r@) =~= Seq::new(b as nat, |b: int| child(shard@, b, block)));
    }
    r
}

fn make_job(
    shard: &Shard,
    set: &SortedSet<(u64, TrieKey)>,
    cfg: &CompactionConfig,
    Ghost(cat): Ghost<Map<(ScopeView, TrieKeyView), u64>>,
) -> (r: CompactionJob)
    requires
        set.wf(),
        set@ == members(cat, *cfg, shard@),
        shard.level < u64::MAX,
    ensures
        r@ == job_of(cat, *cfg, shard@),
{
    let n = set.len();
    let most: usize = if shard.level > 0 {
        TRIE_BRANCH_FACTOR as usize
    } else {
        cfg.log_limit
    };
    let count: usize = if n <= most {
        n
    } else {
        most
    };
    let ghost all = set.items();
    let mut inputs: Vec<TrieKey> = Vec::new();
    let mut block: u64 = 0;
    let mut i: usize = 0;
    proof {
        lemma_set_items(*set);
        lemma_set_items_sorted(*set);
    }
    while i < count
        invariant
            i <= count <= n,
            n == all.len(),
            all == set.items(),
            all.to_set() == members(cat, *cfg, shard@),
            views(inputs@) == Seq::new(i as nat, |k: int| all[k].1),
            block == newest(views(inputs@)),
        decreases count - i,
    {
        let (_, key) = set.item_at(i);
        let copy = key.clone_key();
        proof {
            lemma_views_push(inputs@, copy);
            assert(all.to_set().contains(all[i as int]));
        }
        block = key.block;
        inputs.push(copy);
        assert(views(inputs@) =~= Seq::new((i + 1) as nat, |k: int| all[k].1));
        assert(views(inputs@).last() == copy@);
        i += 1;
    }
    assert(views(inputs@) =~= inputs_of(cat, *cfg, shard@));
    let output_plan = if shard.level == 0 {
        let part: Vec<u8> = Vec::new();
        assert(part@ =~= Seq::<u8>::empty());
        CompactionOutputPlan::L0RecencySplit { level: 1, part, block }
    } else {
        CompactionOutputPlan::Exact(child_keys(shard, block))
    };
    CompactionJob { scope: shard.scope.clone_scope(), input_trie_keys: inputs, output_plan }
}

/// The compactions that are due, in order.
pub fn select_compaction_jobs(cat: &Catalog, cfg: &CompactionConfig) -> (r: Vec<CompactionJob>)
    requires
        cat.wf(),
        forall|k: (ScopeView, TrieKeyView)| #[trigger]
            cat@.dom().contains(k) ==> k.1.level < u64::MAX,
    ensures
        views(r@) == sorted_seq::<CompactionJob>(due_jobs(cat@, *cfg)),
{
    let groups = group_shards(cat, cfg);
    let n = groups.len();
    let ghost keys = groups.keys();
    let ghost m = cat@;
    let mut jobs: SortedSet<CompactionJob> = SortedSet::new();
    let mut i: usize = 0;
    proof {
        lemma_sorted_domain(groups);
        lemma_sorted_domain(*cat);
    }
    while i < n
        invariant
            i <= n,
            n == keys.len(),
            keys == groups.keys(),
            m == cat@,
            groups.wf(),
            forall|k: int|
                0 <= k < keys.len() ==> groups@.dom().contains(#[trigger] keys[k])
                    && groups@[keys[k]] == groups.values()[k],
            forall|s: ShardView| #[trigger]
                groups@.dom().contains(s) ==> groups@[s].wf() && groups@[s]@ == members(
                    m,
                    *cfg,
                    s,
                ),
            forall|s: ShardView| #[trigger]
                groups@.dom().contains(s) <==> members(m, *cfg, s).len() > 0,
            m.dom().finite(),
            forall|k: (ScopeView, TrieKeyView)| #[trigger]
                m.dom().contains(k) ==> k.1.level < u64::MAX,
            jobs.wf(),
            forall|j: JobView| #[trigger]
                jobs@.contains(j) <==> exists|k: int|
                    0 <= k < i && is_due(m, *cfg, #[trigger] keys[k]) && j == job_of(
                        m,
                        *cfg,
                        keys[k],
                    ),
        decreases n - i,
    {
        let shard = groups.key_at(i);
        let set = groups.value_at(i);
        let ghost before = jobs@;
        let ghost sh = keys[i as int];
        proof {
            assert(groups@.dom().contains(keys[i as int]));
            assert(shard@ == sh);
            lemma_members_finite(m, *cfg, sh);
            let x = members(m, *cfg, sh).choose();
            assert(members(m, *cfg, sh).contains(x));
            assert(m.dom().contains((sh.scope, x.1)));
        }
        let need: usize = if shard.level > 0 {
            TRIE_BRANCH_FACTOR as usize
        } else if cfg.full {
            1
        } else {
            cfg.log_limit
        };
        let due = set.len() >= need;
        assert(due == is_due(m, *cfg, sh));
        if due {
            let job = make_job(shard, set, cfg, Ghost(m));
            jobs.insert(job);
            assert(jobs@ =~= before.insert(job_of(m, *cfg, sh)));
        }
        proof {
            assert forall|j: JobView| #[trigger] jobs@.contains(j) <==> exists|k: int|
                0 <= k < i + 1 && is_due(m, *cfg, #[trigger] keys[k]) && j == job_of(
                    m,
                    *cfg,
                    keys[k],
                ) by {
                assert(jobs@.contains(j) <==> before.contains(j) || (due && j == job_of(
                    m,
                    *cfg,
                    sh,
                )));
                if before.contains(j) {
                    let k = choose|k: int|
                        0 <= k < i && is_due(m, *cfg, #[trigger] keys[k]) && j == job_of(
                            m,
                            *cfg,
                            keys[k],
                        );
                    assert(0 <= k < i + 1 && is_due(m, *cfg, keys[k]));
                }
                if due && j == job_of(m, *cfg, sh) {
                    assert(is_due(m, *cfg, keys[i as int]));
                }
                if exists|k: int|
                    0 <= k < i + 1 && is_due(m, *cfg, #[trigger] keys[k]) && j == job_of(
                        m,
                        *cfg,
                        keys[k],
                    ) {
                    let k = choose|k: int|
                        0 <= k < i + 1 && is_due(m, *cfg, #[trigger] keys[k]) && j == job_of(
                            m,
                            *cfg,
                            keys[k],
                        );
                    if k < i {
                        assert(0 <= k < i && is_due(m, *cfg, keys[k]));
                    }
                }
            }
        }
        i += 1;
    }
    proof {
        assert(jobs@ =~= due_jobs(m, *cfg)) by {
            assert forall|j: JobView| #[trigger] jobs@.contains(j) <==> due_jobs(
                m,
                *cfg,
            ).contains(j) by {
                if jobs@.contains(j) {
                    let k = choose|k: int|
                        0 <= k < n && is_due(m, *cfg, #[trigger] keys[k]) && j == job_of(
                            m,
                            *cfg,
                            keys[k],
                        );
                    assert(is_due(m, *cfg, keys[k]));
                }
                if due_jobs(m, *cfg).contains(j) {
                    let s = choose|s: ShardView| #[trigger]
                        is_due(m, *cfg, s) && j == job_of(m, *cfg, s);
                    assert(groups@.dom().contains(s));
                    assert(keys.to_set().contains(s));
                    let k = keys.index_of(s);
                    assert(keys[k] == s);
                }
            }
        }
        lemma_set_items_sorted(jobs);
    }
    let r = jobs.into_items();
    assert(views(r@) =~= crate::sorted::models(r@));
    r
}

/// No block goes into two compactions.
pub proof fn law_no_block_goes_in_twice(
    cat: Map<(ScopeView, TrieKeyView), u64>,
    cfg: CompactionConfig,
    a: JobView,
    b: JobView,
    key: TrieKeyView,
)
    requires
        cat.dom().finite(),
        due_jobs(cat, cfg).contains(a),
        due_jobs(cat, cfg).contains(b),
        a.scope == b.scope,
        a.inputs.contains(key),
        b.inputs.contains(key),
    ensures
        a == b,
{
    let s = choose|s: ShardView| #[trigger] is_due(cat, cfg, s) && a == job_of(cat, cfg, s);
    let t = choose|t: ShardView| #[trigger] is_due(cat, cfg, t) && b == job_of(cat, cfg, t);
    law_inputs_are_live(cat, cfg, s, a.inputs.index_of(key));
    law_inputs_are_live(cat, cfg, t, b.inputs.index_of(key));
    assert(s == t);
}

/// Finitely many blocks make finitely many compactions.
proof fn lemma_jobs_finite(cat: Map<(ScopeView, TrieKeyView), u64>, cfg: CompactionConfig)
    requires
        cat.dom().finite(),
    ensures
        due_jobs(cat, cfg).finite(),
{
    let f = |k: (ScopeView, TrieKeyView)|
        job_of(
            cat,
            cfg,
            match shard_of(cfg, k.0, k.1, cat[k]) {
                Some(s) => s,
                None => ShardView {
                    scope: k.0,
                    level: 0,
                    recency: Recency::Current,
                    part: Seq::empty(),
                },
            },
        );
    cat.dom().lemma_map_finite(f);
    let image = cat.dom().map(f);
    assert(due_jobs(cat, cfg).subset_of(image)) by {
        assert forall|j: JobView| due_jobs(cat, cfg).contains(j) implies image.contains(j) by {
            let s = choose|s: ShardView| #[trigger]
                is_due(cat, cfg, s) && j == job_of(cat, cfg, s);
            lemma_members_finite(cat, cfg, s);
            let m = members(cat, cfg, s).choose();
            assert(members(cat, cfg, s).contains(m));
            let k = (s.scope, m.1);
            assert(cat.dom().contains(k) && f(k) == j);
        }
    }
    vstd::set_lib::lemma_set_subset_finite(image, due_jobs(cat, cfg));
}

/// The compactions come in order, each once.
pub proof fn law_jobs_are_in_order(cat: Map<(ScopeView, TrieKeyView), u64>, cfg: CompactionConfig)
    requires
        cat.dom().finite(),
    ensures
        ascending::<CompactionJob>(sorted_seq::<CompactionJob>(due_jobs(cat, cfg))),
        sorted_seq::<CompactionJob>(due_jobs(cat, cfg)).to_set() == due_jobs(cat, cfg),
{
    lemma_jobs_finite(cat, cfg);
    lemma_sorted_exists::<CompactionJob>(due_jobs(cat, cfg));
}

/// The compactions do not depend on the order in which the blocks are listed.
pub proof fn law_listing_order_does_not_matter(
    a: Seq<((TableScope, TrieKey), u64)>,
    b: Seq<((TableScope, TrieKey), u64)>,
    cfg: CompactionConfig,
)
    requires
        distinct_keys(a),
        distinct_keys(b),
        forall|k: (ScopeView, TrieKeyView), size: u64| #[trigger]
            lists(a, k, size) <==> lists(b, k, size),
    ensures
        listed(a) == listed(b),
        due_jobs(listed(a), cfg) == due_jobs(listed(b), cfg),
{
    lemma_listed_same(a, b);
}

/// Only blocks that are there are merged, each with blocks of its own shard.
pub proof fn law_inputs_are_live(
    cat: Map<(ScopeView, TrieKeyView), u64>,
    cfg: CompactionConfig,
    shard: ShardView,
    i: int,
)
    requires
        cat.dom().finite(),
        0 <= i < inputs_of(cat, cfg, shard).len(),
    ensures
        cat.dom().contains((shard.scope, inputs_of(cat, cfg, shard)[i])),
        shard_of(
            cfg,
            shard.scope,
            inputs_of(cat, cfg, shard)[i],
            cat[(shard.scope, inputs_of(cat, cfg, shard)[i])],
        ) == Some(shard),
{
    lemma_members_finite(cat, cfg, shard);
    lemma_sorted_exists::<(u64, TrieKey)>(members(cat, cfg, shard));
    let all = sorted_seq::<(u64, TrieKey)>(members(cat, cfg, shard));
    assert(all.to_set().contains(all[i]));
}

/// The blocks go in from the oldest to the newest.
pub proof fn law_inputs_are_in_order(
    cat: Map<(ScopeView, TrieKeyView), u64>,
    cfg: CompactionConfig,
    shard: ShardView,
    i: int,
    j: int,
)
    requires
        cat.dom().finite(),
        0 <= i < j < inputs_of(cat, cfg, shard).len(),
    ensures
        inputs_of(cat, cfg, shard)[i].block <= inputs_of(cat, cfg, shard)[j].block,
{
    lemma_members_finite(cat, cfg, shard);
    lemma_sorted_exists::<(u64, TrieKey)>(members(cat, cfg, shard));
    let all = sorted_seq::<(u64, TrieKey)>(members(cat, cfg, shard));
    assert(all.to_set().contains(all[i]) && all.to_set().contains(all[j]));
    assert(<(u64, TrieKey)>::less(all[i], all[j]));
}

/// Blocks of one inventory may be merged with each other where all are new, or
/// where all are of one level, recency and part and have reached the size at
/// which a block is split.
pub proof fn law_shards_hold_what_may_be_merged(
    cat: Map<(ScopeView, TrieKeyView), u64>,
    cfg: CompactionConfig,
    shard: ShardView,
    key: TrieKeyView,
)
    ensures
        members(cat, cfg, shard).contains((key.block, key)) ==> cat.dom().contains(
            (shard.scope, key),
        ) && key.level == shard.level && (shard.level > 0 ==> key.recency == shard.recency
            && key.part == shard.part && cat[(shard.scope, key)] >= cfg.file_size_target),
        cat.dom().contains((shard.scope, key)) && key.level > 0 && key.level == shard.level
            && key.recency == shard.recency && key.part == shard.part && cat[(shard.scope, key)]
            >= cfg.file_size_target ==> members(cat, cfg, shard).contains((key.block, key)),
        cat.dom().contains((shard.scope, key)) && key.level == 0 && shard.level == 0
            && shard.recency is Current && shard.part.len() == 0 ==> members(
            cat,
            cfg,
            shard,
        ).contains((key.block, key)),
{
    if shard.part.len() == 0 {
        assert(shard.part =~= Seq::<u8>::empty());
    }
}

/// New blocks are merged once there are as many as the limit says, or any where
/// all is to be merged; split blocks once there are four.
pub proof fn law_enough_blocks_make_a_job(
    cat: Map<(ScopeView, TrieKeyView), u64>,
    cfg: CompactionConfig,
    shard: ShardView,
)
    ensures
        ({
            let n = members(cat, cfg, shard).len();
            &&& (shard.level > 0 ==> (is_due(cat, cfg, shard) <==> n >= 4))
            &&& (shard.level == 0 && cfg.full ==> (is_due(cat, cfg, shard) <==> n >= 1))
            &&& (shard.level == 0 && !cfg.full ==> (is_due(cat, cfg, shard) <==> n >= 1 && n
                >= cfg.log_limit))
            &&& (is_due(cat, cfg, shard) ==> due_jobs(cat, cfg).contains(job_of(cat, cfg, shard)))
        }),
{
}

/// A job takes the oldest blocks of its shard, no more than the limit, and
/// numbers what comes out after the newest of them. New blocks come out on the
/// first level, whole; others come out on the next level, in four parts that
/// cover what the shard covered, with its recency.
pub proof fn law_jobs_take_the_oldest(
    cat: Map<(ScopeView, TrieKeyView), u64>,
    cfg: CompactionConfig,
    shard: ShardView,
)
    requires
        cat.dom().finite(),
        is_due(cat, cfg, shard),
        shard.level < u64::MAX,
    ensures
        ({
            let j = job_of(cat, cfg, shard);
            let n = members(cat, cfg, shard).len();
            let most = if shard.level > 0 {
                4int
            } else {
                cfg.log_limit as int
            };
            &&& j.scope == shard.scope
            &&& j.inputs.len() == if n <= most {
                n as int
            } else {
                most
            }
            &&& forall|key: TrieKeyView, i: int|
                0 <= i < j.inputs.len() && #[trigger] members(cat, cfg, shard).contains(
                    (key.block, key),
                ) && !j.inputs.contains(key) ==> (#[trigger] j.inputs[i]).block <= key.block
            &&& (shard.level == 0 ==> (j.plan matches PlanView::L0RecencySplit {
                level,
                part,
                block,
            } && level == 1 && part.len() == 0 && (j.inputs.len() > 0 ==> block
                == j.inputs.last().block)))
            &&& (shard.level > 0 ==> (j.plan matches PlanView::Exact(keys) && keys.len() == 4
                && forall|b: int|
                0 <= b < 4 ==> (#[trigger] keys[b]).level == shard.level + 1 && keys[b].recency
                    == shard.recency && keys[b].part == shard.part.push(b as u8) && (
                j.inputs.len() > 0 ==> keys[b].block == j.inputs.last().block)))
        }),
{
    let set = members(cat, cfg, shard);
    let j = job_of(cat, cfg, shard);
    lemma_members_finite(cat, cfg, shard);
    lemma_sorted_exists::<(u64, TrieKey)>(set);
    let all = sorted_seq::<(u64, TrieKey)>(set);
    if all.len() > 0 {
        crate::sorted::lemma_ascending_index::<(u64, TrieKey)>(all, 0);
    }
    all.unique_seq_to_set();
    assert forall|key: TrieKeyView, i: int|
        0 <= i < j.inputs.len() && #[trigger] set.contains((key.block, key))
            && !j.inputs.contains(key) implies (#[trigger] j.inputs[i]).block <= key.block by {
        assert(all.to_set().contains((key.block, key)));
        let p = all.index_of((key.block, key));
        if p < j.inputs.len() {
            assert(j.inputs[p] == key);
        }
        assert(<(u64, TrieKey)>::less(all[i], all[p]));
        assert(all.to_set().contains(all[i]));
    }
}

} // verus!
