//! The edges within some hops of a node, found level by level. The edges at
//! each node are looked up one node at a time; where there are too many nodes
//! or edges the search is given up.

use crate::effects::sat;
use crate::error::EngineError;
use crate::event::Event;
use crate::scan::{budget_error, entry_list, traversal_budget_exhausted};
use crate::sorted::{lemma_set_items, sorted_seq, SortedMap, SortedSet};
use crate::types::Iid;
use crate::visible::AdjEntry;
use vstd::prelude::*;

verus! {

/// The edges at each node, as a lookup would give them.
pub type Edges = spec_fn(Iid) -> Seq<AdjEntry>;

/// Some edge leads from one node to another.
pub open spec fn leads(adj: Edges, from: Iid, to: Iid) -> bool {
    exists|k: int| 0 <= k < adj(from).len() && (#[trigger] adj(from)[k]).neighbor == to
}

/// The nodes one hop from some of these.
pub open spec fn one_hop(adj: Edges, from: Set<Iid>) -> Set<Iid> {
    Set::new(|n: Iid| exists|m: Iid| #[trigger] from.contains(m) && leads(adj, m, n))
}

/// The edges at some of these nodes.
pub open spec fn edges_of(adj: Edges, from: Set<Iid>) -> Set<AdjEntry> {
    Set::new(|e: AdjEntry| exists|m: Iid| #[trigger] from.contains(m) && adj(m).contains(e))
}

/// The nodes within `hops` hops.
pub open spec fn within(adj: Edges, anchor: Iid, hops: nat) -> Set<Iid>
    decreases hops,
{
    if hops == 0 {
        set![anchor]
    } else {
        let near = within(adj, anchor, (hops - 1) as nat);
        near.union(one_hop(adj, near))
    }
}

/// The nodes of all levels before this one.
pub open spec fn earlier(adj: Edges, anchor: Iid, level: nat) -> Set<Iid> {
    if level == 0 {
        Set::empty()
    } else {
        within(adj, anchor, (level - 1) as nat)
    }
}

/// A search from a node.
pub struct Reach {
    pub anchor: Iid,
    pub hops: usize,
    pub node_budget: usize,
    pub adjacency_budget: usize,
    /// The level whose nodes are being looked up.
    pub level: usize,
    pub frontier: Vec<Iid>,
    /// How many nodes of the frontier were dealt with.
    pub pos: usize,
    pub next_frontier: Vec<Iid>,
    pub next_seen: SortedSet<Iid>,
    pub expanded: SortedSet<Iid>,
    pub entries: SortedSet<AdjEntry>,
    /// How many edges the lookups gave.
    pub found: usize,
    /// The node whose edges are being looked up.
    pub awaiting: Option<Iid>,
}

/// What a search found: the edges, in order, and the nodes at their ends.
pub struct ReachableEdges {
    pub entries: Vec<AdjEntry>,
    pub nodes: SortedSet<Iid>,
}

impl Reach {
    pub open spec fn wf(&self) -> bool {
        &&& self.next_seen.wf()
        &&& self.expanded.wf()
        &&& self.entries.wf()
        &&& self.pos <= self.frontier@.len()
        &&& self.level <= self.hops
        &&& (self.level == self.hops ==> self.pos == 0)
        &&& self.frontier@.no_duplicates()
        &&& self.next_frontier@.no_duplicates()
        &&& self.next_frontier@.to_set() == self.next_seen@
        &&& (self.awaiting matches Some(n) ==> self.pos > 0 && self.frontier@[self.pos - 1] == n
            && self.level < self.hops)
    }

    /// The search is over.
    pub open spec fn done(&self) -> bool {
        self.awaiting is None && (self.level == self.hops || self.frontier@.len() == 0)
    }

    /// The nodes whose edges have been taken in.
    pub open spec fn taken_in(&self) -> Set<Iid> {
        match self.awaiting {
            Some(n) => self.expanded@.remove(n),
            None => self.expanded@,
        }
    }

    /// The nodes of this level that were dealt with.
    pub open spec fn dealt_with(&self) -> Set<Iid> {
        self.frontier@.subrange(0, self.pos as int).to_set()
    }

    /// What the search has found agrees with these edges.
    pub open spec fn follows(&self, adj: Edges) -> bool {
        let old = earlier(adj, self.anchor, self.level as nat);
        &&& self.expanded@ == old.union(self.dealt_with())
        &&& old.union(self.frontier@.to_set()) == within(adj, self.anchor, self.level as nat)
        &&& (self.awaiting matches Some(n) ==> !old.contains(n))
        &&& self.next_seen@ == one_hop(adj, self.taken_in().difference(old))
        &&& self.entries@ == edges_of(adj, self.taken_in())
    }

    /// A search over at most `hops` hops.
    pub fn start(anchor: Iid, hops: usize, node_budget: usize, adjacency_budget: usize) -> (r:
        Reach)
        ensures
            r.wf(),
            r.anchor == anchor,
            r.hops == hops,
            r.node_budget == node_budget,
            r.adjacency_budget == adjacency_budget,
            r.awaiting is None,
            r.found == 0,
            r.expanded@ == Set::<Iid>::empty(),
            forall|adj: Edges| #[trigger] r.follows(adj),
    {
        let mut frontier: Vec<Iid> = Vec::new();
        frontier.push(anchor);
        let r = Reach {
            anchor,
            hops,
            node_budget,
            adjacency_budget,
            level: 0,
            frontier,
            pos: 0,
            next_frontier: Vec::new(),
            next_seen: SortedSet::new(),
            expanded: SortedSet::new(),
            entries: SortedSet::new(),
            found: 0,
            awaiting: None,
        };
        proof {
            assert(r.frontier@ =~= seq![anchor]);
            assert(r.next_frontier@.to_set() =~= Set::<Iid>::empty());
            assert(r.frontier@.to_set() =~= set![anchor]) by {
                assert(r.frontier@[0] == anchor);
            }
            assert(r.dealt_with() =~= Set::<Iid>::empty());
            assert forall|adj: Edges| #[trigger] r.follows(adj) by {
                assert(r.expanded@ =~= Set::<Iid>::empty().union(r.dealt_with()));
                assert(Set::<Iid>::empty().union(r.frontier@.to_set()) =~= set![anchor]);
                assert(one_hop(adj, r.taken_in().difference(Set::empty())) =~= Set::empty());
                assert(edges_of(adj, r.taken_in()) =~= Set::empty());
            }
        }
        r
    }

    /// Goes on to the next level, with the nodes that this one leads to.
    fn advance(&mut self)
        requires
            old(self).wf(),
            old(self).awaiting is None,
            old(self).pos == old(self).frontier@.len(),
            old(self).level < old(self).hops,
        ensures
            final(self).wf(),
            final(self).awaiting is None,
            final(self).pos == 0,
            final(self).level == old(self).level + 1,
            final(self).anchor == old(self).anchor,
            final(self).hops == old(self).hops,
            final(self).node_budget == old(self).node_budget,
            final(self).adjacency_budget == old(self).adjacency_budget,
            final(self).expanded == old(self).expanded,
            final(self).entries == old(self).entries,
            final(self).found == old(self).found,
            forall|adj: Edges| #[trigger]
                final(self).follows(adj) || !old(self).follows(adj),
    {
        let ghost before = *self;
        let mut empty: Vec<Iid> = Vec::new();
        std::mem::swap(&mut empty, &mut self.next_frontier);
        self.frontier = empty;
        self.pos = 0;
        self.level = self.level + 1;
        self.next_seen = SortedSet::new();
        proof {
            assert(self.next_frontier@.to_set() =~= Set::<Iid>::empty());
            assert(self.dealt_with() =~= Set::<Iid>::empty());
            assert forall|adj: Edges| before.follows(adj) implies #[trigger] self.follows(adj) by {
                let anchor = self.anchor;
                let l = before.level as nat;
                let old0 = earlier(adj, anchor, l);
                let near = within(adj, anchor, l);
                assert(before.frontier@.subrange(0, before.pos as int) =~= before.frontier@);
                assert(before.expanded@ == near);
                assert(earlier(adj, anchor, l + 1) == near);
                assert(self.expanded@ =~= near.union(self.dealt_with()));
                let fresh = near.difference(old0);
                assert(before.next_seen@ == one_hop(adj, fresh));
                assert(near.union(self.frontier@.to_set()) =~= near.union(one_hop(adj, near))) by {
                    assert forall|n: Iid| #[trigger] near.union(one_hop(adj, near)).contains(
                        n,
                    ) implies near.contains(n) || self.frontier@.to_set().contains(n) by {
                        if !near.contains(n) {
                            let m = choose|m: Iid| #[trigger]
                                near.contains(m) && leads(adj, m, n);
                            if old0.contains(m) {
                                assert(l > 0);
                                assert(one_hop(adj, old0).contains(n));
                                assert(near == old0.union(one_hop(adj, old0)));
                            } else {
                                assert(fresh.contains(m));
                                assert(one_hop(adj, fresh).contains(n));
                            }
                        }
                    }
                    assert forall|n: Iid| #[trigger] self.frontier@.to_set().contains(
                        n,
                    ) implies one_hop(adj, near).contains(n) by {
                        assert(one_hop(adj, fresh).contains(n));
                        let m = choose|m: Iid| #[trigger]
                            fresh.contains(m) && leads(adj, m, n);
                        assert(near.contains(m));
                    }
                }
                assert(self.taken_in().difference(near) =~= Set::<Iid>::empty());
                assert(one_hop(adj, self.taken_in().difference(near)) =~= Set::<Iid>::empty());
            }
        }
    }

    /// The next node whose edges are to be looked up, or none where the search
    /// is over. More nodes than the budget are refused.
    pub fn next(&mut self) -> (r: Result<Option<Iid>, EngineError>)
        requires
            old(self).wf(),
            old(self).awaiting is None,
        ensures
            final(self).wf(),
            final(self).anchor == old(self).anchor,
            final(self).hops == old(self).hops,
            final(self).node_budget == old(self).node_budget,
            final(self).adjacency_budget == old(self).adjacency_budget,
            final(self).entries == old(self).entries,
            final(self).found == old(self).found,
            forall|adj: Edges| #[trigger]
                final(self).follows(adj) || !old(self).follows(adj),
            match r {
                Ok(Some(n)) => {
                    &&& final(self).awaiting == Some(n)
                    &&& !old(self).expanded@.contains(n)
                    &&& final(self).expanded@ == old(self).expanded@.insert(n)
                    &&& final(self).expanded@.len() <= final(self).node_budget
                },
                Ok(None) => final(self).done() && final(self).expanded == old(self).expanded,
                Err(e) => {
                    &&& e@ == budget_error("node"@, old(self).node_budget)
                    &&& final(self).expanded@.len() > final(self).node_budget
                    &&& final(self).expanded@.len() == old(self).expanded@.len() + 1
                },
            },
    {
        let ghost start = *self;
        loop
            invariant
                self.wf(),
                self.awaiting is None,
                self.anchor == start.anchor,
                self.hops == start.hops,
                self.node_budget == start.node_budget,
                self.adjacency_budget == start.adjacency_budget,
                self.entries == start.entries,
                self.expanded@ == start.expanded@,
                self.expanded == start.expanded,
                self.found == start.found,
                start == *old(self),
                forall|adj: Edges| #[trigger] self.follows(adj) || !start.follows(adj),
            decreases self.hops - self.level, self.frontier@.len() - self.pos,
        {
            if self.level >= self.hops || self.frontier.len() == 0 {
                return Ok(None);
            }
            if self.pos >= self.frontier.len() {
                self.advance();
            } else {
                let ghost before = *self;
                let n = self.frontier[self.pos];
                let fresh = !self.expanded.contains(&n);
                self.pos = self.pos + 1;
                proof {
                    let p = before.pos as int;
                    let f = self.frontier@;
                    assert(f.subrange(0, p + 1) =~= f.subrange(0, p).push(n));
                    assert(self.dealt_with() =~= before.dealt_with().insert(n)) by {
                        let a = f.subrange(0, p);
                        assert forall|x: Iid| #[trigger] a.push(n).to_set().contains(x)
                            <==> a.to_set().insert(n).contains(x) by {
                            if a.contains(x) {
                                let k = a.index_of(x);
                                assert(a.push(n)[k] == x);
                            }
                            assert(a.push(n)[a.len() as int] == n);
                            if a.push(n).contains(x) {
                                let k = a.push(n).index_of(x);
                                if k < a.len() {
                                    assert(a[k] == x);
                                }
                            }
                        }
                    }
                }
                if fresh {
                    self.expanded.insert(n);
                    self.awaiting = Some(n);
                    proof {
                        let e = self.expanded;
                        lemma_set_items(e);
                        lemma_set_items(before.expanded);
                        assert(self.taken_in() =~= before.taken_in());
                        assert forall|adj: Edges| before.follows(adj) implies #[trigger]
                            self.follows(adj) by {
                            let old0 = earlier(adj, self.anchor, self.level as nat);
                            assert(self.expanded@ =~= old0.union(self.dealt_with()));
                        }
                    }
                    if self.expanded.len() > self.node_budget {
                        return Err(traversal_budget_exhausted("node", self.node_budget));
                    }
                    return Ok(Some(n));
                } else {
                    proof {
                        assert forall|adj: Edges| before.follows(adj) implies #[trigger]
                            self.follows(adj) by {
                            let old0 = earlier(adj, self.anchor, self.level as nat);
                            assert(self.expanded@ =~= old0.union(self.dealt_with()));
                        }
                    }
                }
            }
        }
    }

    /// Takes in the edges at the node that was looked up. More edges than the
    /// budget are refused.
    pub fn take_in(&mut self, entries: &Vec<AdjEntry>) -> (r: Result<(), EngineError>)
        requires
            old(self).wf(),
            old(self).awaiting is Some,
        ensures
            final(self).wf(),
            match r {
                Err(e) => {
                    &&& sat(old(self).found + entries@.len()) > old(self).adjacency_budget
                    &&& e@ == budget_error("adjacency"@, old(self).adjacency_budget)
                    &&& *final(self) == *old(self)
                },
                Ok(()) => {
                    &&& sat(old(self).found + entries@.len()) <= old(self).adjacency_budget
                    &&& final(self).awaiting is None
                    &&& final(self).found == sat(old(self).found + entries@.len())
                    &&& final(self).anchor == old(self).anchor
                    &&& final(self).hops == old(self).hops
                    &&& final(self).node_budget == old(self).node_budget
                    &&& final(self).adjacency_budget == old(self).adjacency_budget
                    &&& final(self).expanded == old(self).expanded
                    &&& final(self).entries@ == old(self).entries@.union(entries@.to_set())
                    &&& forall|adj: Edges| #[trigger]
                        final(self).follows(adj) || !(old(self).follows(adj) && adj(
                            old(self).awaiting->0,
                        ) == entries@)
                },
            },
    {
        let ghost before = *self;
        let total = self.found.saturating_add(entries.len());
        if total > self.adjacency_budget {
            return Err(traversal_budget_exhausted("adjacency", self.adjacency_budget));
        }
        let ghost seen0 = self.next_seen@;
        let mut i: usize = 0;
        proof {
            assert(entries@.subrange(0, 0).to_set() =~= Set::<AdjEntry>::empty());
            assert(self.entries@ =~= before.entries@.union(entries@.subrange(0, 0).to_set()));
        }
        while i < entries.len()
            invariant
                i <= entries.len(),
                self.wf(),
                self.anchor == before.anchor,
                self.hops == before.hops,
                self.node_budget == before.node_budget,
                self.adjacency_budget == before.adjacency_budget,
                self.level == before.level,
                self.frontier == before.frontier,
                self.pos == before.pos,
                self.expanded == before.expanded,
                self.found == before.found,
                self.awaiting == before.awaiting,
                self.entries@ == before.entries@.union(entries@.subrange(0, i as int).to_set()),
                forall|n: Iid| #[trigger]
                    self.next_seen@.contains(n) <==> seen0.contains(n) || exists|k: int|
                        0 <= k < i && (#[trigger] entries@[k]).neighbor == n,
            decreases entries.len() - i,
        {
            let entry = entries[i];
            let ghost seen1 = self.next_seen@;
            let ghost next1 = self.next_frontier@;
            let ghost found1 = self.entries@;
            if self.next_seen.insert(entry.neighbor) {
                self.next_frontier.push(entry.neighbor);
                proof {
                    let x = entry.neighbor;
                    let next2 = self.next_frontier@;
                    assert(next2 == next1.push(x));
                    if next1.contains(x) {
                        assert(next1.to_set().contains(x));
                    }
                    assert(next2.no_duplicates()) by {
                        assert forall|a: int, b: int|
                            0 <= a < next2.len() && 0 <= b < next2.len() && a != b implies next2[a]
                            != next2[b] by {
                            if a < next1.len() {
                                assert(next1.contains(next1[a]));
                            }
                            if b < next1.len() {
                                assert(next1.contains(next1[b]));
                            }
                        }
                    }
                    assert(next2.to_set() =~= next1.to_set().insert(x)) by {
                        assert forall|y: Iid| #[trigger] next2.to_set().contains(y)
                            <==> next1.to_set().insert(x).contains(y) by {
                            if next1.contains(y) {
                                let k = next1.index_of(y);
                                assert(next2[k] == y);
                            }
                            assert(next2[next1.len() as int] == x);
                            if next2.contains(y) {
                                let k = next2.index_of(y);
                                if k < next1.len() {
                                    assert(next1[k] == y);
                                }
                            }
                        }
                    }
                }
            } else {
                assert(self.next_seen@ =~= seen1);
            }
            self.entries.insert(entry);
            proof {
                let a = entries@.subrange(0, i as int);
                let b = entries@.subrange(0, i + 1);
                assert(b =~= a.push(entry));
                assert(b.to_set() =~= a.to_set().insert(entry)) by {
                    assert forall|y: AdjEntry| #[trigger] b.to_set().contains(y)
                        <==> a.to_set().insert(entry).contains(y) by {
                        if a.contains(y) {
                            let k = a.index_of(y);
                            assert(b[k] == y);
                        }
                        assert(b[a.len() as int] == entry);
                        if b.contains(y) {
                            let k = b.index_of(y);
                            if k < a.len() {
                                assert(a[k] == y);
                            }
                        }
                    }
                }
                assert(self.entries@ =~= before.entries@.union(b.to_set()));
                assert forall|n: Iid| #[trigger] self.next_seen@.contains(n) <==> seen0.contains(n)
                    || exists|k: int|
                    0 <= k < i + 1 && (#[trigger] entries@[k]).neighbor == n by {
                    assert(self.next_seen@.contains(n) <==> seen1.contains(n) || n
                        == entry.neighbor);
                    if n == entry.neighbor {
                        assert(entries@[i as int].neighbor == n);
                    }
                    if seen1.contains(n) && !seen0.contains(n) {
                        let k = choose|k: int|
                            0 <= k < i && (#[trigger] entries@[k]).neighbor == n;
                        assert(0 <= k < i + 1 && entries@[k].neighbor == n);
                    }
                }
            }
            i += 1;
        }
        self.found = total;
        self.awaiting = None;
        proof {
            assert(entries@.subrange(0, entries@.len() as int) =~= entries@);
            let n = before.awaiting->0;
            assert forall|adj: Edges| before.follows(adj) && adj(n)
                == entries@ implies #[trigger] self.follows(adj) by {
                let old0 = earlier(adj, self.anchor, self.level as nat);
                let a = before.taken_in();
                let b = self.taken_in();
                assert(before.frontier@[before.pos - 1] == n);
                assert(before.dealt_with().contains(n)) by {
                    let f = before.frontier@.subrange(0, before.pos as int);
                    assert(f[before.pos - 1] == n);
                }
                assert(self.expanded@.contains(n));
                assert(b =~= a.insert(n));
                assert(one_hop(adj, b.difference(old0)) =~= self.next_seen@) by {
                    let from0 = a.difference(old0);
                    let from1 = b.difference(old0);
                    assert forall|x: Iid| #[trigger] one_hop(adj, from1).contains(x)
                        <==> self.next_seen@.contains(x) by {
                        if one_hop(adj, from1).contains(x) {
                            let m = choose|m: Iid| #[trigger]
                                from1.contains(m) && leads(adj, m, x);
                            if m == n {
                                let k = choose|k: int|
                                    0 <= k < adj(n).len() && (#[trigger] adj(n)[k]).neighbor == x;
                                assert(entries@[k].neighbor == x);
                            } else {
                                assert(from0.contains(m));
                                assert(one_hop(adj, from0).contains(x));
                            }
                        }
                        if self.next_seen@.contains(x) {
                            if seen0.contains(x) {
                                assert(one_hop(adj, from0).contains(x));
                                let m = choose|m: Iid| #[trigger]
                                    from0.contains(m) && leads(adj, m, x);
                                assert(from1.contains(m));
                            } else {
                                let k = choose|k: int|
                                    0 <= k < entries@.len() && (#[trigger] entries@[k]).neighbor
                                        == x;
                                assert(adj(n)[k].neighbor == x);
                                assert(leads(adj, n, x));
                                assert(from1.contains(n));
                            }
                        }
                    }
                }
                assert(edges_of(adj, b) =~= self.entries@) by {
                    assert forall|e: AdjEntry| #[trigger] edges_of(adj, b).contains(e)
                        <==> self.entries@.contains(e) by {
                        if edges_of(adj, b).contains(e) {
                            let m = choose|m: Iid| #[trigger]
                                b.contains(m) && adj(m).contains(e);
                            if m != n {
                                assert(a.contains(m));
                                assert(edges_of(adj, a).contains(e));
                            }
                        }
                        if self.entries@.contains(e) {
                            if before.entries@.contains(e) {
                                assert(edges_of(adj, a).contains(e));
                                let m = choose|m: Iid| #[trigger]
                                    a.contains(m) && adj(m).contains(e);
                                assert(b.contains(m));
                            } else {
                                assert(entries@.to_set().contains(e));
                                assert(adj(n).contains(e));
                                assert(b.contains(n));
                            }
                        }
                    }
                }
            }
        }
        Ok(())
    }

    /// What the search found.
    pub fn finish(&self) -> (r: ReachableEdges)
        requires
            self.wf(),
            self.done(),
        ensures
            r.entries@ == sorted_seq::<AdjEntry>(self.entries@),
            r.nodes.wf(),
            r.nodes@ == ends_of(self.entries@).insert(self.anchor),
    {
        let n = self.entries.len();
        let mut nodes: SortedSet<Iid> = SortedSet::new();
        nodes.insert(self.anchor);
        let ghost items = self.entries.items();
        let mut i: usize = 0;
        proof {
            lemma_set_items(self.entries);
            assert(ends_of(items.subrange(0, 0).to_set()) =~= Set::empty()) by {
                assert(items.subrange(0, 0) =~= Seq::<AdjEntry>::empty());
            }
            assert(nodes@ =~= ends_of(items.subrange(0, 0).to_set()).insert(self.anchor));
        }
        while i < n
            invariant
                i <= n,
                n == items.len(),
                items == self.entries.items(),
                nodes.wf(),
                nodes@ == ends_of(items.subrange(0, i as int).to_set()).insert(self.anchor),
            decreases n - i,
        {
            let entry = *self.entries.item_at(i);
            nodes.insert(entry.node);
            nodes.insert(entry.neighbor);
            proof {
                let a = items.subrange(0, i as int);
                let b = items.subrange(0, i + 1);
                assert(b =~= a.push(entry));
                assert forall|x: Iid| #[trigger] ends_of(b.to_set()).contains(x) <==> ends_of(
                    a.to_set(),
                ).contains(x) || x == entry.node || x == entry.neighbor by {
                    if ends_of(a.to_set()).contains(x) {
                        let e = choose|e: AdjEntry| #[trigger]
                            a.to_set().contains(e) && (e.node == x || e.neighbor == x);
                        let k = a.index_of(e);
                        assert(b[k] == e);
                        assert(b.to_set().contains(e));
                    }
                    if x == entry.node || x == entry.neighbor {
                        assert(b[i as int] == entry);
                        assert(b.to_set().contains(entry));
                    }
                    if ends_of(b.to_set()).contains(x) {
                        let e = choose|e: AdjEntry| #[trigger]
                            b.to_set().contains(e) && (e.node == x || e.neighbor == x);
                        let k = b.index_of(e);
                        if k < i {
                            assert(a[k] == e);
                            assert(a.to_set().contains(e));
                        }
                    }
                }
                assert(nodes@ =~= ends_of(b.to_set()).insert(self.anchor));
            }
            i += 1;
        }
        assert(items.subrange(0, n as int) =~= items);
        ReachableEdges { entries: entry_list(&self.entries), nodes }
    }
}

/// The nodes at the ends of some edges.
pub open spec fn ends_of(entries: Set<AdjEntry>) -> Set<Iid> {
    Set::new(
        |x: Iid|
            exists|e: AdjEntry| #[trigger] entries.contains(e) && (e.node == x || e.neighbor == x),
    )
}

/// Once a level leads to nothing new, no later one does.
proof fn lemma_fixed(adj: Edges, anchor: Iid, a: nat, b: nat)
    requires
        within(adj, anchor, a + 1) == within(adj, anchor, a),
        a <= b,
    ensures
        within(adj, anchor, b) == within(adj, anchor, a),
    decreases b,
{
    if a < b {
        lemma_fixed(adj, anchor, a, (b - 1) as nat);
    }
}

/// A finished search has exactly the edges at the nodes within one hop less
/// than its bound.
pub proof fn law_search_is_exact(search: Reach, adj: Edges)
    requires
        search.wf(),
        search.done(),
        search.follows(adj),
        search.hops > 0,
    ensures
        search.entries@ == edges_of(
            adj,
            within(adj, search.anchor, (search.hops - 1) as nat),
        ),
{
    let l = search.level as nat;
    let near = within(adj, search.anchor, (search.hops - 1) as nat);
    if search.level == search.hops && search.pos == 0 {
        assert(search.dealt_with() =~= Set::<Iid>::empty());
        assert(search.expanded@ =~= near);
    } else if search.frontier@.len() == 0 {
        assert(search.dealt_with() =~= Set::<Iid>::empty());
        assert(search.frontier@.to_set() =~= Set::<Iid>::empty());
        let old0 = earlier(adj, search.anchor, l);
        assert(old0.union(search.frontier@.to_set()) =~= old0);
        if l == 0 {
            assert(within(adj, search.anchor, 0).contains(search.anchor));
        }
        lemma_fixed(adj, search.anchor, (l - 1) as nat, (search.hops - 1) as nat);
        assert(search.expanded@ =~= old0);
    }
}

/// The node from which the `i`-th hop of a path goes out.
pub open spec fn path_node(anchor: Iid, path: Seq<AdjEntry>, i: int) -> Iid {
    if i <= 0 {
        anchor
    } else {
        path[i - 1].neighbor
    }
}

/// A path of edges from a node.
pub open spec fn is_path(adj: Edges, anchor: Iid, path: Seq<AdjEntry>) -> bool {
    forall|i: int|
        0 <= i < path.len() ==> adj(#[trigger] path_node(anchor, path, i)).contains(path[i])
}

proof fn lemma_path_within(adj: Edges, anchor: Iid, path: Seq<AdjEntry>, i: int, d: nat)
    requires
        is_path(adj, anchor, path),
        0 <= i <= path.len(),
        i <= d,
    ensures
        within(adj, anchor, d).contains(path_node(anchor, path, i)),
    decreases d,
{
    if d == 0 {
    } else {
        let near = within(adj, anchor, (d - 1) as nat);
        if i < d {
            lemma_path_within(adj, anchor, path, i, (d - 1) as nat);
        } else {
            lemma_path_within(adj, anchor, path, i - 1, (d - 1) as nat);
            let m = path_node(anchor, path, i - 1);
            assert(adj(m).contains(path[i - 1]));
            let k = adj(m).index_of(path[i - 1]);
            assert(adj(m)[k].neighbor == path_node(anchor, path, i));
            assert(leads(adj, m, path_node(anchor, path, i)));
            assert(near.contains(m));
        }
    }
}

/// Every edge of every path that is no longer than the bound is found, and
/// every node on it is among the nodes.
pub proof fn law_paths_are_covered(search: Reach, adj: Edges, path: Seq<AdjEntry>, i: int)
    requires
        search.wf(),
        search.done(),
        search.follows(adj),
        is_path(adj, search.anchor, path),
        path.len() <= search.hops,
        0 <= i < path.len(),
    ensures
        search.entries@.contains(path[i]),
        ends_of(search.entries@).insert(search.anchor).contains(path[i].neighbor),
{
    law_search_is_exact(search, adj);
    lemma_path_within(adj, search.anchor, path, i, (search.hops - 1) as nat);
    let m = path_node(search.anchor, path, i);
    let near = within(adj, search.anchor, (search.hops - 1) as nat);
    assert(near.contains(m));
    assert(adj(m).contains(path[i]));
    assert(edges_of(adj, near).contains(path[i]));
}

/// Adds the events of the edges at one node; an edge that is there already
/// keeps what it has.
pub fn keep_first(events: &mut SortedMap<Iid, Vec<Event>>, more: Vec<(Iid, Vec<Event>)>)
    requires
        old(events).wf(),
    ensures
        final(events).wf(),
        forall|i: Iid| #[trigger]
            old(events)@.dom().contains(i) ==> final(events)@.dom().contains(i)
                && final(events)@[i] == old(events)@[i],
        forall|i: Iid| #[trigger]
            final(events)@.dom().contains(i) && !old(events)@.dom().contains(i) ==> exists|k: int|
                0 <= k < more@.len() && (#[trigger] more@[k]) == (i, final(events)@[i]) && forall|
                    j: int,
                |
                    0 <= j < k ==> (#[trigger] more@[j]).0 != i,
        forall|k: int|
            0 <= k < more@.len() ==> final(events)@.dom().contains((#[trigger] more@[k]).0),
{
    let ghost all = more@;
    let ghost start = events@;
    for pair in it: more
        invariant
            it.seq() == all,
            events.wf(),
            forall|i: Iid| #[trigger]
                start.dom().contains(i) ==> events@.dom().contains(i) && events@[i] == start[i],
            forall|i: Iid| #[trigger]
                events@.dom().contains(i) && !start.dom().contains(i) ==> exists|k: int|
                    0 <= k < it.index() && (#[trigger] all[k]) == (i, events@[i]) && forall|j: int|
                        0 <= j < k ==> (#[trigger] all[j]).0 != i,
            forall|k: int|
                0 <= k < it.index() ==> events@.dom().contains((#[trigger] all[k]).0),
    {
        let ghost n = it.index() as int;
        let ghost before = events@;
        assert(all[n] == pair);
        let (iid, list) = pair;
        if !events.contains_key(&iid) {
            events.insert(iid, list);
            proof {
                assert(events@ =~= before.insert(iid, list));
                assert forall|i: Iid| #[trigger] events@.dom().contains(i)
                    && !start.dom().contains(i) implies exists|k: int|
                    0 <= k < n + 1 && (#[trigger] all[k]) == (i, events@[i]) && forall|j: int|
                        0 <= j < k ==> (#[trigger] all[j]).0 != i by {
                    if i == iid {
                        assert(all[n] == (i, events@[i]));
                        assert forall|j: int| 0 <= j < n implies (#[trigger] all[j]).0 != i by {
                            assert(before.dom().contains(all[j].0));
                        }
                    } else {
                        assert(before.dom().contains(i));
                    }
                }
            }
        }
    }
}

} // verus!
