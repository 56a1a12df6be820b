//! The names of blocks and of the inventories they stand in, and their order.

use crate::sorted::OrderedKey;
use crate::text::{same_text, text_is};
use crate::types::{clone_bytes, same_bytes, Iid};
use vstd::prelude::*;

verus! {

/// Into how many parts a block is split.
pub const TRIE_BRANCH_FACTOR: u8 = 4;

/// How many rows a page holds.
pub const PAGE_LIMIT: usize = 1024;

/// How many new blocks are merged at a time.
pub const LOG_LIMIT: usize = 64;

/// An inventory of blocks: of a table of a graph, or of one of its families.
#[derive(Debug)]
pub struct TableScope {
    pub graph: String,
    pub table: String,
    pub family: String,
}

#[verifier::ext_equal]
pub struct ScopeView {
    pub graph: Seq<char>,
    pub table: Seq<char>,
    pub family: Seq<char>,
}

impl ScopeView {
    pub open spec fn parts(self) -> (Seq<char>, (Seq<char>, Seq<char>)) {
        (self.graph, (self.table, self.family))
    }
}

impl View for TableScope {
    type V = ScopeView;

    open spec fn view(&self) -> ScopeView {
        ScopeView { graph: self.graph@, table: self.table@, family: self.family@ }
    }
}

impl TableScope {
    pub fn new(graph: &str, table: &str, family: &str) -> (r: TableScope)
        ensures
            r@ == (ScopeView { graph: graph@, table: table@, family: family@ }),
    {
        TableScope {
            graph: graph.to_owned(),
            table: table.to_owned(),
            family: family.to_owned(),
        }
    }

    pub fn clone_scope(&self) -> (r: TableScope)
        ensures
            r == *self,
    {
        TableScope {
            graph: self.graph.clone(),
            table: self.table.clone(),
            family: self.family.clone(),
        }
    }

    pub fn same(&self, other: &TableScope) -> (r: bool)
        ensures
            r == (self@ == other@),
    {
        same_text(&self.graph, &other.graph) && same_text(&self.table, &other.table) && same_text(
            &self.family,
            &other.family,
        )
    }

    pub fn is(&self, table: &str, family: &str) -> (r: bool)
        ensures
            r == (self.table@ == table@ && self.family@ == family@),
    {
        text_is(&self.table, table) && text_is(&self.family, family)
    }
}

impl OrderedKey for TableScope {
    type Model = ScopeView;

    open spec fn model(&self) -> ScopeView {
        self@
    }

    /// By graph, then table, then family.
    open spec fn less(a: ScopeView, b: ScopeView) -> bool {
        <(String, (String, String))>::less(a.parts(), b.parts())
    }

    proof fn order_laws(a: ScopeView, b: ScopeView) {
        <(String, (String, String))>::order_laws(a.parts(), b.parts());
    }

    proof fn transitive(a: ScopeView, b: ScopeView, c: ScopeView) {
        <(String, (String, String))>::transitive(a.parts(), b.parts(), c.parts());
    }

    fn before(&self, other: &Self) -> (r: bool) {
        proof {
            String::order_laws(self.graph@, other.graph@);
            String::order_laws(self.table@, other.table@);
        }
        if self.graph.before(&other.graph) {
            true
        } else if other.graph.before(&self.graph) {
            false
        } else if self.table.before(&other.table) {
            true
        } else if other.table.before(&self.table) {
            false
        } else {
            self.family.before(&other.family)
        }
    }
}

/// How recent the rows of a block are: current, or of the past up to a week.
#[derive(Clone, Copy, Debug, PartialEq, Eq, Structural)]
pub enum Recency {
    Current,
    Week { yyyymmdd: u32 },
}

impl OrderedKey for Recency {
    type Model = Recency;

    open spec fn model(&self) -> Recency {
        *self
    }

    /// The current rows first, then the weeks in their order.
    open spec fn less(a: Recency, b: Recency) -> bool {
        match (a, b) {
            (Recency::Current, Recency::Week { .. }) => true,
            (Recency::Week { yyyymmdd: x }, Recency::Week { yyyymmdd: y }) => x < y,
            _ => false,
        }
    }

    proof fn order_laws(a: Recency, b: Recency) {
    }

    proof fn transitive(a: Recency, b: Recency, c: Recency) {
    }

    fn before(&self, other: &Self) -> (r: bool) {
        match (*self, *other) {
            (Recency::Current, Recency::Week { .. }) => true,
            (Recency::Week { yyyymmdd: x }, Recency::Week { yyyymmdd: y }) => x < y,
            _ => false,
        }
    }
}

/// The name of a block in an inventory.
#[derive(Debug)]
pub struct TrieKey {
    pub level: u64,
    pub recency: Recency,
    /// The part of the key space that the block covers.
    pub part: Vec<u8>,
    pub block: u64,
}

#[verifier::ext_equal]
pub struct TrieKeyView {
    pub level: u64,
    pub recency: Recency,
    pub part: Seq<u8>,
    pub block: u64,
}

impl TrieKeyView {
    pub open spec fn parts(self) -> (u64, (Recency, (Seq<u8>, u64))) {
        (self.level, (self.recency, (self.part, self.block)))
    }
}

impl View for TrieKey {
    type V = TrieKeyView;

    open spec fn view(&self) -> TrieKeyView {
        TrieKeyView {
            level: self.level,
            recency: self.recency,
            part: self.part@,
            block: self.block,
        }
    }
}

impl TrieKey {
    /// The name of a block as a flush writes it.
    pub fn l0(block: u64) -> (r: TrieKey)
        ensures
            r@ == (TrieKeyView { level: 0, recency: Recency::Current, part: Seq::empty(), block }),
    {
        TrieKey { level: 0, recency: Recency::Current, part: Vec::new(), block }
    }

    pub fn clone_key(&self) -> (r: TrieKey)
        ensures
            r@ == self@,
    {
        TrieKey {
            level: self.level,
            recency: self.recency,
            part: clone_bytes(&self.part),
            block: self.block,
        }
    }

    pub fn same(&self, other: &TrieKey) -> (r: bool)
        ensures
            r == (self@ == other@),
    {
        self.level == other.level && self.recency == other.recency && same_bytes(
            &self.part,
            &other.part,
        ) && self.block == other.block
    }
}

impl OrderedKey for TrieKey {
    type Model = TrieKeyView;

    open spec fn model(&self) -> TrieKeyView {
        self@
    }

    /// By level, then recency, then part, then block.
    open spec fn less(a: TrieKeyView, b: TrieKeyView) -> bool {
        <(u64, (Recency, (Vec<u8>, u64)))>::less(a.parts(), b.parts())
    }

    proof fn order_laws(a: TrieKeyView, b: TrieKeyView) {
        <(u64, (Recency, (Vec<u8>, u64)))>::order_laws(a.parts(), b.parts());
    }

    proof fn transitive(a: TrieKeyView, b: TrieKeyView, c: TrieKeyView) {
        <(u64, (Recency, (Vec<u8>, u64)))>::transitive(a.parts(), b.parts(), c.parts());
    }

    fn before(&self, other: &Self) -> (r: bool) {
        proof {
            assert(self.part.model() =~= self.part@);
            assert(other.part.model() =~= other.part@);
            <Vec<u8>>::order_laws(self.part@, other.part@);
        }
        if self.level != other.level {
            self.level < other.level
        } else if self.recency != other.recency {
            self.recency.before(&other.recency)
        } else if self.part.before(&other.part) {
            true
        } else if other.part.before(&self.part) {
            false
        } else {
            self.block < other.block
        }
    }
}

/// The bucket of an identifier at a depth: two of its bits, from the highest
/// on.
pub open spec fn bucket(iid: Iid, depth: int) -> u128 {
    (iid.bits >> ((126 - 2 * depth) as u128)) & 3
}

/// The part of the key space holds the identifier.
pub open spec fn part_contains(part: Seq<u8>, iid: Iid) -> bool {
    part.len() <= 64 && forall|i: int|
        0 <= i < part.len() ==> (#[trigger] part[i]) as u128 == bucket(iid, i)
}

/// Whether a part of the key space holds an identifier.
pub fn in_part(part: &Vec<u8>, iid: Iid) -> (r: bool)
    ensures
        r == part_contains(part@, iid),
{
    if part.len() > 64 {
        return false;
    }
    let mut i: usize = 0;
    while i < part.len()
        invariant
            i <= part.len() <= 64,
            forall|k: int| 0 <= k < i ==> (#[trigger] part@[k]) as u128 == bucket(iid, k),
        decreases part.len() - i,
    {
        let shift: u128 = 126 - 2 * (i as u128);
        let b: u128 = (iid.bits >> shift) & 3;
        if part[i] as u128 != b {
            assert(part@[i as int] as u128 != bucket(iid, i as int));
            return false;
        }
        i += 1;
    }
    true
}

} // verus!
