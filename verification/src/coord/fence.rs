//! Epoch fences: where an epoch of the log ended, when another writer took
//! over. What stands in the epoch from there on is dead.

use crate::error::{EngineError, ErrorView};
use crate::sorted::{OrderedKey, SortedMap};
use crate::types::LogPosition;
use vstd::prelude::*;

verus! {

impl OrderedKey for u16 {
    type Model = u16;

    open spec fn model(&self) -> u16 {
        *self
    }

    open spec fn less(a: u16, b: u16) -> bool {
        a < b
    }

    proof fn order_laws(a: u16, b: u16) {
    }

    proof fn transitive(a: u16, b: u16, c: u16) {
    }

    fn before(&self, other: &Self) -> (r: bool) {
        *self < *other
    }
}

/// The fence of each fenced epoch.
#[derive(Debug)]
pub struct FenceMap {
    fences: SortedMap<u16, u64>,
}

/// A fence as it is stored.
#[derive(Debug)]
pub struct FenceDoc {
    pub epoch: u16,
    pub fence_offset: u64,
    pub fenced_by: String,
    pub fenced_at_us: i64,
}

/// Where a reader goes on from a dead position: at the start of the next epoch.
pub open spec fn after_fence(p: LogPosition) -> LogPosition {
    LogPosition::at((p.epoch() + 1) as u16, 0)
}

/// Whether a position is before its epoch's fence.
pub open spec fn live_at(fences: Map<u16, u64>, p: LogPosition) -> bool {
    !(fences.dom().contains(p.epoch()) && fences[p.epoch()] <= p.offset())
}

impl View for FenceMap {
    type V = Map<u16, u64>;

    closed spec fn view(&self) -> Map<u16, u64> {
        self.fences@
    }
}

/// The fences of a list of pairs; the later of two for one epoch counts.
pub open spec fn fences_of(pairs: Seq<(u16, u64)>) -> Map<u16, u64>
    decreases pairs.len(),
{
    if pairs.len() == 0 {
        Map::empty()
    } else {
        fences_of(pairs.drop_last()).insert(pairs.last().0, pairs.last().1)
    }
}

impl FenceMap {
    pub closed spec fn wf(&self) -> bool {
        self.fences.wf()
    }

    pub fn new() -> (r: FenceMap)
        ensures
            r.wf(),
            r@ == Map::<u16, u64>::empty(),
    {
        FenceMap { fences: SortedMap::new() }
    }

    /// Whether a record at `position` counts.
    pub fn is_live(&self, position: LogPosition) -> (r: bool)
        requires
            self.wf(),
        ensures
            r == live_at(self@, position),
    {
        match self.fences.get(&position.epoch()) {
            Some(fence) => position.offset() < *fence,
            None => true,
        }
    }

    /// Where a reader at `cursor` goes on, if it stands at or behind a fence.
    /// No epoch follows the last one.
    pub fn jump(&self, cursor: LogPosition) -> (r: Result<Option<LogPosition>, EngineError>)
        requires
            self.wf(),
        ensures
            match r {
                Ok(None) => live_at(self@, cursor),
                Ok(Some(p)) => !live_at(self@, cursor) && p == after_fence(cursor) && p.epoch()
                    == cursor.epoch() + 1 && p.offset() == 0,
                Err(e) => !live_at(self@, cursor) && cursor.epoch() == u16::MAX && e@
                    == ErrorView::EpochExhausted,
            },
    {
        match self.fences.get(&cursor.epoch()) {
            Some(fence) => if cursor.offset() >= *fence {
                match cursor.epoch().checked_add(1) {
                    Some(next) => match LogPosition::new(next, 0) {
                        Ok(p) => Ok(Some(p)),
                        Err(e) => {
                            assert(false);
                            Err(e)
                        },
                    },
                    None => Err(EngineError::EpochExhausted),
                }
            } else {
                Ok(None)
            },
            None => Ok(None),
        }
    }

    /// The fences of a list of epochs and offsets.
    pub fn from_pairs(pairs: &[(u16, u64)]) -> (r: FenceMap)
        ensures
            r.wf(),
            r@ == fences_of(pairs@),
    {
        let mut fences: SortedMap<u16, u64> = SortedMap::new();
        let mut i: usize = 0;
        assert(pairs@.subrange(0, 0) =~= Seq::empty());
        while i < pairs.len()
            invariant
                i <= pairs@.len(),
                fences.wf(),
                fences@ == fences_of(pairs@.subrange(0, i as int)),
            decreases pairs.len() - i,
        {
            let pair = pairs[i];
            fences.insert(pair.0, pair.1);
            proof {
                let longer = pairs@.subrange(0, i + 1);
                assert(longer.drop_last() =~= pairs@.subrange(0, i as int));
                assert(longer.last() == pair);
            }
            i += 1;
        }
        assert(pairs@.subrange(0, i as int) =~= pairs@);
        FenceMap { fences }
    }

    /// The fences of the stored documents.
    pub fn load_fences(docs: &Vec<FenceDoc>) -> (r: FenceMap)
        ensures
            r.wf(),
            r@ == fences_of(docs@.map_values(|d: FenceDoc| (d.epoch, d.fence_offset))),
    {
        let mut pairs: Vec<(u16, u64)> = Vec::new();
        let mut i: usize = 0;
        while i < docs.len()
            invariant
                i <= docs.len(),
                pairs@.len() == i,
                forall|k: int|
                    0 <= k < i ==> #[trigger] pairs@[k] == (docs@[k].epoch, docs@[k].fence_offset),
            decreases docs.len() - i,
        {
            pairs.push((docs[i].epoch, docs[i].fence_offset));
            i += 1;
        }
        assert(pairs@ =~= docs@.map_values(|d: FenceDoc| (d.epoch, d.fence_offset)));
        FenceMap::from_pairs(pairs.as_slice())
    }
}

/// Once a position of an epoch is dead, all later ones of the epoch are; and a
/// reader that jumps from a dead position arrives after every position of the
/// epoch.
pub proof fn law_dead_from_the_fence_on(fences: Map<u16, u64>, p: LogPosition, q: LogPosition)
    requires
        !live_at(fences, p),
        q.epoch() == p.epoch(),
        p.packed <= q.packed,
    ensures
        !live_at(fences, q),
        p.epoch() < u16::MAX ==> q.packed < after_fence(p).packed,
{
    if p.epoch() < u16::MAX {
        crate::types::lemma_position_parts((p.epoch() + 1) as u16, 0);
    }
}

/// An epoch without a fence is live throughout.
pub proof fn law_unfenced_epochs_are_live(fences: Map<u16, u64>, p: LogPosition)
    requires
        !fences.dom().contains(p.epoch()),
    ensures
        live_at(fences, p),
{
}

} // verus!
