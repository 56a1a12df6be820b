//! Checking what is stored against what the manifest says of it, and the log
//! behind the manifest.

use crate::coord::fence::{after_fence, live_at, FenceMap};
use crate::effects::sat;
use crate::error::{EngineError, ErrorView, IndexError, IndexErrorView};
use crate::fold::{lemma_try_fold_all, lemma_try_fold_fails, lemma_try_fold_step, try_fold};
use crate::follower::{position_after, records_wf};
use crate::replay::{decode_effects, decode_log_record, RawLogRecord};
use crate::state::{PageMeta, TrieEntry};
use crate::text::{concat2, concat4, decimal, decimal_text};
use crate::types::{offset_error, LogPosition, EPOCH_SPAN};
use vstd::prelude::*;

verus! {

/// What was checked.
#[derive(Clone, Copy, Debug, PartialEq, Eq, Structural)]
pub struct VerifyReport {
    pub manifest_block_id: Option<u64>,
    pub tries_checked: usize,
    pub pages_checked: usize,
    pub events_checked: usize,
    pub log_records_checked: usize,
}

impl Default for VerifyReport {
    fn default() -> (r: VerifyReport)
        ensures
            r == (VerifyReport {
                manifest_block_id: None,
                tries_checked: 0,
                pages_checked: 0,
                events_checked: 0,
                log_records_checked: 0,
            }),
    {
        VerifyReport {
            manifest_block_id: None,
            tries_checked: 0,
            pages_checked: 0,
            events_checked: 0,
            log_records_checked: 0,
        }
    }
}

/// The error of stored data that does not hold together.
pub open spec fn corruption_error(text: Seq<char>) -> ErrorView {
    ErrorView::Index(IndexErrorView::Other(text))
}

fn corruption(text: String) -> (r: EngineError)
    ensures
        r@ == corruption_error(text@),
{
    EngineError::Index(IndexError::Other(text))
}

/// What is known of a block while its pages are checked.
pub struct BlockCheck {
    pub data_key: String,
    pub meta_key: String,
    pub data_len: u64,
    /// Where the last page ended.
    pub previous_end: u64,
    /// The rows of the pages so far.
    pub rows: u64,
}

/// Why the data of a block is refused, if it is.
pub open spec fn length_fault(
    data_key: Seq<char>,
    entry: TrieEntry,
    data_len: u64,
) -> Option<Seq<char>> {
    if entry.data_len != data_len {
        Some(
            data_key + ": manifest data_len "@ + decimal(entry.data_len as nat) + (
            " does not match object length "@ + decimal(data_len as nat)),
        )
    } else {
        None
    }
}

/// Why a page is refused before it is read, if it is: it begins before the last
/// one ended, its range is not a range, or it ends behind the data.
pub open spec fn page_fault(c: BlockCheck, page: PageMeta) -> Option<Seq<char>> {
    if page.offset < c.previous_end {
        Some(
            c.meta_key@ + ": page offset "@ + decimal(page.offset as nat) + (
            " overlaps or precedes prior end "@ + decimal(c.previous_end as nat)),
        )
    } else if page.offset + page.len > u64::MAX {
        Some(c.meta_key@ + ": page byte range overflows"@)
    } else if page.offset + page.len > c.data_len {
        Some(
            c.data_key@ + ": page range "@ + decimal(page.offset as nat) + (".."@ + decimal(
                (page.offset + page.len) as nat,
            ) + " exceeds object length "@ + decimal(c.data_len as nat)),
        )
    } else {
        None
    }
}

/// Why a page is refused after it was read, if it is: it has other rows than it
/// says, or there are more rows than can be counted.
pub open spec fn rows_fault(c: BlockCheck, page: PageMeta, decoded: u64) -> Option<Seq<char>> {
    if decoded != page.rows {
        Some(
            c.data_key@ + ": decoded "@ + decimal(decoded as nat) + (
            " rows for page declaring "@ + decimal(page.rows as nat)),
        )
    } else if c.rows + page.rows > u64::MAX {
        Some(c.meta_key@ + ": trie row count overflows"@)
    } else {
        None
    }
}

/// Why a block is refused after all its pages, if it is.
pub open spec fn count_fault(c: BlockCheck, entry: TrieEntry) -> Option<Seq<char>> {
    if c.rows != entry.row_count {
        Some(
            c.meta_key@ + ": decoded trie row count "@ + decimal(c.rows as nat) + (
            " does not match manifest "@ + decimal(entry.row_count as nat)),
        )
    } else {
        None
    }
}

impl BlockCheck {
    /// Begins to check a block whose data has been read.
    pub fn begin(data_key: String, meta_key: String, entry: &TrieEntry, data_len: u64) -> (r:
        Result<BlockCheck, EngineError>)
        ensures
            match r {
                Err(e) => length_fault(data_key@, *entry, data_len) is Some && e@
                    == corruption_error(length_fault(data_key@, *entry, data_len)->0),
                Ok(c) => length_fault(data_key@, *entry, data_len) is None && c == (BlockCheck {
                    data_key,
                    meta_key,
                    data_len,
                    previous_end: 0,
                    rows: 0,
                }),
            },
    {
        if entry.data_len != data_len {
            let tail = concat2(
                " does not match object length ",
                decimal_text(data_len).as_str(),
            );
            return Err(
                corruption(
                    concat4(
                        data_key.as_str(),
                        ": manifest data_len ",
                        decimal_text(entry.data_len).as_str(),
                        tail.as_str(),
                    ),
                ),
            );
        }
        Ok(BlockCheck { data_key, meta_key, data_len, previous_end: 0, rows: 0 })
    }

    /// Whether the next page can be read, and from where to where.
    pub fn begin_page(&self, page: &PageMeta) -> (r: Result<(u64, u64), EngineError>)
        ensures
            match r {
                Err(e) => page_fault(*self, *page) is Some && e@ == corruption_error(
                    page_fault(*self, *page)->0,
                ),
                Ok((start, end)) => page_fault(*self, *page) is None && start == page.offset && end
                    == page.offset + page.len,
            },
    {
        if page.offset < self.previous_end {
            let tail = concat2(
                " overlaps or precedes prior end ",
                decimal_text(self.previous_end).as_str(),
            );
            return Err(
                corruption(
                    concat4(
                        self.meta_key.as_str(),
                        ": page offset ",
                        decimal_text(page.offset).as_str(),
                        tail.as_str(),
                    ),
                ),
            );
        }
        let end = match page.offset.checked_add(page.len) {
            Some(end) => end,
            None => {
                return Err(
                    corruption(concat2(self.meta_key.as_str(), ": page byte range overflows")),
                );
            },
        };
        if end > self.data_len {
            let tail = concat4(
                "..",
                decimal_text(end).as_str(),
                " exceeds object length ",
                decimal_text(self.data_len).as_str(),
            );
            return Err(
                corruption(
                    concat4(
                        self.data_key.as_str(),
                        ": page range ",
                        decimal_text(page.offset).as_str(),
                        tail.as_str(),
                    ),
                ),
            );
        }
        Ok((page.offset, end))
    }

    /// Takes in how many rows the page has.
    pub fn end_page(&mut self, page: &PageMeta, decoded: u64) -> (r: Result<(), EngineError>)
        requires
            page_fault(*old(self), *page) is None,
        ensures
            match r {
                Err(e) => rows_fault(*old(self), *page, decoded) is Some && e@ == corruption_error(
                    rows_fault(*old(self), *page, decoded)->0,
                ) && *final(self) == *old(self),
                Ok(()) => rows_fault(*old(self), *page, decoded) is None && *final(self) == (
                BlockCheck {
                    previous_end: (page.offset + page.len) as u64,
                    rows: (old(self).rows + page.rows) as u64,
                    ..*old(self)
                }),
            },
    {
        if decoded != page.rows {
            let tail = concat2(" rows for page declaring ", decimal_text(page.rows).as_str());
            return Err(
                corruption(
                    concat4(
                        self.data_key.as_str(),
                        ": decoded ",
                        decimal_text(decoded).as_str(),
                        tail.as_str(),
                    ),
                ),
            );
        }
        match self.rows.checked_add(page.rows) {
            Some(rows) => {
                self.rows = rows;
                self.previous_end = page.offset + page.len;
                Ok(())
            },
            None => Err(
                corruption(concat2(self.meta_key.as_str(), ": trie row count overflows")),
            ),
        }
    }

    /// Ends the check of a block.
    pub fn finish(&self, entry: &TrieEntry) -> (r: Result<(), EngineError>)
        ensures
            match r {
                Err(e) => count_fault(*self, *entry) is Some && e@ == corruption_error(
                    count_fault(*self, *entry)->0,
                ),
                Ok(()) => count_fault(*self, *entry) is None,
            },
    {
        if self.rows != entry.row_count {
            let tail = concat2(
                " does not match manifest ",
                decimal_text(entry.row_count).as_str(),
            );
            return Err(
                corruption(
                    concat4(
                        self.meta_key.as_str(),
                        ": decoded trie row count ",
                        decimal_text(self.rows).as_str(),
                        tail.as_str(),
                    ),
                ),
            );
        }
        Ok(())
    }
}

/// The check after some pages, where each had as many rows as was decoded.
pub open spec fn pages_checked(c: BlockCheck, pages: Seq<PageMeta>, decoded: Seq<u64>) -> Result<
    BlockCheck,
    Seq<char>,
>
    decreases pages.len(),
{
    if pages.len() == 0 {
        Ok(c)
    } else {
        match pages_checked(c, pages.drop_last(), decoded.drop_last()) {
            Err(e) => Err(e),
            Ok(d) => match page_fault(d, pages.last()) {
                Some(text) => Err(text),
                None => match rows_fault(d, pages.last(), decoded.last()) {
                    Some(text) => Err(text),
                    None => Ok(
                        BlockCheck {
                            previous_end: (pages.last().offset + pages.last().len) as u64,
                            rows: (d.rows + pages.last().rows) as u64,
                            ..d
                        },
                    ),
                },
            },
        }
    }
}

/// A block that passes has pages that lie one behind the other in its data, none
/// over another, and each has the rows that it says.
pub proof fn law_pages_lie_apart(
    c: BlockCheck,
    pages: Seq<PageMeta>,
    decoded: Seq<u64>,
    i: int,
    j: int,
)
    requires
        pages.len() == decoded.len(),
        c.previous_end == 0,
        pages_checked(c, pages, decoded) is Ok,
        0 <= i < j < pages.len(),
    ensures
        pages[i].offset + pages[i].len <= pages[j].offset,
        pages[j].offset + pages[j].len <= c.data_len,
        decoded[i] == pages[i].rows,
        decoded[j] == pages[j].rows,
{
    lemma_page_bounds(c, pages, decoded, i);
    lemma_page_bounds(c, pages, decoded, j);
    lemma_page_order(c, pages, decoded, i, j);
}

proof fn lemma_page_bounds(c: BlockCheck, pages: Seq<PageMeta>, decoded: Seq<u64>, i: int)
    requires
        pages.len() == decoded.len(),
        pages_checked(c, pages, decoded) is Ok,
        0 <= i < pages.len(),
    ensures
        pages[i].offset + pages[i].len <= c.data_len,
        pages[i].offset + pages[i].len <= pages_checked(c, pages, decoded)->Ok_0.previous_end,
        decoded[i] == pages[i].rows,
        pages_checked(c, pages, decoded)->Ok_0.data_len == c.data_len,
    decreases pages.len(),
{
    let front = pages.drop_last();
    let seen = decoded.drop_last();
    lemma_same_data(c, front, seen);
    if i < front.len() {
        lemma_page_bounds(c, front, seen, i);
        assert(front[i] == pages[i]);
        assert(seen[i] == decoded[i]);
    } else {
        assert(pages.last() == pages[i]);
        assert(decoded.last() == decoded[i]);
    }
}

proof fn lemma_same_data(c: BlockCheck, pages: Seq<PageMeta>, decoded: Seq<u64>)
    ensures
        pages_checked(c, pages, decoded) matches Ok(d) ==> d.data_len == c.data_len,
    decreases pages.len(),
{
    if pages.len() > 0 {
        lemma_same_data(c, pages.drop_last(), decoded.drop_last());
    }
}

proof fn lemma_page_order(c: BlockCheck, pages: Seq<PageMeta>, decoded: Seq<u64>, i: int, j: int)
    requires
        pages.len() == decoded.len(),
        pages_checked(c, pages, decoded) is Ok,
        0 <= i < j < pages.len(),
    ensures
        pages[i].offset + pages[i].len <= pages[j].offset,
    decreases pages.len(),
{
    let front = pages.drop_last();
    let seen = decoded.drop_last();
    if j < front.len() {
        lemma_page_order(c, front, seen, i, j);
        assert(front[i] == pages[i] && front[j] == pages[j]);
    } else {
        lemma_page_bounds(c, front, seen, i);
        assert(front[i] == pages[i]);
        assert(pages.last() == pages[j]);
    }
}

impl VerifyReport {
    /// Counts a page of so many events.
    pub fn count_page(&mut self, events: usize)
        ensures
            *final(self) == (VerifyReport {
                pages_checked: sat(old(self).pages_checked + 1),
                events_checked: sat(old(self).events_checked + events),
                ..*old(self)
            }),
    {
        self.pages_checked = self.pages_checked.saturating_add(1);
        self.events_checked = self.events_checked.saturating_add(events);
    }

    /// Counts a block.
    pub fn count_trie(&mut self)
        ensures
            *final(self) == (VerifyReport {
                tries_checked: sat(old(self).tries_checked + 1),
                ..*old(self)
            }),
    {
        self.tries_checked = self.tries_checked.saturating_add(1);
    }
}

/// How many records of the log are read at a time.
pub const VERIFY_BATCH: u64 = 1024;

/// What comes after a read of the log.
#[derive(Clone, Copy, Debug, PartialEq, Eq, Structural)]
pub enum Walk {
    ReadOn,
    Finished,
}

/// A walk through the log: where it stands, and how many records it has read.
pub struct LogWalk {
    pub cursor: LogPosition,
    pub checked: usize,
}

#[verifier::ext_equal]
pub struct WalkView {
    pub cursor: LogPosition,
    pub checked: usize,
}

impl View for LogWalk {
    type V = WalkView;

    open spec fn view(&self) -> WalkView {
        WalkView { cursor: self.cursor, checked: self.checked }
    }
}

/// The walk after one more record. Each must stand where the walk stands; one
/// behind a fence is passed over unread.
pub open spec fn walk_step(fences: Map<u16, u64>, w: WalkView, r: (LogPosition, RawLogRecord)) -> Result<
    WalkView,
    ErrorView,
> {
    if r.0 != w.cursor {
        Err(ErrorView::LogGap { expected: w.cursor, actual: r.0 })
    } else if !live_at(fences, r.0) {
        match position_after(w.cursor) {
            Err(e) => Err(e),
            Ok(cursor) => Ok(WalkView { cursor, ..w }),
        }
    } else {
        match decode_effects(r.1.effects@) {
            Err(e) => Err(e),
            Ok(_) => match position_after(w.cursor) {
                Err(e) => Err(e),
                Ok(cursor) => Ok(WalkView { cursor, checked: sat(w.checked + 1) }),
            },
        }
    }
}

pub open spec fn walk_all(
    fences: Map<u16, u64>,
    w: WalkView,
    records: Seq<(LogPosition, RawLogRecord)>,
) -> Result<WalkView, ErrorView> {
    try_fold(
        records,
        w,
        |w: WalkView, r: (LogPosition, RawLogRecord)| walk_step(fences, w, r),
    )
}

impl LogWalk {
    /// The walk begins where the manifest ends, or where the log begins.
    pub fn start(watermark: Option<u64>) -> (r: LogWalk)
        ensures
            r.checked == 0,
            r.cursor == (match watermark {
                Some(w) => LogPosition { packed: w },
                None => LogPosition::zero(),
            }),
    {
        LogWalk {
            cursor: match watermark {
                Some(w) => LogPosition::from_u64(w),
                None => LogPosition::zero(),
            },
            checked: 0,
        }
    }

    /// The positions to read next.
    pub fn range(&self) -> (r: Result<(LogPosition, LogPosition), EngineError>)
        ensures
            match r {
                Ok((from, to)) => from == self.cursor && to.packed == self.cursor.packed + 1024
                    && self.cursor.offset() + 1024 < EPOCH_SPAN,
                Err(e) => self.cursor.offset() + 1024 >= EPOCH_SPAN && e@ == offset_error(),
            },
    {
        match self.cursor.advance(VERIFY_BATCH) {
            Ok(to) => Ok((self.cursor, to)),
            Err(e) => Err(e),
        }
    }

    /// Takes in what was read. Where nothing was, the walk goes on in the next
    /// epoch at a fence, and is over otherwise.
    pub fn on_records(&mut self, fences: &FenceMap, records: Vec<(LogPosition, RawLogRecord)>) -> (r:
        Result<Walk, EngineError>)
        requires
            fences.wf(),
            records_wf(records@),
        ensures
            if records@.len() == 0 {
                match r {
                    Ok(Walk::ReadOn) => !live_at(fences@, old(self).cursor) && final(self)@ == (
                    WalkView { cursor: after_fence(old(self).cursor), ..old(self)@ }),
                    Ok(Walk::Finished) => live_at(fences@, old(self).cursor) && final(self)@
                        == old(self)@,
                    Err(e) => !live_at(fences@, old(self).cursor) && old(self).cursor.epoch()
                        == u16::MAX && e@ == ErrorView::EpochExhausted,
                }
            } else {
                match walk_all(fences@, old(self)@, records@) {
                    Ok(w) => r matches Ok(Walk::ReadOn) && final(self)@ == w,
                    Err(e) => r matches Err(err) && err@ == e,
                }
            },
    {
        if records.len() == 0 {
            return match fences.jump(self.cursor) {
                Err(e) => Err(e),
                Ok(Some(next)) => {
                    self.cursor = next;
                    Ok(Walk::ReadOn)
                },
                Ok(None) => Ok(Walk::Finished),
            };
        }
        let ghost all = records@;
        let ghost start = self@;
        let ghost fm = fences@;
        let ghost step = |w: WalkView, r: (LogPosition, RawLogRecord)| walk_step(fm, w, r);
        proof {
            lemma_try_fold_all(all, start, step);
        }
        for pair in it: records
            invariant
                it.seq() == all,
                all == records@,
                all.len() > 0,
                records_wf(all),
                fences.wf(),
                fm == fences@,
                start == old(self)@,
                step == (|w: WalkView, r: (LogPosition, RawLogRecord)| walk_step(fm, w, r)),
                try_fold(all.subrange(0, it.index() as int), start, step) == Ok::<
                    WalkView,
                    ErrorView,
                >(self@),
        {
            let ghost i = it.index() as int;
            proof {
                assert(all[i] == pair);
                lemma_try_fold_step(all, start, step, i);
                if try_fold(all.subrange(0, i + 1), start, step) is Err {
                    lemma_try_fold_fails(all, start, step, i + 1);
                }
            }
            let (position, record) = pair;
            if position.packed != self.cursor.packed {
                return Err(EngineError::LogGap { expected: self.cursor, actual: position });
            }
            let live = fences.is_live(position);
            if live {
                match decode_log_record(record) {
                    Ok(_) => {},
                    Err(e) => {
                        return Err(e);
                    },
                }
            }
            match self.cursor.advance(1) {
                Ok(next) => {
                    self.cursor = next;
                },
                Err(e) => {
                    return Err(e);
                },
            }
            if live {
                self.checked = self.checked.saturating_add(1);
            }
        }
        proof {
            lemma_try_fold_all(all, start, step);
        }
        Ok(Walk::ReadOn)
    }
}

} // verus!
