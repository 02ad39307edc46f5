//! The protocols by which items get into and out of a circular buffer that a
//! writer and any number of readers share.
//!
//! The shared memory is an array of `SIZE` slots and the index at which the next
//! item will be published. Neither side ever waits for the other: the writer
//! fills a slot and then publishes the next index, and a reader loads the index,
//! reads a slot, and loads the index again to learn whether the slot can have
//! been written to in the meantime.
//!
//! Each type below is one operation in progress. It says which step on the shared
//! memory comes next, is told what that step observed, and in the end says what
//! the operation returns. Who performs the steps, and what happens to the memory
//! between two of them, is up to the caller.
use crate::index::{
    advance, gap, in_window, lemma_advance_adds, lemma_advance_unfold, lemma_gap_back,
    lemma_precedes_one_way, lemma_ring, precedes, retreat, size_ok, steps, CBufIndex,
};
use core::ops::Range;
use vstd::prelude::*;

verus! {

/// What the items of a circular buffer have to be.
pub trait CBufItem: Sized + Copy + Send + 'static {

}

/// Every eligible type will do.
impl<T> CBufItem for T where T: Sized + Copy + Send + 'static {

}

/// Lets an `impl Trait` return type name a lifetime of the type behind it.
pub trait Captures<'a> {

}

/// Every type will do.
impl<'a, T: ?Sized> Captures<'a> for T {

}

/// What fetching the next item comes to.
#[derive(Debug, PartialEq, Eq, Clone, Copy)]
pub enum ReadResult<T> {
    /// Normal case; fetched next item.
    Success(T),
    /// Fetched an item, but we missed some number.
    Skipped(T),
    /// No new items are available.
    NoNewItems,
    /// After trying [`NUM_READ_TRIES`] times, not able to successfully read an item.
    SpinFail,
}

/// What fetching an item by its index comes to.
#[derive(Debug, PartialEq, Eq, Clone, Copy)]
pub enum FetchWithIndexResult<T, const SIZE: usize> {
    /// Normal case; fetched the item at the given index.
    Success(T, CBufIndex<SIZE>),
    /// Fetched an item, but a later one than the one asked for.
    Skipped(T, CBufIndex<SIZE>),
    /// No item is available at or after the given index.
    NoNewItems,
    /// After trying [`NUM_READ_TRIES`] times, not able to successfully read an item.
    SpinFail,
}

/// Signifies that an index is not that of an item in the buffer.
#[derive(Debug, PartialEq, Eq, Clone, Copy)]
pub struct InvalidIndexError(pub ());

/// The steps by which an item is added to a buffer, in their order.
#[derive(Debug, PartialEq, Eq, Clone, Copy)]
pub enum WriteProtocolStep {
    /// Nothing has been done yet, and nothing is.
    PreWrite,
    /// Write the item to its slot.
    BufferWrite,
    /// Publish the index after the item's.
    IndexPostUpdate,
}

/// The steps by which an item is read from a buffer, in their order.
#[derive(Debug, PartialEq, Eq, Clone, Copy)]
pub enum ReadProtocolStep {
    /// Load the published index.
    IndexCheckPre,
    /// Read the slot.
    BufferRead,
    /// Load the published index once more.
    IndexCheckPost,
}

/// Where an operation that reads has got to: the step that it takes next, or what
/// it returns.
#[derive(Debug, PartialEq, Eq, Clone, Copy)]
pub enum FetchCheckpoint<R> {
    Step(ReadProtocolStep),
    ReturnVal(R),
}

/// The number of times that fetching an item is tried before it is given up.
pub const NUM_READ_TRIES: u32 = 16;

/// Whether the item at `idx` is in a buffer whose published index is `next`: it
/// has been written, and fewer than `size - 1` items have been written since.
pub open spec fn readable(size: int, idx: int, next: int) -> bool {
    steps(size, idx, next) matches Some(d) && 1 <= d < size
}

/// The item at an index is in the buffer exactly when the published index is one of
/// the `size - 1` indexes after it.
pub proof fn lemma_readable_window(size: int, idx: int, next: int)
    requires
        size_ok(size),
        0 <= idx <= usize::MAX,
        0 <= next <= usize::MAX,
    ensures
        readable(size, idx, next) <==> in_window(size, next, advance(size, idx, 1), size - 1),
{
    lemma_ring(size);
    lemma_advance_unfold(size, idx, 0);
}

/// What a reader concludes about the item at `local` from the published index
/// before and after it read the item's slot.
pub enum Verdict {
    /// There is no such item yet.
    Nothing,
    /// The slot held the item the whole time.
    Deliver,
    /// The item is no longer in the buffer.
    CatchUp,
    /// The slot may have been written to in the meantime.
    Retry,
}

/// The verdict on `local` where the index was `pre` before and `post` after.
pub open spec fn verdict(size: int, local: int, pre: int, post: int) -> Verdict {
    if post == 0 || (local == pre && local == post) {
        Verdict::Nothing
    } else if !readable(size, local, post) {
        Verdict::CatchUp
    } else if readable(size, local, pre) {
        Verdict::Deliver
    } else {
        Verdict::Retry
    }
}

/// What reading the item at `idx` comes to where the published index was `pre`
/// before and `post` after its slot was found to hold `item`: that item, if it was
/// in the buffer the whole time.
pub open spec fn fetch_value<T>(size: int, idx: int, pre: int, item: T, post: int) -> Option<T> {
    if readable(size, idx, pre) && readable(size, idx, post) {
        Some(item)
    } else {
        None
    }
}

/// The value of a result, without its error.
pub open spec fn value_of<T>(r: Result<T, InvalidIndexError>) -> Option<T> {
    match r {
        Ok(v) => Some(v),
        Err(_) => None,
    }
}

/// How far behind the published index a reader that fell behind goes on: with
/// the newest item, or with the oldest that is still in the buffer.
pub open spec fn catch_up_offset(size: int, fast_forward: bool) -> int {
    if fast_forward {
        1
    } else {
        size - 1
    }
}

/// Whether the item at `idx` is in a buffer whose published index is `next`.
pub fn is_readable<const SIZE: usize>(idx: CBufIndex<SIZE>, next: CBufIndex<SIZE>) -> (r: bool)
    requires
        size_ok(SIZE as int),
    ensures
        r == readable(SIZE as int, idx@, next@),
{
    proof {
        lemma_advance_adds(SIZE as int, idx@, 1, 0);
        lemma_readable_window(SIZE as int, idx@, next@);
    }
    next.is_in_range(idx + 1, SIZE - 1)
}

/// The verdict on the item at `local` where the published index was `pre` before
/// and `post` after its slot was read.
pub fn judge<const SIZE: usize>(
    local: CBufIndex<SIZE>,
    pre: CBufIndex<SIZE>,
    post: CBufIndex<SIZE>,
) -> (r: Verdict)
    requires
        size_ok(SIZE as int),
    ensures
        r == verdict(SIZE as int, local@, pre@, post@),
{
    if post == CBufIndex::new(0) {
        return Verdict::Nothing;
    }
    if local == pre && local == post {
        return Verdict::Nothing;
    }
    if is_readable(local, pre) && is_readable(local, post) {
        return Verdict::Deliver;
    }
    if !is_readable(local, post) {
        return Verdict::CatchUp;
    }
    Verdict::Retry
}

/// What an iterator yields where fetching the next item came to `result`, and whether it
/// is then done.
pub fn yielded<T>(result: ReadResult<T>, is_done: &mut bool) -> (r: Option<ReadResult<T>>)
    ensures
        r == if result is NoNewItems {
            None
        } else {
            Some(result)
        },
        *final(is_done) == (*old(is_done) || result is NoNewItems),
{
    match result {
        ReadResult::NoNewItems => {
            *is_done = true;
            None
        },
        result => Some(result),
    }
}

/// The half-open range of the indexes of the items in a buffer whose published index is
/// `next`.
pub fn valid_range<const SIZE: usize>(next: CBufIndex<SIZE>) -> (r: Range<CBufIndex<SIZE>>)
    requires
        size_ok(SIZE as int),
    ensures
        r.start@ == retreat(next@, SIZE - 1),
        r.end == next,
{
    Range { start: next - (SIZE - 1), end: next }
}

/// How far an operation that reads has got.
#[derive(Debug, PartialEq, Eq, Clone, Copy)]
pub enum Progress<T, R, const SIZE: usize> {
    /// The index is about to be loaded.
    IndexCheckPre,
    /// The index was loaded, the slot is about to be read.
    BufferRead(CBufIndex<SIZE>),
    /// The index was loaded and the slot read, the index is about to be loaded again.
    IndexCheckPost(CBufIndex<SIZE>, T),
    /// The operation is over.
    Return(R),
}

impl<T: CBufItem, R: Copy, const SIZE: usize> Progress<T, R, SIZE> {
    /// The step that comes next, or what is returned.
    pub open spec fn spec_checkpoint(self) -> FetchCheckpoint<R> {
        match self {
            Progress::IndexCheckPre => FetchCheckpoint::Step(ReadProtocolStep::IndexCheckPre),
            Progress::BufferRead(_) => FetchCheckpoint::Step(ReadProtocolStep::BufferRead),
            Progress::IndexCheckPost(_, _) => FetchCheckpoint::Step(
                ReadProtocolStep::IndexCheckPost,
            ),
            Progress::Return(r) => FetchCheckpoint::ReturnVal(r),
        }
    }

    /// The step that comes next, or what is returned.
    pub fn checkpoint(&self) -> (r: FetchCheckpoint<R>)
        ensures
            r == self.spec_checkpoint(),
    {
        match *self {
            Progress::IndexCheckPre => FetchCheckpoint::Step(ReadProtocolStep::IndexCheckPre),
            Progress::BufferRead(_) => FetchCheckpoint::Step(ReadProtocolStep::BufferRead),
            Progress::IndexCheckPost(_, _) => FetchCheckpoint::Step(
                ReadProtocolStep::IndexCheckPost,
            ),
            Progress::Return(r) => FetchCheckpoint::ReturnVal(r),
        }
    }
}

/// Reading the item at an index, in progress.
#[derive(Debug, PartialEq, Eq, Clone, Copy)]
pub struct FetchSeq<T: CBufItem, const SIZE: usize> {
    /// The index of the item.
    pub idx: CBufIndex<SIZE>,
    /// How far it has got.
    pub progress: Progress<T, Result<T, InvalidIndexError>, SIZE>,
}

impl<T: CBufItem, const SIZE: usize> FetchSeq<T, SIZE> {
    /// Starts reading the item at `idx`.
    pub fn new(idx: CBufIndex<SIZE>) -> (r: Self)
        ensures
            r == (FetchSeq { idx, progress: Progress::<T, _, SIZE>::IndexCheckPre }),
    {
        FetchSeq { idx, progress: Progress::IndexCheckPre }
    }

    /// The step that comes next, or what is returned.
    pub fn checkpoint(&self) -> (r: FetchCheckpoint<Result<T, InvalidIndexError>>)
        ensures
            r == self.progress.spec_checkpoint(),
    {
        self.progress.checkpoint()
    }

    /// The slot that the step `BufferRead` reads.
    pub fn slot(&self) -> (r: usize)
        requires
            size_ok(SIZE as int),
        ensures
            r < SIZE,
            r == self.idx@ % (SIZE as int),
    {
        self.idx.slot()
    }

    /// Takes the index that the step `IndexCheckPre` has loaded.
    pub fn index_check_pre(&mut self, next: CBufIndex<SIZE>)
        requires
            old(self).progress is IndexCheckPre,
        ensures
            *final(self) == (FetchSeq { progress: Progress::BufferRead(next), ..*old(self) }),
    {
        self.progress = Progress::BufferRead(next);
    }

    /// Takes the item that the step `BufferRead` has read.
    pub fn buffer_read(&mut self, item: T)
        requires
            old(self).progress is BufferRead,
        ensures
            old(self).progress matches Progress::BufferRead(pre) && *final(self) == (FetchSeq {
                progress: Progress::IndexCheckPost(pre, item),
                ..*old(self)
            }),
    {
        if let Progress::BufferRead(pre) = self.progress {
            self.progress = Progress::IndexCheckPost(pre, item);
        }
    }

    /// Takes the index that the step `IndexCheckPost` has loaded. The item is
    /// returned if it was in the buffer both before and after its slot was read.
    pub fn index_check_post(&mut self, next: CBufIndex<SIZE>)
        requires
            size_ok(SIZE as int),
            old(self).progress is IndexCheckPost,
        ensures
            final(self).idx == old(self).idx,
            old(self).progress matches Progress::IndexCheckPost(pre, item)
                && final(self).progress matches Progress::Return(r) && value_of(r)
                == fetch_value(SIZE as int, old(self).idx@, pre@, item, next@),
    {
        if let Progress::IndexCheckPost(pre, item) = self.progress {
            let r = if is_readable(self.idx, pre) && is_readable(self.idx, next) {
                Ok(item)
            } else {
                Err(InvalidIndexError(()))
            };
            self.progress = Progress::Return(r);
        }
    }
}

/// Fetching the next item, in progress.
#[derive(Debug, PartialEq, Eq, Clone, Copy)]
pub struct FetchNextItemSeq<T: CBufItem, const SIZE: usize> {
    /// The index of the item that is to be read.
    pub next_local: CBufIndex<SIZE>,
    /// Whether a reader that fell behind goes on with the newest item.
    pub fast_forward: bool,
    /// Whether the reader has fallen behind.
    pub skipped: bool,
    /// The number of tries that have failed.
    pub tries: u32,
    /// How far the current try has got.
    pub progress: Progress<T, ReadResult<T>, SIZE>,
}

impl<T: CBufItem, const SIZE: usize> FetchNextItemSeq<T, SIZE> {
    /// An operation that is not over has a try left.
    pub open spec fn wf(self) -> bool {
        self.progress is Return || self.tries < NUM_READ_TRIES
    }

    /// Starts fetching the item at `next_local`.
    pub open spec fn start(next_local: CBufIndex<SIZE>, fast_forward: bool) -> Self {
        FetchNextItemSeq {
            next_local,
            fast_forward,
            skipped: false,
            tries: 0,
            progress: Progress::IndexCheckPre,
        }
    }

    /// The operation after one more try has failed.
    pub open spec fn tried_again(self) -> Self {
        FetchNextItemSeq {
            tries: (self.tries + 1) as u32,
            progress: if self.tries + 1 < NUM_READ_TRIES {
                Progress::IndexCheckPre
            } else {
                Progress::Return(ReadResult::SpinFail)
            },
            ..self
        }
    }

    /// The operation after a try that observed `pre`, `item` and `post`.
    pub open spec fn after_try(self, pre: CBufIndex<SIZE>, item: T, post: CBufIndex<SIZE>) -> Self {
        match verdict(SIZE as int, self.next_local@, pre@, post@) {
            Verdict::Nothing => FetchNextItemSeq {
                progress: Progress::Return(ReadResult::NoNewItems),
                ..self
            },
            Verdict::Deliver => FetchNextItemSeq {
                next_local: CBufIndex {
                    idx: advance(SIZE as int, self.next_local@, 1) as usize,
                },
                progress: Progress::Return(
                    if self.skipped {
                        ReadResult::Skipped(item)
                    } else {
                        ReadResult::Success(item)
                    },
                ),
                ..self
            },
            Verdict::CatchUp => FetchNextItemSeq {
                next_local: CBufIndex {
                    idx: retreat(
                        post@,
                        catch_up_offset(SIZE as int, self.fast_forward),
                    ) as usize,
                },
                skipped: true,
                ..self
            }.tried_again(),
            Verdict::Retry => self.tried_again(),
        }
    }

    /// Starts fetching the item at `next_local`.
    pub fn new(next_local: CBufIndex<SIZE>, fast_forward: bool) -> (r: Self)
        ensures
            r == Self::start(next_local, fast_forward),
            r.wf(),
    {
        FetchNextItemSeq {
            next_local,
            fast_forward,
            skipped: false,
            tries: 0,
            progress: Progress::IndexCheckPre,
        }
    }

    /// The step that comes next, or what is returned.
    pub fn checkpoint(&self) -> (r: FetchCheckpoint<ReadResult<T>>)
        ensures
            r == self.progress.spec_checkpoint(),
    {
        self.progress.checkpoint()
    }

    /// The slot that the step `BufferRead` reads.
    pub fn slot(&self) -> (r: usize)
        requires
            size_ok(SIZE as int),
        ensures
            r < SIZE,
            r == self.next_local@ % (SIZE as int),
    {
        self.next_local.slot()
    }

    /// Takes the index that the step `IndexCheckPre` has loaded.
    pub fn index_check_pre(&mut self, next: CBufIndex<SIZE>)
        requires
            old(self).wf(),
            old(self).progress is IndexCheckPre,
        ensures
            final(self).wf(),
            *final(self) == (FetchNextItemSeq {
                progress: Progress::BufferRead(next),
                ..*old(self)
            }),
    {
        self.progress = Progress::BufferRead(next);
    }

    /// Takes the item that the step `BufferRead` has read.
    pub fn buffer_read(&mut self, item: T)
        requires
            old(self).wf(),
            old(self).progress is BufferRead,
        ensures
            final(self).wf(),
            old(self).progress matches Progress::BufferRead(pre) && *final(self) == (
            FetchNextItemSeq { progress: Progress::IndexCheckPost(pre, item), ..*old(self) }),
    {
        if let Progress::BufferRead(pre) = self.progress {
            self.progress = Progress::IndexCheckPost(pre, item);
        }
    }

    /// Takes the index that the step `IndexCheckPost` has loaded, and says whether
    /// the writer was seen at work and another try comes next.
    pub fn index_check_post(&mut self, next: CBufIndex<SIZE>) -> (writer_active: bool)
        requires
            size_ok(SIZE as int),
            old(self).wf(),
            old(self).progress is IndexCheckPost,
        ensures
            final(self).wf(),
            old(self).progress matches Progress::IndexCheckPost(pre, item) && {
                &&& *final(self) == old(self).after_try(pre, item, next)
                &&& writer_active <==> pre@ != next@ && match verdict(
                    SIZE as int,
                    old(self).next_local@,
                    pre@,
                    next@,
                ) {
                    Verdict::CatchUp | Verdict::Retry => true,
                    _ => false,
                }
            },
    {
        let (pre, item) = match self.progress {
            Progress::IndexCheckPost(pre, item) => (pre, item),
            _ => {
                return false;
            },
        };
        proof {
            lemma_advance_adds(SIZE as int, self.next_local@, 1, 0);
        }
        match judge(self.next_local, pre, next) {
            Verdict::Nothing => {
                self.progress = Progress::Return(ReadResult::NoNewItems);
                return false;
            },
            Verdict::Deliver => {
                self.next_local = self.next_local + 1;
                self.progress = Progress::Return(
                    if self.skipped {
                        ReadResult::Skipped(item)
                    } else {
                        ReadResult::Success(item)
                    },
                );
                return false;
            },
            Verdict::CatchUp => {
                let offset: usize = if self.fast_forward {
                    1
                } else {
                    SIZE - 1
                };
                self.next_local = next - offset;
                self.skipped = true;
            },
            Verdict::Retry => {},
        }
        self.tries = self.tries + 1;
        self.progress = if self.tries < NUM_READ_TRIES {
            Progress::IndexCheckPre
        } else {
            Progress::Return(ReadResult::SpinFail)
        };
        pre != next
    }
}

/// Adding an item, in progress.
#[derive(Debug, PartialEq, Eq, Clone, Copy)]
pub struct AddItemSeq<T: CBufItem, const SIZE: usize> {
    /// The index that the item gets.
    pub next_local: CBufIndex<SIZE>,
    /// The item.
    pub item: T,
    /// The step that comes next, if the operation is not over.
    pub step: Option<WriteProtocolStep>,
}

impl<T: CBufItem, const SIZE: usize> AddItemSeq<T, SIZE> {
    /// Starts adding `item` at the index `next_local`.
    pub fn new(next_local: CBufIndex<SIZE>, item: T) -> (r: Self)
        ensures
            r == (AddItemSeq { next_local, item, step: Some(WriteProtocolStep::PreWrite) }),
    {
        AddItemSeq { next_local, item, step: Some(WriteProtocolStep::PreWrite) }
    }

    /// The step that comes next, if the operation is not over.
    pub fn checkpoint(&self) -> (r: Option<WriteProtocolStep>)
        ensures
            r == self.step,
    {
        self.step
    }

    /// The slot to which the step `BufferWrite` writes the item.
    pub fn slot(&self) -> (r: usize)
        requires
            size_ok(SIZE as int),
        ensures
            r < SIZE,
            r == self.next_local@ % (SIZE as int),
    {
        self.next_local.slot()
    }

    /// The index that the step `IndexPostUpdate` publishes.
    pub fn next_next(&self) -> (r: CBufIndex<SIZE>)
        requires
            size_ok(SIZE as int),
        ensures
            r@ == advance(SIZE as int, self.next_local@, 1),
    {
        proof {
            lemma_advance_adds(SIZE as int, self.next_local@, 1, 0);
        }
        self.next_local + 1
    }

    /// Notes that the step that came next has been performed.
    pub fn step_done(&mut self)
        ensures
            *final(self) == (AddItemSeq {
                step: match old(self).step {
                    Some(WriteProtocolStep::PreWrite) => Some(WriteProtocolStep::BufferWrite),
                    Some(WriteProtocolStep::BufferWrite) => Some(
                        WriteProtocolStep::IndexPostUpdate,
                    ),
                    _ => None,
                },
                ..*old(self)
            }),
    {
        self.step = match self.step {
            Some(WriteProtocolStep::PreWrite) => Some(WriteProtocolStep::BufferWrite),
            Some(WriteProtocolStep::BufferWrite) => Some(WriteProtocolStep::IndexPostUpdate),
            _ => None,
        };
    }
}

/// What comes next in fetching an item by its index.
#[derive(Debug, PartialEq, Eq, Clone, Copy)]
pub enum IndexedStep<T, const SIZE: usize> {
    /// Try to read the item at the index.
    Fetch(CBufIndex<SIZE>),
    /// Find out which indexes are valid.
    ValidRange,
    /// The operation is over.
    Return(FetchWithIndexResult<T, SIZE>),
}

/// Fetching an item by its index, or a later one in its place, in progress.
#[derive(Debug, PartialEq, Eq, Clone, Copy)]
pub struct FetchWithIndexSeq<T: CBufItem, const SIZE: usize> {
    /// The index that was asked for.
    pub idx: CBufIndex<SIZE>,
    /// The index that is tried.
    pub idx_try: CBufIndex<SIZE>,
    /// The number of tries that have failed.
    pub tries: u32,
    /// What comes next.
    pub step: IndexedStep<T, SIZE>,
}

impl<T: CBufItem, const SIZE: usize> FetchWithIndexSeq<T, SIZE> {
    /// An operation that is not over has a try left.
    pub open spec fn wf(self) -> bool {
        match self.step {
            IndexedStep::Fetch(i) => i == self.idx_try && self.tries < NUM_READ_TRIES,
            IndexedStep::ValidRange => self.tries < NUM_READ_TRIES,
            IndexedStep::Return(_) => true,
        }
    }

    /// Starts fetching the item at `idx`.
    pub open spec fn start(idx: CBufIndex<SIZE>) -> Self {
        FetchWithIndexSeq { idx, idx_try: idx, tries: 0, step: IndexedStep::Fetch(idx) }
    }

    /// The operation after the attempt to read the item at the index has come to
    /// `value`. An item that could be read is returned, with the index that it was
    /// read at.
    pub open spec fn after_fetch(self, value: Option<T>) -> Self {
        FetchWithIndexSeq {
            step: match value {
                Some(v) if self.idx_try@ == self.idx@ => IndexedStep::Return(
                    FetchWithIndexResult::Success(v, self.idx_try),
                ),
                Some(v) => IndexedStep::Return(FetchWithIndexResult::Skipped(v, self.idx_try)),
                None => IndexedStep::ValidRange,
            },
            ..self
        }
    }

    /// The operation after the valid indexes were found to be those from `start` up to
    /// before `end`. There is nothing to fetch at an index at or after the end; from
    /// an index before it one goes on at the start.
    pub open spec fn after_range(self, start: CBufIndex<SIZE>, end: CBufIndex<SIZE>) -> Self {
        if self.idx_try@ == end@ || precedes(SIZE as int, end@, self.idx_try@) {
            FetchWithIndexSeq {
                step: IndexedStep::Return(FetchWithIndexResult::NoNewItems),
                ..self
            }
        } else {
            FetchWithIndexSeq {
                idx_try: start,
                tries: (self.tries + 1) as u32,
                step: if self.tries + 1 < NUM_READ_TRIES {
                    IndexedStep::Fetch(start)
                } else {
                    IndexedStep::Return(FetchWithIndexResult::SpinFail)
                },
                ..self
            }
        }
    }

    /// Starts fetching the item at `idx`.
    pub fn new(idx: CBufIndex<SIZE>) -> (r: Self)
        ensures
            r.wf(),
            r == Self::start(idx),
    {
        FetchWithIndexSeq { idx, idx_try: idx, tries: 0, step: IndexedStep::Fetch(idx) }
    }

    /// What comes next.
    pub fn checkpoint(&self) -> (r: IndexedStep<T, SIZE>)
        ensures
            r == self.step,
    {
        self.step
    }

    /// Takes what the attempt to read the item at the index came to.
    pub fn fetched(&mut self, result: Result<T, InvalidIndexError>)
        requires
            old(self).wf(),
            old(self).step is Fetch,
        ensures
            final(self).wf(),
            *final(self) == old(self).after_fetch(value_of(result)),
    {
        self.step = match result {
            Ok(v) => {
                if self.idx_try == self.idx {
                    IndexedStep::Return(FetchWithIndexResult::Success(v, self.idx_try))
                } else {
                    IndexedStep::Return(FetchWithIndexResult::Skipped(v, self.idx_try))
                }
            },
            Err(_) => IndexedStep::ValidRange,
        };
    }

    /// Takes the range of the valid indexes.
    pub fn valid_range(&mut self, valids: Range<CBufIndex<SIZE>>)
        requires
            size_ok(SIZE as int),
            old(self).wf(),
            old(self).step is ValidRange,
        ensures
            final(self).wf(),
            *final(self) == old(self).after_range(valids.start, valids.end),
    {
        proof {
            if self.idx_try@ != valids.end@ {
                lemma_precedes_one_way(SIZE as int, self.idx_try@, valids.end@);
            }
        }
        if self.idx_try >= valids.end {
            self.step = IndexedStep::Return(FetchWithIndexResult::NoNewItems);
        } else {
            self.idx_try = valids.start;
            self.tries = self.tries + 1;
            self.step = if self.tries < NUM_READ_TRIES {
                IndexedStep::Fetch(self.idx_try)
            } else {
                IndexedStep::Return(FetchWithIndexResult::SpinFail)
            };
        }
    }
}

/// What comes next in searching for the first item that makes a predicate true.
#[derive(Debug, PartialEq, Eq, Clone, Copy)]
pub enum SearchStep<const SIZE: usize> {
    /// Find out which indexes are valid.
    ValidRange,
    /// Fetch the item at the index, or a later one in its place, and test it.
    First(CBufIndex<SIZE>),
    /// Fetch the item at the index, which is the last one, and test it.
    Last(CBufIndex<SIZE>),
    /// Fetch the item at the index, or a later one in its place, and test it.
    Middle(CBufIndex<SIZE>),
    /// The item at the index has been found.
    Found(CBufIndex<SIZE>),
    /// No item has been found.
    NotFound,
}

/// A search by bisection, in progress.
#[derive(Debug, PartialEq, Eq, Clone, Copy)]
pub struct SearchSeq<const SIZE: usize> {
    /// Where to start if not at the start of the valid indexes.
    pub next_local: CBufIndex<SIZE>,
    /// Whether to start at the start of the valid indexes.
    pub fromstart: bool,
    /// The last index that was seen to make the predicate false.
    pub ifalse: CBufIndex<SIZE>,
    /// The first index that was seen to make the predicate true.
    pub itrue: CBufIndex<SIZE>,
    /// What comes next.
    pub step: SearchStep<SIZE>,
}

impl<const SIZE: usize> SearchSeq<SIZE> {
    /// What comes next once the predicate is false at `ifalse` and true at
    /// `itrue`: to test the item half-way between the two, unless there is none.
    pub open spec fn bisected(ifalse: CBufIndex<SIZE>, itrue: CBufIndex<SIZE>) -> SearchStep<SIZE> {
        let size = SIZE as int;
        if !precedes(size, advance(size, ifalse@, 1), itrue@) {
            SearchStep::Found(itrue)
        } else if precedes(size, itrue@, ifalse@) {
            SearchStep::NotFound
        } else {
            SearchStep::Middle(
                CBufIndex {
                    idx: advance(size, ifalse@, gap(size, ifalse@, itrue@) / 2) as usize,
                },
            )
        }
    }

    /// The search once the valid indexes were found to be those from `start` up to
    /// before `end`.
    pub open spec fn after_range(self, start: CBufIndex<SIZE>, end: CBufIndex<SIZE>) -> Self {
        SearchSeq {
            itrue: CBufIndex { idx: retreat(end@, 1) as usize },
            step: SearchStep::First(
                if self.fromstart {
                    start
                } else {
                    self.next_local
                },
            ),
            ..self
        }
    }

    /// The search once the first item was found at an index, or was not, and the
    /// predicate has spoken about it.
    pub open spec fn after_first(self, found: Option<(bool, CBufIndex<SIZE>)>) -> Self {
        match found {
            Some((true, idx)) => SearchSeq { step: SearchStep::Found(idx), ..self },
            Some((false, idx)) => SearchSeq {
                ifalse: idx,
                step: SearchStep::Last(self.itrue),
                ..self
            },
            None => SearchSeq { step: SearchStep::NotFound, ..self },
        }
    }

    /// The search once the last item was found, or was not, and the predicate has
    /// spoken about it.
    pub open spec fn after_last(self, found: Option<bool>) -> Self {
        SearchSeq {
            step: match found {
                Some(true) => Self::bisected(self.ifalse, self.itrue),
                _ => SearchStep::NotFound,
            },
            ..self
        }
    }

    /// The search once an item in between was found at an index, or was not, and the
    /// predicate has spoken about it.
    pub open spec fn after_middle(self, found: Option<(bool, CBufIndex<SIZE>)>) -> Self {
        match found {
            Some((true, idx)) => SearchSeq {
                itrue: idx,
                step: Self::bisected(self.ifalse, idx),
                ..self
            },
            Some((false, idx)) => SearchSeq {
                ifalse: idx,
                step: Self::bisected(idx, self.itrue),
                ..self
            },
            None => SearchSeq { step: SearchStep::NotFound, ..self },
        }
    }

    /// Starts a search.
    pub open spec fn start(next_local: CBufIndex<SIZE>, fromstart: bool) -> Self {
        SearchSeq {
            next_local,
            fromstart,
            ifalse: next_local,
            itrue: next_local,
            step: SearchStep::ValidRange,
        }
    }

    /// Starts a search.
    pub fn new(next_local: CBufIndex<SIZE>, fromstart: bool) -> (r: Self)
        ensures
            r == Self::start(next_local, fromstart),
    {
        SearchSeq {
            next_local,
            fromstart,
            ifalse: next_local,
            itrue: next_local,
            step: SearchStep::ValidRange,
        }
    }

    /// What comes next.
    pub fn checkpoint(&self) -> (r: SearchStep<SIZE>)
        ensures
            r == self.step,
    {
        self.step
    }

    /// Takes the range of the valid indexes.
    pub fn valid_range(&mut self, valids: Range<CBufIndex<SIZE>>)
        requires
            old(self).step is ValidRange,
        ensures
            *final(self) == old(self).after_range(valids.start, valids.end),
    {
        self.itrue = valids.end - 1;
        self.step = SearchStep::First(
            if self.fromstart {
                valids.start
            } else {
                self.next_local
            },
        );
    }

    /// Takes the index at which the first item was found, if it was, and what the
    /// predicate said of it.
    pub fn first(&mut self, found: Option<(bool, CBufIndex<SIZE>)>)
        requires
            old(self).step is First,
        ensures
            *final(self) == old(self).after_first(found),
    {
        match found {
            Some((holds, idx)) => {
                if holds {
                    self.step = SearchStep::Found(idx);
                } else {
                    self.ifalse = idx;
                    self.step = SearchStep::Last(self.itrue);
                }
            },
            None => {
                self.step = SearchStep::NotFound;
            },
        }
    }

    /// Takes what the predicate said of the last item, if that could be fetched.
    pub fn last(&mut self, found: Option<bool>)
        requires
            size_ok(SIZE as int),
            old(self).step is Last,
        ensures
            *final(self) == old(self).after_last(found),
    {
        match found {
            Some(holds) => {
                if holds {
                    self.bisect();
                } else {
                    self.step = SearchStep::NotFound;
                }
            },
            None => {
                self.step = SearchStep::NotFound;
            },
        }
    }

    /// Takes the index at which an item between the first and the last was found,
    /// if it was, and what the predicate said of it.
    pub fn middle(&mut self, found: Option<(bool, CBufIndex<SIZE>)>)
        requires
            size_ok(SIZE as int),
            old(self).step is Middle,
        ensures
            *final(self) == old(self).after_middle(found),
    {
        match found {
            Some((holds, idx)) => {
                if holds {
                    self.itrue = idx;
                } else {
                    self.ifalse = idx;
                }
                self.bisect();
            },
            None => {
                self.step = SearchStep::NotFound;
            },
        }
    }

    /// Goes on with the item half-way between `ifalse` and `itrue`.
    fn bisect(&mut self)
        requires
            size_ok(SIZE as int),
        ensures
            *final(self) == (SearchSeq {
                step: Self::bisected(old(self).ifalse, old(self).itrue),
                ..*old(self)
            }),
    {
        proof {
            lemma_advance_adds(SIZE as int, self.ifalse@, 1, 0);
        }
        self.step = if self.ifalse + 1 < self.itrue {
            match self.itrue - self.ifalse {
                Some(d) => {
                    proof {
                        lemma_gap_back(SIZE as int, self.ifalse@, self.itrue@);
                        lemma_advance_adds(SIZE as int, self.ifalse@, (d / 2) as int, 0);
                    }
                    SearchStep::Middle(self.ifalse + d / 2)
                },
                None => SearchStep::NotFound,
            }
        } else {
            SearchStep::Found(self.itrue)
        };
    }
}

/// What a search is told in the course of it.
pub enum SearchEvent<const SIZE: usize> {
    /// The valid indexes are those from the first one up to before the second one.
    Range(CBufIndex<SIZE>, CBufIndex<SIZE>),
    /// The first item was found at an index, or was not.
    First(Option<(bool, CBufIndex<SIZE>)>),
    /// The last item was found, or was not.
    Last(Option<bool>),
    /// An item in between was found at an index, or was not.
    Middle(Option<(bool, CBufIndex<SIZE>)>),
}

impl<const SIZE: usize> SearchSeq<SIZE> {
    /// The search once it has been told what it waits for.
    pub open spec fn told(self, event: SearchEvent<SIZE>) -> Self {
        match (self.step, event) {
            (SearchStep::ValidRange, SearchEvent::Range(start, end)) => self.after_range(
                start,
                end,
            ),
            (SearchStep::First(_), SearchEvent::First(found)) => self.after_first(found),
            (SearchStep::Last(_), SearchEvent::Last(found)) => self.after_last(found),
            (SearchStep::Middle(_), SearchEvent::Middle(found)) => self.after_middle(found),
            _ => self,
        }
    }

    /// The search after the given events.
    pub open spec fn run(self, events: Seq<SearchEvent<SIZE>>) -> Self
        decreases events.len(),
    {
        if events.len() == 0 {
            self
        } else {
            self.run(events.drop_last()).told(events.last())
        }
    }

    /// The index of the item about which the predicate was asked for `event`, if it was.
    pub open spec fn question(self, event: SearchEvent<SIZE>) -> Option<int> {
        match (self.step, event) {
            (SearchStep::First(_), SearchEvent::First(Some((_, idx)))) => Some(idx@),
            (SearchStep::Last(idx), SearchEvent::Last(Some(_))) => Some(idx@),
            (SearchStep::Middle(_), SearchEvent::Middle(Some((_, idx)))) => Some(idx@),
            _ => None,
        }
    }

    /// The indexes of the items about which the predicate was asked for the given
    /// events, in their order.
    pub open spec fn questions(self, events: Seq<SearchEvent<SIZE>>) -> Seq<int>
        decreases events.len(),
    {
        if events.len() == 0 {
            Seq::empty()
        } else {
            let before = events.drop_last();
            match self.run(before).question(events.last()) {
                Some(idx) => self.questions(before).push(idx),
                None => self.questions(before),
            }
        }
    }

    /// Whether `event` tells this search that the predicate holds of the item that was
    /// fetched at `idx`.
    pub open spec fn is_told_of(self, event: SearchEvent<SIZE>, idx: CBufIndex<SIZE>) -> bool {
        match event {
            SearchEvent::First(Some((true, i))) => i == idx,
            SearchEvent::Middle(Some((true, i))) => i == idx,
            SearchEvent::Last(Some(true)) => self.step == SearchStep::Last(idx),
            _ => false,
        }
    }

    /// Whether one of the events told this search that the predicate holds of the item
    /// that was fetched at `idx`.
    pub open spec fn was_told_of(
        self,
        events: Seq<SearchEvent<SIZE>>,
        idx: CBufIndex<SIZE>,
    ) -> bool {
        exists|i: int|
            0 <= i < events.len() && self.run(events.take(i)).is_told_of(#[trigger] events[i], idx)
    }

    /// Whatever happens to the buffer in the course of a search, and whether or not the
    /// predicate sorts the items: the search only ever comes to an index at which an
    /// item was fetched that made the predicate true.
    pub proof fn lemma_found_is_true(self, events: Seq<SearchEvent<SIZE>>)
        requires
            self.step is ValidRange,
        ensures
            self.run(events).step matches SearchStep::Found(idx) ==> self.was_told_of(events, idx),
            self.run(events).step is Middle ==> self.was_told_of(events, self.run(events).itrue),
            self.run(events).step matches SearchStep::Last(idx) ==> idx == self.run(events).itrue,
        decreases events.len(),
    {
        if events.len() > 0 {
            let before = events.drop_last();
            let last = events.last();
            let s0 = self.run(before);
            let s = self.run(events);
            self.lemma_found_is_true(before);
            assert(events.take(events.len() - 1) =~= before);
            assert forall|idx: CBufIndex<SIZE>| self.was_told_of(before, idx) implies (
            #[trigger] self.was_told_of(events, idx)) by {
                let i = choose|i: int|
                    0 <= i < before.len() && self.run(before.take(i)).is_told_of(
                        #[trigger] before[i],
                        idx,
                    );
                assert(events.take(i) =~= before.take(i));
                assert(self.run(events.take(i)).is_told_of(events[i], idx));
            }
            assert forall|idx: CBufIndex<SIZE>| s0.is_told_of(last, idx) implies (
            #[trigger] self.was_told_of(events, idx)) by {
                assert(self.run(events.take(events.len() - 1)).is_told_of(
                    events[events.len() - 1],
                    idx,
                ));
            }
        }
    }
}

} // verus!
