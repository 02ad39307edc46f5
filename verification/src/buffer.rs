//! Circular buffers, and the readers and the writer of one.
use crate::index::{
    advance, lemma_advance_adds, lemma_ring, lemma_steps, precedes, retreat, ring_len, size_ok,
    steps, CBufIndex,
};
use crate::protocol::{
    catch_up_offset, readable, valid_range, yielded, AddItemSeq, CBufItem, FetchCheckpoint,
    FetchNextItemSeq, FetchSeq, FetchWithIndexResult, FetchWithIndexSeq, IndexedStep,
    InvalidIndexError, Progress, ReadProtocolStep, ReadResult, SearchEvent, SearchSeq, SearchStep,
    WriteProtocolStep, NUM_READ_TRIES,
};
use crate::search::test_fetched;
use core::ops::Range;
use vstd::prelude::*;

verus! {

/// What the memory of a circular buffer holds.
pub struct Memory<T, const SIZE: usize> {
    /// The slots.
    pub buf: Seq<T>,
    /// The index at which the next item will be published.
    pub next: int,
}

impl<T, const SIZE: usize> Memory<T, SIZE> {
    /// The number of slots.
    pub open spec fn size(self) -> int {
        SIZE as int
    }

    /// Whether there are as many slots as there should be, and the index is one.
    pub open spec fn wf(self) -> bool {
        &&& self.buf.len() == SIZE
        &&& 0 <= self.next <= usize::MAX
    }

    /// What the slot of the index `idx` holds.
    pub open spec fn item_at(self, idx: int) -> T {
        self.buf[idx % self.size()]
    }

    /// Whether the item at the index `idx` is in the buffer.
    pub open spec fn readable(self, idx: int) -> bool {
        readable(self.size(), idx, self.next)
    }

    /// The index of the oldest item in the buffer, or of the next one to come
    /// where the buffer is empty.
    pub open spec fn oldest(self) -> int {
        retreat(self.next, self.size() - 1)
    }

    /// The memory of an empty buffer.
    pub open spec fn empty(filler_item: T) -> Self {
        Memory { buf: Seq::new(SIZE as nat, |i: int| filler_item), next: 0 }
    }

    /// The memory after a writer has added `item` at the index `idx`.
    pub open spec fn with_item(self, idx: int, item: T) -> Self {
        Memory {
            buf: self.buf.update(idx % self.size(), item),
            next: advance(self.size(), idx, 1),
        }
    }

    /// The items from the index `first` up to before the index `end`.
    pub open spec fn items(self, first: int, end: int) -> Seq<T> {
        Seq::new((end - first) as nat, |k: int| self.item_at(first + k))
    }

    /// The index of the item that a reader at `local` reads next, if there is one,
    /// and whether it has missed items before that.
    pub open spec fn next_read(self, local: int, fast_forward: bool) -> Option<(bool, int)> {
        if self.next == 0 || self.next == local {
            None
        } else if self.readable(local) {
            Some((false, local))
        } else {
            Some((true, retreat(self.next, catch_up_offset(self.size(), fast_forward))))
        }
    }

    /// What a reader at `local` is given when it fetches the next item.
    pub open spec fn next_result(self, local: int, fast_forward: bool) -> ReadResult<T> {
        match self.next_read(local, fast_forward) {
            Some((false, idx)) => ReadResult::Success(self.item_at(idx)),
            Some((true, idx)) => ReadResult::Skipped(self.item_at(idx)),
            None => ReadResult::NoNewItems,
        }
    }

    /// Where a reader at `local` is after it has fetched the next item.
    pub open spec fn next_local(self, local: int, fast_forward: bool) -> int {
        match self.next_read(local, fast_forward) {
            Some((_, idx)) => advance(self.size(), idx, 1),
            None => local,
        }
    }

    /// The index at which an item is fetched where the one at `idx` is asked for:
    /// `idx` itself, or the oldest item's where that at `idx` has left the buffer.
    pub open spec fn index_fetched(self, idx: int) -> Option<int> {
        if self.readable(idx) {
            Some(idx)
        } else if self.next == 0 || idx == self.next || precedes(self.size(), self.next, idx) {
            None
        } else {
            Some(self.oldest())
        }
    }

    /// What is given to one who asks for the item at `idx`.
    pub open spec fn indexed_result(self, idx: int) -> FetchWithIndexResult<T, SIZE> {
        match self.index_fetched(idx) {
            Some(i) if i == idx => FetchWithIndexResult::Success(
                self.item_at(i),
                CBufIndex { idx: i as usize },
            ),
            Some(i) => FetchWithIndexResult::Skipped(
                self.item_at(i),
                CBufIndex { idx: i as usize },
            ),
            None => FetchWithIndexResult::NoNewItems,
        }
    }
}

impl<T, const SIZE: usize> Memory<T, SIZE> {
    /// The number of items in the buffer from the index `first` on.
    pub open spec fn available(self, first: int) -> int {
        steps(self.size(), first, self.next)->0
    }

    /// The item `k` places after the index `first`.
    pub open spec fn item_after(self, first: int, k: int) -> T {
        self.item_at(advance(self.size(), first, k))
    }
}

/// In a buffer that has been written to, the item any number of places up to
/// `size - 1` before the published index is in the buffer, and the one at the
/// published index is not. In one that has not, no item is.
pub proof fn lemma_readable_behind(size: int, next: int, k: int)
    requires
        size_ok(size),
        0 <= next <= usize::MAX,
        1 <= k < size,
    ensures
        next != 0 ==> readable(size, retreat(next, k), next),
        !readable(size, next, next),
        forall|idx: int| 0 <= idx <= usize::MAX ==> !readable(size, idx, 0),
{
}

/// The items in a buffer are those whose indexes are in its range of valid indexes, or
/// stand for the same places on the ring as indexes in it.
pub proof fn lemma_valid_range(size: int, idx: int, next: int)
    requires
        size_ok(size),
        0 <= idx <= usize::MAX,
        0 <= next <= usize::MAX,
    ensures
        readable(size, idx, next) <==> {
            ||| retreat(next, size - 1) <= idx < next
            ||| size <= next < idx && retreat(next, size - 1) <= idx - ring_len(size) < next
        },
{
    lemma_ring(size);
}

impl<T, const SIZE: usize> Memory<T, SIZE> {
    /// The item that is fetched at an index is in the buffer, as is at least the one
    /// before the published index.
    pub proof fn lemma_fetched(self, idx: int)
        requires
            size_ok(self.size()),
            0 <= self.next <= usize::MAX,
            0 <= idx <= usize::MAX,
            self.index_fetched(idx) is Some,
        ensures
            ({
                let first = self.index_fetched(idx)->0;
                &&& 0 <= first <= usize::MAX
                &&& self.next != 0
                &&& self.readable(first)
                &&& 1 <= self.available(first) < self.size()
                &&& advance(self.size(), first, self.available(first)) == self.next
                &&& advance(self.size(), first, 0) == first
                &&& self.readable(retreat(self.next, 1))
            }),
    {
        let first = self.index_fetched(idx)->0;
        lemma_readable_behind(self.size(), self.next, self.size() - 1);
        lemma_readable_behind(self.size(), self.next, 1);
        lemma_steps(self.size(), first, self.next, 0);
    }
}

/// A circular buffer of `T`s which can store up to `SIZE - 1` items at a time.
///
/// `SIZE` must be a power of two that is greater than 1.
pub struct CBuf<T: CBufItem, const SIZE: usize> {
    buf: [T; SIZE],
    next: CBufIndex<SIZE>,
}

impl<T: CBufItem, const SIZE: usize> View for CBuf<T, SIZE> {
    type V = Memory<T, SIZE>;

    closed spec fn view(&self) -> Memory<T, SIZE> {
        Memory { buf: self.buf@, next: self.next@ }
    }
}

impl<T: CBufItem, const SIZE: usize> CBuf<T, SIZE> {
    /// The memory of a buffer has `SIZE` slots.
    pub proof fn lemma_wf(&self)
        ensures
            self@.wf(),
    {
    }
}

/// A consumer of items from a circular buffer.
///
/// Items may be read sequentially using [`fetch_next_item`](Self::fetch_next_item)
/// or may be fetched by index using [`fetch`](Self::fetch). Both are fallible: the
/// item in question may have been replaced by a newer one.
pub struct CBufReader<'a, T: CBufItem, const SIZE: usize> {
    /// The buffer's slots.
    buf: &'a [T; SIZE],
    /// The buffer's published index.
    next_ref: &'a CBufIndex<SIZE>,
    /// The index to read from next, when reading sequentially.
    next_local: CBufIndex<SIZE>,
}

/// The inserter of items into a circular buffer.
pub struct CBufWriter<'a, T: CBufItem, const SIZE: usize> {
    /// The buffer's slots.
    pub buf: &'a mut [T; SIZE],
    /// The buffer's published index.
    pub next_ref: &'a mut CBufIndex<SIZE>,
    /// The index to write to next.
    pub next_local: CBufIndex<SIZE>,
}

impl<'a, T: CBufItem, const SIZE: usize> CBufReader<'a, T, SIZE> {
    /// The number of times that fetching an item is tried before it is given up.
    pub const NUM_READ_TRIES: u32 = NUM_READ_TRIES;

    /// The memory of the buffer that is read.
    pub closed spec fn mem(&self) -> Memory<T, SIZE> {
        Memory { buf: self.buf@, next: self.next_ref@ }
    }

    /// The index to read from next, when reading sequentially.
    pub closed spec fn local(&self) -> int {
        self.next_local@
    }

    /// The memory that is read is that of a buffer of `SIZE` slots, and the index to
    /// read from next is one.
    pub proof fn lemma_wf(&self)
        ensures
            self.mem().wf(),
            0 <= self.local() <= usize::MAX,
    {
    }

    /// Makes one try at fetching the next item.
    fn try_once(&self, seq: &mut FetchNextItemSeq<T, SIZE>)
        requires
            size_ok(SIZE as int),
            old(seq).wf(),
            old(seq).progress is IndexCheckPre,
        ensures
            final(seq).wf(),
            *final(seq) == old(seq).after_try(
                *self.next_ref,
                self.mem().item_at(old(seq).next_local@),
                *self.next_ref,
            ),
    {
        seq.index_check_pre(*self.next_ref);
        let slot: usize = seq.slot();
        seq.buffer_read(self.buf[slot]);
        seq.index_check_post(*self.next_ref);
    }

    /// Tries to fetch the item in the buffer immediately after the one fetched by
    /// the previous call.
    ///
    /// * There may not be a next item, if the previously fetched item was the last
    ///   one that has been added to the buffer. In this case,
    ///   [`ReadResult::NoNewItems`] is returned.
    /// * Enough items may have been added since the previously fetched item that
    ///   the intended next item has already been overwritten. In this case,
    ///   [`ReadResult::Skipped`] is returned with either the oldest item in the
    ///   buffer (if `fast_forward` is `false`) or the newest (if it is `true`).
    /// * Otherwise [`ReadResult::Success`] is returned with the item.
    pub fn fetch_next_item(&mut self, fast_forward: bool) -> (r: ReadResult<T>)
        requires
            size_ok(SIZE as int),
        ensures
            final(self).mem() == old(self).mem(),
            r == old(self).mem().next_result(old(self).local(), fast_forward),
            final(self).local() == old(self).mem().next_local(old(self).local(), fast_forward),
    {
        let mut seq: FetchNextItemSeq<T, SIZE> = FetchNextItemSeq::new(
            self.next_local,
            fast_forward,
        );
        let ghost size = SIZE as int;
        let ghost next = self.next_ref@;
        let ghost fell_back = retreat(next, catch_up_offset(size, fast_forward));
        proof {
            lemma_readable_behind(size, next, catch_up_offset(size, fast_forward));
            lemma_advance_adds(size, self.next_local@, 1, 0);
            lemma_advance_adds(size, fell_back, 1, 0);
        }
        loop
            invariant
                *self == *old(self),
                size_ok(size),
                size == SIZE,
                next == self.next_ref@,
                fell_back == retreat(next, catch_up_offset(size, fast_forward)),
                next != 0 ==> readable(size, fell_back, next),
                !readable(size, next, next),
                0 <= advance(size, self.next_local@, 1) <= usize::MAX,
                0 <= advance(size, fell_back, 1) <= usize::MAX,
                seq.wf(),
                seq.fast_forward == fast_forward,
                match seq.progress {
                    Progress::IndexCheckPre => {
                        ||| seq.tries == 0 && !seq.skipped && seq.next_local == self.next_local
                        ||| {
                            &&& seq.tries == 1
                            &&& seq.skipped
                            &&& seq.next_local@ == fell_back
                            &&& self.mem().next_read(self.local(), fast_forward) == Some(
                                (true, fell_back),
                            )
                        }
                    },
                    Progress::Return(r) => {
                        &&& r == self.mem().next_result(self.local(), fast_forward)
                        &&& seq.next_local@ == self.mem().next_local(self.local(), fast_forward)
                    },
                    _ => false,
                },
            decreases
                (if seq.progress is Return {
                    0
                } else {
                    NUM_READ_TRIES - seq.tries
                }),
        {
            match seq.checkpoint() {
                FetchCheckpoint::ReturnVal(r) => {
                    self.next_local = seq.next_local;
                    return r;
                },
                FetchCheckpoint::Step(_) => {
                    self.try_once(&mut seq);
                },
            }
        }
    }

    /// The half-open range of the indexes of the items in the buffer.
    pub fn current_valid_index_range(&self) -> (r: Range<CBufIndex<SIZE>>)
        requires
            size_ok(SIZE as int),
        ensures
            r.start@ == self.mem().oldest(),
            r.end@ == self.mem().next,
    {
        valid_range(*self.next_ref)
    }

    /// Tries to read the item at index `idx` in the buffer. Fails if that item is
    /// not in the buffer.
    pub fn fetch(&self, idx: CBufIndex<SIZE>) -> (r: Result<T, InvalidIndexError>)
        requires
            size_ok(SIZE as int),
        ensures
            match r {
                Ok(v) => self.mem().readable(idx@) && v == self.mem().item_at(idx@),
                Err(_) => !self.mem().readable(idx@),
            },
    {
        let mut seq: FetchSeq<T, SIZE> = FetchSeq::new(idx);
        loop
            invariant
                size_ok(SIZE as int),
                seq.idx == idx,
                match seq.progress {
                    Progress::IndexCheckPre => true,
                    Progress::BufferRead(pre) => pre == *self.next_ref,
                    Progress::IndexCheckPost(pre, item) => {
                        &&& pre == *self.next_ref
                        &&& item == self.mem().item_at(idx@)
                    },
                    Progress::Return(Ok(v)) => {
                        &&& self.mem().readable(idx@)
                        &&& v == self.mem().item_at(idx@)
                    },
                    Progress::Return(Err(_)) => !self.mem().readable(idx@),
                },
            decreases
                (match seq.progress {
                    Progress::IndexCheckPre => 3int,
                    Progress::BufferRead(_) => 2,
                    Progress::IndexCheckPost(_, _) => 1,
                    Progress::Return(_) => 0,
                }),
        {
            match seq.checkpoint() {
                FetchCheckpoint::Step(ReadProtocolStep::IndexCheckPre) => {
                    seq.index_check_pre(*self.next_ref);
                },
                FetchCheckpoint::Step(ReadProtocolStep::BufferRead) => {
                    let slot: usize = seq.slot();
                    seq.buffer_read(self.buf[slot]);
                },
                FetchCheckpoint::Step(ReadProtocolStep::IndexCheckPost) => {
                    seq.index_check_post(*self.next_ref);
                },
                FetchCheckpoint::ReturnVal(r) => {
                    return r;
                },
            }
        }
    }

    /// Tries to read the item at index `idx` in the buffer and returns both an item
    /// and the index actually read.
    ///
    /// If the item has left the buffer, the oldest item in the buffer is read in
    /// its place. Fails if there is no item at or after `idx`.
    pub fn fetch_with_index(&self, idx: CBufIndex<SIZE>) -> (r: FetchWithIndexResult<T, SIZE>)
        requires
            size_ok(SIZE as int),
        ensures
            r == self.mem().indexed_result(idx@),
    {
        let mut seq: FetchWithIndexSeq<T, SIZE> = FetchWithIndexSeq::new(idx);
        proof {
            lemma_readable_behind(SIZE as int, self.next_ref@, SIZE - 1);
        }
        loop
            invariant
                size_ok(SIZE as int),
                self.mem().next != 0 ==> self.mem().readable(self.mem().oldest()),
                !self.mem().readable(self.mem().next),
                seq.wf(),
                seq.idx == idx,
                seq.tries == 0 ==> seq.idx_try == idx,
                seq.tries != 0 ==> {
                    &&& seq.tries == 1
                    &&& seq.idx_try@ == self.mem().oldest()
                    &&& !self.mem().readable(idx@)
                    &&& self.mem().index_fetched(idx@) == if self.mem().next == 0 {
                        None
                    } else {
                        Some(self.mem().oldest())
                    }
                },
                match seq.step {
                    IndexedStep::Fetch(_) => true,
                    IndexedStep::ValidRange => !self.mem().readable(seq.idx_try@),
                    IndexedStep::Return(r) => r == self.mem().indexed_result(idx@),
                },
            decreases
                (match seq.step {
                    IndexedStep::Fetch(_) => 2 * (NUM_READ_TRIES - seq.tries) + 1,
                    IndexedStep::ValidRange => 2 * (NUM_READ_TRIES - seq.tries),
                    IndexedStep::Return(_) => 0,
                }),
        {
            match seq.checkpoint() {
                IndexedStep::Fetch(idx_try) => {
                    seq.fetched(self.fetch(idx_try));
                },
                IndexedStep::ValidRange => {
                    seq.valid_range(self.current_valid_index_range());
                },
                IndexedStep::Return(r) => {
                    return r;
                },
            }
        }
    }

    /// Creates a reader of the buffer whose slots are `buf` and whose published index
    /// is `next_idx`. It starts at the end of the available items.
    ///
    /// Returns `None` if `buf` or `next_idx` is missing.
    pub fn new_from_ptr(
        buf: Option<&'a [T; SIZE]>,
        next_idx: Option<&'a CBufIndex<SIZE>>,
    ) -> (r: Option<Self>)
        requires
            size_ok(SIZE as int),
        ensures
            match (buf, next_idx) {
                (Some(slots), Some(next)) => r matches Some(reader) && {
                    &&& reader.mem() == (Memory::<T, SIZE> { buf: slots@, next: next@ })
                    &&& reader.local() == next@
                },
                _ => r is None,
            },
    {
        match (buf, next_idx) {
            (Some(buf), Some(next_ref)) => Some(
                CBufReader { buf, next_ref, next_local: *next_ref },
            ),
            _ => None,
        }
    }

    /// Sets the index of the next item to read to just past the last item in the
    /// buffer.
    pub fn fast_forward(&mut self)
        ensures
            final(self).mem() == old(self).mem(),
            final(self).local() == old(self).mem().next,
    {
        self.next_local = *self.next_ref;
    }

    /// Sets the index of the next item to read to that of the oldest item in the
    /// buffer.
    pub fn rewind(&mut self)
        requires
            size_ok(SIZE as int),
        ensures
            final(self).mem() == old(self).mem(),
            final(self).local() == old(self).mem().oldest(),
    {
        self.next_local = *self.next_ref - (SIZE - 1);
    }

    /// The index of the next item to read, when reading sequentially.
    pub fn current_next_index(&self) -> (r: CBufIndex<SIZE>)
        ensures
            r@ == self.local(),
    {
        self.next_local
    }

    /// Returns an iterator that calls [`fetch_next_item`](Self::fetch_next_item)
    /// repeatedly until the last item in the buffer has been read.
    pub fn available_items_iter<'b>(&'b mut self, fast_forward: bool) -> (r: ReaderIterator<
        'b,
        'a,
        T,
        SIZE,
    >)
        ensures
            *r.reader == *old(self),
            *final(r.reader) == *final(self),
            r.fast_forward == fast_forward,
            !r.is_done,
    {
        ReaderIterator { reader: self, fast_forward, is_done: false }
    }

    /// Returns a reader of the same buffer that reads from `next` on.
    pub fn reader_starting_at(&self, next: CBufIndex<SIZE>) -> (r: Self)
        ensures
            r.mem() == self.mem(),
            r.local() == next@,
    {
        CBufReader { buf: self.buf, next_ref: self.next_ref, next_local: next }
    }

    /// Fetches the item at `idx`, or a later one in its place, and asks `predicate`
    /// about it. Returns the answer and the index of the item.
    fn test_with_index<F: Fn(T) -> bool>(&self, idx: CBufIndex<SIZE>, predicate: &F) -> (r: Option<
        (bool, CBufIndex<SIZE>),
    >)
        requires
            size_ok(SIZE as int),
            self.mem().is_covered_by(*predicate),
        ensures
            self.mem().may_test(*predicate, idx@, r),
    {
        proof {
            if self.mem().index_fetched(idx@) is Some {
                self.mem().lemma_fetched(idx@);
            }
        }
        test_fetched(self.fetch_with_index(idx), predicate)
    }

    /// Whether `found` is what a search by this reader for an item of which the
    /// predicate `f` holds comes to: the index of the item that is found, if one is.
    pub open spec fn search_comes_to<F: Fn(T) -> bool>(
        &self,
        f: F,
        fromstart: bool,
        found: Option<int>,
    ) -> bool {
        let from = if fromstart {
            self.mem().oldest()
        } else {
            self.local()
        };
        let start = SearchSeq::start(CBufIndex { idx: self.local() as usize }, fromstart);
        &&& self.mem().finds(f, from, found)
        &&& exists|events: Seq<SearchEvent<SIZE>>|
            {
                &&& #[trigger] self.mem().is_run(f, start, events)
                &&& match found {
                    Some(idx) => start.run(events).step == SearchStep::Found(
                        CBufIndex::<SIZE> { idx: idx as usize },
                    ),
                    None => start.run(events).step is NotFound,
                }
            }
    }

    /// Returns a reader of the same buffer that reads from the first item on that
    /// makes `predicate` true.
    ///
    /// The items must be sorted by `predicate`, those that make it false before
    /// those that make it true. If they are not, the item that is found makes the
    /// predicate true, but need not be the first that does, and it may be that no
    /// item is found though there is one.
    ///
    /// If `fromstart` is set, all the items in the buffer are searched, otherwise
    /// those from [`current_next_index`](Self::current_next_index) on.
    pub fn search<F: Fn(T) -> bool>(&self, predicate: &F, fromstart: bool) -> (r: Result<
        Self,
        InvalidIndexError,
    >)
        requires
            size_ok(SIZE as int),
            self.mem().is_covered_by(*predicate),
        ensures
            match r {
                Ok(found) => {
                    &&& found.mem() == self.mem()
                    &&& self.search_comes_to(*predicate, fromstart, Some(found.local()))
                },
                Err(_) => self.search_comes_to(*predicate, fromstart, None),
            },
    {
        let mut seq: SearchSeq<SIZE> = SearchSeq::new(self.next_local, fromstart);
        let ghost mem = self.mem();
        let ghost f = *predicate;
        let ghost start = seq;
        let ghost from = if fromstart {
            mem.oldest()
        } else {
            self.local()
        };
        let ghost mut events = Seq::<SearchEvent<SIZE>>::empty();
        let ghost mut ab = (0int, 0int);
        proof {
            mem.lemma_search_starts(f, from, self.next_local, fromstart);
        }
        loop
            invariant
                size_ok(SIZE as int),
                mem == self.mem(),
                mem.wf(),
                f == *predicate,
                mem.is_covered_by(f),
                start == SearchSeq::start(self.next_local, fromstart),
                from == if fromstart {
                    mem.oldest()
                } else {
                    self.local()
                },
                0 <= from <= usize::MAX,
                mem.is_run(f, start, events),
                seq == start.run(events),
                mem.search_stands(f, from, seq, ab.0, ab.1),
            decreases mem.search_left(seq.step, ab.0, ab.1),
        {
            let ghost before = seq;
            let ghost event;
            match seq.checkpoint() {
                SearchStep::ValidRange => {
                    let valids = self.current_valid_index_range();
                    proof {
                        event = SearchEvent::Range(valids.start, valids.end);
                    }
                    seq.valid_range(valids);
                },
                SearchStep::First(idx) => {
                    let found = self.test_with_index(idx, predicate);
                    proof {
                        event = SearchEvent::First(found);
                    }
                    seq.first(found);
                },
                SearchStep::Last(idx) => {
                    let found = match self.fetch(idx) {
                        Ok(v) => Some(predicate(v)),
                        Err(_) => None,
                    };
                    proof {
                        event = SearchEvent::Last(found);
                    }
                    seq.last(found);
                },
                SearchStep::Middle(idx) => {
                    let found = self.test_with_index(idx, predicate);
                    proof {
                        event = SearchEvent::Middle(found);
                    }
                    seq.middle(found);
                },
                SearchStep::Found(idx) => {
                    proof {
                        mem.lemma_search_ends(f, from, seq, ab.0, ab.1);
                    }
                    return Ok(self.reader_starting_at(idx));
                },
                SearchStep::NotFound => {
                    proof {
                        mem.lemma_search_ends(f, from, seq, ab.0, ab.1);
                    }
                    return Err(InvalidIndexError(()));
                },
            }
            proof {
                ab = mem.lemma_search_step(f, from, before, event, ab.0, ab.1);
                assert(events.push(event).drop_last() =~= events);
                events = events.push(event);
            }
        }
    }
}

impl<'a, T: CBufItem, const SIZE: usize> Clone for CBufReader<'a, T, SIZE> {
    fn clone(&self) -> (r: Self)
        ensures
            r == *self,
    {
        CBufReader { buf: self.buf, next_ref: self.next_ref, next_local: self.next_local }
    }
}

/// The items that a reader has yet to read.
pub struct ReaderIterator<'b, 'a, T: CBufItem, const SIZE: usize> {
    /// The reader.
    pub reader: &'b mut CBufReader<'a, T, SIZE>,
    /// Whether the reader, if it has fallen behind, goes on with the newest item.
    pub fast_forward: bool,
    /// Whether the last item has been read.
    pub is_done: bool,
}

impl<'b, 'a, T: CBufItem, const SIZE: usize> ReaderIterator<'b, 'a, T, SIZE> {
    /// Fetches the next item. Returns `None` once there are no new items, and from
    /// then on.
    pub fn next(&mut self) -> (r: Option<ReadResult<T>>)
        requires
            size_ok(SIZE as int),
        ensures
            final(self).fast_forward == old(self).fast_forward,
            final(self).reader.mem() == old(self).reader.mem(),
            *final(final(self).reader) == *final(old(self).reader),
            ({
                let mem = old(self).reader.mem();
                let local = old(self).reader.local();
                let result = mem.next_result(local, old(self).fast_forward);
                if old(self).is_done || result is NoNewItems {
                    &&& r is None
                    &&& final(self).is_done
                    &&& final(self).reader.local() == local
                } else {
                    &&& r == Some(result)
                    &&& !final(self).is_done
                    &&& final(self).reader.local() == mem.next_local(
                        local,
                        old(self).fast_forward,
                    )
                }
            }),
    {
        if self.is_done {
            return None;
        }
        let result = self.reader.fetch_next_item(self.fast_forward);
        yielded(result, &mut self.is_done)
    }
}

/// The items that a buffer holds, from some item on.
pub struct WriterIterator<'b, T: CBufItem, const SIZE: usize> {
    /// The buffer's slots.
    buf: &'b [T; SIZE],
    /// The index of the next item.
    idx: CBufIndex<SIZE>,
    /// The index after that of the last item.
    writer_next: CBufIndex<SIZE>,
}

impl<'b, T: CBufItem, const SIZE: usize> WriterIterator<'b, T, SIZE> {
    /// The next item does not come after the last.
    #[verifier::type_invariant]
    spec fn is_ordered(self) -> bool {
        self.idx@ <= self.writer_next@
    }

    /// Starts with the oldest item of the buffer whose slots are `buf` and at whose
    /// index `next` the writer writes next.
    pub fn new(buf: &'b [T; SIZE], next: CBufIndex<SIZE>) -> (r: Self)
        requires
            size_ok(SIZE as int),
        ensures
            r.remaining() == (Memory::<T, SIZE> { buf: buf@, next: next@ }).items(
                retreat(next@, SIZE - 1),
                next@,
            ),
    {
        let valids = valid_range(next);
        WriterIterator { buf, idx: valids.start, writer_next: valids.end }
    }

    /// The items that are still to come.
    pub closed spec fn remaining(&self) -> Seq<T> {
        Memory::<T, SIZE> { buf: self.buf@, next: self.writer_next@ }.items(
            self.idx@,
            self.writer_next@,
        )
    }

    /// Returns the next item, if there is one.
    pub fn next(&mut self) -> (r: Option<T>)
        requires
            size_ok(SIZE as int),
        ensures
            if old(self).remaining().len() == 0 {
                &&& r is None
                &&& final(self).remaining() == old(self).remaining()
            } else {
                &&& r == Some(old(self).remaining()[0])
                &&& final(self).remaining() == old(self).remaining().drop_first()
            },
    {
        proof {
            use_type_invariant(&*self);
        }
        if self.idx == self.writer_next {
            return None;
        }
        let item = self.buf[self.idx.slot()];
        self.idx = self.idx + 1;
        assert(self.remaining() =~= old(self).remaining().drop_first());
        Some(item)
    }
}

impl<T: CBufItem, const SIZE: usize> CBuf<T, SIZE> {
    /// Constructs a new, logically empty buffer.
    ///
    /// `filler_item` only initializes the slots; no reader is ever given it.
    pub fn new(filler_item: T) -> (r: Self)
        requires
            size_ok(SIZE as int),
        ensures
            r@ == Memory::<T, SIZE>::empty(filler_item),
    {
        let r = CBuf { buf: [filler_item; SIZE], next: CBufIndex::new(0) };
        assert(r.buf@ =~= Seq::new(SIZE as nat, |i: int| filler_item));
        r
    }

    /// Puts the buffer `p`, if there is one, back into the logically empty state,
    /// and fills its slots with `filler_item`.
    pub fn initialize(p: Option<&mut Self>, filler_item: T)
        requires
            size_ok(SIZE as int),
        ensures
            p matches Some(cbuf) ==> final(cbuf)@ == Memory::<T, SIZE>::empty(filler_item),
    {
        if let Some(cbuf) = p {
            let mut i: usize = 0;
            while i < SIZE
                invariant
                    i <= SIZE,
                    forall|k: int| 0 <= k < i ==> cbuf.buf@[k] == filler_item,
                decreases SIZE - i,
            {
                cbuf.buf[i] = filler_item;
                i = i + 1;
            }
            cbuf.next = CBufIndex::new(0);
            assert(cbuf.buf@ =~= Seq::new(SIZE as nat, |k: int| filler_item));
        }
    }

    /// Returns the writer that adds items to the buffer.
    pub fn as_writer<'a>(&'a mut self) -> (r: CBufWriter<'a, T, SIZE>)
        ensures
            r.mem() == old(self)@,
            r.next_local@ == old(self)@.next,
            final(self)@ == (Memory::<T, SIZE> { buf: final(r.buf)@, next: final(r.next_ref)@ }),
    {
        let next_local = self.next;
        CBufWriter { buf: &mut self.buf, next_ref: &mut self.next, next_local }
    }

    /// Returns a reader of the buffer. It starts at the end of the available items.
    pub fn as_reader<'a>(&'a self) -> (r: CBufReader<'a, T, SIZE>)
        ensures
            r.mem() == self@,
            r.local() == self@.next,
    {
        CBufReader { buf: &self.buf, next_ref: &self.next, next_local: self.next }
    }

    /// The slots of the buffer and its published index.
    ///
    /// [`CBufReader::new_from_ptr`] makes a reader of them.
    pub fn as_ptrs(&self) -> (r: (&[T; SIZE], &CBufIndex<SIZE>))
        ensures
            self@ == (Memory::<T, SIZE> { buf: r.0@, next: r.1@ }),
    {
        (&self.buf, &self.next)
    }

    /// The slots of the buffer and its published index, for writing.
    ///
    /// [`CBufWriter::new_from_ptr`] makes a writer of them.
    pub fn as_mut_ptrs(&mut self) -> (r: (&mut [T; SIZE], &mut CBufIndex<SIZE>))
        ensures
            old(self)@ == (Memory::<T, SIZE> { buf: r.0@, next: r.1@ }),
            final(self)@ == (Memory::<T, SIZE> { buf: final(r.0)@, next: final(r.1)@ }),
    {
        (&mut self.buf, &mut self.next)
    }
}

impl<T: CBufItem + Default, const SIZE: usize> CBuf<T, SIZE> {
    /// Constructs a new, logically empty buffer whose slots are filled with the
    /// default value of `T`.
    pub fn new_with_default() -> (r: Self)
        requires
            size_ok(SIZE as int),
        ensures
            exists|filler_item: T| #[trigger]
                call_ensures(T::default, (), filler_item) && r@ == Memory::<T, SIZE>::empty(
                    filler_item,
                ),
    {
        Self::new(T::default())
    }

    /// Puts the buffer `p`, if there is one, back into the logically empty state,
    /// and fills its slots with the default value of `T`.
    pub fn initialize_with_default(p: Option<&mut Self>)
        requires
            size_ok(SIZE as int),
        ensures
            p matches Some(cbuf) ==> exists|filler_item: T| #[trigger]
                call_ensures(T::default, (), filler_item) && final(cbuf)@ == Memory::<
                    T,
                    SIZE,
                >::empty(filler_item),
    {
        Self::initialize(p, T::default());
    }
}

impl<'a, T: CBufItem, const SIZE: usize> CBufWriter<'a, T, SIZE> {
    /// The memory of the buffer that is written to.
    pub open spec fn mem(&self) -> Memory<T, SIZE> {
        Memory { buf: self.buf@, next: self.next_ref@ }
    }

    /// Creates the writer of the buffer whose slots are `buf` and whose published
    /// index is `next_idx`.
    ///
    /// Returns `None` if `buf` or `next_idx` is missing.
    pub fn new_from_ptr(
        buf: Option<&'a mut [T; SIZE]>,
        next_idx: Option<&'a mut CBufIndex<SIZE>>,
    ) -> (r: Option<Self>)
        requires
            size_ok(SIZE as int),
        ensures
            match (buf, next_idx) {
                (Some(slots), Some(next)) => r matches Some(writer) && {
                    &&& writer.mem() == (Memory::<T, SIZE> { buf: slots@, next: next@ })
                    &&& writer.next_local@ == next@
                    &&& *final(writer.buf) == *final(slots)
                    &&& *final(writer.next_ref) == *final(next)
                },
                _ => r is None,
            },
    {
        match (buf, next_idx) {
            (Some(buf), Some(next_ref)) => {
                let next_local = *next_ref;
                Some(CBufWriter { buf, next_ref, next_local })
            },
            _ => None,
        }
    }

    /// Inserts `item` as the newest item in the buffer.
    ///
    /// If the buffer is full (contains `SIZE - 1` items), the oldest item is
    /// implicitly removed from it.
    pub fn add_item(&mut self, item: T)
        requires
            size_ok(SIZE as int),
        ensures
            final(self).mem() == old(self).mem().with_item(old(self).next_local@, item),
            final(self).next_local@ == advance(SIZE as int, old(self).next_local@, 1),
            *final(final(self).buf) == *final(old(self).buf),
            *final(final(self).next_ref) == *final(old(self).next_ref),
    {
        let mut seq: AddItemSeq<T, SIZE> = AddItemSeq::new(self.next_local, item);
        loop
            invariant
                size_ok(SIZE as int),
                self.next_local == old(self).next_local,
                seq.next_local == self.next_local,
                seq.item == item,
                *final(self.buf) == *final(old(self).buf),
                *final(self.next_ref) == *final(old(self).next_ref),
                match seq.step {
                    Some(WriteProtocolStep::PreWrite) => self.mem() == old(self).mem(),
                    Some(WriteProtocolStep::BufferWrite) => self.mem() == old(self).mem(),
                    Some(WriteProtocolStep::IndexPostUpdate) => self.mem().buf == old(
                        self,
                    ).mem().with_item(self.next_local@, item).buf,
                    None => self.mem() == old(self).mem().with_item(self.next_local@, item),
                },
            decreases
                (match seq.step {
                    Some(WriteProtocolStep::PreWrite) => 3int,
                    Some(WriteProtocolStep::BufferWrite) => 2,
                    Some(WriteProtocolStep::IndexPostUpdate) => 1,
                    None => 0,
                }),
        {
            match seq.checkpoint() {
                Some(WriteProtocolStep::PreWrite) => {},
                Some(WriteProtocolStep::BufferWrite) => {
                    let slot: usize = seq.slot();
                    self.buf[slot] = seq.item;
                },
                Some(WriteProtocolStep::IndexPostUpdate) => {
                    *self.next_ref = seq.next_next();
                },
                None => {
                    self.next_local = seq.next_next();
                    return ;
                },
            }
            seq.step_done();
        }
    }

    /// Returns an iterator over the items in the buffer, the oldest first.
    pub fn current_items_iter<'b>(&'b mut self) -> (r: WriterIterator<'b, T, SIZE>)
        requires
            size_ok(SIZE as int),
        ensures
            *final(self) == *old(self),
            r.remaining() == old(self).mem().items(
                retreat(old(self).next_local@, SIZE - 1),
                old(self).next_local@,
            ),
    {
        WriterIterator::new(&*self.buf, self.next_local)
    }

    /// Returns a reader of the buffer. It starts at the oldest item.
    pub fn as_reader<'b>(&'b mut self) -> (r: CBufReader<'b, T, SIZE>)
        requires
            size_ok(SIZE as int),
        ensures
            r.mem() == old(self).mem(),
            r.local() == retreat(old(self).next_local@, SIZE - 1),
            *final(self) == *old(self),
    {
        CBufReader {
            buf: &*self.buf,
            next_ref: &*self.next_ref,
            next_local: self.next_local - (SIZE - 1),
        }
    }
}

} // verus!
