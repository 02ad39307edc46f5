//! What the operations on a buffer promise, and how their results relate.
//!
//! Each law is about the results of calls: whatever a call may return, the law holds of
//! it. What a buffer holds is told by its history, all the items that were published.
use crate::buffer::{
    lemma_readable_behind, CBuf, CBufReader, CBufWriter, Memory, ReaderIterator, WriterIterator,
};
use crate::history::{
    follows, lemma_add_item, lemma_current_items_are_right, lemma_empty, lemma_fetch_is_right,
    lemma_fetch_with_index_is_right, lemma_items_after_are_right, lemma_next_item_is_right,
    lemma_nothing_beyond_the_end, lemma_only_published_items_are_read, lemma_tracks_back,
    lemma_tracks_end, lemma_tracks_readable, tracks, History, Snapshot, Try,
};
use crate::index::{
    lemma_advance_adds, lemma_advance_mod, lemma_advance_unfold, lemma_gap_advance, lemma_gap_back,
    lemma_precedes_advance, lemma_precedes_one_way, lemma_ring, lemma_steps, retreat, ring_len,
    size_ok, CBufIndex,
};
use crate::index_laws::is_sum;
use crate::protocol::{
    lemma_readable_window, CBufItem, FetchWithIndexResult, InvalidIndexError, ReadResult,
    SearchEvent, SearchSeq, SearchStep,
};
use crate::search::{answers_as, roomy, says};
use core::ops::{Range, Sub};
use vstd::arithmetic::logarithm::log;
use vstd::prelude::*;

verus! {

/// Whether `i` is what the reader says is the index that it reads from next.
pub open spec fn is_next_index<'a, T: CBufItem, const SIZE: usize>(
    r: &CBufReader<'a, T, SIZE>,
    i: CBufIndex<SIZE>,
) -> bool {
    call_ensures(CBufReader::<'a, T, SIZE>::current_next_index, (r,), i)
}

/// Whether `fetched` is what fetching the item at `idx` comes to.
pub open spec fn is_fetched<'a, T: CBufItem, const SIZE: usize>(
    r: &CBufReader<'a, T, SIZE>,
    idx: CBufIndex<SIZE>,
    fetched: Result<T, InvalidIndexError>,
) -> bool {
    call_ensures(CBufReader::<'a, T, SIZE>::fetch, (r, idx), fetched)
}

/// Whether `range` is the range of the valid indexes.
pub open spec fn is_valid_range<'a, T: CBufItem, const SIZE: usize>(
    r: &CBufReader<'a, T, SIZE>,
    range: Range<CBufIndex<SIZE>>,
) -> bool {
    call_ensures(CBufReader::<'a, T, SIZE>::current_valid_index_range, (r,), range)
}

/// Until the indexes wrap, an index is the number of the items that were published before
/// the one that it is the index of.
pub proof fn lemma_indexes_count(size: int, p: int, n: int)
    requires
        size_ok(size),
        0 <= p <= n <= usize::MAX,
    ensures
        follows(size, p, p, n),
{
}

/// An index that has the position `p` cannot be mistaken for another one for as long as
/// fewer items are published after it than there are indexes on the ring.
pub proof fn lemma_positions_are_in_reach(size: int, local: int, p: int, n: int)
    requires
        tracks(size, local, p, n),
        n - p < usize::MAX + 1 - size,
    ensures
        follows(size, local, p, n),
{
}

/// A new buffer is empty, and its slots are filled.
pub proof fn lemma_new_is_empty<T: CBufItem, const SIZE: usize>(filler: T, c: CBuf<T, SIZE>)
    requires
        size_ok(SIZE as int),
        call_ensures(CBuf::<T, SIZE>::new, (filler,), c),
    ensures
        c@.wf(),
        (History { log: Seq::<T>::empty(), pending: None }).recorded_in(c@),
        c@.next == 0,
        c@.buf == Seq::new(SIZE as nat, |k: int| filler),
{
    lemma_empty::<T, SIZE>(filler);
}

/// A buffer that has been initialized again is empty, and its slots are filled.
pub proof fn lemma_initialized_is_empty<T: CBufItem, const SIZE: usize>(
    c: &mut CBuf<T, SIZE>,
    filler: T,
)
    requires
        size_ok(SIZE as int),
        call_ensures(CBuf::<T, SIZE>::initialize, (Some(c), filler), ()),
    ensures
        final(c)@.wf(),
        (History { log: Seq::<T>::empty(), pending: None }).recorded_in(final(c)@),
        final(c)@.next == 0,
        final(c)@.buf == Seq::new(SIZE as nat, |k: int| filler),
{
    lemma_empty::<T, SIZE>(filler);
}

/// A new buffer that is filled with the default value is empty.
pub proof fn lemma_new_with_default_is_empty<T: CBufItem + Default, const SIZE: usize>(
    c: CBuf<T, SIZE>,
)
    requires
        size_ok(SIZE as int),
        call_ensures(CBuf::<T, SIZE>::new_with_default, (), c),
    ensures
        c@.wf(),
        (History { log: Seq::<T>::empty(), pending: None }).recorded_in(c@),
        exists|filler: T| #[trigger]
            call_ensures(T::default, (), filler) && c@.buf == Seq::new(
                SIZE as nat,
                |k: int| filler,
            ),
{
    let filler = choose|filler: T| #[trigger]
        call_ensures(T::default, (), filler) && c@ == Memory::<T, SIZE>::empty(filler);
    lemma_empty::<T, SIZE>(filler);
}

/// A buffer that has been initialized again with the default value is empty.
pub proof fn lemma_initialized_with_default_is_empty<T: CBufItem + Default, const SIZE: usize>(
    c: &mut CBuf<T, SIZE>,
)
    requires
        size_ok(SIZE as int),
        call_ensures(CBuf::<T, SIZE>::initialize_with_default, (Some(c),), ()),
    ensures
        final(c)@.wf(),
        (History { log: Seq::<T>::empty(), pending: None }).recorded_in(final(c)@),
        exists|filler: T| #[trigger]
            call_ensures(T::default, (), filler) && final(c)@.buf == Seq::new(
                SIZE as nat,
                |k: int| filler,
            ),
{
    let filler = choose|filler: T| #[trigger]
        call_ensures(T::default, (), filler) && final(c)@ == Memory::<T, SIZE>::empty(filler);
    lemma_empty::<T, SIZE>(filler);
}

/// The writer of a buffer writes to that buffer, at its end, and what it leaves behind is
/// what the buffer then is.
pub proof fn lemma_writer_is_of_buffer<'a, T: CBufItem, const SIZE: usize>(
    c: &'a mut CBuf<T, SIZE>,
    w: CBufWriter<'a, T, SIZE>,
)
    requires
        call_ensures(CBuf::<T, SIZE>::as_writer, (c,), w),
    ensures
        old(w.buf)@ == old(c)@.buf,
        old(w.next_ref)@ == old(c)@.next,
        w.next_local@ == old(c)@.next,
        final(c)@.buf == final(w.buf)@,
        final(c)@.next == final(w.next_ref)@,
{
}

/// Adding an item at the end of a buffer adds it to the end of the history, and the writer
/// is at the end again.
pub proof fn lemma_add_item_publishes<'a, T: CBufItem, const SIZE: usize>(
    w: &mut CBufWriter<'a, T, SIZE>,
    h: History<T>,
    item: T,
)
    requires
        size_ok(SIZE as int),
        h.recorded_in(old(w).mem()),
        h.pending is None,
        old(w).next_local@ == old(w).next_ref@,
        call_ensures(CBufWriter::<'a, T, SIZE>::add_item, (w, item), ()),
    ensures
        (History { log: h.log.push(item), pending: None }).recorded_in(final(w).mem()),
        final(w).next_local@ == final(w).next_ref@,
        *final(final(w).buf) == *final(old(w).buf),
        *final(final(w).next_ref) == *final(old(w).next_ref),
{
    lemma_add_item(h, old(w).mem(), item);
}

/// Adding an item at any index writes it to the slot of that index, leaves the other slots
/// alone, publishes the next index and goes on to it.
pub proof fn lemma_add_item_for_every_index<'a, T: CBufItem, const SIZE: usize>(
    w: &mut CBufWriter<'a, T, SIZE>,
    item: T,
    slot: usize,
    next: CBufIndex<SIZE>,
)
    requires
        size_ok(SIZE as int),
        call_ensures(CBufWriter::<'a, T, SIZE>::add_item, (w, item), ()),
        call_ensures(CBufIndex::<SIZE>::slot, (old(w).next_local,), slot),
        is_sum(old(w).next_local, 1, next),
    ensures
        final(w).buf@ == old(w).buf@.update(slot as int, item),
        *final(w).next_ref == next,
        final(w).next_local == next,
{
    lemma_advance_adds(SIZE as int, old(w).next_local@, 1, 0);
}

/// The parts of a buffer, for reading, are what the buffer is.
pub proof fn lemma_parts_for_reading<'a, T: CBufItem, const SIZE: usize>(
    c: &'a CBuf<T, SIZE>,
    parts: (&'a [T; SIZE], &'a CBufIndex<SIZE>),
)
    requires
        call_ensures(CBuf::<T, SIZE>::as_ptrs, (c,), parts),
    ensures
        parts.0@ == c@.buf,
        parts.1@ == c@.next,
{
}

/// A reader that is made of slots and an index reads a buffer that is made up of them, and
/// starts at the index.
pub proof fn lemma_reader_of_parts<'a, T: CBufItem, const SIZE: usize>(
    slots: &'a [T; SIZE],
    next: &'a CBufIndex<SIZE>,
    h: History<T>,
    r: Option<CBufReader<'a, T, SIZE>>,
    i: CBufIndex<SIZE>,
)
    requires
        size_ok(SIZE as int),
        h.recorded_in(Memory::<T, SIZE> { buf: slots@, next: next@ }),
        call_ensures(CBufReader::<'a, T, SIZE>::new_from_ptr, (Some(slots), Some(next)), r),
        r matches Some(reader) ==> is_next_index(&reader, i),
    ensures
        r matches Some(reader) && h.recorded_in(reader.mem()) && i == *next,
{
}

/// A copy of a reader reads the same buffer from the same index on.
pub proof fn lemma_copy_of_reader<'a, T: CBufItem, const SIZE: usize>(
    r: &CBufReader<'a, T, SIZE>,
    copy: CBufReader<'a, T, SIZE>,
    i: CBufIndex<SIZE>,
    j: CBufIndex<SIZE>,
)
    requires
        call_ensures(CBufReader::<'a, T, SIZE>::clone, (r,), copy),
        is_next_index(r, i),
        is_next_index(&copy, j),
    ensures
        copy.mem() == r.mem(),
        i == j,
{
}

/// A reader that is made by a buffer reads that buffer and starts at its end. So does one
/// that is made of the buffer's slots and its index.
pub proof fn lemma_reader_starts_at_the_end<'a, T: CBufItem, const SIZE: usize>(
    c: &'a CBuf<T, SIZE>,
    h: History<T>,
    parts: (&'a [T; SIZE], &'a CBufIndex<SIZE>),
    r: CBufReader<'a, T, SIZE>,
    r2: Option<CBufReader<'a, T, SIZE>>,
    i: CBufIndex<SIZE>,
    i2: CBufIndex<SIZE>,
)
    requires
        size_ok(SIZE as int),
        h.recorded_in(c@),
        call_ensures(CBuf::<T, SIZE>::as_reader, (c,), r),
        is_next_index(&r, i),
        call_ensures(CBuf::<T, SIZE>::as_ptrs, (c,), parts),
        call_ensures(
            CBufReader::<'a, T, SIZE>::new_from_ptr,
            (Some(parts.0), Some(parts.1)),
            r2,
        ),
        r2 matches Some(reader) ==> is_next_index(&reader, i2),
    ensures
        h.recorded_in(r.mem()),
        tracks(SIZE as int, i@, h.len(), h.len()),
        r2 matches Some(reader) && h.recorded_in(reader.mem()) && i2 == i,
{
    lemma_tracks_end(SIZE as int, h.len());
}

/// A reader that is made by the writer reads the writer's buffer and starts at the oldest
/// item in it. The writer is left as it was.
pub proof fn lemma_writers_reader_starts_at_the_oldest<'a, 'b, T: CBufItem, const SIZE: usize>(
    w: &'b mut CBufWriter<'a, T, SIZE>,
    h: History<T>,
    r: CBufReader<'b, T, SIZE>,
    i: CBufIndex<SIZE>,
)
    requires
        size_ok(SIZE as int),
        h.recorded_in(old(w).mem()),
        old(w).next_local@ == old(w).next_ref@,
        call_ensures(CBufWriter::<'a, T, SIZE>::as_reader, (w,), r),
        is_next_index(&r, i),
    ensures
        h.recorded_in(r.mem()),
        tracks(
            SIZE as int,
            i@,
            if h.len() < SIZE {
                0
            } else {
                h.len() - SIZE + 1
            },
            h.len(),
        ),
        *final(w) == *old(w),
{
    lemma_tracks_back(SIZE as int, h.len(), SIZE - 1);
}

/// Without slots or without an index there is no reader.
pub proof fn lemma_no_reader_of_nothing<'a, T: CBufItem, const SIZE: usize>(
    buf: Option<&'a [T; SIZE]>,
    next_idx: Option<&'a CBufIndex<SIZE>>,
    r: Option<CBufReader<'a, T, SIZE>>,
)
    requires
        size_ok(SIZE as int),
        call_ensures(CBufReader::<'a, T, SIZE>::new_from_ptr, (buf, next_idx), r),
    ensures
        r is Some <==> buf is Some && next_idx is Some,
{
}

/// The writer that is made of a buffer's slots and its index is like the one that the
/// buffer makes. Without slots or without an index there is none.
pub proof fn lemma_writer_of_parts<'a, T: CBufItem, const SIZE: usize>(
    buf: Option<&'a mut [T; SIZE]>,
    next_idx: Option<&'a mut CBufIndex<SIZE>>,
    w: Option<CBufWriter<'a, T, SIZE>>,
)
    requires
        size_ok(SIZE as int),
        call_ensures(CBufWriter::<'a, T, SIZE>::new_from_ptr, (buf, next_idx), w),
    ensures
        w is Some <==> buf is Some && next_idx is Some,
        w matches Some(writer) ==> {
            &&& buf matches Some(slots) && *writer.buf == *slots && *final(writer.buf)
                == *final(slots)
            &&& next_idx matches Some(next) && *writer.next_ref == *next
                && *final(writer.next_ref) == *final(next)
            &&& writer.next_local == *writer.next_ref
        },
{
}

/// The parts of a buffer, for writing, are what the buffer is.
pub proof fn lemma_parts_are_of_buffer<'a, T: CBufItem, const SIZE: usize>(
    c: &'a mut CBuf<T, SIZE>,
    parts: (&'a mut [T; SIZE], &'a mut CBufIndex<SIZE>),
)
    requires
        call_ensures(CBuf::<T, SIZE>::as_mut_ptrs, (c,), parts),
    ensures
        old(parts.0)@ == old(c)@.buf,
        old(parts.1)@ == old(c)@.next,
        final(c)@.buf == final(parts.0)@,
        final(c)@.next == final(parts.1)@,
{
}

/// Going to the end, going back to the oldest item and going to an index move the reader
/// there and leave it with its buffer.
pub proof fn lemma_reader_moves<'a, T: CBufItem, const SIZE: usize>(
    r: &CBufReader<'a, T, SIZE>,
    forward: &mut CBufReader<'a, T, SIZE>,
    back: &mut CBufReader<'a, T, SIZE>,
    there: CBufReader<'a, T, SIZE>,
    h: History<T>,
    to: CBufIndex<SIZE>,
    range: Range<CBufIndex<SIZE>>,
    i: CBufIndex<SIZE>,
    j: CBufIndex<SIZE>,
    k: CBufIndex<SIZE>,
)
    requires
        size_ok(SIZE as int),
        h.recorded_in(r.mem()),
        *old(forward) == *r,
        *old(back) == *r,
        is_valid_range(r, range),
        call_ensures(CBufReader::<'a, T, SIZE>::fast_forward, (forward,), ()),
        is_next_index(&*final(forward), i),
        call_ensures(CBufReader::<'a, T, SIZE>::rewind, (back,), ()),
        is_next_index(&*final(back), j),
        call_ensures(CBufReader::<'a, T, SIZE>::reader_starting_at, (r, to), there),
        is_next_index(&there, k),
    ensures
        h.recorded_in(final(forward).mem()),
        h.recorded_in(final(back).mem()),
        h.recorded_in(there.mem()),
        i == range.end,
        j == range.start,
        k == to,
        tracks(SIZE as int, i@, h.len(), h.len()),
        tracks(
            SIZE as int,
            j@,
            if h.len() < SIZE {
                0
            } else {
                h.len() - SIZE + 1
            },
            h.len(),
        ),
{
    lemma_tracks_end(SIZE as int, h.len());
    lemma_tracks_back(SIZE as int, h.len(), SIZE - 1);
}

/// The valid indexes are those of the items in the buffer: the end of the range is the
/// index of the next item to be published, and its start that of the oldest item in the
/// buffer. As many indexes lie between the two as there are items in the buffer, and the
/// start is less than the end unless there are none.
pub proof fn lemma_valid_range_counts<'a, T: CBufItem, const SIZE: usize>(
    r: &CBufReader<'a, T, SIZE>,
    h: History<T>,
    range: Range<CBufIndex<SIZE>>,
    count: Option<usize>,
    is_less: bool,
)
    requires
        CBufIndex::<SIZE>::is_size_ok(),
        h.recorded_in(r.mem()),
        is_valid_range(r, range),
        call_ensures(
            <CBufIndex<SIZE> as Sub<CBufIndex<SIZE>>>::sub,
            (range.end, range.start),
            count,
        ),
        call_ensures(CBufIndex::<SIZE>::lt, (&range.start, &range.end), is_less),
    ensures
        tracks(SIZE as int, range.end@, h.len(), h.len()),
        tracks(
            SIZE as int,
            range.start@,
            if h.len() < SIZE {
                0
            } else {
                h.len() - SIZE + 1
            },
            h.len(),
        ),
        range.end@ - range.start@ == if h.len() < SIZE {
            h.len()
        } else {
            SIZE - 1
        },
        4 * SIZE <= usize::MAX + 1 ==> {
            &&& count matches Some(c) && c == range.end@ - range.start@
            &&& is_less <==> 0 < h.len()
        },
{
    let size = SIZE as int;
    let n = h.len();
    lemma_ring(size);
    lemma_tracks_end(size, n);
    lemma_tracks_back(size, n, size - 1);
    lemma_advance_adds(size, 0, n, 0);
    if n > usize::MAX {
        lemma_advance_mod(size, 0, n);
    }
    let d = range.end@ - range.start@;
    lemma_gap_advance(size, range.start@, d);
    lemma_gap_back(size, range.start@, range.end@);
    if roomy(size) && 0 < d {
        lemma_precedes_advance(size, range.start@, d);
    }
}

/// What is fetched at the index of an item is that item, if it is one of the latest
/// `SIZE - 1` that were published. If it is not, nothing is fetched.
pub proof fn lemma_fetch_gives_the_item<'a, T: CBufItem, const SIZE: usize>(
    r: &CBufReader<'a, T, SIZE>,
    h: History<T>,
    idx: CBufIndex<SIZE>,
    p: int,
    fetched: Result<T, InvalidIndexError>,
)
    requires
        size_ok(SIZE as int),
        h.recorded_in(r.mem()),
        follows(SIZE as int, idx@, p, h.len()),
        is_fetched(r, idx, fetched),
    ensures
        match fetched {
            Ok(v) => p < h.len() < p + SIZE && v == h.log[p],
            Err(_) => !(p < h.len() < p + SIZE),
        },
{
    r.lemma_wf();
    lemma_fetch_is_right(Snapshot { history: h, mem: r.mem() }, idx@, p);
}

/// Something is fetched at an index exactly when the end of the valid indexes is one of
/// the `SIZE - 1` indexes after it.
pub proof fn lemma_fetch_succeeds_in_window<'a, T: CBufItem, const SIZE: usize>(
    r: &CBufReader<'a, T, SIZE>,
    range: Range<CBufIndex<SIZE>>,
    idx: CBufIndex<SIZE>,
    after: CBufIndex<SIZE>,
    is_in: bool,
    fetched: Result<T, InvalidIndexError>,
)
    requires
        size_ok(SIZE as int),
        is_valid_range(r, range),
        is_sum(idx, 1, after),
        call_ensures(
            CBufIndex::<SIZE>::is_in_range,
            (range.end, after, (SIZE - 1) as usize),
            is_in,
        ),
        is_fetched(r, idx, fetched),
    ensures
        fetched is Ok <==> is_in,
{
    lemma_advance_adds(SIZE as int, idx@, 1, 0);
    lemma_readable_window(SIZE as int, idx@, range.end@);
}

/// Whatever the index, what is fetched at it is one of the latest `SIZE - 1` items that
/// were published, and the index has the position of that item.
pub proof fn lemma_fetch_gives_an_item<'a, T: CBufItem, const SIZE: usize>(
    r: &CBufReader<'a, T, SIZE>,
    h: History<T>,
    idx: CBufIndex<SIZE>,
    fetched: Result<T, InvalidIndexError>,
) -> (q: int)
    requires
        size_ok(SIZE as int),
        h.recorded_in(r.mem()),
        is_fetched(r, idx, fetched),
    ensures
        fetched matches Ok(v) ==> {
            &&& 0 <= q < h.len() < q + SIZE
            &&& v == h.log[q]
            &&& tracks(SIZE as int, idx@, q, h.len())
        },
{
    r.lemma_wf();
    lemma_ring(SIZE as int);
    let now = Snapshot { history: h, mem: r.mem() };
    lemma_only_published_items_are_read(Try { pre: now, mid: now, post: now }, idx@)
}

/// Until the indexes wrap, what is fetched at an index after the end is nothing, unless
/// the index stands on the ring for that of an item in the buffer.
pub proof fn lemma_fetch_beyond_the_end<'a, T: CBufItem, const SIZE: usize>(
    r: &CBufReader<'a, T, SIZE>,
    h: History<T>,
    idx: CBufIndex<SIZE>,
    fetched: Result<T, InvalidIndexError>,
)
    requires
        size_ok(SIZE as int),
        h.recorded_in(r.mem()),
        h.len() < idx@,
        is_fetched(r, idx, fetched),
    ensures
        ({
            let q = idx@ - (usize::MAX + 1 - SIZE);
            match fetched {
                Ok(v) => SIZE <= h.len() && q < h.len() < q + SIZE && v == h.log[q],
                Err(_) => !(SIZE <= h.len() && 0 <= q < h.len() < q + SIZE),
            }
        }),
{
    let size = SIZE as int;
    let q = idx@ - ring_len(size);
    let n = h.len();
    let p = lemma_fetch_gives_an_item(r, h, idx, fetched);
    lemma_ring(size);
    r.lemma_wf();
    if fetched is Ok {
        lemma_steps(size, idx@, n, 0);
        assert(p == q) by {
            lemma_advance_adds(size, idx@, n - p, 0);
        }
    }
}

/// What a reader is given when it fetches the next item, for every index that it may have.
///
/// If there is an item in the buffer at its index, it is given that one and goes on to the
/// next index. If there are no items, or its index is the end, it is given none and stays
/// where it is. Otherwise it has missed items: it is given the newest item and goes to the
/// end, or is given the oldest item in the buffer and goes on to the one after that.
pub proof fn lemma_next_item_for_every_index<'a, T: CBufItem, const SIZE: usize>(
    r: &mut CBufReader<'a, T, SIZE>,
    h: History<T>,
    fast_forward: bool,
    range: Range<CBufIndex<SIZE>>,
    i: CBufIndex<SIZE>,
    fetched: Result<T, InvalidIndexError>,
    result: ReadResult<T>,
    after: CBufIndex<SIZE>,
    i_next: CBufIndex<SIZE>,
    start_next: CBufIndex<SIZE>,
)
    requires
        size_ok(SIZE as int),
        h.recorded_in(old(r).mem()),
        is_next_index(&*old(r), i),
        is_fetched(&*old(r), i, fetched),
        is_valid_range(&*old(r), range),
        call_ensures(CBufReader::<'a, T, SIZE>::fetch_next_item, (r, fast_forward), result),
        is_next_index(&*final(r), after),
        is_sum(i, 1, i_next),
        is_sum(range.start, 1, start_next),
    ensures
        h.recorded_in(final(r).mem()),
        final(r).mem() == old(r).mem(),
        match fetched {
            Ok(v) => result == ReadResult::Success(v) && after == i_next,
            Err(_) => if h.len() == 0 || i == range.end {
                result == ReadResult::<T>::NoNewItems && after == i
            } else if fast_forward {
                result == ReadResult::Skipped(h.log[h.len() - 1]) && after == range.end
            } else {
                &&& after == start_next
                &&& result == ReadResult::Skipped(
                    h.log[if h.len() < SIZE {
                        0
                    } else {
                        h.len() - SIZE + 1
                    }],
                )
            },
        },
{
    let size = SIZE as int;
    let n = h.len();
    let mem = old(r).mem();
    let now = Snapshot { history: h, mem };
    old(r).lemma_wf();
    lemma_ring(size);
    lemma_tracks_end(size, n);
    lemma_tracks_readable(size, mem.next, n, n);
    lemma_advance_adds(size, i@, 1, 0);
    if 0 < n {
        lemma_tracks_back(size, n, 1);
        lemma_tracks_back(size, n, size - 1);
        lemma_fetch_is_right(now, retreat(mem.next, 1), retreat(n, 1));
        lemma_fetch_is_right(now, mem.oldest(), retreat(n, size - 1));
        lemma_advance_adds(size, mem.oldest(), 1, 0);
        lemma_advance_unfold(size, retreat(mem.next, 1), 0);
    }
}

/// What a reader with the first `p` items behind it is given when it fetches the next
/// item: the item at `p`, if there is one and it is still in the buffer. If there is none,
/// it is told so. If the item has left the buffer, it is given the newest item, or the
/// oldest that is in the buffer. It then has the items up to the given one behind it.
pub proof fn lemma_next_item_by_position<'a, T: CBufItem, const SIZE: usize>(
    r: &mut CBufReader<'a, T, SIZE>,
    h: History<T>,
    p: int,
    fast_forward: bool,
    i: CBufIndex<SIZE>,
    result: ReadResult<T>,
    after: CBufIndex<SIZE>,
)
    requires
        size_ok(SIZE as int),
        h.recorded_in(old(r).mem()),
        is_next_index(&*old(r), i),
        follows(SIZE as int, i@, p, h.len()),
        call_ensures(CBufReader::<'a, T, SIZE>::fetch_next_item, (r, fast_forward), result),
        is_next_index(&*final(r), after),
    ensures
        h.recorded_in(final(r).mem()),
        ({
            let n = h.len();
            if p == n {
                result == ReadResult::<T>::NoNewItems && after == i
            } else if n - p < SIZE {
                result == ReadResult::Success(h.log[p]) && follows(SIZE as int, after@, p + 1, n)
            } else if fast_forward {
                result == ReadResult::Skipped(h.log[n - 1]) && follows(SIZE as int, after@, n, n)
            } else {
                &&& result == ReadResult::Skipped(h.log[n - SIZE + 1])
                &&& follows(SIZE as int, after@, n - SIZE + 2, n)
            }
        }),
{
    let mem = old(r).mem();
    old(r).lemma_wf();
    lemma_tracks_readable(SIZE as int, i@, p, h.len());
    lemma_next_item_is_right(Snapshot { history: h, mem }, i@, p, fast_forward);
}

/// What is fetched by index, for every index.
///
/// If there is an item in the buffer at the index, that item is fetched, under that index.
/// If there are no items, or the index is not less than the end, none is. Otherwise the
/// oldest item in the buffer is fetched, under its own index. Either way the index that is
/// returned is one at which the item that is returned can be fetched.
pub proof fn lemma_fetch_with_index_for_every_index<'a, T: CBufItem, const SIZE: usize>(
    r: &CBufReader<'a, T, SIZE>,
    h: History<T>,
    idx: CBufIndex<SIZE>,
    range: Range<CBufIndex<SIZE>>,
    fetched: Result<T, InvalidIndexError>,
    is_at_end: bool,
    result: FetchWithIndexResult<T, SIZE>,
)
    requires
        size_ok(SIZE as int),
        h.recorded_in(r.mem()),
        is_valid_range(r, range),
        is_fetched(r, idx, fetched),
        call_ensures(CBufIndex::<SIZE>::ge, (&idx, &range.end), is_at_end),
        call_ensures(CBufReader::<'a, T, SIZE>::fetch_with_index, (r, idx), result),
    ensures
        match fetched {
            Ok(v) => result == FetchWithIndexResult::Success(v, idx),
            Err(_) => if h.len() == 0 || is_at_end {
                result == FetchWithIndexResult::<T, SIZE>::NoNewItems
            } else {
                result == FetchWithIndexResult::Skipped(
                    h.log[if h.len() < SIZE {
                        0
                    } else {
                        h.len() - SIZE + 1
                    }],
                    range.start,
                )
            },
        },
        match result {
            FetchWithIndexResult::Success(v, k) | FetchWithIndexResult::Skipped(v, k) => {
                forall|again: Result<T, InvalidIndexError>| #[trigger]
                    is_fetched(r, k, again) ==> again == Ok::<T, InvalidIndexError>(v)
            },
            _ => true,
        },
{
    let size = SIZE as int;
    let n = h.len();
    let mem = r.mem();
    let now = Snapshot { history: h, mem };
    r.lemma_wf();
    lemma_ring(size);
    lemma_tracks_end(size, n);
    lemma_tracks_readable(size, mem.next, n, n);
    if idx@ != mem.next {
        lemma_precedes_one_way(size, idx@, mem.next);
    }
    if 0 < n {
        lemma_tracks_back(size, n, size - 1);
        lemma_fetch_is_right(now, mem.oldest(), retreat(n, size - 1));
        lemma_readable_behind(size, mem.next, size - 1);
    }
}

/// What is fetched by the index of an item: the item itself, under that index, if it is
/// still in the buffer; the oldest item in the buffer, under its own index, if it has left
/// it; and none if it has not been published.
pub proof fn lemma_fetch_with_index_by_position<'a, T: CBufItem, const SIZE: usize>(
    r: &CBufReader<'a, T, SIZE>,
    h: History<T>,
    idx: CBufIndex<SIZE>,
    p: int,
    range: Range<CBufIndex<SIZE>>,
    result: FetchWithIndexResult<T, SIZE>,
)
    requires
        size_ok(SIZE as int),
        h.recorded_in(r.mem()),
        tracks(SIZE as int, idx@, p, h.len()),
        2 * (h.len() - p) < CBufIndex::<SIZE>::ring(),
        is_valid_range(r, range),
        call_ensures(CBufReader::<'a, T, SIZE>::fetch_with_index, (r, idx), result),
    ensures
        ({
            let n = h.len();
            result == if p == n {
                FetchWithIndexResult::<T, SIZE>::NoNewItems
            } else if n - p < SIZE {
                FetchWithIndexResult::Success(h.log[p], idx)
            } else {
                FetchWithIndexResult::Skipped(h.log[n - SIZE + 1], range.start)
            }
        }),
{
    let size = SIZE as int;
    let now = Snapshot { history: h, mem: r.mem() };
    r.lemma_wf();
    lemma_ring(size);
    lemma_fetch_with_index_is_right(now, idx@, p);
    lemma_fetch_is_right(now, idx@, p);
    if SIZE <= h.len() - p {
        lemma_fetch_is_right(now, r.mem().oldest(), h.len() - SIZE + 1);
        lemma_tracks_readable(size, r.mem().oldest(), h.len() - SIZE + 1, h.len());
    }
}

/// Nothing is fetched by an index that lies after the end, up to half the ring.
pub proof fn lemma_fetch_with_index_beyond_the_end<'a, T: CBufItem, const SIZE: usize>(
    r: &CBufReader<'a, T, SIZE>,
    range: Range<CBufIndex<SIZE>>,
    k: usize,
    idx: CBufIndex<SIZE>,
    result: FetchWithIndexResult<T, SIZE>,
)
    requires
        size_ok(SIZE as int),
        4 * SIZE <= usize::MAX + 1,
        is_valid_range(r, range),
        2 * k < CBufIndex::<SIZE>::ring(),
        is_sum(range.end, k, idx),
        call_ensures(CBufReader::<'a, T, SIZE>::fetch_with_index, (r, idx), result),
    ensures
        result == FetchWithIndexResult::<T, SIZE>::NoNewItems,
{
    r.lemma_wf();
    lemma_advance_adds(SIZE as int, range.end@, k as int, 0);
    lemma_nothing_beyond_the_end(r.mem(), k as int);
}

/// Whether a search by the reader `r`, whose own position is `p`, starts at the position
/// `first`: at the oldest item in the buffer, or at the reader's own position where that is
/// later and not all the items are searched.
pub open spec fn is_search_start(n: int, size: int, fromstart: bool, p: int, first: int) -> bool {
    let oldest = if n < size {
        0
    } else {
        n - size + 1
    };
    first == if fromstart || p < oldest {
        oldest
    } else {
        p
    }
}

/// What a search comes to, whether or not the items are sorted by the predicate.
///
/// The items that are searched are those from the oldest one in the buffer on, or from the
/// one on that the reader reads next. What is found is the index of one of them that makes
/// the predicate true: the first one, or one before which is an item that makes it false.
/// None is found only if there are none, or neither the first nor the last makes the
/// predicate true. Returns the position of what is found.
pub proof fn lemma_search_finds<'a, T: CBufItem, F: Fn(T) -> bool, const SIZE: usize>(
    r: &CBufReader<'a, T, SIZE>,
    h: History<T>,
    f: &F,
    holds: spec_fn(T) -> bool,
    fromstart: bool,
    i: CBufIndex<SIZE>,
    p: int,
    first: int,
    result: Result<CBufReader<'a, T, SIZE>, InvalidIndexError>,
    j: CBufIndex<SIZE>,
) -> (q: int)
    requires
        size_ok(SIZE as int),
        4 * SIZE <= usize::MAX + 1,
        h.recorded_in(r.mem()),
        forall|v: T, b: bool| #[trigger] call_ensures(*f, (v,), b) ==> b == holds(v),
        is_next_index(r, i),
        !fromstart ==> {
            &&& tracks(SIZE as int, i@, p, h.len())
            &&& 2 * (h.len() - p) < CBufIndex::<SIZE>::ring()
        },
        is_search_start(h.len(), SIZE as int, fromstart, p, first),
        call_ensures(CBufReader::<'a, T, SIZE>::search::<F>, (r, f, fromstart), result),
        result matches Ok(found) ==> is_next_index(&found, j),
    ensures
        match result {
            Ok(found) => {
                &&& h.recorded_in(found.mem())
                &&& first <= q < h.len()
                &&& holds(h.log[q])
                &&& tracks(SIZE as int, j@, q, h.len())
                &&& q == first ==> {
                    j == i || fromstart || p < first
                }
                &&& first < q ==> {
                    &&& !holds(h.log[first])
                    &&& !holds(h.log[q - 1])
                    &&& holds(h.log[h.len() - 1])
                }
            },
            Err(_) => first < h.len() ==> {
                &&& !holds(h.log[first])
                &&& !holds(h.log[h.len() - 1])
            },
        },
{
    let size = SIZE as int;
    let n = h.len();
    let mem = r.mem();
    let now = Snapshot { history: h, mem };
    let from = if fromstart {
        mem.oldest()
    } else {
        i@
    };
    let p0 = if fromstart {
        h.gone(size)
    } else {
        p
    };
    r.lemma_wf();
    lemma_ring(size);
    lemma_tracks_back(size, n, size - 1);
    lemma_fetch_with_index_is_right(now, from, p0);
    let found = match result {
        Ok(reader) => Some(j@),
        Err(_) => None,
    };
    assert(answers_as(*f, holds));
    assert(mem.may_find(*f, from, found));
    if first < n {
        let idx = mem.index_fetched(from)->0;
        let k = lemma_search_found(now, *f, holds, from, found, idx, first);
        first + k
    } else {
        n
    }
}

/// The place, from the first item searched on, of what a search comes to.
proof fn lemma_search_found<T, F: Fn(T) -> bool, const SIZE: usize>(
    now: Snapshot<T, SIZE>,
    f: F,
    holds: spec_fn(T) -> bool,
    from: int,
    found: Option<int>,
    idx: int,
    first: int,
) -> (k: int)
    requires
        size_ok(SIZE as int),
        now.wf(),
        answers_as(f, holds),
        now.mem.index_fetched(from) == Some(idx),
        tracks(SIZE as int, idx, first, now.len()),
        now.history.gone(SIZE as int) <= first < now.len(),
        now.mem.may_find(f, from, found),
    ensures
        match found {
            Some(j) => {
                &&& 0 <= k < now.len() - first
                &&& holds(now.history.log[first + k])
                &&& tracks(SIZE as int, j, first + k, now.len())
                &&& k == 0 ==> j == idx
                &&& 0 < k ==> {
                    &&& !holds(now.history.log[first])
                    &&& roomy(SIZE as int) ==> !holds(now.history.log[first + k - 1])
                    &&& holds(now.history.log[now.len() - 1])
                }
            },
            None => {
                &&& !holds(now.history.log[first])
                &&& roomy(SIZE as int) ==> !holds(now.history.log[now.len() - 1])
            },
        },
{
    let size = SIZE as int;
    let mem = now.mem;
    let n = now.len();
    let log = now.history.log;
    lemma_items_after_are_right(now, idx, first);
    assert(mem.item_after(idx, 0) == log[first]);
    assert(mem.item_after(idx, n - first - 1) == log[n - 1]);
    match found {
        Some(j) => {
            if holds(log[first]) {
                0
            } else {
                let k = choose|k: int|
                    {
                        &&& 0 < k <= n - first - 1 || k == n - first - 1
                        &&& j == #[trigger] mem.place(idx, k)
                        &&& says(f, mem.item_after(idx, k), true)
                        &&& roomy(SIZE as int) && 0 < k ==> says(
                            f,
                            mem.item_after(idx, k - 1),
                            false,
                        )
                    };
                assert(mem.item_after(idx, k) == log[first + k]);
                if 0 < k {
                    assert(mem.item_after(idx, k - 1) == log[first + k - 1]);
                }
                lemma_tracks_back(size, n, 1);
                k
            }
        },
        None => 0,
    }
}

/// A search of items that are sorted by the predicate finds the first one that makes it
/// true: the least position from the one on at which the search starts. None is found only
/// if there is none.
pub proof fn lemma_search_finds_the_first<'a, T: CBufItem, F: Fn(T) -> bool, const SIZE: usize>(
    r: &CBufReader<'a, T, SIZE>,
    h: History<T>,
    f: &F,
    holds: spec_fn(T) -> bool,
    fromstart: bool,
    i: CBufIndex<SIZE>,
    p: int,
    first: int,
    result: Result<CBufReader<'a, T, SIZE>, InvalidIndexError>,
    j: CBufIndex<SIZE>,
) -> (q: int)
    requires
        size_ok(SIZE as int),
        4 * SIZE <= usize::MAX + 1,
        h.recorded_in(r.mem()),
        forall|v: T, b: bool| #[trigger] call_ensures(*f, (v,), b) ==> b == holds(v),
        is_next_index(r, i),
        !fromstart ==> {
            &&& tracks(SIZE as int, i@, p, h.len())
            &&& 2 * (h.len() - p) < CBufIndex::<SIZE>::ring()
        },
        is_search_start(h.len(), SIZE as int, fromstart, p, first),
        call_ensures(CBufReader::<'a, T, SIZE>::search::<F>, (r, f, fromstart), result),
        result matches Ok(found) ==> is_next_index(&found, j),
        forall|a: int, b: int|
            first <= a < b < h.len() && holds(#[trigger] h.log[a]) ==> holds(#[trigger] h.log[b]),
    ensures
        forall|a: int| first <= a < q && a < h.len() ==> !holds(#[trigger] h.log[a]),
        match result {
            Ok(found) => {
                &&& h.recorded_in(found.mem())
                &&& first <= q < h.len()
                &&& holds(h.log[q])
                &&& tracks(SIZE as int, j@, q, h.len())
            },
            Err(_) => q == h.len(),
        },
{
    let q = lemma_search_finds(r, h, f, holds, fromstart, i, p, first, result, j);
    if result is Ok {
        q
    } else {
        h.len()
    }
}

/// Whether the items from the position `p` on are sorted by `holds`, those of which it
/// does not hold before those of which it does.
pub open spec fn is_sorted<T>(log: Seq<T>, holds: spec_fn(T) -> bool, p: int) -> bool {
    forall|a: int, b: int|
        p <= a < b < log.len() && holds(#[trigger] log[a]) ==> holds(#[trigger] log[b])
}

/// Of sorted items, none before one that is false is true.
proof fn lemma_false_before<T>(log: Seq<T>, holds: spec_fn(T) -> bool, p: int, q: int)
    requires
        is_sorted(log, holds, p),
        p < q <= log.len(),
        !holds(log[q - 1]),
    ensures
        forall|a: int| p <= a < q ==> !holds(#[trigger] log[a]),
{
}

/// What a search comes to, for every index that the reader may have: it goes by what is
/// fetched by index at its start, which is the start of the valid indexes or the reader's
/// own index.
///
/// If nothing is fetched there, nothing is found. If the item that is fetched makes the
/// predicate true, its index is found. If neither that item nor the last one in the buffer
/// does, nothing is found. Otherwise what is found is the index of a later item that makes
/// the predicate true and before which is one that makes it false; of items that are
/// sorted by the predicate that is the first that makes it true. In a buffer of the
/// largest size there is, it need not be one before which is such an item, and it may be
/// that none is found. Returns the positions of the item that is fetched and of the one
/// that is found.
pub proof fn lemma_search_for_every_index<'a, T: CBufItem, F: Fn(T) -> bool, const SIZE: usize>(
    r: &CBufReader<'a, T, SIZE>,
    h: History<T>,
    f: &F,
    holds: spec_fn(T) -> bool,
    fromstart: bool,
    i: CBufIndex<SIZE>,
    range: Range<CBufIndex<SIZE>>,
    start: CBufIndex<SIZE>,
    first: FetchWithIndexResult<T, SIZE>,
    result: Result<CBufReader<'a, T, SIZE>, InvalidIndexError>,
    j: CBufIndex<SIZE>,
) -> (pq: (int, int))
    requires
        size_ok(SIZE as int),
        h.recorded_in(r.mem()),
        forall|v: T, b: bool| #[trigger] call_ensures(*f, (v,), b) ==> b == holds(v),
        is_next_index(r, i),
        is_valid_range(r, range),
        start == if fromstart {
            range.start
        } else {
            i
        },
        call_ensures(CBufReader::<'a, T, SIZE>::fetch_with_index, (r, start), first),
        call_ensures(CBufReader::<'a, T, SIZE>::search::<F>, (r, f, fromstart), result),
        result matches Ok(found) ==> is_next_index(&found, j),
    ensures
        result matches Ok(found) ==> found.mem() == r.mem(),
        match first {
            FetchWithIndexResult::Success(v, k) | FetchWithIndexResult::Skipped(v, k) => {
                let (p, q) = pq;
                let n = h.len();
                &&& 0 <= p < n < p + SIZE
                &&& tracks(SIZE as int, k@, p, n)
                &&& v == h.log[p]
                &&& if holds(v) {
                    result is Ok && j == k && q == p
                } else if !holds(h.log[n - 1]) {
                    result is Err
                } else {
                    &&& result is Ok ==> {
                        &&& p < q < n
                        &&& tracks(SIZE as int, j@, q, n)
                        &&& holds(h.log[q])
                    }
                    &&& 4 * SIZE <= usize::MAX + 1 ==> {
                        &&& result is Ok
                        &&& !holds(h.log[q - 1])
                        &&& is_sorted(h.log, holds, p) ==> forall|a: int|
                            p <= a < q ==> !holds(#[trigger] h.log[a])
                    }
                }
            },
            _ => result is Err,
        },
{
    let size = SIZE as int;
    let n = h.len();
    let mem = r.mem();
    let now = Snapshot { history: h, mem };
    let from = start@;
    r.lemma_wf();
    lemma_ring(size);
    let found = match result {
        Ok(reader) => Some(j@),
        Err(_) => None,
    };
    assert(answers_as(*f, holds));
    assert(mem.may_find(*f, from, found));
    if let Some(idx) = mem.index_fetched(from) {
        mem.lemma_fetched(from);
        let p = lemma_only_published_items_are_read(Try { pre: now, mid: now, post: now }, idx);
        let k = lemma_search_found(now, *f, holds, from, found, idx, p);
        if found is Some && is_sorted(h.log, holds, p) && 0 < k && roomy(size) {
            lemma_false_before(h.log, holds, p, p + k);
        }
        (p, p + k)
    } else {
        (n, n)
    }
}

/// A search is one that is told, step by step, what there is in the buffer and what the
/// predicate says of it, from the index of the reader on. It asks the predicate about at
/// most two items and as many more as the logarithm of the size, all of them in the
/// buffer. Returns what it is told.
pub proof fn lemma_search_asks_little<'a, T: CBufItem, F: Fn(T) -> bool, const SIZE: usize>(
    r: &CBufReader<'a, T, SIZE>,
    f: &F,
    fromstart: bool,
    i: CBufIndex<SIZE>,
    result: Result<CBufReader<'a, T, SIZE>, InvalidIndexError>,
    j: CBufIndex<SIZE>,
) -> (events: Seq<SearchEvent<SIZE>>)
    requires
        size_ok(SIZE as int),
        is_next_index(r, i),
        call_ensures(CBufReader::<'a, T, SIZE>::search::<F>, (r, f, fromstart), result),
        result matches Ok(found) ==> is_next_index(&found, j),
    ensures
        ({
            let start = SearchSeq::start(i, fromstart);
            let questions = start.questions(events);
            &&& r.mem().is_run(*f, start, events)
            &&& match result {
                Ok(_) => start.run(events).step == SearchStep::Found(j),
                Err(_) => start.run(events).step == SearchStep::<SIZE>::NotFound,
            }
            &&& questions.len() <= 2 + log(2, SIZE as int)
            &&& forall|k: int|
                0 <= k < questions.len() ==> r.mem().readable(#[trigger] questions[k])
        }),
{
    let start = SearchSeq::start(i, fromstart);
    r.lemma_wf();
    let found = match result {
        Ok(reader) => Some(j@),
        Err(_) => None,
    };
    assert(r.search_comes_to(*f, fromstart, found));
    let events = choose|events: Seq<SearchEvent<SIZE>>|
        {
            &&& #[trigger] r.mem().is_run(*f, start, events)
            &&& match found {
                Some(idx) => start.run(events).step == SearchStep::Found(
                    CBufIndex::<SIZE> { idx: idx as usize },
                ),
                None => start.run(events).step is NotFound,
            }
        };
    r.mem().lemma_questions_are_few(*f, i, fromstart, events);
    events
}

/// Two readers of one buffer that search all its items by one predicate find the same,
/// whatever their own indexes are and whether or not the items are sorted.
pub proof fn lemma_searches_from_start_agree<
    'a,
    'b,
    T: CBufItem,
    F: Fn(T) -> bool,
    const SIZE: usize,
>(
    r1: &CBufReader<'a, T, SIZE>,
    r2: &CBufReader<'b, T, SIZE>,
    f: &F,
    holds: spec_fn(T) -> bool,
    result1: Result<CBufReader<'a, T, SIZE>, InvalidIndexError>,
    result2: Result<CBufReader<'b, T, SIZE>, InvalidIndexError>,
    j1: CBufIndex<SIZE>,
    j2: CBufIndex<SIZE>,
)
    requires
        size_ok(SIZE as int),
        r1.mem() == r2.mem(),
        forall|v: T, b: bool| #[trigger] call_ensures(*f, (v,), b) ==> b == holds(v),
        call_ensures(CBufReader::<'a, T, SIZE>::search::<F>, (r1, f, true), result1),
        call_ensures(CBufReader::<'b, T, SIZE>::search::<F>, (r2, f, true), result2),
        result1 matches Ok(found) ==> is_next_index(&found, j1),
        result2 matches Ok(found) ==> is_next_index(&found, j2),
    ensures
        result1 is Ok <==> result2 is Ok,
        result1 is Ok ==> j1 == j2,
{
    assert(answers_as(*f, holds));
}

/// The writer lists the latest `SIZE - 1` items that were published, or all where there
/// are fewer, the oldest first, and is left as it was.
pub proof fn lemma_current_items_are_the_latest<'a, 'b, T: CBufItem, const SIZE: usize>(
    w: &'b mut CBufWriter<'a, T, SIZE>,
    h: History<T>,
    items: WriterIterator<'b, T, SIZE>,
)
    requires
        size_ok(SIZE as int),
        old(w).mem().wf(),
        h.recorded_in(old(w).mem()),
        old(w).next_local@ == old(w).next_ref@,
        call_ensures(CBufWriter::<'a, T, SIZE>::current_items_iter, (w,), items),
    ensures
        items.remaining() == h.log.subrange(
            if h.len() < SIZE {
                0
            } else {
                h.len() - SIZE + 1
            },
            h.len(),
        ),
        *final(w) == *old(w),
{
    lemma_current_items_are_right(Snapshot { history: h, mem: old(w).mem() });
}

/// What an iterator over slots yields, wherever the writer is: what the slots of the
/// indexes from `SIZE - 1` places before the writer's hold, or from the first index on.
pub proof fn lemma_items_of_slots<'a, 'b, 'c, T: CBufItem, const SIZE: usize>(
    w: &'b mut CBufWriter<'a, T, SIZE>,
    items: WriterIterator<'b, T, SIZE>,
    slots: &'c [T; SIZE],
    same: WriterIterator<'c, T, SIZE>,
)
    requires
        size_ok(SIZE as int),
        call_ensures(CBufWriter::<'a, T, SIZE>::current_items_iter, (w,), items),
        slots@ == old(w).buf@,
        call_ensures(WriterIterator::<'c, T, SIZE>::new, (slots, old(w).next_local), same),
    ensures
        same.remaining() == items.remaining(),
        ({
            let next = old(w).next_local@;
            let start = if next < SIZE {
                0
            } else {
                next - SIZE + 1
            };
            &&& items.remaining().len() == next - start
            &&& forall|k: int|
                0 <= k < next - start ==> #[trigger] items.remaining()[k] == old(w).buf@[(start
                    + k) % (SIZE as int)]
        }),
{
}

/// An iterator over the items of a buffer yields those that remain, one after the other,
/// and then nothing.
pub proof fn lemma_items_are_yielded<'b, T: CBufItem, const SIZE: usize>(
    items: &mut WriterIterator<'b, T, SIZE>,
    item: Option<T>,
)
    requires
        size_ok(SIZE as int),
        call_ensures(WriterIterator::<'b, T, SIZE>::next, (items,), item),
    ensures
        match item {
            Some(v) => old(items).remaining() == seq![v] + final(items).remaining(),
            None => {
                &&& old(items).remaining() == Seq::<T>::empty()
                &&& final(items).remaining() == Seq::<T>::empty()
            },
        },
{
    if old(items).remaining().len() == 0 {
        assert(old(items).remaining() =~= Seq::<T>::empty());
    } else {
        assert(old(items).remaining() =~= seq![old(items).remaining()[0]]
            + final(items).remaining());
    }
}

/// An iterator over what a reader has yet to read yields what fetching the next item comes
/// to, until that is that there are no new items; from then on it yields nothing. It moves
/// the reader as fetching the next item does.
pub proof fn lemma_iterator_fetches<'b, 'a, T: CBufItem, const SIZE: usize>(
    it: &mut ReaderIterator<'b, 'a, T, SIZE>,
    yielded: Option<ReadResult<T>>,
    r: &mut CBufReader<'a, T, SIZE>,
    result: ReadResult<T>,
    i: CBufIndex<SIZE>,
    j: CBufIndex<SIZE>,
    k: CBufIndex<SIZE>,
)
    requires
        size_ok(SIZE as int),
        *old(r) == *old(it).reader,
        call_ensures(ReaderIterator::<'b, 'a, T, SIZE>::next, (it,), yielded),
        call_ensures(
            CBufReader::<'a, T, SIZE>::fetch_next_item,
            (r, old(it).fast_forward),
            result,
        ),
        is_next_index(&*old(r), i),
        is_next_index(&*final(r), j),
        is_next_index(&*final(it).reader, k),
    ensures
        final(it).reader.mem() == old(it).reader.mem(),
        final(it).fast_forward == old(it).fast_forward,
        *final(final(it).reader) == *final(old(it).reader),
        if old(it).is_done || result is NoNewItems {
            yielded is None && final(it).is_done && k == i
        } else {
            yielded == Some(result) && !final(it).is_done && k == j
        },
{
}

/// An iterator over what a reader has yet to read starts with that reader, and leaves it
/// where it has got to.
pub proof fn lemma_iterator_starts<'b, 'a, T: CBufItem, const SIZE: usize>(
    r: &'b mut CBufReader<'a, T, SIZE>,
    fast_forward: bool,
    it: ReaderIterator<'b, 'a, T, SIZE>,
)
    requires
        call_ensures(
            CBufReader::<'a, T, SIZE>::available_items_iter,
            (r, fast_forward),
            it,
        ),
    ensures
        *old(it.reader) == *old(r),
        *final(it.reader) == *final(r),
        it.fast_forward == fast_forward,
        !it.is_done,
{
}

} // verus!
