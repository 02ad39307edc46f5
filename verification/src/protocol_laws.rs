//! What the operations on shared memory promise, step by step.
//!
//! Each law is about the results of calls: whatever a call may return, the law holds of
//! it. What the writer does between the steps of a reader is left open.
use crate::buffer::Memory;
use crate::history::{
    in_reach, lemma_buffer_write, lemma_publish, lemma_tracks_back, lemma_tracks_later,
    lemma_tracks_next, lemma_try_is_right, tracks, History, Try,
};
use crate::index::{
    lemma_advance_adds, lemma_advance_mod, lemma_gap_back, lemma_precedes_one_way, lemma_ring,
    size_ok, CBufIndex,
};
use crate::index_laws::is_sum;
use crate::protocol::{
    is_readable, judge, lemma_readable_window, valid_range, yielded, AddItemSeq, CBufItem,
    FetchCheckpoint, FetchNextItemSeq, FetchSeq, FetchWithIndexResult, FetchWithIndexSeq,
    IndexedStep, InvalidIndexError, ReadProtocolStep, ReadResult, SearchSeq, SearchStep, Verdict,
    WriteProtocolStep,
};
use crate::search::{says, test_fetched};
use core::ops::{Range, Sub};
use vstd::prelude::*;

verus! {

/// Whether `step` is the step that comes next in adding an item.
pub open spec fn is_write_step<T: CBufItem, const SIZE: usize>(
    s: AddItemSeq<T, SIZE>,
    step: Option<WriteProtocolStep>,
) -> bool {
    call_ensures(AddItemSeq::<T, SIZE>::checkpoint, (&s,), step)
}

/// An item is added by writing it to the slot of its index and only then publishing the
/// next index, and nothing else. The steps change neither the item nor its index.
pub proof fn lemma_write_steps_in_order<T: CBufItem, const SIZE: usize>(
    next_local: CBufIndex<SIZE>,
    item: T,
    s0: AddItemSeq<T, SIZE>,
    a: &mut AddItemSeq<T, SIZE>,
    b: &mut AddItemSeq<T, SIZE>,
    c: &mut AddItemSeq<T, SIZE>,
    steps: (
        Option<WriteProtocolStep>,
        Option<WriteProtocolStep>,
        Option<WriteProtocolStep>,
        Option<WriteProtocolStep>,
    ),
)
    requires
        call_ensures(AddItemSeq::<T, SIZE>::new, (next_local, item), s0),
        *old(a) == s0,
        call_ensures(AddItemSeq::<T, SIZE>::step_done, (a,), ()),
        *old(b) == *final(a),
        call_ensures(AddItemSeq::<T, SIZE>::step_done, (b,), ()),
        *old(c) == *final(b),
        call_ensures(AddItemSeq::<T, SIZE>::step_done, (c,), ()),
        is_write_step(s0, steps.0),
        is_write_step(*final(a), steps.1),
        is_write_step(*final(b), steps.2),
        is_write_step(*final(c), steps.3),
    ensures
        steps.0 == Some(WriteProtocolStep::PreWrite),
        steps.1 == Some(WriteProtocolStep::BufferWrite),
        steps.2 == Some(WriteProtocolStep::IndexPostUpdate),
        steps.3 is None,
        s0.item == item && s0.next_local == next_local,
        final(b).item == item && final(b).next_local == next_local,
        final(c).item == item && final(c).next_local == next_local,
{
}

/// Writing the item to the slot that is said makes it pending, and publishing the index
/// that is said then adds it to the end of the history.
pub proof fn lemma_write_steps_publish<T: CBufItem, const SIZE: usize>(
    s: AddItemSeq<T, SIZE>,
    h: History<T>,
    mem: Memory<T, SIZE>,
    slot: usize,
    next_next: CBufIndex<SIZE>,
    next: CBufIndex<SIZE>,
)
    requires
        size_ok(SIZE as int),
        mem.wf(),
        h.recorded_in(mem),
        h.pending is None,
        s.next_local@ == mem.next,
        call_ensures(AddItemSeq::<T, SIZE>::slot, (&s,), slot),
        call_ensures(AddItemSeq::<T, SIZE>::next_next, (&s,), next_next),
        is_sum(s.next_local, 1, next),
    ensures
        slot < SIZE,
        next_next == next,
        (History { pending: Some(s.item), ..h }).recorded_in(
            Memory::<T, SIZE> { buf: mem.buf.update(slot as int, s.item), ..mem },
        ),
        (History { log: h.log.push(s.item), pending: None }).recorded_in(
            Memory::<T, SIZE> { buf: mem.buf.update(slot as int, s.item), next: next_next@ },
        ),
{
    lemma_advance_adds(SIZE as int, mem.next, 1, 0);
    lemma_buffer_write(h, mem, s.item);
    let h1 = History { pending: Some(s.item), ..h };
    let mem1 = Memory::<T, SIZE> { buf: mem.buf.update(slot as int, s.item), ..mem };
    lemma_publish(h1, mem1, s.item);
}

/// The item at an index is in the buffer exactly when the published index is one of the
/// `SIZE - 1` indexes after it.
pub proof fn lemma_readable_is_window<const SIZE: usize>(
    idx: CBufIndex<SIZE>,
    next: CBufIndex<SIZE>,
    after: CBufIndex<SIZE>,
    is_in: bool,
    r: bool,
)
    requires
        size_ok(SIZE as int),
        is_sum(idx, 1, after),
        call_ensures(CBufIndex::<SIZE>::is_in_range, (next, after, (SIZE - 1) as usize), is_in),
        call_ensures(is_readable::<SIZE>, (idx, next), r),
    ensures
        r == is_in,
{
    lemma_advance_adds(SIZE as int, idx@, 1, 0);
    lemma_readable_window(SIZE as int, idx@, next@);
}

/// A reader concludes that there is nothing where nothing has been published, or where the
/// published index was the reader's both before and after. It delivers an item that was in
/// the buffer both before and after, catches up where the item was not in the buffer
/// after, and otherwise tries again.
pub proof fn lemma_verdict<const SIZE: usize>(
    local: CBufIndex<SIZE>,
    pre: CBufIndex<SIZE>,
    post: CBufIndex<SIZE>,
    was_before: bool,
    was_after: bool,
    r: Verdict,
)
    requires
        size_ok(SIZE as int),
        call_ensures(is_readable::<SIZE>, (local, pre), was_before),
        call_ensures(is_readable::<SIZE>, (local, post), was_after),
        call_ensures(judge::<SIZE>, (local, pre, post), r),
    ensures
        r is Nothing <==> post.idx == 0 || (local == pre && local == post),
        r is Deliver <==> post.idx != 0 && was_before && was_after,
        r is CatchUp <==> !was_after && !(r is Nothing),
        r is Retry <==> was_after && !was_before && !(r is Nothing),
{
}

/// The range of the valid indexes reaches from `SIZE - 1` places before the published index
/// up to it.
pub proof fn lemma_valid_range_is_behind<const SIZE: usize>(
    next: CBufIndex<SIZE>,
    range: Range<CBufIndex<SIZE>>,
    back: CBufIndex<SIZE>,
)
    requires
        size_ok(SIZE as int),
        call_ensures(valid_range::<SIZE>, (next,), range),
        call_ensures(<CBufIndex<SIZE> as Sub<usize>>::sub, (next, (SIZE - 1) as usize), back),
    ensures
        range.start == back,
        range.end == next,
{
}

/// An iterator yields everything that fetching the next item may come to but that there
/// are no new items, which ends it.
pub proof fn lemma_only_the_end_is_not_yielded<T>(
    result: ReadResult<T>,
    is_done: &mut bool,
    r: Option<ReadResult<T>>,
)
    requires
        call_ensures(yielded::<T>, (result, is_done), r),
    ensures
        match r {
            Some(same) => same == result && !(result is NoNewItems) && *final(is_done) == *old(
                is_done,
            ),
            None => result is NoNewItems && *final(is_done),
        },
{
}

/// What is said of an item that has been fetched is what the predicate says of it, and it
/// is said of the index that the item was fetched at. Of nothing nothing is said.
pub proof fn lemma_fetched_is_tested<T: CBufItem, F: Fn(T) -> bool, const SIZE: usize>(
    v: T,
    idx: CBufIndex<SIZE>,
    f: &F,
    success: Option<(bool, CBufIndex<SIZE>)>,
    skipped: Option<(bool, CBufIndex<SIZE>)>,
    nothing: Option<(bool, CBufIndex<SIZE>)>,
    failed: Option<(bool, CBufIndex<SIZE>)>,
)
    requires
        call_ensures(
            test_fetched::<T, F, SIZE>,
            (FetchWithIndexResult::Success(v, idx), f),
            success,
        ),
        call_ensures(
            test_fetched::<T, F, SIZE>,
            (FetchWithIndexResult::Skipped(v, idx), f),
            skipped,
        ),
        call_ensures(
            test_fetched::<T, F, SIZE>,
            (FetchWithIndexResult::<T, SIZE>::NoNewItems, f),
            nothing,
        ),
        call_ensures(
            test_fetched::<T, F, SIZE>,
            (FetchWithIndexResult::<T, SIZE>::SpinFail, f),
            failed,
        ),
    ensures
        success matches Some((b, i)) && i == idx && says(*f, v, b),
        skipped matches Some((b, i)) && i == idx && says(*f, v, b),
        nothing is None,
        failed is None,
{
}

/// Reading the item at the index of the position `p`, step by step, while the writer goes
/// on: the item at `p` is returned exactly when it had been published before the first
/// step and was still in the buffer after the last one.
pub proof fn lemma_fetch_by_steps<T: CBufItem, const SIZE: usize>(
    idx: CBufIndex<SIZE>,
    p: int,
    t: Try<T, SIZE>,
    s0: FetchSeq<T, SIZE>,
    slot: usize,
    a: &mut FetchSeq<T, SIZE>,
    b: &mut FetchSeq<T, SIZE>,
    c: &mut FetchSeq<T, SIZE>,
    cp0: FetchCheckpoint<Result<T, InvalidIndexError>>,
    cp1: FetchCheckpoint<Result<T, InvalidIndexError>>,
    cp2: FetchCheckpoint<Result<T, InvalidIndexError>>,
    cp3: FetchCheckpoint<Result<T, InvalidIndexError>>,
)
    requires
        size_ok(SIZE as int),
        t.wf(),
        tracks(SIZE as int, idx@, p, t.pre.len()),
        in_reach(SIZE as int, idx@, p, t.post.len()),
        call_ensures(FetchSeq::<T, SIZE>::new, (idx,), s0),
        call_ensures(FetchSeq::<T, SIZE>::slot, (&s0,), slot),
        *old(a) == s0,
        call_ensures(FetchSeq::<T, SIZE>::index_check_pre, (a, t.pre.next()), ()),
        *old(b) == *final(a),
        call_ensures(
            FetchSeq::<T, SIZE>::buffer_read,
            (b, t.mid.mem.buf[slot as int]),
            (),
        ),
        *old(c) == *final(b),
        call_ensures(FetchSeq::<T, SIZE>::index_check_post, (c, t.post.next()), ()),
        call_ensures(FetchSeq::<T, SIZE>::checkpoint, (&s0,), cp0),
        call_ensures(FetchSeq::<T, SIZE>::checkpoint, (&*final(a),), cp1),
        call_ensures(FetchSeq::<T, SIZE>::checkpoint, (&*final(b),), cp2),
        call_ensures(FetchSeq::<T, SIZE>::checkpoint, (&*final(c),), cp3),
    ensures
        cp0 == FetchCheckpoint::<Result<T, InvalidIndexError>>::Step(
            ReadProtocolStep::IndexCheckPre,
        ),
        cp1 == FetchCheckpoint::<Result<T, InvalidIndexError>>::Step(ReadProtocolStep::BufferRead),
        cp2 == FetchCheckpoint::<Result<T, InvalidIndexError>>::Step(
            ReadProtocolStep::IndexCheckPost,
        ),
        cp3 matches FetchCheckpoint::ReturnVal(r) && match r {
            Ok(v) => p < t.pre.len() && t.post.len() < p + SIZE && v == t.post.history.log[p],
            Err(_) => !(p < t.pre.len() && t.post.len() < p + SIZE),
        },
{
    lemma_try_is_right(t, idx@, p);
}

/// Reading the item at any index, step by step: what the slot of the index held is
/// returned exactly when the item was in the buffer both before and after.
pub proof fn lemma_fetch_by_steps_for_every_index<T: CBufItem, const SIZE: usize>(
    idx: CBufIndex<SIZE>,
    pre: CBufIndex<SIZE>,
    item: T,
    post: CBufIndex<SIZE>,
    was_before: bool,
    was_after: bool,
    s0: FetchSeq<T, SIZE>,
    slot: usize,
    slot_of_idx: usize,
    a: &mut FetchSeq<T, SIZE>,
    b: &mut FetchSeq<T, SIZE>,
    c: &mut FetchSeq<T, SIZE>,
    cp: FetchCheckpoint<Result<T, InvalidIndexError>>,
)
    requires
        size_ok(SIZE as int),
        call_ensures(is_readable::<SIZE>, (idx, pre), was_before),
        call_ensures(is_readable::<SIZE>, (idx, post), was_after),
        call_ensures(FetchSeq::<T, SIZE>::new, (idx,), s0),
        call_ensures(FetchSeq::<T, SIZE>::slot, (&s0,), slot),
        call_ensures(CBufIndex::<SIZE>::slot, (idx,), slot_of_idx),
        *old(a) == s0,
        call_ensures(FetchSeq::<T, SIZE>::index_check_pre, (a, pre), ()),
        *old(b) == *final(a),
        call_ensures(FetchSeq::<T, SIZE>::buffer_read, (b, item), ()),
        *old(c) == *final(b),
        call_ensures(FetchSeq::<T, SIZE>::index_check_post, (c, post), ()),
        call_ensures(FetchSeq::<T, SIZE>::checkpoint, (&*final(c),), cp),
    ensures
        slot == slot_of_idx,
        cp matches FetchCheckpoint::ReturnVal(r) && match r {
            Ok(v) => was_before && was_after && v == item,
            Err(_) => !(was_before && was_after),
        },
{
}

/// Fetching the next item starts at the reader's index, and has not missed any item yet.
pub proof fn lemma_fetch_next_starts<T: CBufItem, const SIZE: usize>(
    local: CBufIndex<SIZE>,
    fast_forward: bool,
    s: FetchNextItemSeq<T, SIZE>,
    cp: FetchCheckpoint<ReadResult<T>>,
)
    requires
        call_ensures(FetchNextItemSeq::<T, SIZE>::new, (local, fast_forward), s),
        call_ensures(FetchNextItemSeq::<T, SIZE>::checkpoint, (&s,), cp),
    ensures
        s.next_local == local,
        s.fast_forward == fast_forward,
        !s.skipped,
        s.tries == 0,
        cp == FetchCheckpoint::<ReadResult<T>>::Step(ReadProtocolStep::IndexCheckPre),
{
}

/// One try of a reader that has the first `q` items behind it, while the writer goes on:
/// `a`, `b` and `c` are the operation as it is told the published index, what the slot
/// that it names holds, and the published index once more.
///
/// It is told that there are no new items exactly when it has all of them behind it. If the
/// item at `q` was in the buffer from before the first step until after the last one, it is
/// given that item, and has it behind it from then on. If the item has left the buffer, it
/// goes on with the newest or with the oldest item that was in the buffer at the last step.
/// If the item was published in the course of the try, it tries again. It gives up at the
/// sixteenth try that fails.
pub proof fn lemma_try_by_steps<T: CBufItem, const SIZE: usize>(
    a: &mut FetchNextItemSeq<T, SIZE>,
    b: &mut FetchNextItemSeq<T, SIZE>,
    c: &mut FetchNextItemSeq<T, SIZE>,
    t: Try<T, SIZE>,
    slot: usize,
    is_writer_active: bool,
    q: int,
    cp: FetchCheckpoint<ReadResult<T>>,
)
    requires
        size_ok(SIZE as int),
        t.wf(),
        old(a).tries < 16,
        old(a).progress is IndexCheckPre,
        call_ensures(FetchNextItemSeq::<T, SIZE>::index_check_pre, (a, t.pre.next()), ()),
        *old(b) == *final(a),
        call_ensures(FetchNextItemSeq::<T, SIZE>::slot, (&*old(b),), slot),
        call_ensures(
            FetchNextItemSeq::<T, SIZE>::buffer_read,
            (b, t.mid.mem.buf[slot as int]),
            (),
        ),
        *old(c) == *final(b),
        call_ensures(
            FetchNextItemSeq::<T, SIZE>::index_check_post,
            (c, t.post.next()),
            is_writer_active,
        ),
        tracks(SIZE as int, old(a).next_local@, q, t.pre.len()),
        in_reach(SIZE as int, old(a).next_local@, q, t.post.len()),
        call_ensures(FetchNextItemSeq::<T, SIZE>::checkpoint, (&*final(c),), cp),
    ensures
        ({
            let n = t.post.len();
            let log = t.post.history.log;
            let local = final(c).next_local@;
            let again = if old(a).tries < 15 {
                FetchCheckpoint::<ReadResult<T>>::Step(ReadProtocolStep::IndexCheckPre)
            } else {
                FetchCheckpoint::<ReadResult<T>>::ReturnVal(ReadResult::SpinFail)
            };
            &&& final(c).fast_forward == old(a).fast_forward
            &&& if n == q {
                &&& cp == FetchCheckpoint::<ReadResult<T>>::ReturnVal(ReadResult::NoNewItems)
                &&& final(c).next_local == old(a).next_local
                &&& !is_writer_active
            } else if n - q < SIZE && q < t.pre.len() {
                &&& cp == FetchCheckpoint::<ReadResult<T>>::ReturnVal(
                    if old(a).skipped {
                        ReadResult::Skipped(log[q])
                    } else {
                        ReadResult::Success(log[q])
                    },
                )
                &&& tracks(SIZE as int, local, q + 1, n)
                &&& !is_writer_active
            } else {
                &&& cp == again
                &&& final(c).tries == old(a).tries + 1
                &&& if n - q < SIZE {
                    &&& final(c).next_local == old(a).next_local
                    &&& final(c).skipped == old(a).skipped
                } else {
                    &&& final(c).skipped
                    &&& tracks(
                        SIZE as int,
                        local,
                        if old(a).fast_forward {
                            n - 1
                        } else {
                            n - SIZE + 1
                        },
                        n,
                    )
                }
                &&& is_writer_active <==> t.pre.mem.next != t.post.mem.next
            }
        }),
{
    let size = SIZE as int;
    let n = t.post.len();
    let local = old(a).next_local@;
    lemma_try_is_right(t, local, q);
    lemma_tracks_later(size, local, q, t.pre.len(), n);
    lemma_advance_adds(size, local, 1, 0);
    lemma_ring(size);
    lemma_tracks_back(size, n, 1);
    lemma_tracks_back(size, n, size - 1);
    if q < n {
        lemma_tracks_next(size, local, q, n);
    }
}

/// One try of a reader whose index may be any, also one that has never been published, as
/// after the buffer has been initialized again.
///
/// It is told that there are no new items where nothing has been published, or its index
/// was the published one both before and after. If the item at its index was in the buffer
/// both before and after, it is given what its slot held and goes on to the next index. If
/// there is no item in the buffer at its index after, it has missed items, and goes to the
/// newest item or to the oldest one that was in the buffer at the last step. Otherwise it
/// tries again.
pub proof fn lemma_try_for_every_index<T: CBufItem, const SIZE: usize>(
    a: &mut FetchNextItemSeq<T, SIZE>,
    b: &mut FetchNextItemSeq<T, SIZE>,
    c: &mut FetchNextItemSeq<T, SIZE>,
    t: Try<T, SIZE>,
    slot: usize,
    is_writer_active: bool,
    was_before: bool,
    was_after: bool,
    next: CBufIndex<SIZE>,
    cp: FetchCheckpoint<ReadResult<T>>,
)
    requires
        size_ok(SIZE as int),
        t.wf(),
        old(a).tries < 16,
        old(a).progress is IndexCheckPre,
        call_ensures(FetchNextItemSeq::<T, SIZE>::index_check_pre, (a, t.pre.next()), ()),
        *old(b) == *final(a),
        call_ensures(FetchNextItemSeq::<T, SIZE>::slot, (&*old(b),), slot),
        call_ensures(
            FetchNextItemSeq::<T, SIZE>::buffer_read,
            (b, t.mid.mem.buf[slot as int]),
            (),
        ),
        *old(c) == *final(b),
        call_ensures(
            FetchNextItemSeq::<T, SIZE>::index_check_post,
            (c, t.post.next()),
            is_writer_active,
        ),
        call_ensures(is_readable::<SIZE>, (old(a).next_local, t.pre.next()), was_before),
        call_ensures(is_readable::<SIZE>, (old(a).next_local, t.post.next()), was_after),
        is_sum(old(a).next_local, 1, next),
        call_ensures(FetchNextItemSeq::<T, SIZE>::checkpoint, (&*final(c),), cp),
    ensures
        ({
            let n = t.post.len();
            let local = old(a).next_local@;
            if n == 0 || (local == t.pre.mem.next && local == t.post.mem.next) {
                &&& cp == FetchCheckpoint::<ReadResult<T>>::ReturnVal(ReadResult::NoNewItems)
                &&& final(c).next_local == old(a).next_local
                &&& !is_writer_active
            } else if was_before && was_after {
                let v = t.mid.mem.buf[slot as int];
                &&& cp == FetchCheckpoint::<ReadResult<T>>::ReturnVal(
                    if old(a).skipped {
                        ReadResult::Skipped(v)
                    } else {
                        ReadResult::Success(v)
                    },
                )
                &&& final(c).next_local == next
                &&& !is_writer_active
            } else {
                &&& cp == if old(a).tries < 15 {
                    FetchCheckpoint::<ReadResult<T>>::Step(ReadProtocolStep::IndexCheckPre)
                } else {
                    FetchCheckpoint::<ReadResult<T>>::ReturnVal(ReadResult::SpinFail)
                }
                &&& final(c).tries == old(a).tries + 1
                &&& final(c).fast_forward == old(a).fast_forward
                &&& is_writer_active <==> t.pre.mem.next != t.post.mem.next
                &&& if was_after {
                    &&& final(c).next_local == old(a).next_local
                    &&& final(c).skipped == old(a).skipped
                } else {
                    &&& final(c).skipped
                    &&& tracks(
                        SIZE as int,
                        final(c).next_local@,
                        if old(a).fast_forward {
                            n - 1
                        } else if n < SIZE {
                            0
                        } else {
                            n - SIZE + 1
                        },
                        n,
                    )
                }
            }
        }),
{
    let size = SIZE as int;
    let n = t.post.len();
    lemma_advance_adds(size, old(a).next_local@, 1, 0);
    lemma_ring(size);
    lemma_tracks_back(size, n, 1);
    lemma_tracks_back(size, n, size - 1);
    lemma_advance_adds(size, 0, n, 0);
    if n > usize::MAX {
        lemma_advance_mod(size, 0, n);
    }
}

/// Fetching an item by its index first tries that index. An item that is read at the index
/// that is tried is returned with that index, and is a later one exactly when the index is
/// not the one that was asked for.
pub proof fn lemma_fetch_with_index_returns_what_is_read<T: CBufItem, const SIZE: usize>(
    idx: CBufIndex<SIZE>,
    s: FetchWithIndexSeq<T, SIZE>,
    cp: IndexedStep<T, SIZE>,
    a: &mut FetchWithIndexSeq<T, SIZE>,
    result: Result<T, InvalidIndexError>,
    cp_a: IndexedStep<T, SIZE>,
)
    requires
        call_ensures(FetchWithIndexSeq::<T, SIZE>::new, (idx,), s),
        call_ensures(FetchWithIndexSeq::<T, SIZE>::checkpoint, (&s,), cp),
        call_ensures(FetchWithIndexSeq::<T, SIZE>::fetched, (a, result), ()),
        call_ensures(FetchWithIndexSeq::<T, SIZE>::checkpoint, (&*final(a),), cp_a),
    ensures
        cp == IndexedStep::<T, SIZE>::Fetch(idx),
        s.idx == idx && s.tries == 0,
        final(a).idx == old(a).idx && final(a).tries == old(a).tries,
        cp_a == match result {
            Ok(v) => IndexedStep::Return(
                if old(a).idx_try.idx == old(a).idx.idx {
                    FetchWithIndexResult::Success(v, old(a).idx_try)
                } else {
                    FetchWithIndexResult::Skipped(v, old(a).idx_try)
                },
            ),
            Err(_) => IndexedStep::<T, SIZE>::ValidRange,
        },
{
}

/// Where the item at the index that was tried could not be read, there is none if the index
/// is not less than the end of the valid ones. Otherwise the start of the valid indexes is
/// tried next. It is given up at the sixteenth try that fails.
pub proof fn lemma_fetch_with_index_goes_on<T: CBufItem, const SIZE: usize>(
    a: &mut FetchWithIndexSeq<T, SIZE>,
    range: Range<CBufIndex<SIZE>>,
    is_at_end: bool,
    cp: IndexedStep<T, SIZE>,
)
    requires
        size_ok(SIZE as int),
        old(a).tries < 16,
        call_ensures(CBufIndex::<SIZE>::ge, (&old(a).idx_try, &range.end), is_at_end),
        call_ensures(FetchWithIndexSeq::<T, SIZE>::valid_range, (a, range), ()),
        call_ensures(FetchWithIndexSeq::<T, SIZE>::checkpoint, (&*final(a),), cp),
    ensures
        final(a).idx == old(a).idx,
        if is_at_end {
            cp == IndexedStep::<T, SIZE>::Return(FetchWithIndexResult::NoNewItems)
        } else {
            &&& final(a).tries == old(a).tries + 1
            &&& final(a).idx_try == range.start
            &&& cp == if old(a).tries < 15 {
                IndexedStep::<T, SIZE>::Fetch(range.start)
            } else {
                IndexedStep::<T, SIZE>::Return(FetchWithIndexResult::SpinFail)
            }
        },
{
    if old(a).idx_try@ != range.end@ {
        lemma_precedes_one_way(SIZE as int, old(a).idx_try@, range.end@);
    }
}

/// Whether `step` is what comes next in a search.
pub open spec fn is_search_step<const SIZE: usize>(
    s: SearchSeq<SIZE>,
    step: SearchStep<SIZE>,
) -> bool {
    call_ensures(SearchSeq::<SIZE>::checkpoint, (&s,), step)
}

/// A search asks for the valid indexes, and then about the item at their start or at the
/// index that it was given. It takes the last item to be that of the index before the end.
pub proof fn lemma_search_begins<const SIZE: usize>(
    local: CBufIndex<SIZE>,
    fromstart: bool,
    s: SearchSeq<SIZE>,
    a: &mut SearchSeq<SIZE>,
    range: Range<CBufIndex<SIZE>>,
    last: CBufIndex<SIZE>,
    step0: SearchStep<SIZE>,
    step1: SearchStep<SIZE>,
)
    requires
        call_ensures(SearchSeq::<SIZE>::new, (local, fromstart), s),
        *old(a) == s,
        call_ensures(SearchSeq::<SIZE>::valid_range, (a, range), ()),
        call_ensures(<CBufIndex<SIZE> as Sub<usize>>::sub, (range.end, 1usize), last),
        is_search_step(s, step0),
        is_search_step(*final(a), step1),
    ensures
        step0 == SearchStep::<SIZE>::ValidRange,
        step1 == SearchStep::First(
            if fromstart {
                range.start
            } else {
                local
            },
        ),
        final(a).itrue == last,
{
}

/// A search whose first item makes the predicate true has found it. If it makes it false,
/// the last item is asked about next. If there is no first item, there is nothing to find.
pub proof fn lemma_search_after_first<const SIZE: usize>(
    a: &mut SearchSeq<SIZE>,
    found: Option<(bool, CBufIndex<SIZE>)>,
    step: SearchStep<SIZE>,
)
    requires
        call_ensures(SearchSeq::<SIZE>::first, (a, found), ()),
        is_search_step(*final(a), step),
    ensures
        step == match found {
            Some((true, idx)) => SearchStep::Found(idx),
            Some((false, _)) => SearchStep::Last(old(a).itrue),
            None => SearchStep::<SIZE>::NotFound,
        },
        final(a).itrue == old(a).itrue,
        found matches Some((false, idx)) ==> final(a).ifalse == idx,
{
}

/// Where a search goes on that knows the predicate to be false at `ifalse` and true at
/// `itrue`: with the item half-way between the two, as the difference of the two counts
/// the places. It has found the one at `itrue` once that is not greater than the index
/// after `ifalse`.
pub open spec fn goes_on_between<const SIZE: usize>(
    ifalse: CBufIndex<SIZE>,
    itrue: CBufIndex<SIZE>,
    after: CBufIndex<SIZE>,
    is_less: bool,
    places: Option<usize>,
    middle: CBufIndex<SIZE>,
) -> bool {
    &&& is_sum(ifalse, 1, after)
    &&& call_ensures(CBufIndex::<SIZE>::lt, (&after, &itrue), is_less)
    &&& call_ensures(<CBufIndex<SIZE> as Sub<CBufIndex<SIZE>>>::sub, (itrue, ifalse), places)
    &&& places matches Some(d) ==> is_sum(ifalse, d / 2, middle)
}

/// What a search goes on with once it knows where the predicate is false and where it is
/// true.
pub open spec fn is_between<const SIZE: usize>(
    itrue: CBufIndex<SIZE>,
    is_less: bool,
    places: Option<usize>,
    middle: CBufIndex<SIZE>,
    step: SearchStep<SIZE>,
) -> bool {
    step == if !is_less {
        SearchStep::Found(itrue)
    } else if places is Some {
        SearchStep::Middle(middle)
    } else {
        SearchStep::<SIZE>::NotFound
    }
}

/// A search whose last item does not make the predicate true has found nothing. If it
/// does, the search goes on between the first and the last item.
pub proof fn lemma_search_after_last<const SIZE: usize>(
    a: &mut SearchSeq<SIZE>,
    found: Option<bool>,
    after: CBufIndex<SIZE>,
    is_less: bool,
    places: Option<usize>,
    middle: CBufIndex<SIZE>,
    step: SearchStep<SIZE>,
)
    requires
        size_ok(SIZE as int),
        call_ensures(SearchSeq::<SIZE>::last, (a, found), ()),
        is_search_step(*final(a), step),
        goes_on_between(old(a).ifalse, old(a).itrue, after, is_less, places, middle),
    ensures
        found == Some(true) ==> is_between(old(a).itrue, is_less, places, middle, step),
        found != Some(true) ==> step == SearchStep::<SIZE>::NotFound,
        final(a).ifalse == old(a).ifalse && final(a).itrue == old(a).itrue,
{
    lemma_between(old(a).ifalse, old(a).itrue, after, is_less, places, middle);
}

/// An item in between takes the place of the one at which the predicate is true, or of the
/// one at which it is false, and the search goes on between the two. If there is no such
/// item, nothing is found.
pub proof fn lemma_search_after_middle<const SIZE: usize>(
    a: &mut SearchSeq<SIZE>,
    found: Option<(bool, CBufIndex<SIZE>)>,
    after: CBufIndex<SIZE>,
    is_less: bool,
    places: Option<usize>,
    middle: CBufIndex<SIZE>,
    step: SearchStep<SIZE>,
)
    requires
        size_ok(SIZE as int),
        call_ensures(SearchSeq::<SIZE>::middle, (a, found), ()),
        is_search_step(*final(a), step),
        goes_on_between(final(a).ifalse, final(a).itrue, after, is_less, places, middle),
    ensures
        match found {
            Some((true, idx)) => {
                &&& final(a).ifalse == old(a).ifalse && final(a).itrue == idx
                &&& is_between(final(a).itrue, is_less, places, middle, step)
            },
            Some((false, idx)) => {
                &&& final(a).ifalse == idx && final(a).itrue == old(a).itrue
                &&& is_between(final(a).itrue, is_less, places, middle, step)
            },
            None => step == SearchStep::<SIZE>::NotFound,
        },
{
    lemma_between(final(a).ifalse, final(a).itrue, after, is_less, places, middle);
}

/// What the operators say of two indexes is what a search goes by.
proof fn lemma_between<const SIZE: usize>(
    ifalse: CBufIndex<SIZE>,
    itrue: CBufIndex<SIZE>,
    after: CBufIndex<SIZE>,
    is_less: bool,
    places: Option<usize>,
    middle: CBufIndex<SIZE>,
)
    requires
        size_ok(SIZE as int),
        goes_on_between(ifalse, itrue, after, is_less, places, middle),
    ensures
        is_between(itrue, is_less, places, middle, SearchSeq::bisected(ifalse, itrue)),
{
    let size = SIZE as int;
    lemma_ring(size);
    lemma_advance_adds(size, ifalse@, 1, 0);
    lemma_gap_back(size, ifalse@, itrue@);
    lemma_gap_back(size, after@, itrue@);
    if places is Some {
        lemma_advance_adds(size, ifalse@, (places->0 / 2) as int, 0);
    }
}

} // verus!
