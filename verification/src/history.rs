//! What readers are given of what the writer has written.
//!
//! The memory of a buffer is a matter of slots and of indexes that wrap. Here it is
//! held against the plain history of the buffer: all the items that were ever
//! published, in their order.
use crate::buffer::{lemma_readable_behind, Memory};
use crate::index::{
    advance, lemma_advance_adds, lemma_advance_injective, lemma_advance_mod, lemma_advance_slot,
    lemma_advance_unfold, lemma_gap_advance, lemma_gap_back, lemma_precedes_advance, lemma_ring,
    lemma_steps, retreat, ring_len, size_ok, steps, CBufIndex,
};
use crate::protocol::{
    catch_up_offset, fetch_value, readable, verdict, CBufItem, FetchNextItemSeq,
    FetchWithIndexResult, FetchWithIndexSeq, IndexedStep, Progress, ReadResult, SearchEvent,
    SearchSeq, SearchStep, Verdict, NUM_READ_TRIES,
};
use crate::search::{answers_as, lemma_readable_between, roomy, says};
use vstd::arithmetic::div_mod::{lemma_small_mod, lemma_sub_mod_noop};
use vstd::prelude::*;

verus! {

/// What has been done to a buffer.
pub struct History<T> {
    /// The items that have been published, in their order.
    pub log: Seq<T>,
    /// An item that has been written to its slot and not been published yet.
    pub pending: Option<T>,
}

impl<T> History<T> {
    /// The history of a buffer to which nothing has been done.
    pub open spec fn empty() -> Self {
        History { log: Seq::empty(), pending: None }
    }

    /// The history after `item` has been added.
    pub open spec fn with_item(self, item: T) -> Self {
        History { log: self.log.push(item), pending: None }
    }

    /// The number of published items.
    pub open spec fn len(self) -> int {
        self.log.len() as int
    }

    /// The number of items that have left a buffer of `size` slots.
    pub open spec fn gone(self, size: int) -> int {
        retreat(self.len(), size - 1)
    }

    /// Whether `later` comes of this history by publishing further items.
    pub open spec fn leads_to(self, later: Self) -> bool {
        &&& self.len() <= later.len()
        &&& forall|p: int| 0 <= p < self.len() ==> #[trigger] later.log[p] == self.log[p]
    }

    /// The number of the latest items whose slots have not been written to since.
    pub open spec fn intact(self, size: int) -> int {
        if self.pending is Some {
            size - 1
        } else {
            size
        }
    }

    /// Whether `mem` is the memory of a buffer with this history: the published
    /// index counts the items, and the slots hold the latest of them.
    pub open spec fn recorded_in<const SIZE: usize>(self, mem: Memory<T, SIZE>) -> bool {
        let size = mem.size();
        &&& mem.next == advance(size, 0, self.len())
        &&& forall|p: int|
            0 <= p < self.len() <= p + self.intact(size) ==> #[trigger] self.log[p] == mem.item_at(
                p,
            )
        &&& self.pending matches Some(item) ==> mem.item_at(self.len()) == item
    }
}

/// Whether a reader whose index is `local` has all the items of a history of `n`
/// items behind it that come before the position `p`, and the others before it.
pub open spec fn tracks(size: int, local: int, p: int, n: int) -> bool {
    &&& 0 <= local <= usize::MAX
    &&& 0 <= p <= n
    &&& advance(size, local, n - p) == advance(size, 0, n)
}

/// Whether the index `local` of a reader that has the first `p` of `n` items behind it
/// cannot be mistaken for another one: fewer items than the ring is long are before the
/// reader, or so few have been published that the indexes have not wrapped.
pub open spec fn in_reach(size: int, local: int, p: int, n: int) -> bool {
    ||| n - p < ring_len(size)
    ||| local == p && n <= usize::MAX
}

/// Whether a reader whose index is `local` has the first `p` of `n` items behind it, and
/// its index cannot be mistaken for another one.
pub open spec fn follows(size: int, local: int, p: int, n: int) -> bool {
    &&& tracks(size, local, p, n)
    &&& in_reach(size, local, p, n)
}

/// A new buffer has an empty history.
pub proof fn lemma_empty<T, const SIZE: usize>(filler_item: T)
    requires
        size_ok(SIZE as int),
    ensures
        History::<T>::empty().recorded_in(Memory::<T, SIZE>::empty(filler_item)),
{
}

/// Two positions share a slot only if they are at least `size` places apart.
proof fn lemma_slots_differ(size: int, p: int, q: int)
    requires
        0 < size,
        0 < q - p < size,
    ensures
        p % size != q % size,
{
    lemma_sub_mod_noop(q, p, size);
    lemma_small_mod((q - p) as nat, size as nat);
    lemma_small_mod(0, size as nat);
}

/// Writing an item to the slot of the published index makes it pending.
pub proof fn lemma_buffer_write<T, const SIZE: usize>(h: History<T>, mem: Memory<T, SIZE>, item: T)
    requires
        size_ok(SIZE as int),
        mem.wf(),
        h.recorded_in(mem),
        h.pending is None,
    ensures
        (History { pending: Some(item), ..h }).recorded_in(
            Memory::<T, SIZE> { buf: mem.buf.update(mem.next % mem.size(), item), ..mem },
        ),
{
    let size = mem.size();
    let h2 = History { pending: Some(item), ..h };
    let mem2 = Memory { buf: mem.buf.update(mem.next % size, item), ..mem };
    let n = h.len();
    lemma_advance_slot(size, 0, n);
    assert forall|p: int| 0 <= p < n <= p + h2.intact(size) implies #[trigger] h2.log[p]
        == mem2.item_at(p) by {
        lemma_slots_differ(size, p, n);
        assert(h.log[p] == mem.item_at(p));
    }
}

/// Publishing the next index adds the pending item to the history.
pub proof fn lemma_publish<T, const SIZE: usize>(h: History<T>, mem: Memory<T, SIZE>, item: T)
    requires
        size_ok(SIZE as int),
        mem.wf(),
        h.recorded_in(mem),
        h.pending == Some(item),
    ensures
        h.with_item(item).recorded_in(
            Memory::<T, SIZE> { next: advance(mem.size(), mem.next, 1), ..mem },
        ),
        h.leads_to(h.with_item(item)),
{
    let size = mem.size();
    let h2 = h.with_item(item);
    let mem2 = Memory { next: advance(mem.size(), mem.next, 1), ..mem };
    let n = h.len();
    lemma_advance_adds(size, 0, n, 1);
    assert forall|p: int| 0 <= p < n + 1 <= p + h2.intact(size) implies #[trigger] h2.log[p]
        == mem2.item_at(p) by {
        if p < n {
            assert(h.log[p] == mem.item_at(p));
        }
    }
}

/// Adding an item at the published index adds it to the history.
pub proof fn lemma_add_item<T, const SIZE: usize>(h: History<T>, mem: Memory<T, SIZE>, item: T)
    requires
        size_ok(SIZE as int),
        mem.wf(),
        h.recorded_in(mem),
        h.pending is None,
    ensures
        mem.with_item(mem.next, item).wf(),
        h.with_item(item).recorded_in(mem.with_item(mem.next, item)),
        h.leads_to(h.with_item(item)),
{
    lemma_advance_adds(mem.size(), mem.next, 1, 0);
    lemma_buffer_write(h, mem, item);
    let h1 = History { pending: Some(item), ..h };
    let mem1 = Memory { buf: mem.buf.update(mem.next % mem.size(), item), ..mem };
    lemma_publish(h1, mem1, item);
}

/// A reader at the published index has all the items behind it.
pub proof fn lemma_tracks_end(size: int, n: int)
    requires
        size_ok(size),
        0 <= n,
    ensures
        tracks(size, advance(size, 0, n), n, n),
{
    lemma_advance_adds(size, 0, n, 0);
}

/// A reader does not move when further items are published.
pub proof fn lemma_tracks_later(size: int, local: int, p: int, n: int, m: int)
    requires
        size_ok(size),
        tracks(size, local, p, n),
        n <= m,
    ensures
        tracks(size, local, p, m),
{
    lemma_advance_adds(size, local, n - p, m - n);
    lemma_advance_adds(size, 0, n, m - n);
}

/// A reader that goes on to the next index has one more item behind it.
pub proof fn lemma_tracks_next(size: int, local: int, p: int, n: int)
    requires
        size_ok(size),
        tracks(size, local, p, n),
        p < n,
    ensures
        tracks(size, advance(size, local, 1), p + 1, n),
{
    lemma_advance_adds(size, local, 1, n - p - 1);
}

/// A reader that goes back from the published index by fewer than `size` places
/// has as many items before it, or all that there are.
pub proof fn lemma_tracks_back(size: int, n: int, k: int)
    requires
        size_ok(size),
        0 <= n,
        0 <= k < size,
    ensures
        tracks(size, retreat(advance(size, 0, n), k), retreat(n, k), n),
{
    lemma_advance_adds(size, 0, n, 0);
    if n > usize::MAX {
        lemma_ring(size);
        lemma_advance_mod(size, 0, n);
    }
}

/// The index of a reader has the slot of the reader's position.
pub proof fn lemma_tracks_slot(size: int, local: int, p: int, n: int)
    requires
        size_ok(size),
        tracks(size, local, p, n),
    ensures
        local % size == p % size,
{
    lemma_advance_slot(size, local, n - p);
    lemma_advance_slot(size, 0, n);
    lemma_sub_mod_noop(local + n - p, n - p, size);
    lemma_sub_mod_noop(n, n - p, size);
}

/// For as long as the index of a reader cannot be mistaken for another one, the item at
/// it is found to be in the buffer exactly when it is: it has been published and fewer
/// than `size - 1` items have been published since. And its index is the
/// published one exactly when it has all the items behind it.
pub proof fn lemma_tracks_readable(size: int, local: int, p: int, n: int)
    requires
        size_ok(size),
        follows(size, local, p, n),
    ensures
        readable(size, local, advance(size, 0, n)) <==> 1 <= n - p < size,
        local == advance(size, 0, n) <==> n == p,
        advance(size, 0, n) == 0 <==> n == 0,
{
    let next = advance(size, 0, n);
    lemma_ring(size);
    if n > usize::MAX {
        lemma_advance_mod(size, 0, n);
    }
    if n - p < ring_len(size) {
        lemma_advance_adds(size, 0, n, 0);
        lemma_advance_adds(size, local, n - p, 0);
        lemma_advance_unfold(size, local, 0);
        if local == next {
            lemma_advance_injective(size, local, 0, n - p);
        }
        lemma_steps(size, local, next, n - p);
        if let Some(d) = steps(size, local, next) {
            lemma_advance_injective(size, local, d, n - p);
        }
    }
}

/// A buffer at one moment: what has been done to it and what its memory holds.
pub struct Snapshot<T, const SIZE: usize> {
    pub history: History<T>,
    pub mem: Memory<T, SIZE>,
}

impl<T, const SIZE: usize> Snapshot<T, SIZE> {
    /// Whether this is a moment of a buffer.
    pub open spec fn wf(self) -> bool {
        &&& self.mem.wf()
        &&& self.history.recorded_in(self.mem)
    }

    /// The number of items published by then.
    pub open spec fn len(self) -> int {
        self.history.len()
    }

    /// The published index at that moment.
    pub open spec fn next(self) -> CBufIndex<SIZE> {
        CBufIndex { idx: self.mem.next as usize }
    }
}

/// The three moments at which a reader takes the steps of one try: it loads the
/// published index, reads a slot, and loads the published index again. What the
/// writer does in between is left open.
pub struct Try<T, const SIZE: usize> {
    pub pre: Snapshot<T, SIZE>,
    pub mid: Snapshot<T, SIZE>,
    pub post: Snapshot<T, SIZE>,
}

impl<T, const SIZE: usize> Try<T, SIZE> {
    /// Whether these are moments of one buffer, in their order.
    pub open spec fn wf(self) -> bool {
        &&& self.pre.wf()
        &&& self.mid.wf()
        &&& self.post.wf()
        &&& self.pre.history.leads_to(self.mid.history)
        &&& self.mid.history.leads_to(self.post.history)
    }
}

/// What a reader concludes from one try is right, whatever the writer did in the
/// meantime, for as long as its index cannot be mistaken for another one.
///
/// It concludes that there is nothing to read exactly when all the published items
/// are behind it, and that it has fallen behind exactly when the item at its
/// position has left the buffer. It can read the item at its position exactly when
/// that had been published before the try and had not left the buffer after it, and
/// what it reads is that very item: never one that was written over it, never one
/// that was only half published, and never the filler.
pub proof fn lemma_try_is_right<T, const SIZE: usize>(t: Try<T, SIZE>, local: int, p: int)
    requires
        size_ok(SIZE as int),
        t.wf(),
        tracks(SIZE as int, local, p, t.pre.len()),
        in_reach(SIZE as int, local, p, t.post.len()),
    ensures
        verdict(SIZE as int, local, t.pre.mem.next, t.post.mem.next) == if t.post.len() == p {
            Verdict::Nothing
        } else if SIZE <= t.post.len() - p {
            Verdict::CatchUp
        } else if p < t.pre.len() {
            Verdict::Deliver
        } else {
            Verdict::Retry
        },
        fetch_value(
            SIZE as int,
            local,
            t.pre.mem.next,
            t.mid.mem.item_at(local),
            t.post.mem.next,
        ) == if p < t.pre.len() && t.post.len() - p < SIZE {
            Some(t.post.history.log[p])
        } else {
            None
        },
{
    let size = SIZE as int;
    let n2 = t.post.len();
    lemma_tracks_later(size, local, p, t.pre.len(), n2);
    lemma_tracks_readable(size, local, p, t.pre.len());
    lemma_tracks_readable(size, local, p, n2);
    if p < t.pre.len() && n2 - p < size {
        lemma_tracks_slot(size, local, p, n2);
        assert(t.mid.history.log[p] == t.mid.mem.item_at(p));
        assert(t.post.history.log[p] == t.mid.history.log[p]);
    }
}

/// The operation `seq` after one more try.
pub open spec fn observed<T: CBufItem, const SIZE: usize>(
    seq: FetchNextItemSeq<T, SIZE>,
    t: Try<T, SIZE>,
) -> FetchNextItemSeq<T, SIZE> {
    seq.after_try(t.pre.next(), t.mid.mem.item_at(seq.next_local@), t.post.next())
}

/// The operation `seq` after the given tries.
pub open spec fn run<T: CBufItem, const SIZE: usize>(
    seq: FetchNextItemSeq<T, SIZE>,
    tries: Seq<Try<T, SIZE>>,
) -> FetchNextItemSeq<T, SIZE>
    decreases tries.len(),
{
    if tries.len() == 0 {
        seq
    } else {
        observed(run(seq, tries.drop_last()), tries.last())
    }
}

/// Whether these are tries at one buffer, one after the other.
pub open spec fn in_order<T, const SIZE: usize>(tries: Seq<Try<T, SIZE>>) -> bool {
    &&& forall|i: int| 0 <= i < tries.len() ==> #[trigger] tries[i].wf()
    &&& forall|i: int, j: int|
        0 <= i < j < tries.len() ==> (#[trigger] tries[i]).post.history.leads_to(
            (#[trigger] tries[j]).pre.history,
        )
}

/// Whether these are the tries of one operation: none comes after it was over.
pub open spec fn are_tries_of<T: CBufItem, const SIZE: usize>(
    seq: FetchNextItemSeq<T, SIZE>,
    tries: Seq<Try<T, SIZE>>,
) -> bool {
    &&& in_order(tries)
    &&& forall|k: int|
        0 <= k < tries.len() ==> (#[trigger] run(seq, tries.take(k))).progress is IndexCheckPre
}

/// Whether `q` is where a reader at `p` goes on that finds at one of the tries that
/// the item at `p` has left the buffer: `offset` places before the end, as of then.
pub open spec fn is_caught_up<T, const SIZE: usize>(
    tries: Seq<Try<T, SIZE>>,
    p: int,
    offset: int,
    q: int,
) -> bool {
    exists|i: int|
        0 <= i < tries.len() && SIZE <= (#[trigger] tries[i]).post.len() - p && q
            == tries[i].post.len() - offset
}

/// The position that a reader has got to that was at the position `q` when it made its
/// last try.
pub open spec fn position_after<T: CBufItem, const SIZE: usize>(
    s: FetchNextItemSeq<T, SIZE>,
    q: int,
) -> int {
    match s.progress {
        Progress::Return(ReadResult::Success(_)) | Progress::Return(ReadResult::Skipped(_)) => q
            + 1,
        _ => q,
    }
}

/// What one more try does to an operation whose reader has the first `q` items
/// behind it.
proof fn lemma_observed<T: CBufItem, const SIZE: usize>(
    seq: FetchNextItemSeq<T, SIZE>,
    t: Try<T, SIZE>,
    q: int,
)
    requires
        size_ok(SIZE as int),
        seq.tries < NUM_READ_TRIES,
        t.wf(),
        tracks(SIZE as int, seq.next_local@, q, t.pre.len()),
        in_reach(SIZE as int, seq.next_local@, q, t.post.len()),
    ensures
        ({
            let size = SIZE as int;
            let offset = catch_up_offset(size, seq.fast_forward);
            let n = t.post.len();
            let log = t.post.history.log;
            let s = observed(seq, t);
            let again = if seq.tries + 1 < NUM_READ_TRIES {
                Progress::<T, _, SIZE>::IndexCheckPre
            } else {
                Progress::<T, _, SIZE>::Return(ReadResult::<T>::SpinFail)
            };
            let is_exact = seq.next_local@ == q && n <= usize::MAX;
            &&& s.fast_forward == seq.fast_forward
            &&& if n == q {
                &&& s.progress == Progress::<T, _, SIZE>::Return(ReadResult::<T>::NoNewItems)
                &&& s.next_local == seq.next_local
            } else if size <= n - q {
                &&& s.progress == again
                &&& s.tries == seq.tries + 1
                &&& s.skipped
                &&& follows(size, s.next_local@, n - offset, n)
                &&& is_exact ==> s.next_local@ == n - offset
            } else if q < t.pre.len() {
                &&& s.progress == Progress::<T, _, SIZE>::Return(
                    if seq.skipped {
                        ReadResult::Skipped(log[q])
                    } else {
                        ReadResult::Success(log[q])
                    },
                )
                &&& follows(size, s.next_local@, q + 1, n)
                &&& is_exact ==> s.next_local@ == q + 1
            } else {
                &&& s.progress == again
                &&& s.tries == seq.tries + 1
                &&& s.skipped == seq.skipped
                &&& s.next_local == seq.next_local
                &&& follows(size, s.next_local@, q, n)
            }
        }),
{
    let size = SIZE as int;
    let n = t.post.len();
    let local = seq.next_local@;
    lemma_try_is_right(t, local, q);
    lemma_tracks_later(size, local, q, t.pre.len(), n);
    lemma_advance_adds(size, local, 1, 0);
    lemma_tracks_back(size, n, catch_up_offset(size, seq.fast_forward));
    if q < n {
        lemma_tracks_next(size, local, q, n);
    }
}

/// What fetching the next item may come to for a reader with the first `p` items
/// behind it, once the given tries have been made and the reader has got to `q`.
pub open spec fn is_right<T: CBufItem, const SIZE: usize>(
    s: FetchNextItemSeq<T, SIZE>,
    tries: Seq<Try<T, SIZE>>,
    p: int,
    q: int,
) -> bool {
    let size = SIZE as int;
    let n = tries.last().post.len();
    let log = tries.last().post.history.log;
    let caught_up = is_caught_up(tries, p, catch_up_offset(size, s.fast_forward), q);
    match s.progress {
        Progress::Return(ReadResult::Success(v)) => {
            &&& q == p < n
            &&& v == log[p]
            &&& follows(size, s.next_local@, p + 1, n)
        },
        Progress::Return(ReadResult::Skipped(v)) => {
            &&& p < q < n
            &&& caught_up
            &&& v == log[q]
            &&& follows(size, s.next_local@, q + 1, n)
        },
        Progress::Return(ReadResult::NoNewItems) => {
            &&& q == p == n
            &&& follows(size, s.next_local@, p, n)
        },
        Progress::Return(ReadResult::SpinFail) | Progress::IndexCheckPre => {
            &&& s.tries == tries.len() <= NUM_READ_TRIES
            &&& s.progress is Return <==> s.tries == NUM_READ_TRIES
            &&& follows(size, s.next_local@, q, n)
            &&& 1 <= n - q < size
            &&& if s.skipped {
                p < q && caught_up
            } else {
                p == q
            }
            &&& forall|i: int, j: int|
                0 <= i < j < tries.len() ==> (#[trigger] tries[i]).post.len() < (
                #[trigger] tries[j]).post.len()
        },
        _ => false,
    }
}

/// One more try takes an operation from what it may have come to to what it may come to
/// then.
proof fn lemma_is_right_after_try<T: CBufItem, const SIZE: usize>(
    s0: FetchNextItemSeq<T, SIZE>,
    tries: Seq<Try<T, SIZE>>,
    p: int,
    q0: int,
) -> (q: int)
    requires
        size_ok(SIZE as int),
        2 <= tries.len(),
        in_order(tries),
        s0.progress is IndexCheckPre,
        is_right(s0, tries.drop_last(), p, q0),
        tries.last().post.len() - p < ring_len(SIZE as int) || {
            &&& s0.next_local@ == q0
            &&& tries.last().post.len() <= usize::MAX
        },
    ensures
        is_right(observed(s0, tries.last()), tries, p, q),
        s0.next_local@ == q0 && tries.last().post.len() <= usize::MAX ==> observed(
            s0,
            tries.last(),
        ).next_local@ == position_after(observed(s0, tries.last()), q),
        observed(s0, tries.last()).fast_forward == s0.fast_forward,
{
    let size = SIZE as int;
    let offset = catch_up_offset(size, s0.fast_forward);
    let before = tries.drop_last();
    let prev = tries[tries.len() - 2];
    let last = tries[tries.len() - 1];
    let n = last.post.len();
    assert(before.last() == prev);
    assert(prev.wf() && last.wf());
    assert(prev.post.history.leads_to(last.pre.history));
    lemma_tracks_later(size, s0.next_local@, q0, prev.post.len(), last.pre.len());
    lemma_observed(s0, last, q0);
    if size <= n - q0 {
        assert(is_caught_up(tries, p, offset, n - offset)) by {
            assert(tries[tries.len() - 1].post.len() == n);
        }
        assert forall|i: int, j: int| 0 <= i < j < tries.len() implies (
        #[trigger] tries[i]).post.len() < (#[trigger] tries[j]).post.len() by {
            assert(before[i] == tries[i]);
            if j < tries.len() - 1 {
                assert(before[j] == tries[j]);
            } else if i < tries.len() - 2 {
                assert(before[tries.len() - 2] == prev);
            }
        }
        n - offset
    } else {
        if s0.skipped {
            let i = choose|i: int|
                0 <= i < before.len() && size <= (#[trigger] before[i]).post.len() - p && q0
                    == before[i].post.len() - offset;
            assert(tries[i].post.len() == before[i].post.len());
            assert(is_caught_up(tries, p, offset, q0));
        }
        q0
    }
}

/// What fetching the next item comes to is right, whatever the writer did in the
/// meantime, for as long as its index cannot be mistaken for another one.
///
/// A reader with the first `p` items behind it that is given an item without having
/// missed any is given the item at `p`. One that has missed items is given the one
/// at a later position `q`, which is that of the newest or of the oldest item in
/// the buffer at a moment at which the item at `p` had left it. Either way its
/// index is then that of the next position. It is told that there are no new items
/// only when it has all the published items behind it. And it gives up only after
/// [`NUM_READ_TRIES`] tries, between any two of which the writer has published an
/// item.
pub proof fn lemma_fetch_next_item_is_right<T: CBufItem, const SIZE: usize>(
    local: CBufIndex<SIZE>,
    fast_forward: bool,
    p: int,
    tries: Seq<Try<T, SIZE>>,
) -> (q: int)
    requires
        size_ok(SIZE as int),
        0 < tries.len(),
        are_tries_of(FetchNextItemSeq::<T, SIZE>::start(local, fast_forward), tries),
        tracks(SIZE as int, local@, p, tries[0].pre.len()),
        in_reach(SIZE as int, local@, p, tries.last().post.len()),
    ensures
        ({
            let s = run(FetchNextItemSeq::<T, SIZE>::start(local, fast_forward), tries);
            &&& s.fast_forward == fast_forward
            &&& is_right(s, tries, p, q)
            &&& local@ == p && tries.last().post.len() <= usize::MAX ==> s.next_local@
                == position_after(s, q)
        }),
    decreases tries.len(),
{
    let size = SIZE as int;
    let offset = catch_up_offset(size, fast_forward);
    let start = FetchNextItemSeq::<T, SIZE>::start(local, fast_forward);
    let before = tries.drop_last();
    let last = tries.last();
    let s0 = run(start, before);
    let s = run(start, tries);
    let n = last.post.len();
    assert(s == observed(s0, last));
    assert(tries[tries.len() - 1].wf());
    assert(tries.take(tries.len() - 1) =~= before);
    if tries.len() == 1 {
        assert(s0 == start);
        lemma_observed(s0, last, p);
        if size <= n - p {
            assert(is_caught_up(tries, p, offset, n - offset)) by {
                assert(tries[0].post.len() == n);
            }
            n - offset
        } else {
            lemma_tracks_later(size, local@, p, last.pre.len(), n);
            p
        }
    } else {
        assert forall|k: int| 0 <= k < before.len() implies (#[trigger] run(
            start,
            before.take(k),
        )).progress is IndexCheckPre by {
            assert(before.take(k) =~= tries.take(k));
        }
        let q0 = lemma_fetch_next_item_is_right(local, fast_forward, p, before);
        lemma_is_right_after_try(s0, tries, p, q0)
    }
}

/// While the writer rests, the item at the index of a reader with the first `p`
/// items behind it can be read exactly when it is one of the latest `size - 1`, and
/// what is read is that item.
pub proof fn lemma_fetch_is_right<T, const SIZE: usize>(now: Snapshot<T, SIZE>, local: int, p: int)
    requires
        size_ok(SIZE as int),
        now.wf(),
        follows(SIZE as int, local, p, now.len()),
    ensures
        now.mem.readable(local) <==> now.history.gone(SIZE as int) <= p < now.len(),
        now.mem.readable(local) ==> now.mem.item_at(local) == now.history.log[p],
{
    lemma_try_is_right(Try { pre: now, mid: now, post: now }, local, p);
}

/// Whatever index is read, and however stale it is, only items that have been published
/// are ever read: the filler is not, nor is an item of before the buffer was last
/// initialized. The item that is read is one that was in the buffer the whole time.
///
/// In the course of the try fewer items are published than the ring is longer than the
/// buffer.
pub proof fn lemma_only_published_items_are_read<T, const SIZE: usize>(
    t: Try<T, SIZE>,
    idx: int,
) -> (q: int)
    requires
        size_ok(SIZE as int),
        t.wf(),
        0 <= idx <= usize::MAX,
        t.post.len() - t.pre.len() <= ring_len(SIZE as int) - SIZE,
    ensures
        fetch_value(
            SIZE as int,
            idx,
            t.pre.mem.next,
            t.mid.mem.item_at(idx),
            t.post.mem.next,
        ) matches Some(v) ==> {
            &&& t.post.history.gone(SIZE as int) <= q < t.pre.len()
            &&& tracks(SIZE as int, idx, q, t.pre.len())
            &&& v == t.post.history.log[q]
        },
        q == t.pre.len() - t.pre.mem.available(idx),
{
    let size = SIZE as int;
    let n = t.pre.len();
    let next = t.pre.mem.next;
    let d = steps(size, idx, next)->0;
    if readable(size, idx, next) {
        lemma_ring(size);
        lemma_steps(size, idx, next, 0);
        lemma_advance_adds(size, 0, n, 0);
        lemma_try_is_right(t, idx, n - d);
    }
    n - d
}

/// Whatever its index is, and however stale, a reader is given an item that is in the
/// buffer, or none. It is given none exactly when the buffer is empty or its index is
/// the published one.
pub proof fn lemma_only_current_items_are_given<T, const SIZE: usize>(
    now: Snapshot<T, SIZE>,
    local: int,
    fast_forward: bool,
) -> (q: int)
    requires
        size_ok(SIZE as int),
        now.wf(),
        0 <= local <= usize::MAX,
    ensures
        match now.mem.next_result(local, fast_forward) {
            ReadResult::Success(v) | ReadResult::Skipped(v) => {
                &&& now.history.gone(SIZE as int) <= q < now.len()
                &&& v == now.history.log[q]
                &&& tracks(
                    SIZE as int,
                    now.mem.next_local(local, fast_forward),
                    q + 1,
                    now.len(),
                )
            },
            ReadResult::NoNewItems => true,
            ReadResult::SpinFail => false,
        },
        now.mem.next_result(local, fast_forward) is NoNewItems <==> now.len() == 0 || local
            == now.mem.next,
{
    let size = SIZE as int;
    let n = now.len();
    let offset = catch_up_offset(size, fast_forward);
    lemma_ring(size);
    lemma_tracks_end(size, n);
    lemma_tracks_readable(size, now.mem.next, n, n);
    lemma_readable_behind(size, now.mem.next, offset);
    match now.mem.next_read(local, fast_forward) {
        Some((_, idx)) => {
            let q = lemma_only_published_items_are_read(
                Try { pre: now, mid: now, post: now },
                idx,
            );
            lemma_tracks_next(size, idx, q, n);
            q
        },
        None => n,
    }
}

/// While the writer rests, a reader with the first `p` items behind it is given the
/// item at `p` if that is in the buffer, the newest or the oldest item in the buffer
/// if it is not, and no item if there is none at `p` yet.
pub proof fn lemma_next_item_is_right<T, const SIZE: usize>(
    now: Snapshot<T, SIZE>,
    local: int,
    p: int,
    fast_forward: bool,
)
    requires
        size_ok(SIZE as int),
        now.wf(),
        follows(SIZE as int, local, p, now.len()),
    ensures
        ({
            let n = now.len();
            let log = now.history.log;
            let caught_up = if fast_forward {
                n - 1
            } else {
                now.history.gone(SIZE as int)
            };
            let result = now.mem.next_result(local, fast_forward);
            let after = now.mem.next_local(local, fast_forward);
            if n == p {
                result == ReadResult::<T>::NoNewItems && follows(SIZE as int, after, p, n)
            } else if now.history.gone(SIZE as int) <= p {
                result == ReadResult::Success(log[p]) && follows(SIZE as int, after, p + 1, n)
            } else {
                result == ReadResult::Skipped(log[caught_up]) && follows(
                    SIZE as int,
                    after,
                    caught_up + 1,
                    n,
                )
            }
        }),
{
    let size = SIZE as int;
    let n = now.len();
    let offset = catch_up_offset(size, fast_forward);
    lemma_ring(size);
    lemma_fetch_is_right(now, local, p);
    lemma_tracks_readable(size, local, p, n);
    if p < n {
        lemma_tracks_next(size, local, p, n);
        let back = retreat(now.mem.next, offset);
        lemma_tracks_back(size, n, offset);
        lemma_fetch_is_right(now, back, retreat(n, offset));
        lemma_tracks_next(size, back, retreat(n, offset), n);
    }
}

/// A reader that has gone to the end has no new items to read; one that has gone
/// back to the start reads the oldest item in the buffer next, if there is one.
pub proof fn lemma_ends_are_right<T, const SIZE: usize>(now: Snapshot<T, SIZE>, fast_forward: bool)
    requires
        size_ok(SIZE as int),
        now.wf(),
    ensures
        now.mem.next_result(now.mem.next, fast_forward) == ReadResult::<T>::NoNewItems,
        tracks(SIZE as int, now.mem.oldest(), now.history.gone(SIZE as int), now.len()),
        now.mem.next_result(now.mem.oldest(), fast_forward) == if now.len() == 0 {
            ReadResult::NoNewItems
        } else {
            ReadResult::Success(now.history.log[now.history.gone(SIZE as int)])
        },
{
    let size = SIZE as int;
    let n = now.len();
    lemma_ring(size);
    lemma_tracks_end(size, n);
    lemma_tracks_back(size, n, size - 1);
    lemma_next_item_is_right(now, now.mem.next, n, fast_forward);
    lemma_next_item_is_right(now, now.mem.oldest(), now.history.gone(size), fast_forward);
}

/// The current items of a buffer are the latest `size - 1` that were published, or
/// all where there are fewer, in their order.
pub proof fn lemma_current_items_are_right<T, const SIZE: usize>(now: Snapshot<T, SIZE>)
    requires
        size_ok(SIZE as int),
        now.wf(),
    ensures
        now.mem.items(now.mem.oldest(), now.mem.next) == now.history.log.subrange(
            now.history.gone(SIZE as int),
            now.len(),
        ),
{
    let size = SIZE as int;
    let n = now.len();
    let first = now.mem.oldest();
    let gone = now.history.gone(size);
    lemma_ring(size);
    lemma_tracks_back(size, n, size - 1);
    lemma_advance_adds(size, 0, n, 0);
    if n > usize::MAX {
        lemma_advance_mod(size, 0, n);
    }
    assert(now.mem.next - first == n - gone);
    assert forall|k: int| 0 <= k < n - gone implies #[trigger] now.mem.item_at(first + k)
        == now.history.log[gone + k] by {
        lemma_advance_adds(size, first, k, n - gone - k);
        assert(advance(size, first, k) == first + k);
        assert(tracks(size, first + k, gone + k, n));
        lemma_fetch_is_right(now, first + k, gone + k);
    }
    assert(now.mem.items(first, now.mem.next) =~= now.history.log.subrange(gone, n));
}

/// Where a reader at `local` is after it has fetched the next item `k` times.
pub open spec fn local_after<T, const SIZE: usize>(
    mem: Memory<T, SIZE>,
    local: int,
    fast_forward: bool,
    k: nat,
) -> int
    decreases k,
{
    if k == 0 {
        local
    } else {
        mem.next_local(local_after(mem, local, fast_forward, (k - 1) as nat), fast_forward)
    }
}

/// A reader that has not fallen behind reads all the items that it has not read, in
/// their order, and is then told that there are no new ones.
pub proof fn lemma_reads_in_order<T, const SIZE: usize>(
    now: Snapshot<T, SIZE>,
    local: int,
    p: int,
    fast_forward: bool,
    k: nat,
)
    requires
        size_ok(SIZE as int),
        now.wf(),
        tracks(SIZE as int, local, p, now.len()),
        now.history.gone(SIZE as int) <= p,
        k <= now.len() - p,
    ensures
        tracks(SIZE as int, local_after(now.mem, local, fast_forward, k), p + k, now.len()),
        now.mem.next_result(local_after(now.mem, local, fast_forward, k), fast_forward) == if k
            < now.len() - p {
            ReadResult::Success(now.history.log[p + k])
        } else {
            ReadResult::NoNewItems
        },
    decreases k,
{
    let size = SIZE as int;
    lemma_ring(size);
    if k > 0 {
        lemma_reads_in_order(now, local, p, fast_forward, (k - 1) as nat);
        lemma_next_item_is_right(
            now,
            local_after(now.mem, local, fast_forward, (k - 1) as nat),
            p + k - 1,
            fast_forward,
        );
    }
    lemma_next_item_is_right(
        now,
        local_after(now.mem, local, fast_forward, k),
        p + k,
        fast_forward,
    );
}

/// Fetching the next item `k + 1` times is fetching it once and then `k` times.
proof fn lemma_local_after_first<T, const SIZE: usize>(
    mem: Memory<T, SIZE>,
    local: int,
    fast_forward: bool,
    k: nat,
)
    ensures
        local_after(mem, local, fast_forward, k + 1) == local_after(
            mem,
            mem.next_local(local, fast_forward),
            fast_forward,
            k,
        ),
    decreases k,
{
    if k > 0 {
        lemma_local_after_first(mem, local, fast_forward, (k - 1) as nat);
    } else {
        assert(local_after(mem, local, fast_forward, 0) == local);
    }
}

/// Whatever its index is, and however stale, a reader that goes on fetching the next item
/// while nothing is written is given at most `SIZE - 1` items before it is told that
/// there are no new ones. Returns the number of items that it is given.
pub proof fn lemma_iteration_ends<T, const SIZE: usize>(
    now: Snapshot<T, SIZE>,
    local: int,
    fast_forward: bool,
) -> (k: nat)
    requires
        size_ok(SIZE as int),
        now.wf(),
        0 <= local <= usize::MAX,
    ensures
        k <= SIZE - 1,
        forall|j: nat|
            j <= k ==> (now.mem.next_result(
                #[trigger] local_after(now.mem, local, fast_forward, j),
                fast_forward,
            ) is NoNewItems <==> j == k),
{
    let size = SIZE as int;
    let mem = now.mem;
    let q = lemma_only_current_items_are_given(now, local, fast_forward);
    if mem.next_result(local, fast_forward) is NoNewItems {
        0
    } else {
        let k = (now.len() - q) as nat;
        let after = mem.next_local(local, fast_forward);
        assert forall|j: nat| j <= k implies (mem.next_result(
            #[trigger] local_after(mem, local, fast_forward, j),
            fast_forward,
        ) is NoNewItems <==> j == k) by {
            if j > 0 {
                lemma_local_after_first(mem, local, fast_forward, (j - 1) as nat);
                lemma_reads_in_order(now, after, q + 1, fast_forward, (j - 1) as nat);
            }
        }
        k
    }
}

/// The memory after a writer has added `items`, one after the other.
pub open spec fn with_items<T, const SIZE: usize>(
    mem: Memory<T, SIZE>,
    items: Seq<T>,
) -> Memory<T, SIZE>
    decreases items.len(),
{
    if items.len() == 0 {
        mem
    } else {
        let before = with_items(mem, items.drop_last());
        before.with_item(before.next, items.last())
    }
}

/// Adding items at the published index adds them to the history.
pub proof fn lemma_add_items<T, const SIZE: usize>(now: Snapshot<T, SIZE>, items: Seq<T>)
    requires
        size_ok(SIZE as int),
        now.wf(),
        now.history.pending is None,
    ensures
        (Snapshot {
            history: History { log: now.history.log + items, pending: None },
            mem: with_items(now.mem, items),
        }).wf(),
    decreases items.len(),
{
    if items.len() == 0 {
        assert(now.history.log + items =~= now.history.log);
    } else {
        let before = items.drop_last();
        lemma_add_items(now, before);
        let h = History { log: now.history.log + before, pending: None };
        let mem = with_items(now.mem, before);
        lemma_add_item(h, mem, items.last());
        assert(h.log.push(items.last()) =~= now.history.log + items);
    }
}

/// A reader that had all the items behind it reads those that are then written, in
/// their order, if there are fewer than `size` of them. If there are more, it goes on
/// with the newest or with the oldest that is still in the buffer.
pub proof fn lemma_reads_what_is_written<T, const SIZE: usize>(
    now: Snapshot<T, SIZE>,
    items: Seq<T>,
    fast_forward: bool,
    k: nat,
)
    requires
        size_ok(SIZE as int),
        now.wf(),
        now.history.pending is None,
        in_reach(SIZE as int, now.mem.next, now.len(), now.len() + items.len()),
        k <= items.len(),
    ensures
        ({
            let mem = with_items(now.mem, items);
            let m = items.len() as int;
            if m < SIZE {
                mem.next_result(local_after(mem, now.mem.next, fast_forward, k), fast_forward)
                    == if k < m {
                    ReadResult::Success(items[k as int])
                } else {
                    ReadResult::NoNewItems
                }
            } else {
                mem.next_result(now.mem.next, fast_forward) == ReadResult::Skipped(
                    items[m - catch_up_offset(SIZE as int, fast_forward)],
                )
            }
        }),
{
    let size = SIZE as int;
    let m = items.len() as int;
    let n = now.len();
    let later = Snapshot {
        history: History { log: now.history.log + items, pending: None },
        mem: with_items(now.mem, items),
    };
    lemma_ring(size);
    lemma_add_items(now, items);
    lemma_tracks_end(size, n);
    lemma_tracks_later(size, now.mem.next, n, n, n + m);
    if m < size {
        lemma_reads_in_order(later, now.mem.next, n, fast_forward, k);
    } else {
        lemma_next_item_is_right(later, now.mem.next, n, fast_forward);
    }
}

/// Where the item that was asked for has left the buffer, the oldest item in the
/// buffer is fetched in its place; where it has not been published, none is.
pub proof fn lemma_fetch_with_index_is_right<T, const SIZE: usize>(
    now: Snapshot<T, SIZE>,
    idx: int,
    p: int,
)
    requires
        size_ok(SIZE as int),
        now.wf(),
        tracks(SIZE as int, idx, p, now.len()),
        2 * (now.len() - p) < ring_len(SIZE as int),
    ensures
        now.mem.index_fetched(idx) == if p == now.len() {
            None
        } else if now.history.gone(SIZE as int) <= p {
            Some(idx)
        } else {
            Some(now.mem.oldest())
        },
        tracks(SIZE as int, now.mem.oldest(), now.history.gone(SIZE as int), now.len()),
{
    let size = SIZE as int;
    let n = now.len();
    lemma_ring(size);
    lemma_fetch_is_right(now, idx, p);
    lemma_tracks_readable(size, idx, p, n);
    lemma_tracks_back(size, n, size - 1);
    if p < n {
        lemma_precedes_advance(size, idx, n - p);
    }
}

/// No item is fetched at an index that lies after the published one.
pub proof fn lemma_nothing_beyond_the_end<T, const SIZE: usize>(mem: Memory<T, SIZE>, k: int)
    requires
        size_ok(mem.size()),
        roomy(mem.size()),
        mem.wf(),
        0 <= k,
        2 * k < ring_len(mem.size()),
    ensures
        mem.index_fetched(advance(mem.size(), mem.next, k)) is None,
{
    let size = mem.size();
    let next = mem.next;
    let idx = advance(size, next, k);
    lemma_ring(size);
    lemma_advance_adds(size, next, k, 0);
    lemma_advance_unfold(size, next, 0);
    lemma_readable_behind(size, next, 1);
    if 0 < k {
        lemma_precedes_advance(size, next, k);
        lemma_gap_advance(size, next, k);
        lemma_gap_back(size, next, idx);
        if let Some(d) = steps(size, idx, next) {
            if 1 <= d < size {
                lemma_steps(size, idx, next, 0);
                lemma_gap_advance(size, idx, d);
            }
        }
    }
}

/// The items after an index of an item in the buffer are those that were published
/// after it.
pub proof fn lemma_items_after_are_right<T, const SIZE: usize>(
    now: Snapshot<T, SIZE>,
    first: int,
    p: int,
)
    requires
        size_ok(SIZE as int),
        now.wf(),
        tracks(SIZE as int, first, p, now.len()),
        now.history.gone(SIZE as int) <= p < now.len(),
    ensures
        now.mem.available(first) == now.len() - p,
        forall|k: int|
            0 <= k < now.len() - p ==> {
                &&& #[trigger] now.mem.item_after(first, k) == now.history.log[p + k]
                &&& tracks(SIZE as int, advance(SIZE as int, first, k), p + k, now.len())
            },
{
    let size = SIZE as int;
    let n = now.len();
    lemma_ring(size);
    lemma_steps(size, first, now.mem.next, n - p);
    lemma_advance_injective(size, first, now.mem.available(first), n - p);
    assert forall|k: int| 0 <= k < n - p implies #[trigger] now.mem.item_after(first, k)
        == now.history.log[p + k] && tracks(size, advance(size, first, k), p + k, n) by {
        lemma_advance_adds(size, first, k, n - p - k);
        lemma_fetch_is_right(now, advance(size, first, k), p + k);
    }
}

/// A search by a predicate that sorts the items from the first one searched on
/// finds the first of them of which the predicate holds, and none only if it holds of
/// none.
///
/// The predicate `f` holds of exactly the items of which `holds` does. The search
/// starts at the index `from` with the first `p` items behind it, or at the oldest
/// item in the buffer where the item at `p` has left it.
pub proof fn lemma_search_is_right<T, F: Fn(T) -> bool, const SIZE: usize>(
    now: Snapshot<T, SIZE>,
    f: F,
    holds: spec_fn(T) -> bool,
    from: int,
    p: int,
    found: Option<int>,
) -> (q: int)
    requires
        size_ok(SIZE as int),
        roomy(SIZE as int),
        now.wf(),
        tracks(SIZE as int, from, p, now.len()),
        2 * (now.len() - p) < ring_len(SIZE as int),
        answers_as(f, holds),
        forall|i: int, j: int|
            p <= i < j < now.len() && now.history.gone(SIZE as int) <= i && holds(
                #[trigger] now.history.log[i],
            ) ==> holds(#[trigger] now.history.log[j]),
        now.mem.may_find(f, from, found),
    ensures
        forall|i: int|
            p <= i < q && now.history.gone(SIZE as int) <= i ==> !holds(
                #[trigger] now.history.log[i],
            ),
        match found {
            Some(idx) => {
                &&& p <= q < now.len()
                &&& now.history.gone(SIZE as int) <= q
                &&& holds(now.history.log[q])
                &&& tracks(SIZE as int, idx, q, now.len())
            },
            None => q == now.len(),
        },
{
    let size = SIZE as int;
    let n = now.len();
    let mem = now.mem;
    let log = now.history.log;
    lemma_ring(size);
    lemma_fetch_with_index_is_right(now, from, p);
    let first = mem.index_fetched(from)->0;
    let p0 = if now.history.gone(size) <= p {
        p
    } else {
        now.history.gone(size)
    };
    if p < n {
        assert(tracks(size, first, p0, n));
        lemma_items_after_are_right(now, first, p0);
    }
    match found {
        Some(idx) => {
            let k = if holds(mem.item_after(first, 0)) {
                0
            } else {
                choose|k: int|
                    {
                        &&& 0 < k <= n - p0 - 1 || k == n - p0 - 1
                        &&& idx == #[trigger] mem.place(first, k)
                        &&& says(f, mem.item_after(first, k), true)
                        &&& 0 < k ==> says(f, mem.item_after(first, k - 1), false)
                    }
            };
            assert(mem.item_after(first, k) == log[p0 + k]);
            if idx != advance(size, first, k) {
                lemma_tracks_back(size, n, 1);
            }
            if 0 < k {
                assert(mem.item_after(first, k - 1) == log[p0 + k - 1]);
            }
            p0 + k
        },
        None => {
            if p < n {
                assert(mem.item_after(first, n - p0 - 1) == log[n - 1]);
            }
            n
        },
    }
}

/// The moments of one round of fetching an item by its index: those of the attempt
/// to read the item, and, if that fails, the one at which the valid indexes are
/// found out.
pub struct Round<T, const SIZE: usize> {
    pub attempt: Try<T, SIZE>,
    pub range: Snapshot<T, SIZE>,
}

impl<T, const SIZE: usize> Round<T, SIZE> {
    /// Whether these are moments of one buffer, in their order.
    pub open spec fn wf(self) -> bool {
        &&& self.attempt.wf()
        &&& self.range.wf()
        &&& self.attempt.post.history.leads_to(self.range.history)
    }
}

/// The operation `seq` after one more round.
pub open spec fn after_round<T: CBufItem, const SIZE: usize>(
    seq: FetchWithIndexSeq<T, SIZE>,
    round: Round<T, SIZE>,
) -> FetchWithIndexSeq<T, SIZE> {
    let t = round.attempt;
    let fetched = seq.after_fetch(
        fetch_value(
            SIZE as int,
            seq.idx_try@,
            t.pre.mem.next,
            t.mid.mem.item_at(seq.idx_try@),
            t.post.mem.next,
        ),
    );
    if fetched.step is ValidRange {
        fetched.after_range(
            CBufIndex { idx: round.range.mem.oldest() as usize },
            round.range.next(),
        )
    } else {
        fetched
    }
}

/// The operation `seq` after the given rounds.
pub open spec fn run_rounds<T: CBufItem, const SIZE: usize>(
    seq: FetchWithIndexSeq<T, SIZE>,
    rounds: Seq<Round<T, SIZE>>,
) -> FetchWithIndexSeq<T, SIZE>
    decreases rounds.len(),
{
    if rounds.len() == 0 {
        seq
    } else {
        after_round(run_rounds(seq, rounds.drop_last()), rounds.last())
    }
}

/// Whether these are the rounds of one operation at one buffer, one after the other,
/// and none comes after it was over.
pub open spec fn are_rounds_of<T: CBufItem, const SIZE: usize>(
    seq: FetchWithIndexSeq<T, SIZE>,
    rounds: Seq<Round<T, SIZE>>,
) -> bool {
    &&& forall|i: int| 0 <= i < rounds.len() ==> #[trigger] rounds[i].wf()
    &&& forall|i: int, j: int|
        0 <= i < j < rounds.len() ==> (#[trigger] rounds[i]).range.history.leads_to(
            (#[trigger] rounds[j]).attempt.pre.history,
        )
    &&& forall|k: int|
        0 <= k < rounds.len() ==> (#[trigger] run_rounds(seq, rounds.take(k))).step is Fetch
}

/// What one more round does to an operation that tries the index of the position `q`.
proof fn lemma_round<T: CBufItem, const SIZE: usize>(
    seq: FetchWithIndexSeq<T, SIZE>,
    round: Round<T, SIZE>,
    q: int,
)
    requires
        size_ok(SIZE as int),
        seq.wf(),
        seq.step is Fetch,
        round.wf(),
        tracks(SIZE as int, seq.idx_try@, q, round.attempt.pre.len()),
        2 * (round.range.len() - q) < ring_len(SIZE as int),
    ensures
        ({
            let size = SIZE as int;
            let t = round.attempt;
            let n = round.range.len();
            let s = after_round(seq, round);
            &&& s.wf()
            &&& s.idx == seq.idx
            &&& if q < t.pre.len() && t.post.len() - q < size {
                let v = t.post.history.log[q];
                &&& s.idx_try == seq.idx_try
                &&& s.step == IndexedStep::Return(
                    if seq.idx_try@ == seq.idx@ {
                        FetchWithIndexResult::Success(v, seq.idx_try)
                    } else {
                        FetchWithIndexResult::Skipped(v, seq.idx_try)
                    },
                )
            } else if q == n {
                s.step == IndexedStep::<T, SIZE>::Return(FetchWithIndexResult::NoNewItems)
            } else {
                &&& tracks(size, s.idx_try@, round.range.history.gone(size), n)
                &&& s.tries == seq.tries + 1
                &&& s.step == if s.tries < NUM_READ_TRIES {
                    IndexedStep::<T, SIZE>::Fetch(s.idx_try)
                } else {
                    IndexedStep::<T, SIZE>::Return(FetchWithIndexResult::SpinFail)
                }
            }
        }),
{
    let size = SIZE as int;
    let t = round.attempt;
    let n = round.range.len();
    let local = seq.idx_try@;
    lemma_ring(size);
    lemma_try_is_right(t, local, q);
    lemma_tracks_later(size, local, q, t.pre.len(), n);
    lemma_tracks_readable(size, local, q, n);
    lemma_tracks_back(size, n, size - 1);
    if q < n {
        lemma_precedes_advance(size, local, n - q);
    }
}

/// What fetching the item at the index of the position `p` may come to, once the given
/// rounds have been made and the position that is tried is `q`.
pub open spec fn is_right_with_index<T: CBufItem, const SIZE: usize>(
    s: FetchWithIndexSeq<T, SIZE>,
    rounds: Seq<Round<T, SIZE>>,
    p: int,
    q: int,
) -> bool {
    let size = SIZE as int;
    let last = rounds.last();
    let log = last.attempt.post.history.log;
    match s.step {
        IndexedStep::Return(FetchWithIndexResult::Success(v, i)) => {
            &&& i@ == s.idx@
            &&& q == p < last.attempt.post.len()
            &&& v == log[p]
        },
        IndexedStep::Return(FetchWithIndexResult::Skipped(v, i)) => {
            &&& tracks(size, i@, q, last.attempt.post.len())
            &&& v == log[q]
            &&& was_oldest(rounds.drop_last(), q)
        },
        IndexedStep::Return(FetchWithIndexResult::NoNewItems) => q == p == last.range.len(),
        IndexedStep::Return(FetchWithIndexResult::SpinFail) | IndexedStep::Fetch(_) => {
            &&& s.tries == rounds.len()
            &&& s.step is Return <==> s.tries == NUM_READ_TRIES
            &&& p < last.range.len()
            &&& q == last.range.history.gone(size)
            &&& tracks(size, s.idx_try@, q, last.range.len())
            &&& forall|i: int, j: int|
                0 <= i < j < rounds.len() ==> (#[trigger] rounds[i]).range.len() < (
                #[trigger] rounds[j]).range.len()
        },
        _ => false,
    }
}

/// Whether `q` was the position of the oldest item in the buffer when the valid
/// indexes were found out in one of the rounds.
pub open spec fn was_oldest<T, const SIZE: usize>(rounds: Seq<Round<T, SIZE>>, q: int) -> bool {
    exists|i: int|
        0 <= i < rounds.len() && q == (#[trigger] rounds[i]).range.history.gone(SIZE as int)
}

/// What fetching an item by its index comes to is right, whatever the writer did in
/// the meantime, for as long as fewer items are written than make up half the ring.
///
/// The item that is returned is the one that was published at the position of the
/// index that is returned with it. That is the index that was asked for, or the one of
/// the item that was the oldest in the buffer at some moment. It is said that there
/// is no item only when the one that was asked for has not been published. And it is
/// given up only after [`NUM_READ_TRIES`] rounds, between any two of which the writer
/// has published an item.
pub proof fn lemma_fetch_with_index_rounds_are_right<T: CBufItem, const SIZE: usize>(
    idx: CBufIndex<SIZE>,
    p: int,
    rounds: Seq<Round<T, SIZE>>,
) -> (q: int)
    requires
        size_ok(SIZE as int),
        0 < rounds.len(),
        are_rounds_of(FetchWithIndexSeq::<T, SIZE>::start(idx), rounds),
        tracks(SIZE as int, idx@, p, rounds[0].attempt.pre.len()),
        2 * (rounds.last().range.len() - p + SIZE) < ring_len(SIZE as int),
    ensures
        is_right_with_index(
            run_rounds(FetchWithIndexSeq::<T, SIZE>::start(idx), rounds),
            rounds,
            p,
            q,
        ),
        run_rounds(FetchWithIndexSeq::<T, SIZE>::start(idx), rounds).idx == idx,
        run_rounds(FetchWithIndexSeq::<T, SIZE>::start(idx), rounds).wf(),
    decreases rounds.len(),
{
    let size = SIZE as int;
    let start = FetchWithIndexSeq::<T, SIZE>::start(idx);
    let before = rounds.drop_last();
    let last = rounds.last();
    let s0 = run_rounds(start, before);
    let s = run_rounds(start, rounds);
    let n = last.range.len();
    assert(s == after_round(s0, last));
    assert(rounds[rounds.len() - 1].wf());
    assert(rounds.take(rounds.len() - 1) =~= before);
    if rounds.len() == 1 {
        assert(s0 == start);
        lemma_round(s0, last, p);
        if s.step is Fetch || s.step == IndexedStep::<T, SIZE>::Return(
            FetchWithIndexResult::SpinFail,
        ) {
            last.range.history.gone(size)
        } else {
            p
        }
    } else {
        let prev = rounds[rounds.len() - 2];
        assert forall|k: int| 0 <= k < before.len() implies (#[trigger] run_rounds(
            start,
            before.take(k),
        )).step is Fetch by {
            assert(before.take(k) =~= rounds.take(k));
        }
        assert(before.last() == prev);
        assert(prev.wf());
        assert(prev.range.history.leads_to(last.attempt.pre.history));
        let q0 = lemma_fetch_with_index_rounds_are_right(idx, p, before);
        lemma_tracks_later(size, s0.idx_try@, q0, prev.range.len(), last.attempt.pre.len());
        lemma_round(s0, last, q0);
        assert(was_oldest(before, q0)) by {
            assert(before[before.len() - 1] == prev);
        }
        if s.step is Fetch || s.step == IndexedStep::<T, SIZE>::Return(
            FetchWithIndexResult::SpinFail,
        ) {
            assert forall|i: int, j: int| 0 <= i < j < rounds.len() implies (
            #[trigger] rounds[i]).range.len() < (#[trigger] rounds[j]).range.len() by {
                assert(before[i] == rounds[i]);
                if j < rounds.len() - 1 {
                    assert(before[j] == rounds[j]);
                } else if i < rounds.len() - 2 {
                    assert(before[rounds.len() - 2] == prev);
                }
            }
            last.range.history.gone(size)
        } else {
            if s0.idx_try@ == idx@ {
                let m = last.attempt.post.len();
                lemma_tracks_later(size, idx@, q0, last.attempt.pre.len(), m);
                assert(rounds[0].attempt.pre.len() <= m) by {
                    assert(rounds[0].wf());
                    assert(rounds[0].range.history.leads_to(last.attempt.pre.history));
                }
                lemma_tracks_later(size, idx@, p, rounds[0].attempt.pre.len(), m);
                lemma_advance_injective(size, idx@, m - p, m - q0);
            } else {
                lemma_tracks_later(
                    size,
                    s0.idx_try@,
                    q0,
                    last.attempt.pre.len(),
                    last.attempt.post.len(),
                );
            }
            q0
        }
    }
}

/// Whether whatever is asked of two memories, short of a search, they answer alike: which
/// indexes are valid, what can be read at an index, what a reader is given next and where
/// it then is, what is fetched by index, and what the current items are.
pub open spec fn answer_alike<T, const SIZE: usize>(
    mem1: Memory<T, SIZE>,
    mem2: Memory<T, SIZE>,
) -> bool {
    &&& mem1.next == mem2.next
    &&& mem1.oldest() == mem2.oldest()
    &&& forall|idx: int|
        0 <= idx <= usize::MAX ==> (#[trigger] mem1.readable(idx) <==> mem2.readable(idx))
    &&& forall|idx: int|
        0 <= idx <= usize::MAX && mem1.readable(idx) ==> #[trigger] mem1.item_at(idx)
            == mem2.item_at(idx)
    &&& forall|local: int, fast_forward: bool|
        0 <= local <= usize::MAX ==> #[trigger] mem1.next_result(local, fast_forward)
            == mem2.next_result(local, fast_forward)
    &&& forall|local: int, fast_forward: bool|
        0 <= local <= usize::MAX ==> #[trigger] mem1.next_local(local, fast_forward)
            == mem2.next_local(local, fast_forward)
    &&& forall|idx: int|
        0 <= idx <= usize::MAX ==> #[trigger] mem1.index_fetched(idx) == mem2.index_fetched(idx)
    &&& forall|idx: int|
        0 <= idx <= usize::MAX ==> #[trigger] mem1.indexed_result(idx) == mem2.indexed_result(
            idx,
        )
    &&& mem1.items(mem1.oldest(), mem1.next) == mem2.items(mem2.oldest(), mem2.next)
}

/// Two memories with one history answer alike, whatever else their slots hold.
pub proof fn lemma_same_history_answers_alike<T, const SIZE: usize>(
    h: History<T>,
    mem1: Memory<T, SIZE>,
    mem2: Memory<T, SIZE>,
)
    requires
        size_ok(SIZE as int),
        mem1.wf(),
        mem2.wf(),
        h.recorded_in(mem1),
        h.recorded_in(mem2),
    ensures
        answer_alike(mem1, mem2),
{
    let size = SIZE as int;
    let now1 = Snapshot { history: h, mem: mem1 };
    let now2 = Snapshot { history: h, mem: mem2 };
    lemma_ring(size);
    lemma_current_items_are_right(now1);
    lemma_current_items_are_right(now2);
    lemma_readable_behind(size, mem1.next, size - 1);
    lemma_readable_behind(size, mem1.next, 1);
    assert forall|idx: int|
        0 <= idx <= usize::MAX && mem1.readable(idx) implies #[trigger] mem1.item_at(idx)
        == mem2.item_at(idx) by {
        let q1 = lemma_only_published_items_are_read(
            Try { pre: now1, mid: now1, post: now1 },
            idx,
        );
        let q2 = lemma_only_published_items_are_read(
            Try { pre: now2, mid: now2, post: now2 },
            idx,
        );
    }
}

/// A bisection of two memories that hold the same items from an index on comes to the
/// same.
proof fn lemma_bisections_agree<T, const SIZE: usize>(
    mem1: Memory<T, SIZE>,
    mem2: Memory<T, SIZE>,
    holds: spec_fn(T) -> bool,
    first: int,
    a: int,
    b: int,
)
    requires
        mem1.next == mem2.next,
        0 <= a <= b < mem1.available(first),
        forall|k: int|
            0 <= k < mem1.available(first) ==> #[trigger] mem1.item_after(first, k)
                == mem2.item_after(first, k),
    ensures
        mem1.bisection(holds, first, a, b) == mem2.bisection(holds, first, a, b),
    decreases b - a,
{
    if 2 <= b - a {
        let mid = a + (b - a) / 2;
        lemma_bisections_agree(mem1, mem2, holds, first, a, mid);
        lemma_bisections_agree(mem1, mem2, holds, first, mid, b);
        assert(mem1.item_after(first, mid) == mem2.item_after(first, mid));
    }
}

/// The items from the one on that is fetched at an index are the same in two memories
/// that answer alike.
proof fn lemma_items_agree<T, const SIZE: usize>(
    mem1: Memory<T, SIZE>,
    mem2: Memory<T, SIZE>,
    from: int,
)
    requires
        size_ok(SIZE as int),
        mem1.wf(),
        answer_alike(mem1, mem2),
        0 <= from <= usize::MAX,
        mem1.index_fetched(from) is Some,
    ensures
        ({
            let first = mem1.index_fetched(from)->0;
            &&& 1 <= mem1.available(first)
            &&& forall|k: int|
                0 <= k < mem1.available(first) ==> #[trigger] mem1.item_after(first, k)
                    == mem2.item_after(first, k)
        }),
{
    let first = mem1.index_fetched(from)->0;
    let n = mem1.available(first);
    mem1.lemma_fetched(from);
    assert forall|k: int| 0 <= k < n implies #[trigger] mem1.item_after(first, k)
        == mem2.item_after(first, k) by {
        lemma_readable_between(SIZE as int, first, n, k);
    }
}

/// Searching two memories that answer alike by a predicate that has one answer for every
/// item comes to the same.
pub proof fn lemma_searches_agree<T, const SIZE: usize>(
    mem1: Memory<T, SIZE>,
    mem2: Memory<T, SIZE>,
    from: int,
)
    requires
        size_ok(SIZE as int),
        mem1.wf(),
        answer_alike(mem1, mem2),
        0 <= from <= usize::MAX,
    ensures
        forall|holds: spec_fn(T) -> bool| #[trigger]
            mem1.search_result(holds, from) == mem2.search_result(holds, from),
{
    assert(mem1.index_fetched(from) == mem2.index_fetched(from));
    if let Some(first) = mem1.index_fetched(from) {
        let n = mem1.available(first);
        lemma_items_agree(mem1, mem2, from);
        assert(mem1.item_after(first, 0) == mem2.item_after(first, 0));
        assert(mem1.item_after(first, n - 1) == mem2.item_after(first, n - 1));
        assert forall|holds: spec_fn(T) -> bool| #[trigger]
            mem1.search_result(holds, from) == mem2.search_result(holds, from) by {
            lemma_bisections_agree(mem1, mem2, holds, first, 0, n - 1);
        }
    }
}

/// Searching two memories that answer alike may come to the same by any predicate, and a
/// search may be told the same by both.
pub proof fn lemma_may_find_alike<T, F: Fn(T) -> bool, const SIZE: usize>(
    mem1: Memory<T, SIZE>,
    mem2: Memory<T, SIZE>,
    f: F,
    from: int,
    found: Option<int>,
)
    requires
        size_ok(SIZE as int),
        mem1.wf(),
        answer_alike(mem1, mem2),
        0 <= from <= usize::MAX,
    ensures
        mem1.finds(f, from, found) <==> mem2.finds(f, from, found),
        forall|seq: SearchSeq<SIZE>, event: SearchEvent<SIZE>| #[trigger]
            mem1.tells(f, seq, event) <==> mem2.tells(f, seq, event),
{
    assert(mem1.index_fetched(from) == mem2.index_fetched(from));
    lemma_searches_agree(mem1, mem2, from);
    assert forall|seq: SearchSeq<SIZE>, event: SearchEvent<SIZE>| #[trigger]
        mem1.tells(f, seq, event) <==> mem2.tells(f, seq, event) by {
        match seq.step {
            SearchStep::First(idx) | SearchStep::Middle(idx) => {
                assert(mem1.index_fetched(idx@) == mem2.index_fetched(idx@));
                if let Some(read) = mem1.index_fetched(idx@) {
                    mem1.lemma_fetched(idx@);
                    assert(mem1.item_at(read) == mem2.item_at(read));
                }
            },
            SearchStep::Last(idx) => {
                assert(mem1.readable(idx@) <==> mem2.readable(idx@));
                if mem1.readable(idx@) {
                    assert(mem1.item_at(idx@) == mem2.item_at(idx@));
                }
            },
            _ => {},
        }
    }
    if let Some(first) = mem1.index_fetched(from) {
        let n = mem1.available(first);
        lemma_items_agree(mem1, mem2, from);
        assert(mem1.item_after(first, 0) == mem2.item_after(first, 0));
        assert(mem1.item_after(first, n - 1) == mem2.item_after(first, n - 1));
        lemma_may_find_later_alike(mem1, mem2, f, first, n);
    }
}

/// What a search may come to in one of two memories that hold the same items from an
/// index on, it may come to in the other.
proof fn lemma_may_find_later_alike<T, F: Fn(T) -> bool, const SIZE: usize>(
    mem1: Memory<T, SIZE>,
    mem2: Memory<T, SIZE>,
    f: F,
    first: int,
    n: int,
)
    requires
        mem1.next == mem2.next,
        n == mem1.available(first),
        1 <= n,
        forall|k: int|
            0 <= k < n ==> #[trigger] mem1.item_after(first, k) == mem2.item_after(first, k),
    ensures
        forall|j: int| #[trigger]
            mem1.may_find_later(f, first, j) <==> mem2.may_find_later(f, first, j),
{
    assert forall|j: int| #[trigger]
        mem1.may_find_later(f, first, j) <==> mem2.may_find_later(f, first, j) by {
        assert forall|k: int| 0 < k < n || k == n - 1 implies {
            &&& #[trigger] mem1.place(first, k) == mem2.place(first, k)
            &&& mem1.item_after(first, k) == mem2.item_after(first, k)
            &&& 0 < k ==> mem1.item_after(first, k - 1) == mem2.item_after(first, k - 1)
        } by {}
        assert forall|k: int| 0 < k < n || k == n - 1 implies #[trigger] mem2.place(first, k)
            == mem1.place(first, k) by {}
    }
}

} // verus!
