//! What the writer and a reader of one buffer are answered, call after call.
use crate::buffer::{lemma_readable_behind, Memory};
use crate::history::{
    follows, in_reach, lemma_add_item, lemma_empty, lemma_next_item_is_right,
    lemma_same_history_answers_alike, lemma_searches_agree, lemma_tracks_later, tracks, History,
    Snapshot,
};
use crate::index::{lemma_advance_adds, lemma_ring, size_ok};
use crate::protocol::{FetchWithIndexResult, ReadResult};
use vstd::prelude::*;

verus! {

/// A call by the writer or by the reader.
#[verifier::reject_recursive_types(T)]
pub enum Call<T> {
    /// The writer adds an item.
    AddItem(T),
    /// The writer lists the items in the buffer.
    CurrentItems,
    /// The reader fetches the next item.
    FetchNextItem(bool),
    /// The reader goes to just past the last item.
    FastForward,
    /// The reader goes back to the oldest item.
    Rewind,
    /// The reader is replaced by one that starts at an index.
    ReaderStartingAt(usize),
    /// The reader fetches the item at an index.
    Fetch(usize),
    /// The reader fetches the item at an index or a later one.
    FetchWithIndex(usize),
    /// The reader searches, from the start or from its own index on, for an item of which
    /// a predicate holds, and is replaced by the one that is found.
    Search(spec_fn(T) -> bool, bool),
}

/// What a call is answered.
pub enum Answer<T, const SIZE: usize> {
    /// Nothing, to a call that only does something.
    Done,
    /// The items in the buffer.
    Items(Seq<T>),
    /// What fetching the next item comes to.
    Next(ReadResult<T>),
    /// The item that is fetched, if one is.
    Fetched(Option<T>),
    /// What fetching an item by its index comes to.
    FetchedWithIndex(FetchWithIndexResult<T, SIZE>),
    /// The index that is found, if one is.
    Found(Option<int>),
}

/// A buffer with its writer and a reader.
pub struct State<T, const SIZE: usize> {
    /// The memory of the buffer, to whose published index the writer writes next.
    pub mem: Memory<T, SIZE>,
    /// The index that the reader reads from next.
    pub local: int,
}

impl<T, const SIZE: usize> State<T, SIZE> {
    /// Whether the memory is that of a buffer of `SIZE` slots, and the reader's index is
    /// one.
    pub open spec fn wf(self) -> bool {
        &&& self.mem.wf()
        &&& 0 <= self.local <= usize::MAX
    }

    /// The index at which a search starts.
    pub open spec fn search_start(self, fromstart: bool) -> int {
        if fromstart {
            self.mem.oldest()
        } else {
            self.local
        }
    }

    /// What the call is answered.
    pub open spec fn answer(self, call: Call<T>) -> Answer<T, SIZE> {
        match call {
            Call::CurrentItems => Answer::Items(
                self.mem.items(self.mem.oldest(), self.mem.next),
            ),
            Call::FetchNextItem(fast_forward) => Answer::Next(
                self.mem.next_result(self.local, fast_forward),
            ),
            Call::Fetch(idx) => Answer::Fetched(
                if self.mem.readable(idx as int) {
                    Some(self.mem.item_at(idx as int))
                } else {
                    None
                },
            ),
            Call::FetchWithIndex(idx) => Answer::FetchedWithIndex(
                self.mem.indexed_result(idx as int),
            ),
            Call::Search(holds, fromstart) => Answer::Found(
                self.mem.search_result(holds, self.search_start(fromstart)),
            ),
            _ => Answer::Done,
        }
    }

    /// The state after the call.
    pub open spec fn after(self, call: Call<T>) -> Self {
        match call {
            Call::AddItem(item) => State {
                mem: self.mem.with_item(self.mem.next, item),
                ..self
            },
            Call::FetchNextItem(fast_forward) => State {
                local: self.mem.next_local(self.local, fast_forward),
                ..self
            },
            Call::FastForward => State { local: self.mem.next, ..self },
            Call::Rewind => State { local: self.mem.oldest(), ..self },
            Call::ReaderStartingAt(idx) => State { local: idx as int, ..self },
            Call::Search(holds, fromstart) => match self.mem.search_result(
                holds,
                self.search_start(fromstart),
            ) {
                Some(idx) => State { local: idx, ..self },
                None => self,
            },
            _ => self,
        }
    }

    /// The state after the calls.
    pub open spec fn run(self, calls: Seq<Call<T>>) -> Self
        decreases calls.len(),
    {
        if calls.len() == 0 {
            self
        } else {
            self.run(calls.drop_last()).after(calls.last())
        }
    }

    /// What the calls are answered, one after the other.
    pub open spec fn answers(self, calls: Seq<Call<T>>) -> Seq<Answer<T, SIZE>>
        decreases calls.len(),
    {
        if calls.len() == 0 {
            Seq::empty()
        } else {
            let before = calls.drop_last();
            self.answers(before).push(self.run(before).answer(calls.last()))
        }
    }

    /// The items that the reader is given when it fetches the next item, one after the
    /// other.
    pub open spec fn given(self, calls: Seq<Call<T>>) -> Seq<T>
        decreases calls.len(),
    {
        if calls.len() == 0 {
            Seq::empty()
        } else {
            let before = calls.drop_last();
            match self.run(before).answer(calls.last()) {
                Answer::Next(ReadResult::Success(v)) => self.given(before).push(v),
                Answer::Next(ReadResult::Skipped(v)) => self.given(before).push(v),
                _ => self.given(before),
            }
        }
    }
}

/// The items that the calls add, one after the other.
pub open spec fn added<T>(calls: Seq<Call<T>>) -> Seq<T>
    decreases calls.len(),
{
    if calls.len() == 0 {
        Seq::empty()
    } else {
        match calls.last() {
            Call::AddItem(item) => added(calls.drop_last()).push(item),
            _ => added(calls.drop_last()),
        }
    }
}

/// The history after the calls.
pub open spec fn history_after<T>(h: History<T>, calls: Seq<Call<T>>) -> History<T> {
    History { log: h.log + added(calls), pending: None }
}

/// A call leaves a state well-formed, and adds to the history what it adds to the buffer.
proof fn lemma_after<T, const SIZE: usize>(h: History<T>, s: State<T, SIZE>, call: Call<T>)
    requires
        size_ok(SIZE as int),
        s.wf(),
        h.recorded_in(s.mem),
        h.pending is None,
    ensures
        s.after(call).wf(),
        (match call {
            Call::AddItem(item) => h.with_item(item),
            _ => h,
        }).recorded_in(s.after(call).mem),
{
    let size = SIZE as int;
    match call {
        Call::AddItem(item) => {
            lemma_add_item(h, s.mem, item);
        },
        Call::FetchNextItem(fast_forward) => {
            lemma_readable_behind(size, s.mem.next, 1);
            if let Some((_, idx)) = s.mem.next_read(s.local, fast_forward) {
                lemma_advance_adds(size, idx, 1, 0);
            }
        },
        Call::Search(holds, fromstart) => {
            s.mem.lemma_search_result(holds, s.search_start(fromstart));
        },
        _ => {},
    }
}

/// Calls leave a state well-formed, and add to the history what they add to the buffer.
pub proof fn lemma_run<T, const SIZE: usize>(
    h: History<T>,
    s: State<T, SIZE>,
    calls: Seq<Call<T>>,
)
    requires
        size_ok(SIZE as int),
        s.wf(),
        h.recorded_in(s.mem),
        h.pending is None,
    ensures
        s.run(calls).wf(),
        history_after(h, calls).recorded_in(s.run(calls).mem),
    decreases calls.len(),
{
    if calls.len() == 0 {
        assert(h.log + added(calls) =~= h.log);
    } else {
        let before = calls.drop_last();
        lemma_run(h, s, before);
        lemma_after(history_after(h, before), s.run(before), calls.last());
        if let Call::AddItem(item) = calls.last() {
            assert((h.log + added(before)).push(item) =~= h.log + added(calls));
        }
    }
}

/// Whatever calls are made on two buffers with one history, by readers that start at one
/// index: they are answered the same.
pub proof fn lemma_same_history_same_answers<T, const SIZE: usize>(
    h: History<T>,
    s1: State<T, SIZE>,
    s2: State<T, SIZE>,
    calls: Seq<Call<T>>,
)
    requires
        size_ok(SIZE as int),
        s1.wf(),
        s2.wf(),
        s1.local == s2.local,
        h.recorded_in(s1.mem),
        h.recorded_in(s2.mem),
        h.pending is None,
    ensures
        s1.answers(calls) == s2.answers(calls),
        s1.run(calls).local == s2.run(calls).local,
    decreases calls.len(),
{
    if calls.len() > 0 {
        let before = calls.drop_last();
        let t1 = s1.run(before);
        let t2 = s2.run(before);
        lemma_same_history_same_answers(h, s1, s2, before);
        lemma_run(h, s1, before);
        lemma_run(h, s2, before);
        lemma_same_history_answers_alike(history_after(h, before), t1.mem, t2.mem);
        match calls.last() {
            Call::FetchNextItem(fast_forward) => {
                assert(t1.mem.next_result(t1.local, fast_forward) == t2.mem.next_result(
                    t1.local,
                    fast_forward,
                ));
                assert(t1.mem.next_local(t1.local, fast_forward) == t2.mem.next_local(
                    t1.local,
                    fast_forward,
                ));
            },
            Call::Fetch(idx) => {
                assert(t1.mem.readable(idx as int) <==> t2.mem.readable(idx as int));
                if t1.mem.readable(idx as int) {
                    assert(t1.mem.item_at(idx as int) == t2.mem.item_at(idx as int));
                }
            },
            Call::FetchWithIndex(idx) => {
                assert(t1.mem.indexed_result(idx as int) == t2.mem.indexed_result(idx as int));
            },
            Call::Search(holds, fromstart) => {
                let from = t1.search_start(fromstart);
                lemma_searches_agree(t1.mem, t2.mem, from);
                assert(t1.mem.search_result(holds, from) == t2.mem.search_result(holds, from));
            },
            _ => {},
        }
    }
}

/// The filler of a buffer never shows: whatever calls are made on two new buffers that
/// differ in their fillers alone, they are answered the same.
pub proof fn lemma_filler_never_shows<T, const SIZE: usize>(
    filler1: T,
    filler2: T,
    local: usize,
    calls: Seq<Call<T>>,
)
    requires
        size_ok(SIZE as int),
    ensures
        ({
            let s1 = State { mem: Memory::<T, SIZE>::empty(filler1), local: local as int };
            let s2 = State { mem: Memory::<T, SIZE>::empty(filler2), local: local as int };
            &&& s1.answers(calls) == s2.answers(calls)
            &&& s1.run(calls).local == s2.run(calls).local
        }),
{
    let s1 = State { mem: Memory::<T, SIZE>::empty(filler1), local: local as int };
    let s2 = State { mem: Memory::<T, SIZE>::empty(filler2), local: local as int };
    lemma_empty::<T, SIZE>(filler1);
    lemma_empty::<T, SIZE>(filler2);
    lemma_same_history_same_answers(History::<T>::empty(), s1, s2, calls);
}

/// Whether the calls only add items and fetch the next one.
pub open spec fn are_sequential<T>(calls: Seq<Call<T>>) -> bool {
    forall|i: int|
        0 <= i < calls.len() ==> (#[trigger] calls[i] is AddItem || calls[i] is FetchNextItem)
}

/// What fetching the next item comes to for a reader that has the first `q` items behind
/// it. Returns the position of the item that it is given, or `q` if it is given none.
proof fn lemma_fetch_next<T, const SIZE: usize>(
    h: History<T>,
    s: State<T, SIZE>,
    q: int,
    fast_forward: bool,
) -> (read: int)
    requires
        size_ok(SIZE as int),
        s.wf(),
        h.recorded_in(s.mem),
        follows(SIZE as int, s.local, q, h.len()),
    ensures
        ({
            let local = s.after(Call::FetchNextItem(fast_forward)).local;
            let is_exact = s.local == q && h.len() <= usize::MAX;
            match s.mem.next_result(s.local, fast_forward) {
                ReadResult::Success(v) | ReadResult::Skipped(v) => {
                    &&& q <= read < h.len()
                    &&& v == h.log[read]
                    &&& tracks(SIZE as int, local, read + 1, h.len())
                    &&& is_exact ==> local == read + 1
                },
                ReadResult::NoNewItems => {
                    &&& tracks(SIZE as int, local, q, h.len())
                    &&& local == s.local
                },
                ReadResult::SpinFail => false,
            }
        }),
{
    let size = SIZE as int;
    let n = h.len();
    lemma_ring(size);
    lemma_next_item_is_right(Snapshot { history: h, mem: s.mem }, s.local, q, fast_forward);
    if h.gone(size) <= q {
        q
    } else if fast_forward {
        n - 1
    } else {
        h.gone(size)
    }
}

/// A reader that only fetches the next item, while items are added in between, is given
/// items in the order in which they were published, none twice and none that it had
/// behind it. Returns the positions of the items that it is given, and the one that it
/// has got to.
pub proof fn lemma_given_in_order<T, const SIZE: usize>(
    h: History<T>,
    s: State<T, SIZE>,
    p: int,
    calls: Seq<Call<T>>,
) -> (r: (Seq<int>, int))
    requires
        size_ok(SIZE as int),
        s.wf(),
        h.recorded_in(s.mem),
        h.pending is None,
        tracks(SIZE as int, s.local, p, h.len()),
        in_reach(SIZE as int, s.local, p, history_after(h, calls).len()),
        are_sequential(calls),
    ensures
        ({
            let (positions, q) = r;
            let given = s.given(calls);
            let later = history_after(h, calls);
            &&& positions.len() == given.len()
            &&& forall|i: int|
                0 <= i < given.len() ==> {
                    &&& p <= #[trigger] positions[i] < q
                    &&& given[i] == later.log[positions[i]]
                }
            &&& forall|i: int, j: int|
                0 <= i < j < given.len() ==> #[trigger] positions[i] < #[trigger] positions[j]
            &&& p <= q
            &&& tracks(SIZE as int, s.run(calls).local, q, later.len())
            &&& s.local == p && later.len() <= usize::MAX ==> s.run(calls).local == q
        }),
    decreases calls.len(),
{
    let size = SIZE as int;
    if calls.len() == 0 {
        (Seq::empty(), p)
    } else {
        let before = calls.drop_last();
        let last = calls[calls.len() - 1];
        let t = s.run(before);
        let h1 = history_after(h, before);
        assert forall|i: int| 0 <= i < before.len() implies (#[trigger] before[i] is AddItem
            || before[i] is FetchNextItem) by {
            assert(before[i] == calls[i]);
        }
        let (positions, q) = lemma_given_in_order(h, s, p, before);
        lemma_run(h, s, before);
        match last {
            Call::AddItem(item) => {
                lemma_tracks_later(size, t.local, q, h1.len(), h1.len() + 1);
                (positions, q)
            },
            Call::FetchNextItem(fast_forward) => {
                assert(added(calls) == added(before));
                let read = lemma_fetch_next(h1, t, q, fast_forward);
                if t.mem.next_result(t.local, fast_forward) is NoNewItems {
                    (positions, q)
                } else {
                    (positions.push(read), read + 1)
                }
            },
            _ => (positions, q),
        }
    }
}

} // verus!
