//! Searching a circular buffer for the first item that makes a predicate true.
//!
//! What a search comes to is stated in terms of the items from the first one searched
//! on, each by the number of places that it lies after that one.
use crate::buffer::{CBufReader, Memory};
use crate::index::{
    advance, gap, lemma_advance_adds, lemma_advance_injective, lemma_advance_unfold,
    lemma_gap_advance, lemma_gap_back, lemma_gap_mod, lemma_ring, lemma_sizes_are_powers_of_two,
    lemma_steps, precedes, retreat, ring_len, size_ok, CBufIndex,
};
use crate::protocol::{
    readable, CBufItem, FetchWithIndexResult, SearchEvent, SearchSeq, SearchStep,
};
use vstd::arithmetic::div_mod::{
    lemma_fundamental_div_mod, lemma_fundamental_div_mod_converse, lemma_mod_add_multiples_vanish,
    lemma_mod_multiples_vanish, lemma_mod_sub_multiples_vanish,
};
use vstd::arithmetic::logarithm::{lemma_log_pow, log};
use vstd::arithmetic::power2::{
    is_pow2_equiv, lemma_pow2, lemma_pow2_strictly_increases, lemma_pow2_unfold, pow2,
};
use vstd::prelude::*;

verus! {

/// Whether the predicate `f` may say `b` of `v`.
pub open spec fn says<T, F: Fn(T) -> bool>(f: F, v: T, b: bool) -> bool {
    call_ensures(f, (v,), b)
}

/// Whether the indexes leave a buffer of `size` slots enough room for any two
/// indexes of items in it to be told apart by [`precedes`]. Only the largest
/// size that there is does not.
pub open spec fn roomy(size: int) -> bool {
    4 * size <= usize::MAX + 1
}

/// Whether the predicate `f` has one answer for every value, which is what `holds` is
/// of it.
pub open spec fn answers_as<T, F: Fn(T) -> bool>(f: F, holds: spec_fn(T) -> bool) -> bool {
    forall|v: T, b: bool| #[trigger] says(f, v, b) ==> b == holds(v)
}

/// Asks `predicate` about the item that has been fetched, if one has. Returns the answer
/// and the index of the item.
pub fn test_fetched<T: CBufItem, F: Fn(T) -> bool, const SIZE: usize>(
    fetched: FetchWithIndexResult<T, SIZE>,
    predicate: &F,
) -> (r: Option<(bool, CBufIndex<SIZE>)>)
    requires
        match fetched {
            FetchWithIndexResult::Success(v, _) | FetchWithIndexResult::Skipped(v, _) => {
                call_requires(*predicate, (v,))
            },
            _ => true,
        },
    ensures
        match fetched {
            FetchWithIndexResult::Success(v, idx) | FetchWithIndexResult::Skipped(v, idx) => {
                r matches Some((b, i)) && i == idx && says(*predicate, v, b)
            },
            _ => r is None,
        },
{
    match fetched {
        FetchWithIndexResult::Success(v, idx) | FetchWithIndexResult::Skipped(v, idx) => {
            Some((predicate(v), idx))
        },
        FetchWithIndexResult::NoNewItems | FetchWithIndexResult::SpinFail => None,
    }
}

impl<T, const SIZE: usize> Memory<T, SIZE> {
    /// Whether the predicate `f` can be asked about every item in the buffer.
    pub open spec fn is_covered_by<F: Fn(T) -> bool>(self, f: F) -> bool {
        forall|idx: int|
            0 <= idx <= usize::MAX && self.readable(idx) ==> call_requires(
                f,
                (#[trigger] self.item_at(idx),),
            )
    }

    /// The index by which a search knows the item `k` places after the index `first`.
    /// That of the last item is the one before the published index.
    pub open spec fn place(self, first: int, k: int) -> int {
        if k == self.available(first) - 1 {
            retreat(self.next, 1)
        } else {
            advance(self.size(), first, k)
        }
    }

    /// What a search comes to whose predicate is false of the item `a` places after the
    /// index `first` and true of the one `b` places after it: it goes on with the item
    /// half-way between the two, until there is none.
    pub open spec fn bisection(
        self,
        holds: spec_fn(T) -> bool,
        first: int,
        a: int,
        b: int,
    ) -> Option<int>
        decreases b - a,
    {
        let ifalse = CBufIndex::<SIZE> { idx: advance(self.size(), first, a) as usize };
        let itrue = CBufIndex::<SIZE> { idx: self.place(first, b) as usize };
        let mid = a + (b - a) / 2;
        match SearchSeq::bisected(ifalse, itrue) {
            SearchStep::Middle(_) if 2 <= b - a => if holds(self.item_after(first, mid)) {
                self.bisection(holds, first, a, mid)
            } else {
                self.bisection(holds, first, mid, b)
            },
            SearchStep::Found(idx) => Some(idx@),
            _ => None,
        }
    }

    /// The index that a search from the index `from` on comes to, where the predicate
    /// is `holds`.
    pub open spec fn search_result(self, holds: spec_fn(T) -> bool, from: int) -> Option<int> {
        match self.index_fetched(from) {
            Some(first) => if holds(self.item_after(first, 0)) {
                Some(first)
            } else if !holds(self.item_after(first, self.available(first) - 1)) {
                None
            } else {
                self.bisection(holds, first, 0, self.available(first) - 1)
            },
            None => None,
        }
    }

    /// Whether a search from the index `from` on for an item of which the predicate
    /// `f` holds may come to `found`, whether or not `f` has one answer for every item.
    ///
    /// The search starts with the item that is fetched at `from`. Where `f` holds
    /// of that item, it is the one that is found. Where `f` holds neither of that
    /// item nor of the last one, no item is found. Otherwise an item is found of
    /// which `f` holds and before which is one of which it does not.
    pub open spec fn may_find<F: Fn(T) -> bool>(self, f: F, from: int, found: Option<int>) -> bool {
        match self.index_fetched(from) {
            Some(first) => match found {
                Some(j) => {
                    ||| j == first && says(f, self.item_after(first, 0), true)
                    ||| self.may_find_later(f, first, j)
                },
                None => {
                    &&& says(f, self.item_after(first, 0), false)
                    &&& roomy(self.size()) ==> says(
                        f,
                        self.item_after(first, self.available(first) - 1),
                        false,
                    )
                },
            },
            None => found is None,
        }
    }

    /// Whether a search that has found `f` not to hold of the first item, and to hold of
    /// the last one, may come to the index `j`.
    pub open spec fn may_find_later<F: Fn(T) -> bool>(self, f: F, first: int, j: int) -> bool {
        let last = self.available(first) - 1;
        &&& says(f, self.item_after(first, 0), false)
        &&& says(f, self.item_after(first, last), true)
        &&& exists|k: int|
            {
                &&& 0 < k <= last || k == last
                &&& j == #[trigger] self.place(first, k)
                &&& says(f, self.item_after(first, k), true)
                &&& roomy(self.size()) && 0 < k ==> says(f, self.item_after(first, k - 1), false)
            }
    }

    /// Whether `found` is what a search from the index `from` on comes to.
    pub open spec fn finds<F: Fn(T) -> bool>(self, f: F, from: int, found: Option<int>) -> bool {
        &&& self.may_find(f, from, found)
        &&& forall|holds: spec_fn(T) -> bool| #[trigger]
            answers_as(f, holds) ==> found == self.search_result(holds, from)
    }

    /// Whether one who fetches the item at the index `idx`, or a later one in its place,
    /// and asks `f` about it may come to `found`.
    pub open spec fn may_test<F: Fn(T) -> bool>(
        self,
        f: F,
        idx: int,
        found: Option<(bool, CBufIndex<SIZE>)>,
    ) -> bool {
        match found {
            Some((b, read)) => {
                &&& self.index_fetched(idx) == Some(read@)
                &&& says(f, self.item_at(read@), b)
            },
            None => self.index_fetched(idx) is None,
        }
    }

    /// Whether `event` is what this memory and the predicate `f` may tell the search
    /// `seq`.
    pub open spec fn tells<F: Fn(T) -> bool>(
        self,
        f: F,
        seq: SearchSeq<SIZE>,
        event: SearchEvent<SIZE>,
    ) -> bool {
        match (seq.step, event) {
            (SearchStep::ValidRange, SearchEvent::Range(start, end)) => {
                &&& start@ == self.oldest()
                &&& end@ == self.next
            },
            (SearchStep::First(idx), SearchEvent::First(found)) => self.may_test(f, idx@, found),
            (SearchStep::Last(idx), SearchEvent::Last(Some(b))) => {
                &&& self.readable(idx@)
                &&& says(f, self.item_at(idx@), b)
            },
            (SearchStep::Last(idx), SearchEvent::Last(None)) => !self.readable(idx@),
            (SearchStep::Middle(idx), SearchEvent::Middle(found)) => self.may_test(f, idx@, found),
            _ => false,
        }
    }

    /// Whether the search `seq` may be told the given events, one after the other, while
    /// nothing is written.
    pub open spec fn is_run<F: Fn(T) -> bool>(
        self,
        f: F,
        seq: SearchSeq<SIZE>,
        events: Seq<SearchEvent<SIZE>>,
    ) -> bool
        decreases events.len(),
    {
        events.len() > 0 ==> {
            &&& self.is_run(f, seq, events.drop_last())
            &&& self.tells(f, seq.run(events.drop_last()), events.last())
        }
    }

    /// Whether `idx` is the index of an item in the buffer that is not before the one
    /// that is fetched at the index `from`.
    pub open spec fn is_searched(self, from: int, idx: int) -> bool {
        &&& self.readable(idx)
        &&& self.index_fetched(from) matches Some(first) && exists|k: int|
            {
                &&& 0 <= k < self.available(first)
                &&& self.item_at(idx) == #[trigger] self.item_after(first, k)
                &&& idx == advance(self.size(), first, k) || idx == self.place(first, k)
            }
    }
}

/// If the item at `idx` is in a buffer whose published index is `d` places later,
/// then so are all the items in between.
pub proof fn lemma_readable_between(size: int, idx: int, d: int, k: int)
    requires
        size_ok(size),
        0 <= idx <= usize::MAX,
        0 <= k < d < size,
    ensures
        0 <= advance(size, idx, k) <= usize::MAX,
        0 <= advance(size, idx, d) <= usize::MAX,
        readable(size, advance(size, idx, k), advance(size, idx, d)),
{
    let x = advance(size, idx, k);
    let next = advance(size, idx, d);
    lemma_ring(size);
    lemma_advance_adds(size, idx, k, d - k);
    lemma_advance_adds(size, idx, d, 0);
    lemma_steps(size, x, next, d - k);
    if x == next {
        lemma_advance_injective(size, idx, k, d);
    }
}

/// The index before the published index is that of the last item, or one that
/// stands for the same place on the ring.
pub proof fn lemma_last_index(size: int, first: int, n: int)
    requires
        size_ok(size),
        0 <= first <= usize::MAX,
        1 <= n < size,
        advance(size, first, n) != 0,
    ensures
        ({
            let last = retreat(advance(size, first, n), 1);
            let exact = advance(size, first, n - 1);
            &&& 0 <= last <= usize::MAX
            &&& 0 <= exact <= usize::MAX
            &&& last <= exact
            &&& last % size == exact % size
            &&& forall|x: int| #[trigger] gap(size, x, last) == gap(size, x, exact)
            &&& forall|x: int| #[trigger] gap(size, last, x) == gap(size, exact, x)
        }),
{
    let r = ring_len(size);
    let next = advance(size, first, n);
    let last = retreat(next, 1);
    let exact = advance(size, first, n - 1);
    lemma_ring(size);
    lemma_advance_adds(size, first, n - 1, 1);
    lemma_advance_adds(size, first, n, 0);
    lemma_advance_unfold(size, exact, 0);
    if exact == usize::MAX {
        assert(exact == last + r);
        lemma_fundamental_div_mod(r, size);
        lemma_mod_multiples_vanish(r / size, last, size);
        assert(size * (r / size) + last == exact);
        assert forall|x: int| #[trigger] gap(size, x, last) == gap(size, x, exact) by {
            lemma_gap_mod(size, x, last);
            lemma_gap_mod(size, x, exact);
            lemma_mod_add_multiples_vanish(last - x, r);
        }
        assert forall|x: int| #[trigger] gap(size, last, x) == gap(size, exact, x) by {
            lemma_gap_mod(size, last, x);
            lemma_gap_mod(size, exact, x);
            lemma_mod_sub_multiples_vanish(x - last, r);
        }
    }
}

/// What a search concludes from two indexes `a` and `b` places after the first,
/// where `jtrue` stands for the same place on the ring as the latter.
pub proof fn lemma_bisect(size: int, first: int, a: int, b: int, jtrue: int)
    requires
        size_ok(size),
        0 <= first <= usize::MAX,
        0 <= a < b < size - 1,
        jtrue <= advance(size, first, b),
        forall|x: int| #[trigger] gap(size, x, jtrue) == gap(size, x, advance(size, first, b)),
        forall|x: int| #[trigger] gap(size, jtrue, x) == gap(size, advance(size, first, b), x),
    ensures
        ({
            let x = advance(size, first, a);
            let x1 = advance(size, x, 1);
            let mid = a + (b - a) / 2;
            &&& precedes(size, x1, jtrue) ==> b - a >= 2
            &&& roomy(size) && b - a >= 2 ==> precedes(size, x1, jtrue)
            &&& roomy(size) ==> !precedes(size, jtrue, x)
            &&& gap(size, x, jtrue) == b - a
            &&& advance(size, x, (b - a) / 2) == advance(size, first, mid)
            &&& 0 <= advance(size, first, mid) <= usize::MAX
        }),
{
    let x = advance(size, first, a);
    let x1 = advance(size, x, 1);
    let y = advance(size, first, b);
    lemma_ring(size);
    lemma_advance_adds(size, first, a, b - a);
    lemma_advance_adds(size, first, a, (b - a) / 2);
    lemma_advance_adds(size, first, a + (b - a) / 2, 0);
    lemma_advance_adds(size, first, a, 1);
    lemma_advance_adds(size, first, a + 1, b - a - 1);
    lemma_advance_adds(size, first, b, 0);
    lemma_gap_advance(size, x, b - a);
    lemma_gap_advance(size, x1, b - a - 1);
    lemma_gap_back(size, x, y);
    lemma_gap_back(size, x1, y);
}

impl<T, const SIZE: usize> Memory<T, SIZE> {
    /// Whether the search `seq` from `from` on stands where it should: what it takes
    /// to be false and true are the items `a` and `b` places after the first, and
    /// `f` has said so of them.
    pub closed spec fn search_stands<F: Fn(T) -> bool>(
        self,
        f: F,
        from: int,
        seq: SearchSeq<SIZE>,
        a: int,
        b: int,
    ) -> bool {
        let first = self.index_fetched(from)->0;
        let n = self.available(first);
        &&& match seq.step {
            SearchStep::ValidRange => from == if seq.fromstart {
                self.oldest()
            } else {
                seq.next_local@
            },
            SearchStep::First(idx) => {
                &&& idx@ == from
                &&& seq.itrue@ == retreat(self.next, 1)
            },
            SearchStep::Last(idx) => {
                &&& idx == seq.itrue
                &&& seq.ifalse@ == first
                &&& seq.itrue@ == retreat(self.next, 1)
                &&& self.index_fetched(from) is Some
                &&& says(f, self.item_after(first, 0), false)
            },
            SearchStep::Middle(idx) => {
                &&& self.index_fetched(from) is Some
                &&& 0 <= a < b < n
                &&& b - a >= 2
                &&& idx@ == advance(self.size(), first, a + (b - a) / 2)
                &&& seq.step == SearchSeq::bisected(seq.ifalse, seq.itrue)
                &&& self.is_bracketed(f, first, seq, a, b)
            },
            SearchStep::Found(idx) => self.may_find(f, from, Some(idx@)),
            SearchStep::NotFound => self.may_find(f, from, None),
        }
        &&& forall|holds: spec_fn(T) -> bool| #[trigger]
            answers_as(f, holds) ==> self.comes_to(holds, from, seq.step, a, b)
    }

    /// Whether what the search `seq` takes to be false and true are the items `a` and
    /// `b` places after the first, and `f` has said so of them and of the ends.
    spec fn is_bracketed<F: Fn(T) -> bool>(
        self,
        f: F,
        first: int,
        seq: SearchSeq<SIZE>,
        a: int,
        b: int,
    ) -> bool {
        &&& seq.ifalse@ == advance(self.size(), first, a)
        &&& seq.itrue@ == self.place(first, b)
        &&& says(f, self.item_after(first, 0), false)
        &&& says(f, self.item_after(first, self.available(first) - 1), true)
        &&& says(f, self.item_after(first, a), false)
        &&& says(f, self.item_after(first, b), true)
    }

    /// Whether a search whose predicate is `holds` and that has got to `step` still
    /// comes to what it should.
    spec fn comes_to(
        self,
        holds: spec_fn(T) -> bool,
        from: int,
        step: SearchStep<SIZE>,
        a: int,
        b: int,
    ) -> bool {
        let first = self.index_fetched(from)->0;
        match step {
            SearchStep::Middle(_) => self.search_result(holds, from) == self.bisection(
                holds,
                first,
                a,
                b,
            ),
            SearchStep::Found(idx) => self.search_result(holds, from) == Some(idx@),
            SearchStep::NotFound => self.search_result(holds, from) is None,
            _ => true,
        }
    }

    /// What a bisection comes to is an index.
    proof fn lemma_bisection_is_index(self, holds: spec_fn(T) -> bool, first: int, a: int, b: int)
        ensures
            self.bisection(holds, first, a, b) matches Some(idx) ==> 0 <= idx <= usize::MAX,
        decreases b - a,
    {
        if 2 <= b - a {
            self.lemma_bisection_is_index(holds, first, a, a + (b - a) / 2);
            self.lemma_bisection_is_index(holds, first, a + (b - a) / 2, b);
        }
    }

    /// What a search comes to is an index.
    pub proof fn lemma_search_result(self, holds: spec_fn(T) -> bool, from: int)
        requires
            size_ok(SIZE as int),
            self.wf(),
            0 <= from <= usize::MAX,
        ensures
            self.search_result(holds, from) matches Some(idx) ==> 0 <= idx <= usize::MAX,
    {
        if let Some(first) = self.index_fetched(from) {
            self.lemma_bisection_is_index(holds, first, 0, self.available(first) - 1);
        }
    }

    /// A search that goes on with the item half-way between the items `a` and `b`
    /// places after the first stands where it should.
    proof fn lemma_search_bisected<F: Fn(T) -> bool>(
        self,
        f: F,
        from: int,
        seq: SearchSeq<SIZE>,
        a: int,
        b: int,
    )
        requires
            size_ok(SIZE as int),
            self.wf(),
            0 <= from <= usize::MAX,
            self.index_fetched(from) is Some,
            ({
                let first = self.index_fetched(from)->0;
                let n = self.available(first);
                &&& 0 <= a <= b < n
                &&& a == b ==> n == 1
                &&& self.is_bracketed(f, first, seq, a, b)
            }),
            forall|holds: spec_fn(T) -> bool| #[trigger]
                answers_as(f, holds) ==> self.search_result(holds, from) == self.bisection(
                    holds,
                    self.index_fetched(from)->0,
                    a,
                    b,
                ),
        ensures
            self.search_stands(
                f,
                from,
                SearchSeq { step: SearchSeq::bisected(seq.ifalse, seq.itrue), ..seq },
                a,
                b,
            ),
    {
        let size = self.size();
        let first = self.index_fetched(from)->0;
        let n = self.available(first);
        self.lemma_fetched(from);
        lemma_last_index(size, first, n);
        lemma_ring(size);
        if n == 1 {
            lemma_gap_back(size, self.next - 1, self.next);
            lemma_gap_advance(size, self.next - 1, 1);
            lemma_advance_unfold(size, first, 0);
        } else {
            lemma_bisect(size, first, a, b, seq.itrue@);
        }
        if SearchSeq::bisected(seq.ifalse, seq.itrue) is Found {
            assert(seq.itrue@ == self.place(first, b));
            assert(self.may_find_later(f, first, seq.itrue@));
        }
    }

    /// A search stands where it should when it starts.
    pub proof fn lemma_search_starts<F: Fn(T) -> bool>(
        self,
        f: F,
        from: int,
        next_local: CBufIndex<SIZE>,
        fromstart: bool,
    )
        requires
            from == if fromstart {
                self.oldest()
            } else {
                next_local@
            },
        ensures
            self.search_stands(f, from, SearchSeq::start(next_local, fromstart), 0, 0),
    {
    }

    /// A search that has come to an end has come to what it should.
    pub proof fn lemma_search_ends<F: Fn(T) -> bool>(
        self,
        f: F,
        from: int,
        seq: SearchSeq<SIZE>,
        a: int,
        b: int,
    )
        requires
            self.search_stands(f, from, seq, a, b),
        ensures
            seq.step matches SearchStep::Found(idx) ==> self.finds(f, from, Some(idx@)),
            seq.step is NotFound ==> self.finds(f, from, None),
    {
    }

    /// How far a search still is from its end, at most.
    pub open spec fn search_left(self, step: SearchStep<SIZE>, a: int, b: int) -> int {
        match step {
            SearchStep::ValidRange => self.size() + 3,
            SearchStep::First(_) => self.size() + 2,
            SearchStep::Last(_) => self.size() + 1,
            SearchStep::Middle(_) => b - a,
            _ => 0,
        }
    }

    /// What is told of an item in between halves what is left of a search.
    proof fn lemma_search_middle<F: Fn(T) -> bool>(
        self,
        f: F,
        from: int,
        seq: SearchSeq<SIZE>,
        found: Option<(bool, CBufIndex<SIZE>)>,
        a: int,
        b: int,
    ) -> (ab: (int, int))
        requires
            size_ok(SIZE as int),
            self.wf(),
            0 <= from <= usize::MAX,
            self.search_stands(f, from, seq, a, b),
            self.tells(f, seq, SearchEvent::Middle(found)),
        ensures
            self.search_stands(f, from, seq.after_middle(found), ab.0, ab.1),
            1 <= ab.1 - ab.0 < b - a <= SIZE - 2,
            2 * (ab.1 - ab.0 - 1) <= b - a - 1,
            found matches Some((_, idx)) && self.is_searched(from, idx@),
            seq.after_middle(found).step is Middle ==> 2 <= ab.1 - ab.0,
    {
        let size = self.size();
        let first = self.index_fetched(from)->0;
        let n = self.available(first);
        let mid = a + (b - a) / 2;
        let idx = seq.step->Middle_0;
        self.lemma_fetched(from);
        lemma_readable_between(size, first, n, mid);
        assert(self.item_at(idx@) == self.item_after(first, mid));
        assert(self.is_searched(from, idx@));
        assert(found matches Some((_, i)) && i == idx);
        let (holds_mid, _) = found->0;
        let (a2, b2) = if holds_mid {
            (a, mid)
        } else {
            (mid, b)
        };
        assert forall|holds: spec_fn(T) -> bool| #[trigger] answers_as(f, holds) implies
            self.search_result(holds, from) == self.bisection(holds, first, a2, b2) by {
            assert(self.comes_to(holds, from, seq.step, a, b));
            assert(says(f, self.item_after(first, mid), holds_mid));
        }
        if holds_mid {
            self.lemma_search_bisected(f, from, SearchSeq { itrue: idx, ..seq }, a, mid);
        } else {
            self.lemma_search_bisected(f, from, SearchSeq { ifalse: idx, ..seq }, mid, b);
        }
        (a2, b2)
    }

    /// A search that stands where it should and is told what there is stands where it
    /// should again, and nearer to its end. Every item in between that it asks about
    /// halves what is left.
    pub proof fn lemma_search_step<F: Fn(T) -> bool>(
        self,
        f: F,
        from: int,
        seq: SearchSeq<SIZE>,
        event: SearchEvent<SIZE>,
        a: int,
        b: int,
    ) -> (ab: (int, int))
        requires
            size_ok(SIZE as int),
            self.wf(),
            0 <= from <= usize::MAX,
            self.search_stands(f, from, seq, a, b),
            self.tells(f, seq, event),
        ensures
            self.search_stands(f, from, seq.told(event), ab.0, ab.1),
            0 <= self.search_left(seq.told(event).step, ab.0, ab.1) < self.search_left(
                seq.step,
                a,
                b,
            ),
            seq.told(event).step is Middle ==> {
                &&& 2 <= ab.1 - ab.0 <= SIZE - 2
                &&& seq.step is Middle ==> 2 * (ab.1 - ab.0 - 1) <= b - a - 1
            },
            seq.question(event) matches Some(idx) ==> self.is_searched(from, idx),
            self.index_fetched(from) is None ==> seq.question(event) is None,
    {
        let size = self.size();
        let first = self.index_fetched(from)->0;
        let n = self.available(first);
        if self.index_fetched(from) is Some {
            self.lemma_fetched(from);
            lemma_last_index(size, first, n);
        }
        match (seq.step, event) {
            (SearchStep::First(idx), SearchEvent::First(found)) => {
                if found is Some {
                    assert(self.item_after(first, 0) == self.item_at(first));
                    assert(self.is_searched(from, first));
                }
                (a, b)
            },
            (SearchStep::Last(idx), SearchEvent::Last(found)) => {
                let last = self.place(first, n - 1);
                assert(self.item_at(last) == self.item_after(first, n - 1));
                assert(self.is_searched(from, last));
                if found == Some(true) {
                    self.lemma_search_bisected(f, from, seq, 0, n - 1);
                }
                (0, n - 1)
            },
            (SearchStep::Middle(idx), SearchEvent::Middle(found)) => {
                self.lemma_search_middle(f, from, seq, found, a, b)
            },
            _ => (a, b),
        }
    }
}

impl<const SIZE: usize> SearchSeq<SIZE> {
    /// Every item in between that a search asks about, and that is fetched at its own
    /// index, halves the number of places between the index at which the predicate was
    /// last false and the one at which it was first true.
    pub proof fn lemma_middle_halves(self, holds: bool)
        requires
            size_ok(SIZE as int),
            self.step is Middle,
            self.step == Self::bisected(self.ifalse, self.itrue),
        ensures
            ({
                let after = self.after_middle(Some((holds, self.step->Middle_0)));
                let places = gap(SIZE as int, self.ifalse@, self.itrue@);
                gap(SIZE as int, after.ifalse@, after.itrue@) == if holds {
                    places / 2
                } else {
                    places - places / 2
                }
            }),
    {
        let size = SIZE as int;
        let r = ring_len(size);
        let x = self.ifalse@;
        let y = self.itrue@;
        let d = gap(size, x, y);
        let mid = advance(size, x, d / 2);
        lemma_ring(size);
        lemma_gap_back(size, x, y);
        lemma_gap_advance(size, x, d / 2);
        lemma_advance_adds(size, x, d / 2, 0);
        lemma_gap_mod(size, x, y);
        lemma_gap_mod(size, mid, y);
        lemma_fundamental_div_mod(y - x, r);
        let q = (y - x) / r;
        let rounds = if mid == x + d / 2 {
            q
        } else {
            q + 1
        };
        assert(y - mid == rounds * r + (d - d / 2)) by (nonlinear_arith)
            requires
                y - x == r * q + d,
                mid == x + d / 2 && rounds == q || mid == x + d / 2 - r && rounds == q + 1,
        ;
        lemma_fundamental_div_mod_converse(y - mid, r, rounds, d - d / 2);
    }
}

impl<T, const SIZE: usize> Memory<T, SIZE> {
    /// Where the indexes leave enough room, a bisection is over exactly when there is no
    /// item between the two, and has then come to the one of which the predicate is true.
    pub proof fn lemma_bisection(
        self,
        holds: spec_fn(T) -> bool,
        from: int,
        a: int,
        b: int,
    )
        requires
            size_ok(SIZE as int),
            roomy(SIZE as int),
            self.wf(),
            0 <= from <= usize::MAX,
            self.index_fetched(from) matches Some(first) && 0 <= a < b < self.available(first),
        ensures
            ({
                let first = self.index_fetched(from)->0;
                let mid = a + (b - a) / 2;
                self.bisection(holds, first, a, b) == if b - a < 2 {
                    Some(self.place(first, b))
                } else if holds(self.item_after(first, mid)) {
                    self.bisection(holds, first, a, mid)
                } else {
                    self.bisection(holds, first, mid, b)
                }
            }),
    {
        let first = self.index_fetched(from)->0;
        let n = self.available(first);
        self.lemma_fetched(from);
        lemma_last_index(SIZE as int, first, n);
        lemma_advance_adds(SIZE as int, first, a, 0);
        lemma_advance_adds(SIZE as int, first, b, 0);
        lemma_bisect(SIZE as int, first, a, b, self.place(first, b));
    }

    /// A search of a buffer that is not written to meanwhile comes to what it should, and
    /// asks the predicate about at most two items and as many more as the logarithm of
    /// the size. All of them are in the buffer and not before the one that is fetched at
    /// the start, and none is asked about where there is no such item.
    pub proof fn lemma_questions_are_few<F: Fn(T) -> bool>(
        self,
        f: F,
        next_local: CBufIndex<SIZE>,
        fromstart: bool,
        events: Seq<SearchEvent<SIZE>>,
    )
        requires
            size_ok(SIZE as int),
            self.wf(),
            self.is_run(f, SearchSeq::start(next_local, fromstart), events),
        ensures
            ({
                let from = if fromstart {
                    self.oldest()
                } else {
                    next_local@
                };
                let start = SearchSeq::start(next_local, fromstart);
                let questions = start.questions(events);
                &&& questions.len() <= 2 + log(2, SIZE as int)
                &&& forall|i: int|
                    0 <= i < questions.len() ==> self.is_searched(from, #[trigger] questions[i])
                &&& self.index_fetched(from) is None ==> questions.len() == 0
                &&& start.run(events).step matches SearchStep::Found(idx) ==> self.finds(
                    f,
                    from,
                    Some(idx@),
                )
                &&& start.run(events).step is NotFound ==> self.finds(f, from, None)
            }),
    {
        let from = if fromstart {
            self.oldest()
        } else {
            next_local@
        };
        let (a, b) = self.lemma_run_stands(f, from, next_local, fromstart, events);
        let s = SearchSeq::start(next_local, fromstart).run(events);
        self.lemma_search_ends(f, from, s, a, b);
    }

    /// Whether `m` questions are what a search that has got to `step` has asked at most.
    /// Each but the first two has halved what was left.
    spec fn is_counted(self, step: SearchStep<SIZE>, a: int, b: int, m: int) -> bool {
        &&& 0 <= m <= 2 + log(2, SIZE as int)
        &&& match step {
            SearchStep::ValidRange | SearchStep::First(_) => m == 0,
            SearchStep::Last(_) => m == 1,
            SearchStep::Middle(_) => {
                &&& 2 <= m
                &&& 2 <= b - a
                &&& (b - a - 1) * pow2((m - 2) as nat) < SIZE
            },
            _ => true,
        }
    }

    /// One more event keeps the number of the questions what it should be.
    proof fn lemma_step_is_counted(
        self,
        seq: SearchSeq<SIZE>,
        event: SearchEvent<SIZE>,
        a: int,
        b: int,
        a2: int,
        b2: int,
        m: int,
    )
        requires
            size_ok(SIZE as int),
            self.is_counted(seq.step, a, b, m),
            seq.step is Middle ==> event is Middle,
            seq.told(event).step is Middle ==> {
                &&& 2 <= b2 - a2 <= SIZE - 2
                &&& seq.step is Middle ==> 2 * (b2 - a2 - 1) <= b - a - 1
            },
            self.search_left(seq.told(event).step, a2, b2) < self.search_left(seq.step, a, b),
        ensures
            self.is_counted(
                seq.told(event).step,
                a2,
                b2,
                if seq.question(event) is Some {
                    m + 1
                } else {
                    m
                },
            ),
    {
        let size = SIZE as int;
        lemma_log_of_size(size, 0);
        match seq.step {
            SearchStep::Middle(_) => {
                lemma_halved(size, b - a - 1, b2 - a2 - 1, (m - 2) as nat);
                lemma_log_of_size(size, (m - 2) as nat);
            },
            SearchStep::Last(_) => {
                assert((b2 - a2 - 1) * 1 == b2 - a2 - 1);
            },
            _ => {},
        }
    }

    /// Where a search stands after the given events, and what it has asked by then.
    proof fn lemma_run_stands<F: Fn(T) -> bool>(
        self,
        f: F,
        from: int,
        next_local: CBufIndex<SIZE>,
        fromstart: bool,
        events: Seq<SearchEvent<SIZE>>,
    ) -> (ab: (int, int))
        requires
            size_ok(SIZE as int),
            self.wf(),
            from == if fromstart {
                self.oldest()
            } else {
                next_local@
            },
            self.is_run(f, SearchSeq::start(next_local, fromstart), events),
        ensures
            ({
                let start = SearchSeq::start(next_local, fromstart);
                let questions = start.questions(events);
                let s = start.run(events);
                &&& self.search_stands(f, from, s, ab.0, ab.1)
                &&& self.is_counted(s.step, ab.0, ab.1, questions.len() as int)
                &&& forall|i: int|
                    0 <= i < questions.len() ==> self.is_searched(from, #[trigger] questions[i])
                &&& self.index_fetched(from) is None ==> questions.len() == 0
            }),
        decreases events.len(),
    {
        let start = SearchSeq::start(next_local, fromstart);
        if events.len() == 0 {
            lemma_log_of_size(SIZE as int, 0);
            self.lemma_search_starts(f, from, next_local, fromstart);
            (0, 0)
        } else {
            let before = events.drop_last();
            let event = events.last();
            let (a, b) = self.lemma_run_stands(f, from, next_local, fromstart, before);
            let s = start.run(before);
            let m = start.questions(before).len() as int;
            let ab = self.lemma_search_step(f, from, s, event, a, b);
            self.lemma_step_is_counted(s, event, a, b, ab.0, ab.1, m);
            ab
        }
    }
}

/// A power of two that is less than a valid size has an exponent that is less than the
/// size's.
proof fn lemma_log_of_size(size: int, m: nat)
    requires
        size_ok(size),
    ensures
        pow2(m) < size ==> m < log(2, size),
        0 < log(2, size),
        pow2(0) == 1,
{
    lemma_sizes_are_powers_of_two(size);
    is_pow2_equiv(size);
    let e = choose|i: nat| vstd::arithmetic::power::pow(2, i) == size;
    lemma_log_pow(2, e);
    lemma_pow2(e);
    if e < m {
        lemma_pow2_strictly_increases(e, m);
    }
    vstd::arithmetic::power2::lemma2_to64();
}

/// What is left after one more halving fits as many times into the size as it should.
proof fn lemma_halved(size: int, d: int, half: int, k: nat)
    requires
        1 <= d,
        d * pow2(k) < size,
    ensures
        pow2(k) < size,
        2 * half <= d ==> half * pow2(k + 1) < size,
{
    let p = pow2(k) as int;
    lemma_pow2_unfold(k + 1);
    assert(p <= d * p) by (nonlinear_arith)
        requires
            1 <= d,
            0 <= p,
    ;
    if 2 * half <= d {
        assert(half * (2 * p) <= d * p) by (nonlinear_arith)
            requires
                2 * half <= d,
                0 <= p,
        ;
    }
}

/// Where the search is for all the items in the buffer, the reader's own index does not
/// matter: two readers of one buffer that search by one predicate find the same, whether
/// or not the items are sorted by it.
pub proof fn lemma_search_from_start<
    'a,
    'b,
    T: CBufItem,
    F: Fn(T) -> bool,
    const SIZE: usize,
>(
    r1: &CBufReader<'a, T, SIZE>,
    r2: &CBufReader<'b, T, SIZE>,
    f: F,
    holds: spec_fn(T) -> bool,
    found1: Option<int>,
    found2: Option<int>,
)
    requires
        r1.mem() == r2.mem(),
        answers_as(f, holds),
        r1.search_comes_to(f, true, found1),
        r2.search_comes_to(f, true, found2),
    ensures
        found1 == found2,
        found1 == r1.mem().search_result(holds, r1.mem().oldest()),
{
}

} // verus!
