//! What the operators on indexes promise, and how their results relate.
//!
//! Each law is about the results of calls: whatever a call of the operator may return,
//! the law holds of it.
use crate::index::{
    advance, gap, lemma_advance_adds, lemma_advance_injective, lemma_advance_mod,
    lemma_advance_slot, lemma_advance_unfold, lemma_gap_advance, lemma_gap_back, lemma_gap_mod,
    lemma_ring, lemma_steps, ring_len, size_ok, steps, CBufIndex,
};
use core::ops::{Add, Sub};
use vstd::arithmetic::div_mod::{
    lemma_add_mod_noop, lemma_mod_add_multiples_vanish, lemma_mod_self_0, lemma_small_mod,
};
use vstd::prelude::*;

verus! {

impl<const SIZE: usize> CBufIndex<SIZE> {
    /// The number of indexes that are used over and over.
    pub open spec fn ring() -> int {
        usize::MAX + 1 - SIZE
    }
}

/// Whether `y` is what `x + n` comes to.
pub open spec fn is_sum<const SIZE: usize>(
    x: CBufIndex<SIZE>,
    n: usize,
    y: CBufIndex<SIZE>,
) -> bool {
    call_ensures(<CBufIndex<SIZE> as Add<usize>>::add, (x, n), y)
}

/// An index that is made of a number is that number, and two indexes are equal exactly
/// when their numbers are.
pub proof fn lemma_index_is_number<const SIZE: usize>(
    i: usize,
    j: usize,
    x: CBufIndex<SIZE>,
    y: CBufIndex<SIZE>,
    n: usize,
    same: bool,
)
    requires
        call_ensures(CBufIndex::<SIZE>::new, (i,), x),
        call_ensures(CBufIndex::<SIZE>::new, (j,), y),
        call_ensures(CBufIndex::<SIZE>::as_usize, (x,), n),
        call_ensures(CBufIndex::<SIZE>::eq, (&x, &y), same),
    ensures
        n == i,
        x.idx == i,
        same <==> i == j,
{
}

/// `x + n` is `n` more than `x`, for as long as that is an index. From then on it is less
/// by the length of the ring, so that the index after `usize::MAX` is `SIZE`.
pub proof fn lemma_add_counts<const SIZE: usize>(x: CBufIndex<SIZE>, n: usize, y: CBufIndex<SIZE>)
    requires
        size_ok(SIZE as int),
        is_sum(x, n, y),
    ensures
        x.idx + n <= usize::MAX ==> y.idx == x.idx + n,
        x.idx + n > usize::MAX ==> SIZE <= y.idx,
        usize::MAX < x.idx + n && n < CBufIndex::<SIZE>::ring() ==> y.idx == x.idx + n
            - CBufIndex::<SIZE>::ring(),
        x.idx == usize::MAX && n == 1 ==> y.idx == SIZE,
{
    lemma_advance_adds(SIZE as int, x@, n as int, 0);
    lemma_advance_unfold(SIZE as int, x@, 0);
    if x.idx + n > usize::MAX {
        lemma_ring(SIZE as int);
        lemma_advance_mod(SIZE as int, x@, n as int);
    }
}

/// `(x + a) + b` is `x + (a + b)`.
pub proof fn lemma_add_adds<const SIZE: usize>(
    x: CBufIndex<SIZE>,
    a: usize,
    b: usize,
    ab: usize,
    y: CBufIndex<SIZE>,
    z: CBufIndex<SIZE>,
    w: CBufIndex<SIZE>,
)
    requires
        size_ok(SIZE as int),
        ab == a + b,
        is_sum(x, a, y),
        is_sum(y, b, z),
        is_sum(x, ab, w),
    ensures
        z == w,
{
    lemma_advance_adds(SIZE as int, x@, a as int, b as int);
    lemma_advance_adds(SIZE as int, x@, a + b, 0);
    lemma_advance_adds(SIZE as int, y@, b as int, 0);
}

/// `x - n` is `n` less than `x`, or the first index where there are not that many before
/// it. It undoes `x + n` where that does not wrap.
pub proof fn lemma_sub_counts<const SIZE: usize>(
    x: CBufIndex<SIZE>,
    n: usize,
    y: CBufIndex<SIZE>,
    z: CBufIndex<SIZE>,
)
    requires
        size_ok(SIZE as int),
        call_ensures(<CBufIndex<SIZE> as Sub<usize>>::sub, (x, n), y),
        is_sum(z, n, x),
    ensures
        n <= x.idx ==> y.idx == x.idx - n,
        x.idx < n ==> y.idx == 0,
        z.idx + n <= usize::MAX ==> y == z,
{
    lemma_advance_adds(SIZE as int, z@, n as int, 0);
}

/// The slot of the first index is the first one, and from an index to the next the slot
/// goes on by one, round and round, also where the index wraps.
pub proof fn lemma_slots_go_round<const SIZE: usize>(
    x: CBufIndex<SIZE>,
    y: CBufIndex<SIZE>,
    slot_x: usize,
    slot_y: usize,
)
    requires
        size_ok(SIZE as int),
        is_sum(x, 1, y),
        call_ensures(CBufIndex::<SIZE>::slot, (x,), slot_x),
        call_ensures(CBufIndex::<SIZE>::slot, (y,), slot_y),
    ensures
        slot_x < SIZE,
        x.idx < SIZE ==> slot_x == x.idx,
        slot_y == if slot_x + 1 < SIZE {
            slot_x + 1
        } else {
            0
        },
{
    let size = SIZE as int;
    lemma_advance_adds(size, x@, 1, 0);
    lemma_advance_slot(size, x@, 1);
    lemma_add_mod_noop(x@, 1, size);
    lemma_small_mod(1, size as nat);
    if x.idx < SIZE {
        lemma_small_mod(x.idx as nat, size as nat);
    }
    if slot_x + 1 < SIZE {
        lemma_small_mod((slot_x + 1) as nat, size as nat);
    } else {
        lemma_mod_self_0(size);
    }
}

/// `x + k` is one of the `len` indexes from `x` on exactly when `k` is less than `len`, and
/// the number of places from `x` to it is `k`.
pub proof fn lemma_places_are_counted<const SIZE: usize>(
    x: CBufIndex<SIZE>,
    k: usize,
    y: CBufIndex<SIZE>,
    len: usize,
    is_in: bool,
    places: Option<usize>,
    round: usize,
)
    requires
        size_ok(SIZE as int),
        k < CBufIndex::<SIZE>::ring(),
        is_sum(x, k, y),
        call_ensures(CBufIndex::<SIZE>::is_in_range, (y, x, len), is_in),
        call_ensures(CBufIndex::<SIZE>::steps_to, (x, y), places),
        call_ensures(CBufIndex::<SIZE>::gap_to, (x, y), round),
    ensures
        is_in <==> k < len,
        places == Some(k),
        round == k,
{
    let size = SIZE as int;
    lemma_ring(size);
    lemma_advance_adds(size, x@, k as int, 0);
    lemma_steps(size, x@, y@, k as int);
    lemma_gap_advance(size, x@, k as int);
    let d = steps(size, x@, y@)->0;
    lemma_advance_injective(size, x@, d, k as int);
}

/// An index below `SIZE` is never come to from a later one. On the ring it stands for the
/// one that is greater by the length of the ring.
pub proof fn lemma_first_indexes_are_left_behind<const SIZE: usize>(
    x: CBufIndex<SIZE>,
    y: CBufIndex<SIZE>,
    alias: CBufIndex<SIZE>,
    len: usize,
    is_in: bool,
    places: Option<usize>,
    round: usize,
    round_alias: usize,
)
    requires
        size_ok(SIZE as int),
        y.idx < SIZE,
        y.idx < x.idx,
        alias.idx == y.idx + CBufIndex::<SIZE>::ring(),
        call_ensures(CBufIndex::<SIZE>::is_in_range, (y, x, len), is_in),
        call_ensures(CBufIndex::<SIZE>::steps_to, (x, y), places),
        call_ensures(CBufIndex::<SIZE>::gap_to, (x, y), round),
        call_ensures(CBufIndex::<SIZE>::gap_to, (x, alias), round_alias),
    ensures
        !is_in,
        places is None,
        round == round_alias,
{
    let size = SIZE as int;
    lemma_ring(size);
    lemma_gap_mod(size, x@, y@);
    lemma_gap_mod(size, x@, alias@);
    lemma_mod_add_multiples_vanish(y@ - x@, ring_len(size));
}

/// The number of places between two indexes: `(x + n) - x` is `n`, and `x - (x + n)` is
/// nothing, for every `n` that is less than half the ring. For one that is more than half,
/// it is the other way round.
pub proof fn lemma_difference_counts<const SIZE: usize>(
    x: CBufIndex<SIZE>,
    n: usize,
    y: CBufIndex<SIZE>,
    there: Option<usize>,
    back: Option<usize>,
)
    requires
        size_ok(SIZE as int),
        n < CBufIndex::<SIZE>::ring(),
        is_sum(x, n, y),
        call_ensures(<CBufIndex<SIZE> as Sub<CBufIndex<SIZE>>>::sub, (y, x), there),
        call_ensures(<CBufIndex<SIZE> as Sub<CBufIndex<SIZE>>>::sub, (x, y), back),
    ensures
        2 * n < CBufIndex::<SIZE>::ring() ==> there == Some(n),
        0 < n && 2 * n < CBufIndex::<SIZE>::ring() ==> back is None,
        n == 0 ==> back == Some(0usize),
        CBufIndex::<SIZE>::ring() < 2 * n ==> {
            &&& there is None
            &&& back matches Some(b) && b == CBufIndex::<SIZE>::ring() - n
        },
        2 * n == CBufIndex::<SIZE>::ring() ==> if x.idx < y.idx {
            there == Some(n) && back is None
        } else {
            there is None && back == Some(n)
        },
{
    let size = SIZE as int;
    lemma_ring(size);
    lemma_advance_adds(size, x@, n as int, 0);
    lemma_gap_advance(size, x@, n as int);
    lemma_gap_back(size, x@, y@);
    lemma_advance_unfold(size, x@, 0);
}

/// An index is less than every one that lies up to half the ring after it, and those are
/// greater than it. One that lies more than half the ring after it counts as one before
/// it, half-way round the number decides, and an index is neither less nor greater than
/// itself.
pub proof fn lemma_later_is_greater<const SIZE: usize>(
    x: CBufIndex<SIZE>,
    n: usize,
    y: CBufIndex<SIZE>,
    there: Option<core::cmp::Ordering>,
    back: Option<core::cmp::Ordering>,
)
    requires
        CBufIndex::<SIZE>::is_size_ok(),
        n < CBufIndex::<SIZE>::ring(),
        is_sum(x, n, y),
        call_ensures(CBufIndex::<SIZE>::partial_cmp, (&x, &y), there),
        call_ensures(CBufIndex::<SIZE>::partial_cmp, (&y, &x), back),
    ensures
        0 < n && 2 * n < CBufIndex::<SIZE>::ring() ==> {
            &&& there == Some(core::cmp::Ordering::Less)
            &&& back == Some(core::cmp::Ordering::Greater)
        },
        CBufIndex::<SIZE>::ring() < 2 * n ==> {
            &&& there == Some(core::cmp::Ordering::Greater)
            &&& back == Some(core::cmp::Ordering::Less)
        },
        2 * n == CBufIndex::<SIZE>::ring() ==> if x.idx < y.idx {
            there == Some(core::cmp::Ordering::Less) && back == Some(core::cmp::Ordering::Greater)
        } else {
            there == Some(core::cmp::Ordering::Greater) && back == Some(core::cmp::Ordering::Less)
        },
        n == 0 ==> there == Some(core::cmp::Ordering::Equal),
{
    lemma_ways(x, n, y);
}

/// An index below `SIZE` is before the one that it stands for on the ring, and compares with
/// any other one as that does, unless the two lie half-way round from one another.
pub proof fn lemma_aliases_compare<const SIZE: usize>(
    x: CBufIndex<SIZE>,
    y: CBufIndex<SIZE>,
    alias: CBufIndex<SIZE>,
    places: usize,
    own: (Option<core::cmp::Ordering>, Option<core::cmp::Ordering>),
    with_y: (Option<core::cmp::Ordering>, Option<core::cmp::Ordering>),
    with_alias: (Option<core::cmp::Ordering>, Option<core::cmp::Ordering>),
)
    requires
        CBufIndex::<SIZE>::is_size_ok(),
        y.idx < SIZE,
        alias.idx == y.idx + CBufIndex::<SIZE>::ring(),
        call_ensures(CBufIndex::<SIZE>::gap_to, (x, alias), places),
        call_ensures(CBufIndex::<SIZE>::partial_cmp, (&y, &alias), own.0),
        call_ensures(CBufIndex::<SIZE>::partial_cmp, (&alias, &y), own.1),
        call_ensures(CBufIndex::<SIZE>::partial_cmp, (&x, &y), with_y.0),
        call_ensures(CBufIndex::<SIZE>::partial_cmp, (&y, &x), with_y.1),
        call_ensures(CBufIndex::<SIZE>::partial_cmp, (&x, &alias), with_alias.0),
        call_ensures(CBufIndex::<SIZE>::partial_cmp, (&alias, &x), with_alias.1),
    ensures
        own.0 == Some(core::cmp::Ordering::Less),
        own.1 == Some(core::cmp::Ordering::Greater),
        places != 0 && 2 * places != CBufIndex::<SIZE>::ring() ==> with_y == with_alias,
{
    lemma_alias_ways(x, y, alias);
    lemma_alias_ways(y, y, alias);
}

/// As many places lie between an index and one below `SIZE` as between it and the one that
/// the latter stands for on the ring, unless the two lie half-way round from one another.
pub proof fn lemma_aliases_differ_alike<const SIZE: usize>(
    x: CBufIndex<SIZE>,
    y: CBufIndex<SIZE>,
    alias: CBufIndex<SIZE>,
    places: usize,
    own: (Option<usize>, Option<usize>),
    with_y: (Option<usize>, Option<usize>),
    with_alias: (Option<usize>, Option<usize>),
)
    requires
        size_ok(SIZE as int),
        y.idx < SIZE,
        alias.idx == y.idx + CBufIndex::<SIZE>::ring(),
        call_ensures(CBufIndex::<SIZE>::gap_to, (x, alias), places),
        call_ensures(<CBufIndex<SIZE> as Sub<CBufIndex<SIZE>>>::sub, (alias, y), own.0),
        call_ensures(<CBufIndex<SIZE> as Sub<CBufIndex<SIZE>>>::sub, (y, alias), own.1),
        call_ensures(<CBufIndex<SIZE> as Sub<CBufIndex<SIZE>>>::sub, (x, y), with_y.0),
        call_ensures(<CBufIndex<SIZE> as Sub<CBufIndex<SIZE>>>::sub, (y, x), with_y.1),
        call_ensures(<CBufIndex<SIZE> as Sub<CBufIndex<SIZE>>>::sub, (x, alias), with_alias.0),
        call_ensures(<CBufIndex<SIZE> as Sub<CBufIndex<SIZE>>>::sub, (alias, x), with_alias.1),
    ensures
        own.0 == Some(0usize),
        own.1 is None,
        places != 0 && 2 * places != CBufIndex::<SIZE>::ring() ==> with_y == with_alias,
{
    lemma_alias_ways(x, y, alias);
    lemma_alias_ways(y, y, alias);
}

/// The ways to and from an index below `SIZE` are those to and from the one that it stands
/// for on the ring.
proof fn lemma_alias_ways<const SIZE: usize>(
    x: CBufIndex<SIZE>,
    y: CBufIndex<SIZE>,
    alias: CBufIndex<SIZE>,
)
    requires
        size_ok(SIZE as int),
        alias.idx == y.idx + CBufIndex::<SIZE>::ring(),
    ensures
        gap(SIZE as int, x@, y@) == gap(SIZE as int, x@, alias@),
        gap(SIZE as int, y@, x@) == gap(SIZE as int, alias@, x@),
        gap(SIZE as int, alias@, x@) == if gap(SIZE as int, x@, alias@) == 0 {
            0
        } else {
            CBufIndex::<SIZE>::ring() - gap(SIZE as int, x@, alias@)
        },
{
    let size = SIZE as int;
    lemma_ring(size);
    lemma_gap_mod(size, x@, y@);
    lemma_gap_mod(size, x@, alias@);
    lemma_mod_add_multiples_vanish(y@ - x@, ring_len(size));
    lemma_gap_back(size, x@, y@);
    lemma_gap_back(size, x@, alias@);
}

/// `<`, `<=`, `>` and `>=` say the same of an index and of one that lies up to half the
/// ring after it.
pub proof fn lemma_comparisons_agree<const SIZE: usize>(
    x: CBufIndex<SIZE>,
    n: usize,
    y: CBufIndex<SIZE>,
    lt: bool,
    le: bool,
    gt: bool,
    ge: bool,
    before: bool,
    after: bool,
)
    requires
        CBufIndex::<SIZE>::is_size_ok(),
        2 * n < CBufIndex::<SIZE>::ring(),
        is_sum(x, n, y),
        call_ensures(CBufIndex::<SIZE>::lt, (&x, &y), lt),
        call_ensures(CBufIndex::<SIZE>::le, (&x, &y), le),
        call_ensures(CBufIndex::<SIZE>::gt, (&y, &x), gt),
        call_ensures(CBufIndex::<SIZE>::ge, (&y, &x), ge),
        call_ensures(CBufIndex::<SIZE>::is_before, (x, y), before),
        call_ensures(CBufIndex::<SIZE>::is_before, (y, x), after),
    ensures
        lt <==> 0 < n,
        gt <==> 0 < n,
        le,
        ge,
        before <==> 0 < n,
        !after,
{
    lemma_ways(x, n, y);
}

/// The ways there and back between an index and the one `n` places after it.
proof fn lemma_ways<const SIZE: usize>(x: CBufIndex<SIZE>, n: usize, y: CBufIndex<SIZE>)
    requires
        size_ok(SIZE as int),
        n < CBufIndex::<SIZE>::ring(),
        is_sum(x, n, y),
    ensures
        y@ == advance(SIZE as int, x@, n as int),
        gap(SIZE as int, x@, y@) == n,
        gap(SIZE as int, y@, x@) == if n == 0 {
            0
        } else {
            CBufIndex::<SIZE>::ring() - n
        },
        x == y <==> n == 0,
{
    let size = SIZE as int;
    lemma_ring(size);
    lemma_advance_adds(size, x@, n as int, 0);
    lemma_gap_advance(size, x@, n as int);
    lemma_gap_back(size, x@, y@);
    lemma_advance_unfold(size, x@, 0);
}

} // verus!
