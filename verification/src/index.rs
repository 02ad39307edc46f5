//! Indexes into a circular buffer.
//!
//! An index counts the items that came before it, for as long as that count
//! fits in a `usize`. The index after `usize::MAX` is `SIZE`, not `0`: an index
//! of at least `SIZE` says that every slot of the buffer has been written, and
//! `0` stays reserved for a buffer that has never been written to. From `SIZE`
//! on the indexes therefore form a ring of `usize::MAX + 1 - SIZE` values.
//!
//! `SIZE` divides the length of that ring, so the slot of an index (its
//! remainder modulo `SIZE`) always moves on by one from an index to the next.
use vstd::arithmetic::div_mod::{
    lemma_add_mod_noop, lemma_fundamental_div_mod, lemma_fundamental_div_mod_converse,
    lemma_small_mod,
};
use vstd::arithmetic::power2::{
    is_pow2, is_pow2_equiv, lemma_pow2_adds, lemma_pow2_pos, lemma_pow2_strictly_increases,
    lemma_pow2_unfold, pow2,
};
use vstd::prelude::*;

verus! {

/// The sizes that a circular buffer may have: the powers of two greater than 1. They
/// are the divisors of the number of `usize` values.
pub open spec fn size_ok(size: int) -> bool {
    &&& 1 < size <= usize::MAX
    &&& (usize::MAX + 1) % size == 0
}

/// The number of indexes that are used over and over once a buffer of `size`
/// slots is full: those from `size` to `usize::MAX`.
pub open spec fn ring_len(size: int) -> int {
    usize::MAX + 1 - size
}

/// The index `n` places after `x`: `x + n`, less as many times the length of the ring
/// as it takes to get to an index.
pub open spec fn advance(size: int, x: int, n: int) -> int {
    if x + n <= usize::MAX {
        x + n
    } else if x + n - ring_len(size) <= usize::MAX {
        x + n - ring_len(size)
    } else {
        size + (x + n - size) % ring_len(size)
    }
}

/// The index `n` places before `x`, but never one before the first.
pub open spec fn retreat(x: int, n: int) -> int {
    if x < n {
        0
    } else {
        x - n
    }
}

/// The least number of places by which one gets from `from` to `to`, if one
/// gets there at all: an index below `size` is never reached from a later one.
pub open spec fn steps(size: int, from: int, to: int) -> Option<int> {
    if from <= to {
        Some(to - from)
    } else if size <= to {
        Some(to - from + ring_len(size))
    } else {
        None
    }
}

/// Whether `x` is one of the `len` indexes that start at `base`.
pub open spec fn in_window(size: int, x: int, base: int, len: int) -> bool {
    steps(size, base, x) matches Some(d) && d < len
}

/// The number of places from `from` to `to` round the ring, on which an index
/// below `size` stands for the one that lies `ring_len(size)` places later.
pub open spec fn gap(size: int, from: int, to: int) -> int {
    if from <= to < from + ring_len(size) {
        to - from
    } else if to < from <= to + ring_len(size) {
        to - from + ring_len(size)
    } else {
        (to - from) % ring_len(size)
    }
}

/// All the cases of [`advance`] in which the ring is entered come to the remainder
/// modulo its length.
pub proof fn lemma_advance_mod(size: int, x: int, n: int)
    requires
        0 < ring_len(size),
        usize::MAX < x + n,
    ensures
        advance(size, x, n) == size + (x + n - size) % ring_len(size),
        size <= advance(size, x, n) <= usize::MAX,
{
    let r = ring_len(size);
    let z = x + n - size;
    if z - r < r {
        lemma_fundamental_div_mod_converse(z, r, 1, z - r);
    }
}

/// All the cases of [`gap`] come to the remainder modulo the length of the ring.
pub proof fn lemma_gap_mod(size: int, from: int, to: int)
    requires
        0 < ring_len(size),
    ensures
        gap(size, from, to) == (to - from) % ring_len(size),
{
    let r = ring_len(size);
    let d = to - from;
    if 0 <= d < r {
        lemma_small_mod(d as nat, r as nat);
    } else if -r <= d < 0 {
        lemma_fundamental_div_mod_converse(d, r, -1, d + r);
    }
}

/// Whether `a` is taken to be before `b`: the way forward from `a` to `b` is
/// shorter than the way back.
pub open spec fn precedes(size: int, a: int, b: int) -> bool {
    ||| gap(size, a, b) < gap(size, b, a)
    ||| gap(size, a, b) == gap(size, b, a) && a < b
}

/// The divisors of a power of two are powers of two.
proof fn lemma_divisors_of_pow2(size: int, q: int, e: nat)
    requires
        0 < size,
        size * q == pow2(e),
    ensures
        is_pow2(size),
    decreases e,
{
    reveal(is_pow2);
    lemma_pow2_pos(e);
    if e == 0 {
        vstd::arithmetic::power2::lemma2_to64();
        assert(size == 1) by (nonlinear_arith)
            requires
                0 < size,
                size * q == 1,
        ;
    } else {
        lemma_pow2_unfold(e);
        let half = pow2((e - 1) as nat) as int;
        if size % 2 == 0 {
            assert((size / 2) * q == half) by (nonlinear_arith)
                requires
                    size == 2 * (size / 2),
                    size * q == 2 * half,
            ;
            lemma_divisors_of_pow2(size / 2, q, (e - 1) as nat);
        } else {
            assert(q % 2 == 0) by (nonlinear_arith)
                requires
                    size == 2 * (size / 2) + 1,
                    q == 2 * (q / 2) + q % 2,
                    0 <= q % 2 < 2,
                    size * q == 2 * half,
            {
                if q % 2 == 1 {
                    assert(size * q == 2 * (2 * (size / 2) * (q / 2) + size / 2 + q / 2) + 1);
                }
            }
            assert(size * (q / 2) == half) by (nonlinear_arith)
                requires
                    q == 2 * (q / 2),
                    size * q == 2 * half,
            ;
            lemma_divisors_of_pow2(size, q / 2, (e - 1) as nat);
        }
    }
}

/// The valid sizes are the powers of two that are greater than 1 and fit in a `usize`.
pub proof fn lemma_sizes_are_powers_of_two(size: int)
    ensures
        size_ok(size) <==> 1 < size <= usize::MAX && is_pow2(size),
{
    vstd::layout::unsigned_int_max_values();
    let bits = usize::BITS as nat;
    if size_ok(size) {
        lemma_fundamental_div_mod(usize::MAX + 1, size);
        lemma_divisors_of_pow2(size, (usize::MAX + 1) / size, bits);
    }
    if 1 < size <= usize::MAX && is_pow2(size) {
        is_pow2_equiv(size);
        let e = choose|i: nat| vstd::arithmetic::power::pow(2, i) == size;
        if bits < e {
            lemma_pow2_strictly_increases(bits, e);
        }
        lemma_pow2_adds((bits - e) as nat, e);
        lemma_fundamental_div_mod_converse(
            usize::MAX + 1,
            size,
            pow2((bits - e) as nat) as int,
            0,
        );
    }
}

/// The ring is at least as long as the buffer, and the buffer's size divides its
/// length.
pub proof fn lemma_ring(size: int)
    requires
        size_ok(size),
    ensures
        size <= ring_len(size),
        ring_len(size) % size == 0,
{
    let q = (usize::MAX + 1) / size;
    lemma_fundamental_div_mod(usize::MAX + 1, size);
    assert(q >= 2) by (nonlinear_arith)
        requires
            usize::MAX + 1 == size * q,
            1 < size <= usize::MAX,
    ;
    assert(ring_len(size) == (q - 1) * size + 0) by (nonlinear_arith)
        requires
            ring_len(size) == usize::MAX + 1 - size,
            usize::MAX + 1 == size * q,
    ;
    lemma_fundamental_div_mod_converse(ring_len(size), size, q - 1, 0);
    assert((q - 1) * size >= size) by (nonlinear_arith)
        requires
            q >= 2,
            size > 1,
    ;
}

/// Going no place forward stays where one is, and going `n + 1` places forward is
/// going `n` places and then to the next index.
pub proof fn lemma_advance_unfold(size: int, x: int, n: int)
    requires
        size_ok(size),
        0 <= x <= usize::MAX,
        0 <= n,
    ensures
        advance(size, x, 0) == x,
        advance(size, x, n + 1) == advance(size, advance(size, x, n), 1),
        advance(size, x, 1) == if x < usize::MAX {
            x + 1
        } else {
            size
        },
{
    lemma_advance_adds(size, x, n, 1);
    lemma_ring(size);
}

/// Going `a` places forward and then `b` places is going `a + b` places forward.
pub proof fn lemma_advance_adds(size: int, x: int, a: int, b: int)
    requires
        size_ok(size),
        0 <= x <= usize::MAX,
        0 <= a,
        0 <= b,
    ensures
        0 <= advance(size, x, a) <= usize::MAX,
        advance(size, advance(size, x, a), b) == advance(size, x, a + b),
{
    lemma_ring(size);
    let r = ring_len(size);
    if x + a > usize::MAX {
        let m = (x + a - size) % r;
        lemma_advance_mod(size, x, a);
        lemma_advance_mod(size, x, a + b);
        if size + m + b > usize::MAX {
            lemma_advance_mod(size, size + m, b);
        }
        assert((m + b) % r == (x + a - size + b) % r) by {
            lemma_add_mod_noop(m, b, r);
            lemma_add_mod_noop(x + a - size, b, r);
            lemma_small_mod(m as nat, r as nat);
        }
        if size + m + b <= usize::MAX {
            lemma_small_mod((m + b) as nat, r as nat);
        }
    }
}

/// The indexes that follow `x` differ from one another for as long as the ring.
pub proof fn lemma_advance_injective(size: int, x: int, a: int, b: int)
    requires
        size_ok(size),
        0 <= x <= usize::MAX,
        0 <= a < ring_len(size),
        0 <= b < ring_len(size),
        advance(size, x, a) == advance(size, x, b),
    ensures
        a == b,
{
}

/// The slot of an index moves on by one from an index to the next, also where
/// the index wraps.
pub proof fn lemma_advance_slot(size: int, x: int, n: int)
    requires
        size_ok(size),
        0 <= x <= usize::MAX,
        0 <= n,
    ensures
        advance(size, x, n) % size == (x + n) % size,
{
    lemma_ring(size);
    let r = ring_len(size);
    if x + n > usize::MAX {
        let z = x + n - size;
        lemma_advance_mod(size, x, n);
        lemma_fundamental_div_mod(r, size);
        let q = r / size;
        assert(q > 0) by (nonlinear_arith)
            requires
                r == size * q,
                r >= size,
                size > 1,
        ;
        vstd::arithmetic::div_mod::lemma_mod_mod(z, size, q);
        assert((z % r) % size == z % size);
        vstd::arithmetic::div_mod::lemma_mod_add_multiples_vanish(z % r, size);
        vstd::arithmetic::div_mod::lemma_mod_add_multiples_vanish(z, size);
    }
}

/// `steps` is the number of places from one index to another: that many lead
/// there, no fewer do, and where it is `None` no number does.
pub proof fn lemma_steps(size: int, from: int, to: int, k: int)
    requires
        size_ok(size),
        0 <= from <= usize::MAX,
        0 <= to <= usize::MAX,
        0 <= k,
    ensures
        steps(size, from, to) matches Some(d) ==> 0 <= d && advance(size, from, d) == to,
        advance(size, from, k) == to ==> (steps(size, from, to) matches Some(d) && d <= k),
{
    lemma_ring(size);
    if from + k > usize::MAX {
        lemma_advance_mod(size, from, k);
    }
}

/// The indexes in a window are those that one gets to from its start by fewer places
/// than its length.
pub proof fn lemma_in_window(size: int, x: int, base: int, len: int)
    requires
        size_ok(size),
        0 <= x <= usize::MAX,
        0 <= base <= usize::MAX,
    ensures
        in_window(size, x, base, len) <==> exists|k: int|
            0 <= k < len && #[trigger] advance(size, base, k) == x,
{
    lemma_steps(size, base, x, 0);
    if exists|k: int| 0 <= k < len && #[trigger] advance(size, base, k) == x {
        let k = choose|k: int| 0 <= k < len && #[trigger] advance(size, base, k) == x;
        lemma_steps(size, base, x, k);
    }
}

/// The way there and the way back make up the whole ring, unless the two indexes
/// stand for the same place on it.
pub proof fn lemma_gap_back(size: int, a: int, b: int)
    requires
        0 < ring_len(size),
    ensures
        0 <= gap(size, a, b) < ring_len(size),
        gap(size, b, a) == if gap(size, a, b) == 0 {
            0
        } else {
            ring_len(size) - gap(size, a, b)
        },
{
    let r = ring_len(size);
    let q = (b - a) / r;
    lemma_gap_mod(size, a, b);
    lemma_gap_mod(size, b, a);
    lemma_fundamental_div_mod(b - a, r);
    let m = (b - a) % r;
    if m == 0 {
        assert(a - b == (-q) * r + 0) by (nonlinear_arith)
            requires
                b - a == r * q + m,
                m == 0,
        ;
        lemma_fundamental_div_mod_converse(a - b, r, -q, 0);
    } else {
        assert(a - b == (-q - 1) * r + (r - m)) by (nonlinear_arith)
            requires
                b - a == r * q + m,
        ;
        lemma_fundamental_div_mod_converse(a - b, r, -q - 1, r - m);
    }
}

/// `n` places lie round the ring between an index and the one `n` places later.
pub proof fn lemma_gap_advance(size: int, x: int, n: int)
    requires
        size_ok(size),
        0 <= x <= usize::MAX,
        0 <= n < ring_len(size),
    ensures
        gap(size, x, advance(size, x, n)) == n,
{
}

/// An index is before the one `n` places later, and not the other way round, for
/// every `n` up to half the ring.
pub proof fn lemma_precedes_advance(size: int, x: int, n: int)
    requires
        size_ok(size),
        0 <= x <= usize::MAX,
        0 < n,
        2 * n < ring_len(size),
    ensures
        precedes(size, x, advance(size, x, n)),
        !precedes(size, advance(size, x, n), x),
{
    lemma_gap_advance(size, x, n);
    lemma_gap_back(size, x, advance(size, x, n));
}

/// The index of an item in a circular buffer of `SIZE` slots.
///
/// An index can become stale once enough further items have been written. Every
/// `usize` is the value of an index.
#[derive(Clone, Copy, Debug)]
pub struct CBufIndex<const SIZE: usize> {
    pub idx: usize,
}

impl<const SIZE: usize> View for CBufIndex<SIZE> {
    type V = int;

    open spec fn view(&self) -> int {
        self.idx as int
    }
}

impl<const SIZE: usize> CBufIndex<SIZE> {
    /// The index with the value `idx`.
    pub fn new(idx: usize) -> (r: Self)
        ensures
            r@ == idx,
    {
        CBufIndex { idx }
    }

    /// The value of the index.
    pub fn as_usize(self) -> (r: usize)
        ensures
            r == self@,
    {
        self.idx
    }

    /// The place of the index in the buffer's array.
    pub fn slot(self) -> (r: usize)
        requires
            size_ok(SIZE as int),
        ensures
            r < SIZE,
            r == self@ % (SIZE as int),
    {
        proof {
            lemma_sizes_are_powers_of_two(SIZE as int);
            is_pow2_equiv(SIZE as int);
            let e = choose|i: nat| vstd::arithmetic::power::pow(2, i) == SIZE as int;
            vstd::layout::unsigned_int_max_values();
            assert(e < usize::BITS) by {
                if usize::BITS < e {
                    lemma_pow2_strictly_increases(usize::BITS as nat, e);
                }
            }
            vstd::bits::lemma_usize_low_bits_mask_is_mod(self.idx, e);
        }
        self.idx & (SIZE - 1)
    }

    /// The least number of places by which one gets from `self` to `to`, if one
    /// gets there at all.
    pub fn steps_to(self, to: Self) -> (r: Option<usize>)
        ensures
            match r {
                Some(d) => steps(SIZE as int, self@, to@) == Some(d as int),
                None => steps(SIZE as int, self@, to@) is None,
            },
    {
        if self.idx <= to.idx {
            Some(to.idx - self.idx)
        } else if SIZE <= to.idx {
            Some((to.idx - SIZE) + (usize::MAX - self.idx) + 1)
        } else {
            None
        }
    }

    /// Whether `SIZE` is a valid size.
    pub open spec fn is_size_ok() -> bool {
        size_ok(SIZE as int)
    }

    /// Whether `self` is taken to be before `other`.
    pub open spec fn spec_is_before(self, other: Self) -> bool {
        precedes(SIZE as int, self@, other@)
    }

    /// The number of places from `self` to `to` round the ring.
    pub fn gap_to(self, to: Self) -> (r: usize)
        requires
            0 < SIZE,
        ensures
            r == gap(SIZE as int, self@, to@),
    {
        let ring: usize = usize::MAX - SIZE + 1;
        proof {
            lemma_gap_mod(SIZE as int, self@, to@);
        }
        if self.idx <= to.idx {
            (to.idx - self.idx) % ring
        } else {
            let back: usize = (self.idx - to.idx) % ring;
            proof {
                lemma_gap_mod(SIZE as int, to@, self@);
                lemma_gap_back(SIZE as int, to@, self@);
            }
            if back == 0 {
                0
            } else {
                ring - back
            }
        }
    }

    /// Whether `self` is taken to be before `other`. Without slots there is no
    /// ring, and no index is before another.
    pub fn is_before(self, other: Self) -> (r: bool)
        ensures
            r == (0 < SIZE && self.spec_is_before(other)),
    {
        if SIZE == 0 {
            return false;
        }
        let there: usize = self.gap_to(other);
        let back: usize = other.gap_to(self);
        there < back || (there == back && self.idx < other.idx)
    }

    /// Whether `self` is one of the `len` indexes that start at `base`.
    pub fn is_in_range(self, base: Self, len: usize) -> (r: bool)
        ensures
            r == in_window(SIZE as int, self@, base@, len as int),
    {
        match base.steps_to(self) {
            Some(d) => d < len,
            None => false,
        }
    }
}

impl<const SIZE: usize> PartialEq for CBufIndex<SIZE> {
    fn eq(&self, other: &Self) -> (r: bool) {
        self.idx == other.idx
    }
}

impl<const SIZE: usize> vstd::std_specs::cmp::PartialEqSpecImpl for CBufIndex<SIZE> {
    open spec fn obeys_eq_spec() -> bool {
        true
    }

    open spec fn eq_spec(&self, other: &Self) -> bool {
        self.idx == other.idx
    }
}

impl<const SIZE: usize> Eq for CBufIndex<SIZE> {

}

/// Exactly one of two different indexes is before the other.
pub proof fn lemma_precedes_one_way(size: int, a: int, b: int)
    requires
        a != b,
    ensures
        precedes(size, a, b) <==> !precedes(size, b, a),
{
}

/// An index is less than another when it [precedes](precedes) it. As on any
/// ring, this is an order only among indexes that lie close to one another.
impl<const SIZE: usize> PartialOrd for CBufIndex<SIZE> {
    fn partial_cmp(&self, other: &Self) -> (r: Option<core::cmp::Ordering>) {
        if self.idx == other.idx {
            Some(core::cmp::Ordering::Equal)
        } else if self.is_before(*other) {
            Some(core::cmp::Ordering::Less)
        } else {
            Some(core::cmp::Ordering::Greater)
        }
    }
}

impl<const SIZE: usize> vstd::std_specs::cmp::PartialOrdSpecImpl for CBufIndex<SIZE> {
    open spec fn obeys_partial_cmp_spec() -> bool {
        Self::is_size_ok()
    }

    open spec fn partial_cmp_spec(&self, other: &Self) -> Option<core::cmp::Ordering> {
        if self@ == other@ {
            Some(core::cmp::Ordering::Equal)
        } else if self.spec_is_before(*other) {
            Some(core::cmp::Ordering::Less)
        } else {
            Some(core::cmp::Ordering::Greater)
        }
    }
}

/// `index + n` is the index `n` places later.
impl<const SIZE: usize> core::ops::Add<usize> for CBufIndex<SIZE> {
    type Output = Self;

    fn add(self, rhs: usize) -> (r: Self) {
        let room: usize = usize::MAX - self.idx;
        if rhs <= room {
            CBufIndex { idx: self.idx + rhs }
        } else {
            let past: usize = rhs - room - 1;
            proof {
                lemma_ring(SIZE as int);
                lemma_advance_mod(SIZE as int, self@, rhs as int);
                vstd::arithmetic::div_mod::lemma_mod_add_multiples_vanish(
                    past as int,
                    ring_len(SIZE as int),
                );
            }
            CBufIndex { idx: SIZE + past % (usize::MAX - SIZE + 1) }
        }
    }
}

impl<const SIZE: usize> vstd::std_specs::ops::AddSpecImpl<usize> for CBufIndex<SIZE> {
    open spec fn obeys_add_spec() -> bool {
        true
    }

    open spec fn add_req(self, rhs: usize) -> bool {
        size_ok(SIZE as int)
    }

    open spec fn add_spec(self, rhs: usize) -> Self {
        CBufIndex { idx: advance(SIZE as int, self@, rhs as int) as usize }
    }
}

/// `index - n` is the index `n` places earlier, or the first index where there
/// are not that many before it.
impl<const SIZE: usize> core::ops::Sub<usize> for CBufIndex<SIZE> {
    type Output = Self;

    fn sub(self, rhs: usize) -> (r: Self) {
        if self.idx < rhs {
            CBufIndex { idx: 0 }
        } else {
            CBufIndex { idx: self.idx - rhs }
        }
    }
}

impl<const SIZE: usize> vstd::std_specs::ops::SubSpecImpl<usize> for CBufIndex<SIZE> {
    open spec fn obeys_sub_spec() -> bool {
        true
    }

    open spec fn sub_req(self, rhs: usize) -> bool {
        true
    }

    open spec fn sub_spec(self, rhs: usize) -> Self {
        CBufIndex { idx: retreat(self@, rhs as int) as usize }
    }
}

/// `later - earlier` is the number of places between two indexes, and `None`
/// where the second is not the earlier one.
impl<const SIZE: usize> core::ops::Sub<CBufIndex<SIZE>> for CBufIndex<SIZE> {
    type Output = Option<usize>;

    fn sub(self, rhs: CBufIndex<SIZE>) -> (r: Option<usize>) {
        if self.is_before(rhs) {
            None
        } else {
            Some(rhs.gap_to(self))
        }
    }
}

impl<const SIZE: usize> vstd::std_specs::ops::SubSpecImpl<CBufIndex<SIZE>> for CBufIndex<SIZE> {
    open spec fn obeys_sub_spec() -> bool {
        true
    }

    open spec fn sub_req(self, rhs: CBufIndex<SIZE>) -> bool {
        size_ok(SIZE as int)
    }

    open spec fn sub_spec(self, rhs: CBufIndex<SIZE>) -> Option<usize> {
        if self.spec_is_before(rhs) {
            None
        } else {
            Some(gap(SIZE as int, rhs@, self@) as usize)
        }
    }
}

} // verus!
