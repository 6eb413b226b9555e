//! Arithmetic on the 31-bit sequence-number circle.

use std::cmp::Ordering;
use vstd::prelude::*;

verus! {

/// Number of points on the sequence circle.
pub const SEQ_MODULUS: u32 = 0x8000_0000;

/// Half of the circle: distances lie in `[-SEQ_HALF, SEQ_HALF)`.
pub const SEQ_HALF: u32 = 0x4000_0000;

/// `a + n` on the circle, for any integer step `n`.
pub open spec fn circle_add(a: int, n: int) -> int {
    (a + n) % 0x8000_0000
}

/// Signed distance from `a` to `b` on the circle, in `[-2^30, 2^30)`.
/// It is positive exactly when `a` is earlier than `b`.
pub open spec fn circle_distance(a: int, b: int) -> int {
    ((b - a + 0x4000_0000) % 0x8000_0000) - 0x4000_0000
}

/// Whether `v` is a point of the circle.
pub open spec fn on_circle(v: int) -> bool {
    0 <= v < 0x8000_0000
}

/// Every distance lies in the signed half circle, and every sum on the circle.
pub proof fn lemma_circle_bounds(a: int, b: int)
    ensures
        -0x4000_0000 <= circle_distance(a, b) < 0x4000_0000,
        on_circle(circle_add(a, b)),
{
}

/// Stepping `n` from `a` lands at distance `n` from `a`, for a step in the half circle.
pub proof fn lemma_distance_of_add(a: int, n: int)
    requires
        on_circle(a),
        -0x4000_0000 <= n < 0x4000_0000,
    ensures
        circle_distance(a, circle_add(a, n)) == n,
{
}

/// Stepping from `a` by its distance to `b` lands on `b`.
pub proof fn lemma_add_of_distance(a: int, b: int)
    requires
        on_circle(a),
        on_circle(b),
    ensures
        circle_add(a, circle_distance(a, b)) == b,
{
}

/// Moving the origin `k` steps forward shortens every distance by `k`,
/// as long as the shortened distance stays in the half circle.
pub proof fn lemma_distance_after_step(a: int, b: int, k: int)
    requires
        on_circle(a),
        on_circle(b),
        -0x4000_0000 <= circle_distance(a, b) - k < 0x4000_0000,
    ensures
        circle_distance(circle_add(a, k), b) == circle_distance(a, b) - k,
{
}

/// Two steps add up.
pub proof fn lemma_add_add(a: int, m: int, n: int)
    ensures
        circle_add(circle_add(a, m), n) == circle_add(a, m + n),
{
}

/// Only a point itself is at distance zero from it.
pub proof fn lemma_distance_zero(a: int, b: int)
    requires
        on_circle(a),
        on_circle(b),
    ensures
        circle_distance(a, b) == 0 <==> a == b,
        circle_add(a, 0) == a,
{
}

/// A sequence number: a point on the circle of `2^31` values.
#[derive(Clone, Copy, Debug, PartialEq, Eq, Hash, Structural)]
pub struct SeqNumber {
    raw: u32,
}

impl View for SeqNumber {
    type V = int;

    closed spec fn view(&self) -> int {
        self.raw as int
    }
}

impl SeqNumber {
    /// Every sequence number lies on the circle.
    #[verifier::type_invariant]
    pub open spec fn wf(self) -> bool {
        on_circle(self@)
    }

    /// Two sequence numbers with the same value are the same.
    pub proof fn lemma_view_injective(self, other: SeqNumber)
        ensures
            self@ == other@ <==> self == other,
    {
    }

    /// The sequence number that the low 31 bits of `raw` hold.
    pub fn new_truncate(raw: u32) -> (r: SeqNumber)
        ensures
            r@ == raw as int % 0x8000_0000,
            r.wf(),
    {
        SeqNumber { raw: raw % SEQ_MODULUS }
    }

    pub fn as_raw(self) -> (r: u32)
        ensures
            r == self@,
            r < 0x8000_0000,
            self.wf(),
    {
        proof {
            use_type_invariant(&self);
        }
        self.raw
    }

    /// Signed distance from `self` to `other`: positive when `self` is the earlier one.
    pub fn distance(self, other: SeqNumber) -> (d: i32)
        ensures
            d == circle_distance(self@, other@),
            -0x4000_0000 <= d < 0x4000_0000,
    {
        let a: u32 = self.as_raw();
        let b: u32 = other.as_raw();
        let forward: u32 = if b >= a { b - a } else { b + (SEQ_MODULUS - a) };
        if forward >= SEQ_HALF {
            (forward as i64 - SEQ_MODULUS as i64) as i32
        } else {
            forward as i32
        }
    }

    /// The sequence number `n` steps after `self`.
    pub fn add(self, n: u32) -> (r: SeqNumber)
        ensures
            r@ == circle_add(self@, n as int),
            r.wf(),
    {
        let a: u64 = self.as_raw() as u64;
        let sum: u64 = (a + n as u64) % (SEQ_MODULUS as u64);
        SeqNumber { raw: sum as u32 }
    }

    /// The sequence number `n` steps before `self`.
    pub fn sub(self, n: u32) -> (r: SeqNumber)
        ensures
            r@ == circle_add(self@, -(n as int)),
            r.wf(),
    {
        let a: u32 = self.as_raw();
        let back: u32 = n % SEQ_MODULUS;
        let raw: u32 = if a >= back { a - back } else { a + (SEQ_MODULUS - back) };
        SeqNumber { raw }
    }

    /// The sequence number that follows `self`.
    pub fn next(self) -> (r: SeqNumber)
        ensures
            r@ == circle_add(self@, 1),
            r.wf(),
    {
        self.add(1)
    }

    /// Whether `self` is strictly earlier than `other` on the circle.
    pub fn is_before(self, other: SeqNumber) -> (r: bool)
        ensures
            r == (circle_distance(self@, other@) > 0),
    {
        self.distance(other) > 0
    }
}

/// Orders two sequence numbers on the circle: `Less` when `a` is earlier than `b`.
pub fn cmp(a: SeqNumber, b: SeqNumber) -> (r: Ordering)
    ensures
        r == Ordering::Less <==> circle_distance(a@, b@) > 0,
        r == Ordering::Equal <==> a@ == b@,
        r == Ordering::Greater <==> circle_distance(a@, b@) < 0,
{
    let d: i32 = a.distance(b);
    proof {
        use_type_invariant(&a);
        use_type_invariant(&b);
        lemma_distance_zero(a@, b@);
    }
    if d > 0 {
        Ordering::Less
    } else if d == 0 {
        Ordering::Equal
    } else {
        Ordering::Greater
    }
}

} // verus!
