//! Sorted lists of missing ranges, as values: what it means to add a range to such a
//! list, to cut one out of it, and to move its origin.
//!
//! A range holds offsets from a base sequence number, so that the order of the list
//! is the order of the integers.

use vstd::prelude::*;

verus! {

/// Offsets stay below this bound: a list spans less than half of the sequence circle.
pub open spec fn offset_limit() -> int {
    0x3FFF_FFFF
}

/// A run of missing offsets, `lo` through `hi`, with the times of the reports on it.
pub struct LossRange {
    pub lo: int,
    pub hi: int,
    /// When the run, or the oldest part of it, was first reported.
    pub first_feedback: int,
    /// When the run is due to be reported again.
    pub next_feedback: int,
}

pub open spec fn in_range(r: LossRange, x: int) -> bool {
    r.lo <= x <= r.hi
}

pub open spec fn range_valid(r: LossRange) -> bool {
    0 <= r.lo <= r.hi < offset_limit()
}

/// The ranges are proper ones, in ascending order, and no two of them overlap or
/// touch.
pub open spec fn ranges_wf(rs: Seq<LossRange>) -> bool {
    &&& forall|i: int| 0 <= i < rs.len() ==> range_valid(#[trigger] rs[i])
    &&& forall|i: int, j: int|
        0 <= i < j < rs.len() ==> (#[trigger] rs[i]).hi + 1 < (#[trigger] rs[j]).lo
}

/// Whether offset `x` lies in one of the ranges.
pub open spec fn contains(rs: Seq<LossRange>, x: int) -> bool {
    exists|i: int| 0 <= i < rs.len() && in_range(#[trigger] rs[i], x)
}

pub open spec fn min(a: int, b: int) -> int {
    if a <= b {
        a
    } else {
        b
    }
}

pub open spec fn max(a: int, b: int) -> int {
    if a >= b {
        a
    } else {
        b
    }
}

/// The one range that two overlapping or touching ranges make: it takes the earlier
/// of their times.
pub open spec fn merge(a: LossRange, b: LossRange) -> LossRange {
    LossRange {
        lo: min(a.lo, b.lo),
        hi: max(a.hi, b.hi),
        first_feedback: min(a.first_feedback, b.first_feedback),
        next_feedback: min(a.next_feedback, b.next_feedback),
    }
}

/// The list with range `n` added: `n` is merged with every range that it overlaps
/// or touches, and the result stands in their place.
pub open spec fn insert_range(rs: Seq<LossRange>, n: LossRange) -> Seq<LossRange>
    decreases rs.len(),
{
    if rs.len() == 0 {
        seq![n]
    } else if n.hi + 1 < rs[0].lo {
        seq![n] + rs
    } else if rs[0].hi + 1 < n.lo {
        seq![rs[0]] + insert_range(rs.drop_first(), n)
    } else {
        insert_range(rs.drop_first(), merge(rs[0], n))
    }
}

/// What is left of range `r` once the offsets `a` through `b` are taken out: the part
/// below `a` and the part above `b`, where there are any.
pub open spec fn pieces(r: LossRange, a: int, b: int) -> Seq<LossRange> {
    let left = if r.lo < a {
        seq![LossRange { hi: min(r.hi, a - 1), ..r }]
    } else {
        Seq::empty()
    };
    let right = if r.hi > b {
        seq![LossRange { lo: max(r.lo, b + 1), ..r }]
    } else {
        Seq::empty()
    };
    left + right
}

/// The list with the offsets `a` through `b` taken out of every range.
pub open spec fn cut(rs: Seq<LossRange>, a: int, b: int) -> Seq<LossRange>
    decreases rs.len(),
{
    if rs.len() == 0 {
        Seq::empty()
    } else {
        cut(rs.drop_last(), a, b) + pieces(rs.last(), a, b)
    }
}

/// The list with every offset lowered by `k`.
pub open spec fn shift_down(rs: Seq<LossRange>, k: int) -> Seq<LossRange> {
    Seq::new(rs.len(), |i: int| LossRange { lo: rs[i].lo - k, hi: rs[i].hi - k, ..rs[i] })
}

/// The list as seen from a base `k` further on: the offsets below `k` are gone, and
/// the others count from the new base.
pub open spec fn advance(rs: Seq<LossRange>, k: int) -> Seq<LossRange> {
    shift_down(cut(rs, 0, k - 1), k)
}

/// The list after a report at `now`: every range that was due is due again at `next`.
pub open spec fn refresh(rs: Seq<LossRange>, now: int, next: int) -> Seq<LossRange> {
    Seq::new(
        rs.len(),
        |i: int|
            if rs[i].next_feedback <= now {
                LossRange { next_feedback: next, ..rs[i] }
            } else {
                rs[i]
            },
    )
}

/// The ranges that are due for a report at `now`, in order.
pub open spec fn due(rs: Seq<LossRange>, now: int) -> Seq<LossRange>
    decreases rs.len(),
{
    if rs.len() == 0 {
        Seq::empty()
    } else if rs.last().next_feedback <= now {
        due(rs.drop_last(), now).push(rs.last())
    } else {
        due(rs.drop_last(), now)
    }
}

/// The list after the offsets of `order` were taken out one by one.
pub open spec fn cut_each(rs: Seq<LossRange>, order: Seq<int>) -> Seq<LossRange>
    decreases order.len(),
{
    if order.len() == 0 {
        rs
    } else {
        cut_each(cut(rs, order[0], order[0]), order.drop_first())
    }
}

pub proof fn lemma_contains_first(rs: Seq<LossRange>, x: int)
    requires
        rs.len() > 0,
    ensures
        contains(rs, x) <==> in_range(rs[0], x) || contains(rs.drop_first(), x),
{
    let tail = rs.drop_first();
    if contains(rs, x) {
        let i = choose|i: int| 0 <= i < rs.len() && in_range(#[trigger] rs[i], x);
        if i > 0 {
            assert(in_range(tail[i - 1], x));
        }
    }
    if contains(tail, x) {
        let i = choose|i: int| 0 <= i < tail.len() && in_range(#[trigger] tail[i], x);
        assert(in_range(rs[i + 1], x));
    }
}

pub proof fn lemma_contains_concat(a: Seq<LossRange>, b: Seq<LossRange>, x: int)
    ensures
        contains(a + b, x) <==> contains(a, x) || contains(b, x),
{
    let ab = a + b;
    if contains(ab, x) {
        let i = choose|i: int| 0 <= i < ab.len() && in_range(#[trigger] ab[i], x);
        if i < a.len() {
            assert(in_range(a[i], x));
        } else {
            assert(in_range(b[i - a.len()], x));
        }
    }
    if contains(a, x) {
        let i = choose|i: int| 0 <= i < a.len() && in_range(#[trigger] a[i], x);
        assert(in_range(ab[i], x));
    }
    if contains(b, x) {
        let i = choose|i: int| 0 <= i < b.len() && in_range(#[trigger] b[i], x);
        assert(in_range(ab[i + a.len()], x));
    }
}

pub proof fn lemma_contains_one(r: LossRange, x: int)
    ensures
        contains(seq![r], x) <==> in_range(r, x),
{
    if in_range(r, x) {
        assert(in_range(seq![r][0], x));
    }
}

proof fn lemma_wf_tail(rs: Seq<LossRange>)
    requires
        ranges_wf(rs),
        rs.len() > 0,
    ensures
        ranges_wf(rs.drop_first()),
        ranges_wf(rs.drop_last()),
        forall|j: int| 0 <= j < rs.len() ==> rs[0].lo <= (#[trigger] rs[j]).lo,
        forall|j: int| 0 <= j < rs.len() ==> (#[trigger] rs[j]).hi <= rs.last().hi,
{
    let tail = rs.drop_first();
    assert forall|i: int| 0 <= i < tail.len() implies range_valid(#[trigger] tail[i]) by {
        assert(tail[i] == rs[i + 1]);
    }
    assert forall|i: int, j: int| 0 <= i < j < tail.len() implies (#[trigger] tail[i]).hi + 1 < (
    #[trigger] tail[j]).lo by {
        assert(tail[i] == rs[i + 1]);
        assert(tail[j] == rs[j + 1]);
    }
    let front = rs.drop_last();
    assert forall|i: int| 0 <= i < front.len() implies range_valid(#[trigger] front[i]) by {
        assert(front[i] == rs[i]);
    }
    assert forall|i: int, j: int| 0 <= i < j < front.len() implies (#[trigger] front[i]).hi + 1 < (
    #[trigger] front[j]).lo by {
        assert(front[i] == rs[i]);
        assert(front[j] == rs[j]);
    }
    assert forall|j: int| 0 <= j < rs.len() implies rs[0].lo <= (#[trigger] rs[j]).lo by {
        assert(range_valid(rs[0]));
        if j > 0 {
            assert(rs[0].hi + 1 < rs[j].lo);
        }
    }
    assert forall|j: int| 0 <= j < rs.len() implies (#[trigger] rs[j]).hi <= rs.last().hi by {
        assert(range_valid(rs[rs.len() - 1]));
        if j < rs.len() - 1 {
            assert(rs[j].hi + 1 < rs[rs.len() - 1].lo);
        }
    }
}

/// A list stays in order when a range is put before it that ends below its first.
proof fn lemma_wf_prepend(a: LossRange, rs: Seq<LossRange>)
    requires
        ranges_wf(rs),
        range_valid(a),
        rs.len() > 0 ==> a.hi + 1 < rs[0].lo,
    ensures
        ranges_wf(seq![a] + rs),
{
    let out = seq![a] + rs;
    if rs.len() > 0 {
        lemma_wf_tail(rs);
    }
    assert forall|i: int| 0 <= i < out.len() implies range_valid(#[trigger] out[i]) by {
        if i > 0 {
            assert(out[i] == rs[i - 1]);
        }
    }
    assert forall|i: int, j: int| 0 <= i < j < out.len() implies (#[trigger] out[i]).hi + 1 < (
    #[trigger] out[j]).lo by {
        assert(out[j] == rs[j - 1]);
        if i > 0 {
            assert(out[i] == rs[i - 1]);
        }
    }
}

/// A list stays in order when ranges are put behind it that start above its last.
proof fn lemma_wf_concat(a: Seq<LossRange>, b: Seq<LossRange>)
    requires
        ranges_wf(a),
        ranges_wf(b),
        a.len() > 0 && b.len() > 0 ==> a.last().hi + 1 < b[0].lo,
    ensures
        ranges_wf(a + b),
{
    let out = a + b;
    if a.len() > 0 {
        lemma_wf_tail(a);
    }
    if b.len() > 0 {
        lemma_wf_tail(b);
    }
    assert forall|i: int| 0 <= i < out.len() implies range_valid(#[trigger] out[i]) by {
        if i < a.len() {
            assert(out[i] == a[i]);
        } else {
            assert(out[i] == b[i - a.len()]);
        }
    }
    assert forall|i: int, j: int| 0 <= i < j < out.len() implies (#[trigger] out[i]).hi + 1 < (
    #[trigger] out[j]).lo by {
        if j < a.len() {
            assert(out[i] == a[i]);
            assert(out[j] == a[j]);
        } else if i >= a.len() {
            assert(out[i] == b[i - a.len()]);
            assert(out[j] == b[j - a.len()]);
        } else {
            assert(out[i] == a[i]);
            assert(out[j] == b[j - a.len()]);
            assert(a[i].hi <= a.last().hi);
            assert(b[0].lo <= b[j - a.len()].lo);
        }
    }
}

/// Adding a range to a list in order gives a list in order that holds exactly the
/// offsets of the list and of the range.
pub proof fn lemma_insert_range(rs: Seq<LossRange>, n: LossRange)
    requires
        ranges_wf(rs),
        range_valid(n),
    ensures
        ranges_wf(insert_range(rs, n)),
        insert_range(rs, n).len() >= 1,
        insert_range(rs, n)[0].lo == if rs.len() > 0 && rs[0].lo < n.lo {
            rs[0].lo
        } else {
            n.lo
        },
        forall|x: int| #[trigger]
            contains(insert_range(rs, n), x) <==> contains(rs, x) || in_range(n, x),
    decreases rs.len(),
{
    let out = insert_range(rs, n);
    if rs.len() == 0 {
        assert forall|x: int| #[trigger] contains(out, x) <==> contains(rs, x) || in_range(n, x) by {
            lemma_contains_one(n, x);
        }
    } else {
        let tail = rs.drop_first();
        lemma_wf_tail(rs);
        assert(range_valid(rs[0]));
        if tail.len() > 0 {
            assert(tail[0] == rs[1]);
            assert(rs[0].hi + 1 < rs[1].lo);
        }
        if n.hi + 1 < rs[0].lo {
            lemma_wf_prepend(n, rs);
            assert forall|x: int| #[trigger]
                contains(out, x) <==> contains(rs, x) || in_range(n, x) by {
                lemma_contains_concat(seq![n], rs, x);
                lemma_contains_one(n, x);
            }
        } else if rs[0].hi + 1 < n.lo {
            lemma_insert_range(tail, n);
            let rest = insert_range(tail, n);
            lemma_wf_prepend(rs[0], rest);
            assert forall|x: int| #[trigger]
                contains(out, x) <==> contains(rs, x) || in_range(n, x) by {
                lemma_contains_concat(seq![rs[0]], rest, x);
                lemma_contains_one(rs[0], x);
                lemma_contains_first(rs, x);
                assert(contains(rest, x) <==> contains(tail, x) || in_range(n, x));
            }
        } else {
            let m = merge(rs[0], n);
            lemma_insert_range(tail, m);
            assert forall|x: int| #[trigger]
                contains(out, x) <==> contains(rs, x) || in_range(n, x) by {
                lemma_contains_first(rs, x);
                assert(contains(out, x) <==> contains(tail, x) || in_range(m, x));
            }
        }
    }
}

/// Cutting out offsets that are all negative leaves a list in order as it is.
pub proof fn lemma_cut_below(rs: Seq<LossRange>, a: int, b: int)
    requires
        ranges_wf(rs),
        a <= b < 0,
    ensures
        cut(rs, a, b) == rs,
    decreases rs.len(),
{
    if rs.len() > 0 {
        lemma_wf_tail(rs);
        lemma_cut_below(rs.drop_last(), a, b);
        assert(range_valid(rs[rs.len() - 1]));
        assert(pieces(rs.last(), a, b) =~= seq![rs.last()]);
        assert(rs.drop_last() + seq![rs.last()] =~= rs);
    } else {
        assert(cut(rs, a, b) =~= rs);
    }
}

/// Cutting offsets out of a list in order gives a list in order that holds exactly the
/// offsets of the list that were not cut.
pub proof fn lemma_cut(rs: Seq<LossRange>, a: int, b: int)
    requires
        ranges_wf(rs),
        a <= b,
    ensures
        ranges_wf(cut(rs, a, b)),
        forall|x: int| #[trigger] contains(cut(rs, a, b), x) <==> contains(rs, x) && !(a <= x <= b),
        forall|j: int|
            0 <= j < cut(rs, a, b).len() ==> rs.len() > 0 && (#[trigger] cut(rs, a, b)[j]).hi
                <= rs.last().hi,
        a <= 0 ==> forall|j: int| 0 <= j < cut(rs, a, b).len() ==> (#[trigger] cut(rs, a, b)[j]).lo > b,
    decreases rs.len(),
{
    let out = cut(rs, a, b);
    if rs.len() > 0 {
        let front = rs.drop_last();
        let last = rs.last();
        lemma_wf_tail(rs);
        lemma_cut(front, a, b);
        let head = cut(front, a, b);
        let rest = pieces(last, a, b);
        assert(range_valid(last));
        assert(ranges_wf(rest)) by {
            assert forall|i: int| 0 <= i < rest.len() implies range_valid(#[trigger] rest[i]) by {}
            assert forall|i: int, j: int| 0 <= i < j < rest.len() implies (#[trigger] rest[i]).hi + 1
                < (#[trigger] rest[j]).lo by {}
        }
        if head.len() > 0 && rest.len() > 0 {
            assert(front.len() > 0);
            assert(head.last().hi <= front.last().hi);
            assert(front.last() == rs[rs.len() - 2]);
            assert(rs[rs.len() - 2].hi + 1 < rs[rs.len() - 1].lo);
            assert(last.lo <= rest[0].lo);
        }
        lemma_wf_concat(head, rest);
        assert forall|x: int| #[trigger]
            contains(out, x) <==> contains(rs, x) && !(a <= x <= b) by {
            lemma_contains_concat(head, rest, x);
            lemma_contains_concat(front, seq![last], x);
            lemma_contains_one(last, x);
            assert(front + seq![last] =~= rs);
            assert(contains(head, x) <==> contains(front, x) && !(a <= x <= b));
            if contains(rest, x) {
                let i = choose|i: int| 0 <= i < rest.len() && in_range(#[trigger] rest[i], x);
                assert(in_range(last, x) && !(a <= x <= b));
            }
            if in_range(last, x) && !(a <= x <= b) {
                if x < a {
                    assert(in_range(rest[0], x));
                } else {
                    assert(in_range(rest[rest.len() - 1], x));
                }
            }
        }
        assert forall|j: int| 0 <= j < out.len() implies rs.len() > 0 && (#[trigger] out[j]).hi
            <= rs.last().hi by {
            if j < head.len() {
                assert(out[j] == head[j]);
                assert(front.last() == rs[rs.len() - 2]);
                assert(rs[rs.len() - 2].hi + 1 < rs[rs.len() - 1].lo);
            } else {
                assert(out[j] == rest[j - head.len()]);
            }
        }
        if a <= 0 {
            assert forall|j: int| 0 <= j < out.len() implies (#[trigger] out[j]).lo > b by {
                if j < head.len() {
                    assert(out[j] == head[j]);
                } else {
                    assert(out[j] == rest[j - head.len()]);
                }
            }
        }
    }
}

/// Moving the base of a list in order gives a list in order that holds, from the new
/// base, exactly the offsets that the list held.
pub proof fn lemma_advance(rs: Seq<LossRange>, k: int)
    requires
        ranges_wf(rs),
        k >= 1,
    ensures
        ranges_wf(advance(rs, k)),
        forall|x: int| #[trigger] contains(advance(rs, k), x) <==> x >= 0 && contains(rs, x + k),
{
    let kept = cut(rs, 0, k - 1);
    let out = advance(rs, k);
    lemma_cut(rs, 0, k - 1);
    assert forall|i: int| 0 <= i < out.len() implies range_valid(#[trigger] out[i]) by {
        assert(range_valid(kept[i]));
        assert(kept[i].lo > k - 1);
    }
    assert forall|i: int, j: int| 0 <= i < j < out.len() implies (#[trigger] out[i]).hi + 1 < (
    #[trigger] out[j]).lo by {
        assert(kept[i].hi + 1 < kept[j].lo);
    }
    assert forall|x: int| #[trigger] contains(out, x) <==> x >= 0 && contains(rs, x + k) by {
        if contains(out, x) {
            let i = choose|i: int| 0 <= i < out.len() && in_range(#[trigger] out[i], x);
            assert(in_range(kept[i], x + k));
            assert(kept[i].lo > k - 1);
            assert(contains(kept, x + k));
        }
        if x >= 0 && contains(rs, x + k) {
            assert(contains(kept, x + k));
            let i = choose|i: int| 0 <= i < kept.len() && in_range(#[trigger] kept[i], x + k);
            assert(in_range(out[i], x));
        }
    }
}

/// A report changes no range's offsets.
pub proof fn lemma_refresh(rs: Seq<LossRange>, now: int, next: int)
    requires
        ranges_wf(rs),
    ensures
        ranges_wf(refresh(rs, now, next)),
        forall|x: int| #[trigger] contains(refresh(rs, now, next), x) <==> contains(rs, x),
{
    let out = refresh(rs, now, next);
    assert forall|i: int| 0 <= i < out.len() implies range_valid(#[trigger] out[i]) by {
        assert(range_valid(rs[i]));
    }
    assert forall|i: int, j: int| 0 <= i < j < out.len() implies (#[trigger] out[i]).hi + 1 < (
    #[trigger] out[j]).lo by {
        assert(rs[i].hi + 1 < rs[j].lo);
    }
    assert forall|x: int| #[trigger] contains(out, x) <==> contains(rs, x) by {
        if contains(out, x) {
            let i = choose|i: int| 0 <= i < out.len() && in_range(#[trigger] out[i], x);
            assert(in_range(rs[i], x));
        }
        if contains(rs, x) {
            let i = choose|i: int| 0 <= i < rs.len() && in_range(#[trigger] rs[i], x);
            assert(in_range(out[i], x));
        }
    }
}

/// A list in order that holds no offset has no range.
pub proof fn lemma_nothing_contained(rs: Seq<LossRange>)
    requires
        ranges_wf(rs),
        forall|x: int| !#[trigger] contains(rs, x),
    ensures
        rs.len() == 0,
{
    if rs.len() > 0 {
        assert(range_valid(rs[0]));
        assert(in_range(rs[0], rs[0].lo));
        assert(contains(rs, rs[0].lo));
    }
}

/// Taking offsets out one by one leaves a list in order that holds exactly the offsets
/// that were not taken out.
pub proof fn lemma_cut_each(rs: Seq<LossRange>, order: Seq<int>)
    requires
        ranges_wf(rs),
    ensures
        ranges_wf(cut_each(rs, order)),
        forall|x: int| #[trigger]
            contains(cut_each(rs, order), x) <==> contains(rs, x) && !order.contains(x),
    decreases order.len(),
{
    if order.len() > 0 {
        let first = order[0];
        let rest = order.drop_first();
        let once = cut(rs, first, first);
        lemma_cut(rs, first, first);
        lemma_cut_each(once, rest);
        assert forall|x: int| #[trigger]
            contains(cut_each(rs, order), x) <==> contains(rs, x) && !order.contains(x) by {
            assert(contains(once, x) <==> contains(rs, x) && !(first <= x <= first));
            if order.contains(x) {
                let i = choose|i: int| 0 <= i < order.len() && order[i] == x;
                if i > 0 {
                    assert(rest[i - 1] == x);
                }
            }
            if rest.contains(x) {
                let i = choose|i: int| 0 <= i < rest.len() && rest[i] == x;
                assert(order[i + 1] == x);
            }
        }
    }
}

/// A range that is added to an empty list and then taken out offset by offset, in any
/// order, leaves the list empty.
pub proof fn lemma_add_then_remove_all(n: LossRange, order: Seq<int>)
    requires
        range_valid(n),
        forall|x: int| n.lo <= x <= n.hi ==> order.contains(x),
    ensures
        cut_each(insert_range(Seq::empty(), n), order) == Seq::<LossRange>::empty(),
{
    let added = insert_range(Seq::empty(), n);
    lemma_insert_range(Seq::empty(), n);
    lemma_cut_each(added, order);
    let left = cut_each(added, order);
    assert forall|x: int| !#[trigger] contains(left, x) by {
        if contains(left, x) {
            assert(contains(added, x));
            assert(contains(Seq::<LossRange>::empty(), x) || in_range(n, x));
        }
    }
    lemma_nothing_contained(left);
    assert(left =~= Seq::<LossRange>::empty());
}

/// The ranges of a list in order are pairwise disjoint.
pub proof fn lemma_ranges_disjoint(rs: Seq<LossRange>, i: int, j: int, x: int)
    requires
        ranges_wf(rs),
        0 <= i < rs.len(),
        0 <= j < rs.len(),
        in_range(rs[i], x),
        in_range(rs[j], x),
    ensures
        i == j,
{
    if i < j {
        assert(rs[i].hi + 1 < rs[j].lo);
    } else if j < i {
        assert(rs[j].hi + 1 < rs[i].lo);
    }
}

} // verus!
