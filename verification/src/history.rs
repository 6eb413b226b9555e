//! The history of losses: which sequence numbers are missing, and when each run of
//! them is next due to be reported.

use crate::loss_list::{
    lemma_offsets_make_range, range_values, ranges_ok, CompressedLossList, SeqRange,
};
use crate::loss_ranges::{
    advance, contains, cut, due, insert_range, lemma_advance, lemma_cut, lemma_insert_range,
    lemma_refresh, offset_limit, pieces, range_valid, ranges_wf, refresh, shift_down, LossRange,
};
use crate::seq_number::{circle_add, circle_distance, lemma_circle_bounds, on_circle, SeqNumber};
use crate::time::{clamp_micros, Duration, Instant};
use vstd::prelude::*;

verus! {

/// The shortest time between two reports on one run of losses, in microseconds (20 ms).
pub const DEFAULT_NAK_INTERVAL_MICROS: u64 = 20_000;

/// Offsets of a history stay below this bound.
pub const OFFSET_LIMIT: u32 = 0x3FFF_FFFF;

#[derive(Clone, Copy, Debug)]
struct LossEntry {
    lo: u32,
    hi: u32,
    first_feedback: Instant,
    next_feedback: Instant,
}

impl View for LossEntry {
    type V = LossRange;

    closed spec fn view(&self) -> LossRange {
        LossRange {
            lo: self.lo as int,
            hi: self.hi as int,
            first_feedback: self.first_feedback@,
            next_feedback: self.next_feedback@,
        }
    }
}

spec fn entry_views(entries: Seq<LossEntry>) -> Seq<LossRange> {
    Seq::new(entries.len(), |i: int| entries[i]@)
}

/// The sequence ranges of the ranges that are due at `now`, counted from `base`.
pub open spec fn due_ranges(rs: Seq<LossRange>, base: int, now: int) -> Seq<(int, int)> {
    Seq::new(
        due(rs, now).len(),
        |j: int| (circle_add(base, due(rs, now)[j].lo), circle_add(base, due(rs, now)[j].hi)),
    )
}

/// The missing sequence numbers, as sorted runs of offsets from a base that follows the
/// low-water mark.
#[derive(Debug)]
pub struct LossHistory {
    base: SeqNumber,
    entries: Vec<LossEntry>,
    nak_interval: Duration,
}

impl LossHistory {
    /// The sequence number that the offsets count from.
    pub closed spec fn base(&self) -> int {
        self.base@
    }

    /// The runs of missing offsets, in ascending order.
    pub closed spec fn ranges(&self) -> Seq<LossRange> {
        entry_views(self.entries@)
    }

    /// The time after which a run that was added is first due to be reported again.
    pub closed spec fn nak_interval(&self) -> int {
        self.nak_interval@
    }

    /// The runs are proper ones, in ascending order, and no two overlap or touch.
    pub open spec fn wf(&self) -> bool {
        &&& ranges_wf(self.ranges())
        &&& on_circle(self.base())
        &&& 0 <= self.nak_interval() <= u64::MAX
    }

    /// Whether sequence number `seq` is recorded as missing.
    pub open spec fn contains_seq(&self, seq: int) -> bool {
        contains(self.ranges(), circle_distance(self.base(), seq))
    }

    /// An empty history whose offsets count from `base`.
    pub fn new(base: SeqNumber) -> (r: LossHistory)
        ensures
            r.wf(),
            r.base() == base@,
            r.ranges() == Seq::<LossRange>::empty(),
            r.nak_interval() == DEFAULT_NAK_INTERVAL_MICROS,
    {
        proof {
            use_type_invariant(&base);
        }
        let r = LossHistory {
            base,
            entries: Vec::new(),
            nak_interval: Duration { micros: DEFAULT_NAK_INTERVAL_MICROS },
        };
        proof {
            assert(r.ranges() =~= Seq::<LossRange>::empty());
        }
        r
    }

    /// Sets the time after which a run that is added is first due to be reported again.
    pub fn set_nak_interval(&mut self, interval: Duration)
        ensures
            old(self).wf() ==> final(self).wf(),
            final(self).base() == old(self).base(),
            final(self).ranges() == old(self).ranges(),
            final(self).nak_interval() == interval@,
    {
        self.nak_interval = interval;
    }

    pub fn is_empty(&self) -> (r: bool)
        ensures
            r == (self.ranges().len() == 0),
    {
        self.entries.len() == 0
    }

    /// The number of runs.
    pub fn len(&self) -> (r: usize)
        ensures
            r == self.ranges().len(),
    {
        self.entries.len()
    }

    /// The sequence number that the offsets count from.
    pub fn base_seq(&self) -> (r: SeqNumber)
        ensures
            r@ == self.base(),
    {
        self.base
    }

    /// The runs as ranges of sequence numbers, in order.
    pub fn seq_ranges(&self) -> (r: Vec<SeqRange>)
        requires
            self.wf(),
        ensures
            r@.len() == self.ranges().len(),
            forall|i: int|
                0 <= i < r@.len() ==> (#[trigger] r@[i])@ == (
                    circle_add(self.base(), self.ranges()[i].lo),
                    circle_add(self.base(), self.ranges()[i].hi),
                ),
    {
        let mut out: Vec<SeqRange> = Vec::new();
        let mut i: usize = 0;
        while i < self.entries.len()
            invariant
                i <= self.entries.len(),
                out@.len() == i,
                forall|j: int|
                    0 <= j < i ==> (#[trigger] out@[j])@ == (
                        circle_add(self.base(), self.ranges()[j].lo),
                        circle_add(self.base(), self.ranges()[j].hi),
                    ),
            decreases self.entries.len() - i,
        {
            let entry: LossEntry = self.entries[i];
            out.push(SeqRange { first: self.base.add(entry.lo), last: self.base.add(entry.hi) });
            i += 1;
        }
        out
    }

    /// When run `index` was first reported, and when it is due to be reported again;
    /// nothing if there are not that many runs.
    pub fn feedback_at(&self, index: usize) -> (r: Option<(Instant, Instant)>)
        ensures
            r.is_some() == (index < self.ranges().len()),
            r matches Some(times) ==> times.0@ == self.ranges()[index as int].first_feedback
                && times.1@ == self.ranges()[index as int].next_feedback,
    {
        if index < self.entries.len() {
            let entry: LossEntry = self.entries[index];
            Some((entry.first_feedback, entry.next_feedback))
        } else {
            None
        }
    }

    /// Whether sequence number `seq` is recorded as missing.
    pub fn is_missing(&self, seq: SeqNumber) -> (r: bool)
        requires
            self.wf(),
        ensures
            r == self.contains_seq(seq@),
    {
        let x: i32 = self.base.distance(seq);
        let mut i: usize = 0;
        while i < self.entries.len()
            invariant
                i <= self.entries.len(),
                x == circle_distance(self.base(), seq@),
                forall|j: int|
                    0 <= j < i ==> !crate::loss_ranges::in_range(
                        #[trigger] self.ranges()[j],
                        x as int,
                    ),
            decreases self.entries.len() - i,
        {
            let entry: LossEntry = self.entries[i];
            if x >= 0 && entry.lo as i64 <= x as i64 && x as i64 <= entry.hi as i64 {
                assert(crate::loss_ranges::in_range(self.ranges()[i as int], x as int));
                return true;
            }
            i += 1;
        }
        false
    }

    /// Records the sequence numbers from `first` through `last` as missing since `now`,
    /// as far as they lie at or after the base.
    ///
    /// The run is merged with the runs that it overlaps or touches. A merged run keeps
    /// the earliest of the times of its parts; a new one is due to be reported again one
    /// interval after `now`.
    pub fn add_range(&mut self, first: SeqNumber, last: SeqNumber, now: Instant)
        requires
            old(self).wf(),
        ensures
            final(self).wf(),
            final(self).base() == old(self).base(),
            final(self).nak_interval() == old(self).nak_interval(),
            ({
                let a = circle_distance(old(self).base(), first@);
                let b = circle_distance(old(self).base(), last@);
                let lo = if a < 0 { 0 } else { a };
                let hi = if b >= offset_limit() { offset_limit() - 1 } else { b };
                if lo <= hi {
                    &&& final(self).ranges() == insert_range(
                        old(self).ranges(),
                        LossRange {
                            lo,
                            hi,
                            first_feedback: now@,
                            next_feedback: clamp_micros(now@ + old(self).nak_interval()),
                        },
                    )
                    &&& forall|x: int| #[trigger]
                        contains(final(self).ranges(), x) <==> contains(old(self).ranges(), x) || lo
                            <= x <= hi
                } else {
                    final(self).ranges() == old(self).ranges()
                }
            }),
    {
        let a: i32 = self.base.distance(first);
        let b: i32 = self.base.distance(last);
        let lo: u32 = if a < 0 { 0 } else { a as u32 };
        if b < 0 {
            return ;
        }
        let hi: u32 = if b as u32 >= OFFSET_LIMIT { OFFSET_LIMIT - 1 } else { b as u32 };
        if lo > hi {
            return ;
        }
        let ghost before = self.ranges();
        let added = LossEntry {
            lo,
            hi,
            first_feedback: now,
            next_feedback: now.saturating_add(self.nak_interval),
        };
        let mut pending: LossEntry = added;
        let mut placed: bool = false;
        let mut out: Vec<LossEntry> = Vec::new();
        let mut i: usize = 0;
        proof {
            assert(before.skip(0) =~= before);
            assert(entry_views(out@) + insert_range(before, pending@) =~= insert_range(
                before,
                pending@,
            ));
        }
        while i < self.entries.len()
            invariant
                i <= self.entries.len(),
                before == entry_views(self.entries@),
                ranges_wf(before),
                !placed ==> range_valid(pending@),
                insert_range(before, added@) == entry_views(out@) + if placed {
                    before.skip(i as int)
                } else {
                    insert_range(before.skip(i as int), pending@)
                },
            decreases self.entries.len() - i,
        {
            let entry: LossEntry = self.entries[i];
            let ghost rest = before.skip(i as int);
            let ghost done = entry_views(out@);
            proof {
                assert(rest[0] == entry@);
                assert(rest.drop_first() =~= before.skip(i + 1));
                assert(range_valid(before[i as int]));
            }
            if placed {
                out.push(entry);
                proof {
                    assert(entry_views(out@) =~= done.push(entry@));
                    assert(done.push(entry@) + before.skip(i + 1) =~= done + rest);
                }
            } else if pending.hi + 1 < entry.lo {
                out.push(pending);
                out.push(entry);
                placed = true;
                proof {
                    assert(entry_views(out@) =~= done.push(pending@).push(entry@));
                    assert(done.push(pending@).push(entry@) + before.skip(i + 1) =~= done + (
                    seq![pending@] + rest));
                }
            } else if entry.hi + 1 < pending.lo {
                out.push(entry);
                proof {
                    assert(entry_views(out@) =~= done.push(entry@));
                    assert(done.push(entry@) + insert_range(before.skip(i + 1), pending@) =~= done
                        + (seq![entry@] + insert_range(rest.drop_first(), pending@)));
                }
            } else {
                pending =
                LossEntry {
                    lo: if entry.lo < pending.lo { entry.lo } else { pending.lo },
                    hi: if entry.hi > pending.hi { entry.hi } else { pending.hi },
                    first_feedback: if entry.first_feedback.micros
                        < pending.first_feedback.micros {
                        entry.first_feedback
                    } else {
                        pending.first_feedback
                    },
                    next_feedback: if entry.next_feedback.micros < pending.next_feedback.micros {
                        entry.next_feedback
                    } else {
                        pending.next_feedback
                    },
                };
            }
            i += 1;
        }
        let ghost done = entry_views(out@);
        if !placed {
            out.push(pending);
            proof {
                assert(before.skip(i as int) =~= Seq::<LossRange>::empty());
                assert(entry_views(out@) =~= done + seq![pending@]);
            }
        } else {
            proof {
                assert(before.skip(i as int) =~= Seq::<LossRange>::empty());
                assert(done + Seq::<LossRange>::empty() =~= done);
            }
        }
        self.entries = out;
        proof {
            lemma_insert_range(before, added@);
        }
    }

    /// Takes the offsets `a` through `b` out of every run and lowers what is left by
    /// `shift`.
    fn cut_offsets(&mut self, a: i64, b: i64, shift: u32)
        requires
            old(self).wf(),
            a <= b,
            shift == 0 || (a == 0 && b == shift - 1),
        ensures
            final(self).base() == old(self).base(),
            final(self).nak_interval() == old(self).nak_interval(),
            final(self).ranges() == shift_down(cut(old(self).ranges(), a as int, b as int), shift as int),
    {
        let ghost before = self.ranges();
        let mut out: Vec<LossEntry> = Vec::new();
        let mut i: usize = 0;
        proof {
            assert(before.take(0) =~= Seq::<LossRange>::empty());
            assert(entry_views(out@) =~= shift_down(cut(before.take(0), a as int, b as int), shift as int));
        }
        while i < self.entries.len()
            invariant
                i <= self.entries.len(),
                before == entry_views(self.entries@),
                ranges_wf(before),
                a <= b,
                shift == 0 || (a == 0 && b == shift - 1),
                entry_views(out@) == shift_down(
                    cut(before.take(i as int), a as int, b as int),
                    shift as int,
                ),
            decreases self.entries.len() - i,
        {
            let entry: LossEntry = self.entries[i];
            let ghost done = entry_views(out@);
            let ghost kept = cut(before.take(i as int), a as int, b as int);
            proof {
                let upto = before.take(i + 1);
                assert(upto.last() == entry@);
                assert(upto.drop_last() =~= before.take(i as int));
                assert(range_valid(before[i as int]));
            }
            if (entry.lo as i64) < a {
                let end: u32 = if (entry.hi as i64) < a - 1 { entry.hi } else { (a - 1) as u32 };
                out.push(LossEntry { hi: end - shift, lo: entry.lo - shift, ..entry });
            }
            if entry.hi as i64 > b {
                let start: u32 = if entry.lo as i64 > b + 1 { entry.lo } else { (b + 1) as u32 };
                out.push(LossEntry { lo: start - shift, hi: entry.hi - shift, ..entry });
            }
            proof {
                let parts = pieces(entry@, a as int, b as int);
                assert(entry_views(out@) =~= done + shift_down(parts, shift as int));
                assert(shift_down(kept + parts, shift as int) =~= shift_down(kept, shift as int)
                    + shift_down(parts, shift as int));
            }
            i += 1;
        }
        proof {
            assert(before.take(i as int) =~= before);
        }
        self.entries = out;
    }

    /// Takes sequence number `seq` out of the history. A run that holds it inside is split
    /// in two, which keep its times.
    pub fn remove(&mut self, seq: SeqNumber)
        requires
            old(self).wf(),
        ensures
            final(self).wf(),
            final(self).base() == old(self).base(),
            final(self).nak_interval() == old(self).nak_interval(),
            ({
                let x = circle_distance(old(self).base(), seq@);
                &&& final(self).ranges() == cut(old(self).ranges(), x, x)
                &&& forall|y: int| #[trigger]
                    contains(final(self).ranges(), y) <==> contains(old(self).ranges(), y) && y != x
            }),
    {
        let x: i32 = self.base.distance(seq);
        proof {
            lemma_cut(self.ranges(), x as int, x as int);
            assert(shift_down(cut(self.ranges(), x as int, x as int), 0) =~= cut(
                self.ranges(),
                x as int,
                x as int,
            ));
        }
        self.cut_offsets(x as i64, x as i64, 0);
    }

    /// Takes the sequence numbers from `first` to just before `end` out of the history.
    pub fn remove_range(&mut self, first: SeqNumber, end: SeqNumber)
        requires
            old(self).wf(),
        ensures
            final(self).wf(),
            final(self).base() == old(self).base(),
            final(self).nak_interval() == old(self).nak_interval(),
            ({
                let a = circle_distance(old(self).base(), first@);
                let b = circle_distance(old(self).base(), end@);
                if a < b {
                    &&& final(self).ranges() == cut(old(self).ranges(), a, b - 1)
                    &&& forall|y: int| #[trigger]
                        contains(final(self).ranges(), y) <==> contains(old(self).ranges(), y) && !(a
                            <= y < b)
                } else {
                    final(self).ranges() == old(self).ranges()
                }
            }),
    {
        let a: i32 = self.base.distance(first);
        let b: i32 = self.base.distance(end);
        if a < b {
            proof {
                lemma_cut(self.ranges(), a as int, b - 1);
                assert(shift_down(cut(self.ranges(), a as int, b - 1), 0) =~= cut(
                    self.ranges(),
                    a as int,
                    b - 1,
                ));
            }
            self.cut_offsets(a as i64, b as i64 - 1, 0);
        }
    }

    /// Moves the base `k` sequence numbers forward. The numbers before the new base leave
    /// the history; the others stay, at offsets that count from the new base.
    pub fn advance_base(&mut self, k: u32)
        requires
            old(self).wf(),
        ensures
            final(self).wf(),
            final(self).base() == circle_add(old(self).base(), k as int),
            final(self).nak_interval() == old(self).nak_interval(),
            k == 0 ==> final(self).ranges() == old(self).ranges(),
            k > 0 ==> final(self).ranges() == advance(old(self).ranges(), k as int),
            forall|x: int| #[trigger]
                contains(final(self).ranges(), x) <==> x >= 0 && contains(old(self).ranges(), x + k),
    {
        proof {
            lemma_circle_bounds(self.base(), k as int);
        }
        if k > 0 {
            proof {
                lemma_advance(self.ranges(), k as int);
            }
            self.cut_offsets(0, k as i64 - 1, k);
            self.base = self.base.add(k);
        } else {
            proof {
                crate::seq_number::lemma_distance_zero(self.base(), self.base());
                assert forall|x: int| #[trigger]
                    contains(self.ranges(), x) <==> x >= 0 && contains(self.ranges(), x + 0) by {
                    if contains(self.ranges(), x) {
                        let i = choose|i: int|
                            0 <= i < self.ranges().len() && crate::loss_ranges::in_range(
                                #[trigger] self.ranges()[i],
                                x,
                            );
                        assert(range_valid(self.ranges()[i]));
                    }
                }
            }
        }
    }

    /// Forgets every run.
    pub fn clear(&mut self)
        ensures
            old(self).wf() ==> final(self).wf(),
            final(self).base() == old(self).base(),
            final(self).nak_interval() == old(self).nak_interval(),
            final(self).ranges() == Seq::<LossRange>::empty(),
    {
        self.entries = Vec::new();
        proof {
            assert(self.ranges() =~= Seq::<LossRange>::empty());
        }
    }

    /// The runs that are due for a report at `now`, as a loss list. Each of them is due
    /// again after the round-trip time `rtt_mean`, or after the interval of the history
    /// where that is longer.
    pub fn due_for_nak(&mut self, now: Instant, rtt_mean: Duration) -> (list: CompressedLossList)
        requires
            old(self).wf(),
        ensures
            final(self).wf(),
            final(self).base() == old(self).base(),
            final(self).nak_interval() == old(self).nak_interval(),
            list@ == due_ranges(old(self).ranges(), old(self).base(), now@),
            final(self).ranges() == refresh(
                old(self).ranges(),
                now@,
                clamp_micros(
                    now@ + if rtt_mean@ >= old(self).nak_interval() {
                        rtt_mean@
                    } else {
                        old(self).nak_interval()
                    },
                ),
            ),
            forall|x: int| #[trigger]
                contains(final(self).ranges(), x) <==> contains(old(self).ranges(), x),
    {
        let ghost before = self.ranges();
        let ghost base = self.base();
        let next: Instant = now.saturating_add(rtt_mean.max(self.nak_interval));
        let mut reported: Vec<SeqRange> = Vec::new();
        let mut out: Vec<LossEntry> = Vec::new();
        let mut i: usize = 0;
        proof {
            assert(before.take(0) =~= Seq::<LossRange>::empty());
            assert(range_values(reported@) =~= due_ranges(before.take(0), base, now@));
            assert(entry_views(out@) =~= refresh(before, now@, next@).take(0));
        }
        while i < self.entries.len()
            invariant
                i <= self.entries.len(),
                before == entry_views(self.entries@),
                base == self.base(),
                on_circle(base),
                ranges_wf(before),
                entry_views(out@) == refresh(before, now@, next@).take(i as int),
                range_values(reported@) == due_ranges(before.take(i as int), base, now@),
                ranges_ok(range_values(reported@)),
            decreases self.entries.len() - i,
        {
            let entry: LossEntry = self.entries[i];
            let ghost done = entry_views(out@);
            let ghost told = range_values(reported@);
            proof {
                let upto = before.take(i + 1);
                assert(upto.last() == entry@);
                assert(upto.drop_last() =~= before.take(i as int));
                assert(range_valid(before[i as int]));
                lemma_offsets_make_range(base, entry.lo as int, entry.hi as int);
            }
            if entry.next_feedback.micros <= now.micros {
                reported.push(
                    SeqRange { first: self.base.add(entry.lo), last: self.base.add(entry.hi) },
                );
                out.push(LossEntry { next_feedback: next, ..entry });
                proof {
                    assert(range_values(reported@) =~= told.push(
                        (circle_add(base, entry.lo as int), circle_add(base, entry.hi as int)),
                    ));
                    assert(range_values(reported@) =~= due_ranges(before.take(i + 1), base, now@));
                }
            } else {
                out.push(entry);
                proof {
                    assert(range_values(reported@) =~= due_ranges(before.take(i + 1), base, now@));
                }
            }
            proof {
                let fresh = refresh(before, now@, next@);
                assert(entry_views(out@) =~= done.push(out@[i as int]@));
                assert(fresh[i as int] == out@[i as int]@);
                assert(fresh.take(i + 1) =~= fresh.take(i as int).push(fresh[i as int]));
            }
            i += 1;
        }
        proof {
            assert(before.take(i as int) =~= before);
            assert(refresh(before, now@, next@).take(i as int) =~= refresh(before, now@, next@));
            lemma_refresh(before, now@, next@);
        }
        self.entries = out;
        CompressedLossList::from_ranges(reported).unwrap()
    }
}

} // verus!
