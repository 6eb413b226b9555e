//! The receive buffer: a ring of slots, one per sequence number of the window that
//! starts at the next number to release.

use crate::clock::Clock;
use crate::loss_list::SeqRange;
use crate::seq_number::{
    circle_add, circle_distance, lemma_add_add, lemma_circle_bounds, lemma_distance_of_add,
    on_circle, SeqNumber,
};
use crate::time::{Duration, Instant, TimeStamp};
use vstd::prelude::*;

verus! {

/// The largest number of slots that a buffer holds: a window has to fit in less than
/// half of the sequence circle, or distances inside it would be ambiguous.
pub const MAX_CAPACITY: usize = 0x3FFF_FFFF;

/// One slot of the ring.
#[derive(Debug)]
pub enum Slot {
    /// Nothing is known of the packet, or it was given up.
    Empty,
    /// The packet is known to be missing and is waited for until `deadline`.
    Missing { deadline: Instant },
    /// The packet is here and waits for its release.
    Filled { payload: Vec<u8>, arrival: Instant, release_at: Instant },
}

/// What a slot holds, as values.
pub enum SlotView {
    Empty,
    Missing { deadline: int },
    Filled { payload: Seq<u8>, arrival: int, release_at: int },
}

impl View for Slot {
    type V = SlotView;

    open spec fn view(&self) -> SlotView {
        match self {
            Slot::Empty => SlotView::Empty,
            Slot::Missing { deadline } => SlotView::Missing { deadline: deadline@ },
            Slot::Filled { payload, arrival, release_at } => SlotView::Filled {
                payload: payload@,
                arrival: arrival@,
                release_at: release_at@,
            },
        }
    }
}

/// A packet that the buffer released.
#[derive(Debug, PartialEq, Eq)]
pub struct Released {
    pub seq_number: SeqNumber,
    pub payload: Vec<u8>,
    pub arrival: Instant,
    pub release_at: Instant,
}

/// A released packet, as values.
pub struct ReleasedView {
    pub seq_number: int,
    pub payload: Seq<u8>,
    pub arrival: int,
    pub release_at: int,
}

impl View for Released {
    type V = ReleasedView;

    open spec fn view(&self) -> ReleasedView {
        ReleasedView {
            seq_number: self.seq_number@,
            payload: self.payload@,
            arrival: self.arrival@,
            release_at: self.release_at@,
        }
    }
}

/// The values of a vector of released packets.
pub open spec fn released_views(packets: Seq<Released>) -> Seq<ReleasedView> {
    Seq::new(packets.len(), |i: int| packets[i]@)
}

/// What an accepted packet did to the buffer.
#[derive(Clone, Copy, Debug, PartialEq, Eq)]
pub struct Inserted {
    /// The packet filled a slot that was marked missing.
    pub recovered: bool,
    /// The numbers between the former high-water mark and the packet, which the
    /// packet's arrival showed to be missing.
    pub gap: Option<SeqRange>,
}

/// Why the buffer refused a packet.
#[derive(Clone, Copy, Debug, PartialEq, Eq)]
pub enum BufferError {
    /// The packet is one window ahead and the slot it maps to still holds data.
    BufferFull { seq_number: SeqNumber, buffer_size: usize },
    /// The packet is ahead of the window; the buffer would need `buffer_required` more slots.
    PacketTooEarly { seq_number: SeqNumber, buffer_available: usize, buffer_required: usize },
    /// The packet lies before `seq_number_0`, the next number to release.
    PacketTooLate { seq_number: SeqNumber, seq_number_0: SeqNumber },
    /// The packet is already in the buffer.
    DiscardedDuplicate { seq_number: SeqNumber },
}

/// Index in the ring of the slot `offset` places after the one at `head`.
pub open spec fn ring_index(head: int, offset: int, cap: int) -> int {
    if head + offset >= cap {
        head + offset - cap
    } else {
        head + offset
    }
}

/// Whether a release at `now` passes the slot: a packet that is due, a missing one whose
/// deadline lies more than `grace` back, and a slot that was given up.
pub open spec fn releasable(slot: SlotView, now: int, grace: int) -> bool {
    match slot {
        SlotView::Empty => true,
        SlotView::Missing { deadline } => now > deadline + grace,
        SlotView::Filled { release_at, .. } => release_at <= now,
    }
}

/// Whether a release at `now` passes exactly the first `k` slots below `span`.
pub open spec fn release_count(window: Seq<SlotView>, span: int, now: int, grace: int, k: int) -> bool {
    &&& 0 <= k <= span
    &&& forall|i: int| 0 <= i < k ==> releasable(#[trigger] window[i], now, grace)
    &&& k < span ==> !releasable(window[k], now, grace)
}

/// The window moved `k` slots forward: slot `i` is the old slot `i + k`, and the
/// slots that come in at the end are empty.
pub open spec fn shifted(window: Seq<SlotView>, k: int) -> Seq<SlotView> {
    Seq::new(
        window.len(),
        |i: int|
            if i + k < window.len() {
                window[i + k]
            } else {
                SlotView::Empty
            },
    )
}

/// The packets among the first `k` slots in order, slot `i` holding number `base + i`.
pub open spec fn released_prefix(window: Seq<SlotView>, base: int, k: int) -> Seq<ReleasedView>
    decreases k,
{
    if k <= 0 {
        Seq::empty()
    } else {
        let before = released_prefix(window, base, k - 1);
        match window[k - 1] {
            SlotView::Filled { payload, arrival, release_at } => before.push(
                ReleasedView { seq_number: circle_add(base, k - 1), payload, arrival, release_at },
            ),
            _ => before,
        }
    }
}

/// The window after a packet went into slot `d`: the slot holds `packet`, and the empty
/// slots from the former `span` up to `d` wait for their packets until `deadline`.
pub open spec fn window_after_insert(
    window: Seq<SlotView>,
    span: int,
    d: int,
    packet: SlotView,
    deadline: int,
) -> Seq<SlotView> {
    Seq::new(
        window.len(),
        |i: int|
            if i == d {
                packet
            } else if span <= i < d {
                SlotView::Missing { deadline }
            } else {
                window[i]
            },
    )
}

/// The window after the empty slots from `lo` to below `hi` were marked missing.
pub open spec fn window_after_mark(window: Seq<SlotView>, lo: int, hi: int, deadline: int) -> Seq<
    SlotView,
> {
    Seq::new(
        window.len(),
        |i: int|
            if lo <= i < hi && window[i] is Empty {
                SlotView::Missing { deadline }
            } else {
                window[i]
            },
    )
}

/// The window after the slots from `lo` to below `hi` were emptied.
pub open spec fn window_after_clear(window: Seq<SlotView>, lo: int, hi: int) -> Seq<SlotView> {
    Seq::new(
        window.len(),
        |i: int|
            if lo <= i < hi {
                SlotView::Empty
            } else {
                window[i]
            },
    )
}

/// The number of slots from `lo` to below `hi` that are not empty.
pub open spec fn occupied_count(window: Seq<SlotView>, lo: int, hi: int) -> int
    decreases hi - lo,
{
    if hi <= lo {
        0
    } else {
        occupied_count(window, lo, hi - 1) + if window[hi - 1] is Empty {
            0int
        } else {
            1int
        }
    }
}

/// Whether `e` is the place of the first slot below `span` that is marked missing, or
/// `span` where none is.
pub open spec fn is_first_missing(window: Seq<SlotView>, span: int, e: int) -> bool {
    &&& 0 <= e <= span
    &&& forall|i: int| 0 <= i < e ==> !(#[trigger] window[i] is Missing)
    &&& e < span ==> window[e] is Missing
}

/// Whether exactly the first `k` slots below `span` are empty.
pub open spec fn leading_empty(window: Seq<SlotView>, span: int, k: int) -> bool {
    &&& 0 <= k <= span
    &&& forall|i: int| 0 <= i < k ==> #[trigger] window[i] is Empty
    &&& k < span ==> !(window[k] is Empty)
}

/// `v` held between `lo` and `hi`.
pub open spec fn clamp(v: int, lo: int, hi: int) -> int {
    if v < lo {
        lo
    } else if v > hi {
        hi
    } else {
        v
    }
}

/// The time over which the acknowledged packets at the front of the window are to be
/// released: from the release of the first slot to that of the last acknowledged one,
/// where both hold packets, and zero otherwise.
pub open spec fn acknowledged_time(window: Seq<SlotView>, expected: int) -> int {
    if expected <= 0 {
        0
    } else {
        match (window[0], window[expected - 1]) {
            (
                SlotView::Filled { release_at: first, .. },
                SlotView::Filled { release_at: last, .. },
            ) => if last >= first {
                last - first
            } else {
                0
            },
            _ => 0,
        }
    }
}

/// What the arrival times of the packets in the first slots of a window add up to.
pub struct ArrivalStats {
    /// How many of the slots hold a packet.
    pub packets: int,
    /// The earliest arrival among them; zero if there is none.
    pub earliest: int,
    /// The latest arrival among them; zero if there is none.
    pub latest: int,
    /// The shortest time by which a packet arrived after the packet in the slot before
    /// it; zero if no packet arrived after such a neighbour.
    pub shortest_gap: int,
}

/// The statistics with the packet that arrived at `arrival` added; `gap` is the time by
/// which it arrived after the packet in the slot before it, or zero.
pub open spec fn arrival_step(stats: ArrivalStats, arrival: int, gap: int) -> ArrivalStats {
    ArrivalStats {
        packets: stats.packets + 1,
        earliest: if stats.packets == 0 || arrival < stats.earliest {
            arrival
        } else {
            stats.earliest
        },
        latest: if stats.packets == 0 || arrival > stats.latest {
            arrival
        } else {
            stats.latest
        },
        shortest_gap: if gap > 0 && (stats.shortest_gap == 0 || gap < stats.shortest_gap) {
            gap
        } else {
            stats.shortest_gap
        },
    }
}

/// The time by which the packet in slot `i` arrived after the one in slot `i - 1`, or
/// zero where either slot holds none or the order was the other way round.
pub open spec fn arrival_gap(window: Seq<SlotView>, i: int) -> int {
    if i <= 0 {
        0
    } else {
        match (window[i - 1], window[i]) {
            (SlotView::Filled { arrival: before, .. }, SlotView::Filled { arrival: after, .. }) => if after
                > before {
                after - before
            } else {
                0
            },
            _ => 0,
        }
    }
}

/// The arrival statistics of the first `n` slots.
pub open spec fn arrival_stats(window: Seq<SlotView>, n: int) -> ArrivalStats
    decreases n,
{
    if n <= 0 {
        ArrivalStats { packets: 0, earliest: 0, latest: 0, shortest_gap: 0 }
    } else {
        let before = arrival_stats(window, n - 1);
        match window[n - 1] {
            SlotView::Filled { arrival, .. } => arrival_step(
                before,
                arrival,
                arrival_gap(window, n - 1),
            ),
            _ => before,
        }
    }
}

/// Arrival statistics of the packets that a buffer holds.
#[derive(Clone, Copy, Debug, PartialEq, Eq)]
pub struct ArrivalSummary {
    pub packets: usize,
    pub earliest: Instant,
    pub latest: Instant,
    pub shortest_gap: Duration,
}

impl View for ArrivalSummary {
    type V = ArrivalStats;

    open spec fn view(&self) -> ArrivalStats {
        ArrivalStats {
            packets: self.packets as int,
            earliest: self.earliest@,
            latest: self.latest@,
            shortest_gap: self.shortest_gap@,
        }
    }
}

/// A fixed ring of slots for the sequence numbers from `next_release` on.
#[derive(Debug)]
pub struct ReceiveBuffer {
    slots: Vec<Slot>,
    head: usize,
    next_release: SeqNumber,
    span: usize,
    expected: usize,
    grace: Duration,
}

impl ReceiveBuffer {
    /// The ring itself is in order: a head inside it, and no more slots than a window
    /// may have.
    pub closed spec fn ring_wf(&self) -> bool {
        &&& self.slots@.len() <= MAX_CAPACITY
        &&& self.head < self.slots@.len() || (self.head == 0 && self.slots@.len() == 0)
        &&& self.span <= self.slots@.len()
        &&& self.expected <= self.span
        &&& self.next_release.wf()
    }

    /// The slots of the window, the one of `next_release` first.
    pub closed spec fn window(&self) -> Seq<SlotView> {
        Seq::new(
            self.slots@.len(),
            |i: int| self.slots@[ring_index(self.head as int, i, self.slots@.len() as int)]@,
        )
    }

    /// The next sequence number to release: the low-water mark.
    pub closed spec fn next_release(&self) -> int {
        self.next_release@
    }

    /// How many slots from the low-water mark on lie at or below the high-water mark, the
    /// highest number that was ever received or marked.
    pub closed spec fn span(&self) -> int {
        self.span as int
    }

    /// How many slots from the low-water mark on are acknowledged: the place of the first
    /// slot that is marked missing, or the span.
    pub closed spec fn expected(&self) -> int {
        self.expected as int
    }

    /// How long after its deadline a missing packet is still waited for.
    pub closed spec fn grace(&self) -> int {
        self.grace@
    }

    /// The number of slots.
    pub open spec fn cap(&self) -> int {
        self.window().len() as int
    }

    /// The slot of sequence number `seq`: the one of the window where `seq` lies in the
    /// window, and an empty one for every other number.
    pub open spec fn slot_at(&self, seq: int) -> SlotView {
        let d = circle_distance(self.next_release(), seq);
        if 0 <= d < self.cap() {
            self.window()[d]
        } else {
            SlotView::Empty
        }
    }

    /// The buffer's invariant, but for the acknowledged prefix being as long as it can be.
    pub open spec fn wf_core(&self) -> bool {
        &&& self.ring_wf()
        &&& self.cap() <= MAX_CAPACITY
        &&& on_circle(self.next_release())
        &&& 0 <= self.grace() <= u64::MAX
        &&& 0 <= self.expected() <= self.span() <= self.cap()
        &&& forall|i: int| self.span() <= i < self.cap() ==> #[trigger] self.window()[i] is Empty
        &&& forall|i: int| 0 <= i < self.expected() ==> !(#[trigger] self.window()[i] is Missing)
    }

    /// The buffer's invariant: every slot beyond the span is empty, and the acknowledged
    /// prefix ends at the first slot that is marked missing.
    pub open spec fn wf(&self) -> bool {
        &&& self.wf_core()
        &&& is_first_missing(self.window(), self.span(), self.expected())
    }

    proof fn lemma_ring(&self)
        requires
            self.ring_wf(),
        ensures
            self.cap() == self.slots@.len(),
            self.cap() <= MAX_CAPACITY,
            on_circle(self.next_release()),
            0 <= self.expected() <= self.span() <= self.cap(),
    {
    }

    /// An empty buffer of `capacity` slots, or of `MAX_CAPACITY` if that is less, whose
    /// window starts at `init_seq`. Missing packets are given up at their deadline.
    pub fn new(init_seq: SeqNumber, capacity: usize) -> (r: ReceiveBuffer)
        ensures
            r.wf(),
            r.cap() == if capacity <= MAX_CAPACITY { capacity as int } else { MAX_CAPACITY as int },
            r.next_release() == init_seq@,
            r.span() == 0,
            r.grace() == 0,
            forall|i: int| 0 <= i < r.cap() ==> #[trigger] r.window()[i] is Empty,
    {
        proof {
            use_type_invariant(&init_seq);
        }
        let cap: usize = if capacity <= MAX_CAPACITY { capacity } else { MAX_CAPACITY };
        let mut slots: Vec<Slot> = Vec::new();
        let mut i: usize = 0;
        while i < cap
            invariant
                i <= cap,
                slots@.len() == i,
                forall|j: int| 0 <= j < i ==> #[trigger] slots@[j]@ is Empty,
            decreases cap - i,
        {
            slots.push(Slot::Empty);
            i += 1;
        }
        ReceiveBuffer {
            slots,
            head: 0,
            next_release: init_seq,
            span: 0,
            expected: 0,
            grace: Duration { micros: 0 },
        }
    }

    /// Sets how long after its deadline a missing packet is still waited for.
    pub fn set_drop_grace(&mut self, grace: Duration)
        requires
            old(self).wf(),
        ensures
            final(self).wf(),
            final(self).grace() == grace@,
            final(self).window() == old(self).window(),
            final(self).next_release() == old(self).next_release(),
            final(self).span() == old(self).span(),
            final(self).expected() == old(self).expected(),
    {
        self.grace = grace;
    }

    fn slot(&self, offset: usize) -> (r: &Slot)
        requires
            self.ring_wf(),
            offset < self.cap(),
        ensures
            r@ == self.window()[offset as int],
    {
        let sum: usize = self.head + offset;
        let index: usize = if sum >= self.slots.len() { sum - self.slots.len() } else { sum };
        &self.slots[index]
    }

    /// Puts `slot` at `offset` and hands back what was there.
    fn replace(&mut self, offset: usize, slot: Slot) -> (r: Slot)
        requires
            old(self).ring_wf(),
            offset < old(self).cap(),
        ensures
            final(self).ring_wf(),
            r@ == old(self).window()[offset as int],
            final(self).window() == old(self).window().update(offset as int, slot@),
            final(self).next_release() == old(self).next_release(),
            final(self).span() == old(self).span(),
            final(self).expected() == old(self).expected(),
            final(self).grace() == old(self).grace(),
    {
        let sum: usize = self.head + offset;
        let index: usize = if sum >= self.slots.len() { sum - self.slots.len() } else { sum };
        let mut held: Slot = slot;
        std::mem::swap(&mut self.slots[index], &mut held);
        proof {
            assert(self.window() =~= old(self).window().update(offset as int, slot@));
        }
        held
    }

    /// Moves the end of the acknowledged prefix forward to the first missing slot.
    fn extend_expected(&mut self)
        requires
            old(self).wf_core(),
        ensures
            final(self).wf(),
            final(self).window() == old(self).window(),
            final(self).next_release() == old(self).next_release(),
            final(self).span() == old(self).span(),
            final(self).grace() == old(self).grace(),
    {
        let mut blocked: bool = false;
        while self.expected < self.span && !blocked
            invariant
                self.wf_core(),
                self.window() == old(self).window(),
                self.next_release() == old(self).next_release(),
                self.span() == old(self).span(),
                self.grace() == old(self).grace(),
                blocked ==> self.expected() < self.span() && self.window()[self.expected()] is Missing,
            decreases self.span - self.expected + if blocked { 0int } else { 1int },
        {
            let missing: bool = match self.slot(self.expected) {
                Slot::Missing { .. } => true,
                _ => false,
            };
            if missing {
                blocked = true;
            } else {
                self.expected = self.expected + 1;
            }
        }
    }

    /// Moves the window `k` slots forward, past slots that are empty.
    fn rotate(&mut self, k: usize)
        requires
            old(self).ring_wf(),
            k <= old(self).span(),
            forall|i: int| 0 <= i < k ==> #[trigger] old(self).window()[i] is Empty,
        ensures
            final(self).ring_wf(),
            final(self).window() == shifted(old(self).window(), k as int),
            final(self).next_release() == circle_add(old(self).next_release(), k as int),
            final(self).span() == old(self).span() - k,
            final(self).expected() == if old(self).expected() >= k {
                old(self).expected() - k
            } else {
                0
            },
            final(self).grace() == old(self).grace(),
    {
        if k > 0 {
            let sum: usize = self.head + k;
            self.head = if sum >= self.slots.len() { sum - self.slots.len() } else { sum };
            self.next_release = self.next_release.add(k as u32);
            self.span = self.span - k;
            self.expected = if self.expected >= k { self.expected - k } else { 0 };
        }
        proof {
            lemma_circle_bounds(old(self).next_release(), k as int);
            crate::seq_number::lemma_distance_zero(old(self).next_release(), old(self).next_release());
            let cap = self.slots@.len() as int;
            let was = old(self).window();
            assert(was.len() == cap);
            assert forall|i: int| 0 <= i < cap implies self.window()[i] == shifted(was, k as int)[i] by {
                let at = ring_index(self.head as int, i, cap);
                if i + k < cap {
                    assert(at == ring_index(old(self).head as int, i + k, cap));
                    assert(was[i + k] == old(self).slots@[at]@);
                } else {
                    assert(at == ring_index(old(self).head as int, i + k - cap, cap));
                    assert(was[i + k - cap] == old(self).slots@[at]@);
                    assert(was[i + k - cap] is Empty);
                }
            }
            assert(self.window() =~= shifted(old(self).window(), k as int));
        }
    }

    /// Marks the empty slots from `lo` to below `hi` as missing.
    fn mark_between(&mut self, lo: usize, hi: usize, deadline: Instant)
        requires
            old(self).ring_wf(),
            lo <= hi <= old(self).cap(),
        ensures
            final(self).ring_wf(),
            final(self).cap() == old(self).cap(),
            final(self).window() == window_after_mark(
                old(self).window(),
                lo as int,
                hi as int,
                deadline@,
            ),
            final(self).next_release() == old(self).next_release(),
            final(self).span() == old(self).span(),
            final(self).expected() == old(self).expected(),
            final(self).grace() == old(self).grace(),
    {
        let mut i: usize = lo;
        proof {
            assert(self.window() =~= window_after_mark(old(self).window(), lo as int, lo as int, deadline@));
        }
        while i < hi
            invariant
                lo <= i <= hi,
                hi <= self.cap(),
                self.ring_wf(),
                self.cap() == old(self).cap(),
                self.window() == window_after_mark(old(self).window(), lo as int, i as int, deadline@),
                self.next_release() == old(self).next_release(),
                self.span() == old(self).span(),
                self.expected() == old(self).expected(),
                self.grace() == old(self).grace(),
            decreases hi - i,
        {
            let empty: bool = match self.slot(i) {
                Slot::Empty => true,
                _ => false,
            };
            if empty {
                let _ = self.replace(i, Slot::Missing { deadline });
            }
            proof {
                assert(self.window() =~= window_after_mark(
                    old(self).window(),
                    lo as int,
                    i + 1,
                    deadline@,
                ));
            }
            i += 1;
        }
    }

    /// What `insert` makes of the buffer `before`: the buffer `after` and the result.
    pub open spec fn inserted(
        before: Self,
        after: Self,
        clock: &Clock,
        seq: SeqNumber,
        payload: Vec<u8>,
        arrival: Instant,
        peer_ts: TimeStamp,
        r: Result<Inserted, BufferError>,
    ) -> bool {
        &&& after.wf()
        &&& after.cap() == before.cap()
        &&& after.grace() == before.grace()
        &&& after.next_release() == before.next_release()
        &&& ({
            let d = circle_distance(before.next_release(), seq@);
            let cap = before.cap();
            match r {
                Err(BufferError::PacketTooLate { seq_number, seq_number_0 }) => {
                    &&& d < 0
                    &&& seq_number == seq
                    &&& seq_number_0@ == before.next_release()
                    &&& after == before
                },
                Err(BufferError::BufferFull { seq_number, buffer_size }) => {
                    &&& d == cap
                    &&& cap > 0
                    &&& before.window()[0] is Filled
                    &&& seq_number == seq
                    &&& buffer_size == cap
                    &&& after == before
                },
                Err(
                    BufferError::PacketTooEarly { seq_number, buffer_available, buffer_required },
                ) => {
                    &&& d >= cap
                    &&& !(d == cap && cap > 0 && before.window()[0] is Filled)
                    &&& seq_number == seq
                    &&& buffer_available == cap - before.span()
                    &&& buffer_required == d - cap + 1
                    &&& after == before
                },
                Err(BufferError::DiscardedDuplicate { seq_number }) => {
                    &&& 0 <= d < cap
                    &&& before.window()[d] is Filled
                    &&& seq_number == seq
                    &&& after == before
                },
                Ok(inserted) => {
                    &&& 0 <= d < cap
                    &&& !(before.window()[d] is Filled)
                    &&& after.window() == window_after_insert(
                        before.window(),
                        before.span(),
                        d,
                        SlotView::Filled {
                            payload: payload@,
                            arrival: arrival@,
                            release_at: clock.release_time(peer_ts@),
                        },
                        clock.release_time(peer_ts@),
                    )
                    &&& after.span() == if d >= before.span() {
                        d + 1
                    } else {
                        before.span()
                    }
                    &&& inserted.recovered == (before.window()[d] is Missing)
                    &&& inserted.gap.is_some() == (d > before.span())
                    &&& d > before.span() ==> inserted.gap.unwrap()@ == (
                        circle_add(before.next_release(), before.span()),
                        circle_add(before.next_release(), d - 1),
                    )
                },
            }
        })
    }

    /// Takes the packet numbered `seq`, stamped `peer_ts` by the peer, that arrived at `arrival`.
    ///
    /// With `d` the distance from the low-water mark to `seq`:
    /// a packet before the window is too late; one beyond it is too early, unless it is
    /// exactly one window ahead while the first slot still holds data, which is a full
    /// buffer; one whose slot is filled is a duplicate. In all these cases nothing changes.
    /// Any other packet fills its slot, with the release time that `clock` gives for
    /// `peer_ts`; the slots between the former high-water mark and the packet are marked
    /// missing, to be waited for until that same time.
    pub fn insert(
        &mut self,
        clock: &Clock,
        seq: SeqNumber,
        payload: Vec<u8>,
        arrival: Instant,
        peer_ts: TimeStamp,
    ) -> (r: Result<Inserted, BufferError>)
        requires
            old(self).wf(),
        ensures
            Self::inserted(*old(self), *final(self), clock, seq, payload, arrival, peer_ts, r),
    {
        proof {
            use_type_invariant(&seq);
            self.lemma_ring();
        }
        let cap: usize = self.slots.len();
        let d: i32 = self.next_release.distance(seq);
        if d < 0 {
            return Err(BufferError::PacketTooLate { seq_number: seq, seq_number_0: self.next_release });
        }
        let offset: usize = d as usize;
        if offset >= cap {
            let full: bool = offset == cap && cap > 0 && match self.slot(0) {
                Slot::Filled { .. } => true,
                _ => false,
            };
            if full {
                return Err(BufferError::BufferFull { seq_number: seq, buffer_size: cap });
            }
            return Err(
                BufferError::PacketTooEarly {
                    seq_number: seq,
                    buffer_available: cap - self.span,
                    buffer_required: offset - cap + 1,
                },
            );
        }
        let (filled, missing): (bool, bool) = match self.slot(offset) {
            Slot::Filled { .. } => (true, false),
            Slot::Missing { .. } => (false, true),
            Slot::Empty => (false, false),
        };
        if filled {
            return Err(BufferError::DiscardedDuplicate { seq_number: seq });
        }
        let release_at: Instant = clock.tsbpd_release(peer_ts);
        let gap: Option<SeqRange> = if offset > self.span {
            proof {
                crate::seq_number::lemma_add_of_distance(self.next_release(), seq@);
                lemma_add_add(self.next_release(), d as int, -1);
            }
            Some(SeqRange { first: self.next_release.add(self.span as u32), last: seq.sub(1) })
        } else {
            None
        };
        if offset >= self.span {
            self.mark_between(self.span, offset, release_at);
            proof {
                self.lemma_ring();
            }
            self.span = offset + 1;
        }
        let _ = self.replace(offset, Slot::Filled { payload, arrival, release_at });
        proof {
            assert(self.window() =~= window_after_insert(
                old(self).window(),
                old(self).span(),
                d as int,
                SlotView::Filled {
                    payload: payload@,
                    arrival: arrival@,
                    release_at: clock.release_time(peer_ts@),
                },
                clock.release_time(peer_ts@),
            ));
        }
        self.extend_expected();
        Ok(Inserted { recovered: missing, gap })
    }

    /// Releases what is due at `now`: from the low-water mark on, every packet whose release
    /// time has come, passing the slots that were given up and the missing ones whose
    /// deadline lies more than the grace back, up to the first slot that has to wait or to
    /// the high-water mark. The window moves past the slots so passed, and the packets
    /// among them are handed out in order.
    pub fn pop_ready(&mut self, now: Instant) -> (out: Vec<Released>)
        requires
            old(self).wf(),
        ensures
            final(self).wf(),
            final(self).cap() == old(self).cap(),
            final(self).grace() == old(self).grace(),
            ({
                let k = old(self).span() - final(self).span();
                &&& release_count(old(self).window(), old(self).span(), now@, old(self).grace(), k)
                &&& final(self).next_release() == circle_add(old(self).next_release(), k)
                &&& final(self).window() == shifted(old(self).window(), k)
                &&& released_views(out@) == released_prefix(
                    old(self).window(),
                    old(self).next_release(),
                    k,
                )
            }),
            forall|i: int| 0 <= i < out@.len() ==> (#[trigger] out@[i]).release_at@ <= now@,
            circle_distance(old(self).next_release(), final(self).next_release()) == old(self).span() - final(self).span(),
    {
        proof {
            self.lemma_ring();
        }
        let ghost start = self.window();
        let ghost base = self.next_release();
        let mut out: Vec<Released> = Vec::new();
        let mut passed: usize = 0;
        let mut blocked: bool = false;
        proof {
            assert(self.window() =~= window_after_clear(start, 0, 0));
            assert(released_views(out@) =~= released_prefix(start, base, 0));
        }
        while passed < self.span && !blocked
            invariant
                self.ring_wf(),
                passed <= self.span(),
                self.cap() == old(self).cap(),
                self.span() == old(self).span(),
                self.expected() == old(self).expected(),
                self.grace() == old(self).grace(),
                self.next_release() == base,
                start == old(self).window(),
                self.window() == window_after_clear(start, 0, passed as int),
                forall|i: int| 0 <= i < passed ==> releasable(#[trigger] start[i], now@, self.grace()),
                blocked ==> passed < self.span() && !releasable(start[passed as int], now@, self.grace()),
                released_views(out@) == released_prefix(start, base, passed as int),
                forall|i: int| 0 <= i < out@.len() ==> (#[trigger] out@[i]).release_at@ <= now@,
            decreases self.span - passed + if blocked { 0int } else { 1int },
        {
            let due: bool = match self.slot(passed) {
                Slot::Empty => true,
                Slot::Missing { deadline } => now.micros as u128 > deadline.micros as u128
                    + self.grace.micros as u128,
                Slot::Filled { release_at, .. } => release_at.micros <= now.micros,
            };
            if !due {
                blocked = true;
            } else {
                let taken: Slot = self.replace(passed, Slot::Empty);
                let ghost before = out@;
                match taken {
                    Slot::Filled { payload, arrival, release_at } => {
                        out.push(
                            Released {
                                seq_number: self.next_release.add(passed as u32),
                                payload,
                                arrival,
                                release_at,
                            },
                        );
                        proof {
                            assert(released_views(out@) =~= released_views(before).push(
                                out@[before.len() as int]@,
                            ));
                        }
                    },
                    _ => {},
                }
                proof {
                    assert(self.window() =~= window_after_clear(start, 0, passed + 1));
                }
                passed = passed + 1;
            }
        }
        self.rotate(passed);
        proof {
            assert(self.window() =~= shifted(start, passed as int));
            lemma_distance_of_add(base, passed as int);
        }
        self.extend_expected();
        out
    }

    /// Marks as missing, to be waited for until `deadline`, the empty slots of the numbers
    /// from `first` through `last` that lie in the window. The high-water mark rises to
    /// the last of them.
    pub fn mark_missing(&mut self, first: SeqNumber, last: SeqNumber, deadline: Instant)
        requires
            old(self).wf(),
        ensures
            final(self).wf(),
            final(self).cap() == old(self).cap(),
            final(self).grace() == old(self).grace(),
            final(self).next_release() == old(self).next_release(),
            ({
                let lo = clamp(
                    circle_distance(old(self).next_release(), first@),
                    0,
                    old(self).cap(),
                );
                let hi = clamp(
                    circle_distance(old(self).next_release(), last@) + 1,
                    0,
                    old(self).cap(),
                );
                if lo < hi {
                    &&& final(self).window() == window_after_mark(
                        old(self).window(),
                        lo,
                        hi,
                        deadline@,
                    )
                    &&& final(self).span() == if hi > old(self).span() {
                        hi
                    } else {
                        old(self).span()
                    }
                } else {
                    &&& final(self).window() == old(self).window()
                    &&& final(self).span() == old(self).span()
                }
            }),
    {
        proof {
            self.lemma_ring();
        }
        let cap: usize = self.slots.len();
        let a: i32 = self.next_release.distance(first);
        let b: i32 = self.next_release.distance(last);
        let lo: usize = if a < 0 {
            0
        } else if a as usize > cap {
            cap
        } else {
            a as usize
        };
        let hi: usize = if b < 0 {
            0
        } else if b as usize >= cap {
            cap
        } else {
            b as usize + 1
        };
        if lo < hi {
            self.mark_between(lo, hi, deadline);
            proof {
                self.lemma_ring();
            }
            if hi > self.span {
                self.span = hi;
            }
            if lo < self.expected {
                self.expected = lo;
            }
            self.extend_expected();
        }
    }

    /// Gives up the numbers from `first` to just before `end` that lie in the window: their
    /// slots become empty, and the low-water mark moves past the empty slots that then
    /// stand at the front of the window, below the high-water mark. Hands back how many of
    /// the slots held a packet or were marked missing.
    #[verifier::loop_isolation(false)]
    pub fn drop_range(&mut self, first: SeqNumber, end: SeqNumber) -> (dropped: usize)
        requires
            old(self).wf(),
        ensures
            final(self).wf(),
            final(self).cap() == old(self).cap(),
            final(self).grace() == old(self).grace(),
            ({
                let lo = clamp(
                    circle_distance(old(self).next_release(), first@),
                    0,
                    old(self).cap(),
                );
                let hi = clamp(
                    circle_distance(old(self).next_release(), end@),
                    0,
                    old(self).cap(),
                );
                let cleared = window_after_clear(old(self).window(), lo, hi);
                let k = old(self).span() - final(self).span();
                &&& dropped == occupied_count(old(self).window(), lo, hi)
                &&& leading_empty(cleared, old(self).span(), k)
                &&& final(self).window() == shifted(cleared, k)
                &&& final(self).next_release() == circle_add(old(self).next_release(), k)
            }),
    {
        proof {
            self.lemma_ring();
        }
        let ghost start = self.window();
        let cap: usize = self.slots.len();
        let a: i32 = self.next_release.distance(first);
        let b: i32 = self.next_release.distance(end);
        let lo: usize = if a < 0 {
            0
        } else if a as usize > cap {
            cap
        } else {
            a as usize
        };
        let hi: usize = if b < 0 {
            0
        } else if b as usize > cap {
            cap
        } else {
            b as usize
        };
        let mut dropped: usize = 0;
        let mut i: usize = lo;
        proof {
            assert(self.window() =~= window_after_clear(start, lo as int, lo as int));
        }
        while i < hi
            invariant
                lo <= i,
                i <= hi || (hi < lo && i == lo),
                hi <= cap,
                cap == self.cap(),
                self.wf_core(),
                self.cap() == old(self).cap(),
                self.span() == old(self).span(),
                self.grace() == old(self).grace(),
                self.next_release() == old(self).next_release(),
                start == old(self).window(),
                self.window() == window_after_clear(start, lo as int, i as int),
                dropped == occupied_count(start, lo as int, i as int),
                dropped <= i - lo,
            decreases hi - i,
        {
            let taken: Slot = self.replace(i, Slot::Empty);
            match taken {
                Slot::Empty => {},
                _ => {
                    dropped = dropped + 1;
                },
            }
            proof {
                assert(self.window() =~= window_after_clear(start, lo as int, i + 1));
            }
            i += 1;
        }
        proof {
            if hi < lo {
                assert(window_after_clear(start, lo as int, lo as int) =~= window_after_clear(
                    start,
                    lo as int,
                    hi as int,
                ));
            }
        }
        let ghost cleared = self.window();
        let mut passed: usize = 0;
        let mut blocked: bool = false;
        while passed < self.span && !blocked
            invariant
                self.wf_core(),
                passed <= self.span(),
                self.window() == cleared,
                self.cap() == old(self).cap(),
                self.span() == old(self).span(),
                self.grace() == old(self).grace(),
                self.next_release() == old(self).next_release(),
                forall|j: int| 0 <= j < passed ==> #[trigger] cleared[j] is Empty,
                blocked ==> passed < self.span() && !(cleared[passed as int] is Empty),
            decreases self.span - passed + if blocked { 0int } else { 1int },
        {
            let empty: bool = match self.slot(passed) {
                Slot::Empty => true,
                _ => false,
            };
            if empty {
                passed = passed + 1;
            } else {
                blocked = true;
            }
        }
        self.rotate(passed);
        self.extend_expected();
        dropped
    }

    /// Empties every slot. The low-water mark stays where it is.
    pub fn clear(&mut self)
        requires
            old(self).wf(),
        ensures
            final(self).wf(),
            final(self).cap() == old(self).cap(),
            final(self).grace() == old(self).grace(),
            final(self).next_release() == old(self).next_release(),
            final(self).span() == 0,
            forall|i: int| 0 <= i < final(self).cap() ==> #[trigger] final(self).window()[i] is Empty,
    {
        proof {
            self.lemma_ring();
        }
        let cap: usize = self.slots.len();
        self.span = 0;
        self.expected = 0;
        let mut i: usize = 0;
        while i < cap
            invariant
                i <= cap,
                cap == self.cap(),
                self.ring_wf(),
                self.cap() == old(self).cap(),
                self.span() == 0,
                self.expected() == 0,
                self.grace() == old(self).grace(),
                self.next_release() == old(self).next_release(),
                forall|j: int| 0 <= j < i ==> #[trigger] self.window()[j] is Empty,
            decreases cap - i,
        {
            let _ = self.replace(i, Slot::Empty);
            i += 1;
        }
    }

    /// Whether the buffer holds no packet.
    pub fn is_flushed(&self) -> (r: bool)
        requires
            self.wf(),
        ensures
            r == forall|i: int| 0 <= i < self.cap() ==> !(#[trigger] self.window()[i] is Filled),
    {
        let mut i: usize = 0;
        while i < self.span
            invariant
                self.wf(),
                i <= self.span(),
                forall|j: int| 0 <= j < i ==> !(#[trigger] self.window()[j] is Filled),
            decreases self.span - i,
        {
            let filled: bool = match self.slot(i) {
                Slot::Filled { .. } => true,
                _ => false,
            };
            if filled {
                return false;
            }
            i += 1;
        }
        true
    }

    /// The number of slots.
    pub fn capacity(&self) -> (r: usize)
        requires
            self.wf(),
        ensures
            r == self.cap(),
    {
        self.slots.len()
    }

    /// The number of slots beyond the high-water mark.
    pub fn available(&self) -> (r: usize)
        requires
            self.wf(),
        ensures
            r == self.cap() - self.span(),
    {
        self.slots.len() - self.span
    }

    /// The next sequence number to release: the low-water mark.
    pub fn next_release_seq(&self) -> (r: SeqNumber)
        ensures
            r@ == self.next_release(),
    {
        self.next_release
    }

    /// The first sequence number that is not acknowledged: the number of the first slot
    /// that is marked missing, or the one after the high-water mark.
    pub fn next_expected_seq(&self) -> (r: SeqNumber)
        requires
            self.wf(),
        ensures
            r@ == circle_add(self.next_release(), self.expected()),
    {
        self.next_release.add(self.expected as u32)
    }

    /// The time over which the acknowledged packets at the front of the window are to be
    /// released.
    pub fn rx_acknowledged_time(&self) -> (r: Duration)
        requires
            self.wf(),
        ensures
            r@ == acknowledged_time(self.window(), self.expected()),
    {
        if self.expected == 0 {
            return Duration { micros: 0 };
        }
        let first: Option<Instant> = match self.slot(0) {
            Slot::Filled { release_at, .. } => Some(*release_at),
            _ => None,
        };
        let last: Option<Instant> = match self.slot(self.expected - 1) {
            Slot::Filled { release_at, .. } => Some(*release_at),
            _ => None,
        };
        match (first, last) {
            (Some(first), Some(last)) => last.saturating_since(first),
            _ => Duration { micros: 0 },
        }
    }

    /// Arrival statistics of the packets that the buffer holds.
    pub fn arrival_summary(&self) -> (r: ArrivalSummary)
        requires
            self.wf(),
        ensures
            r@ == arrival_stats(self.window(), self.span()),
    {
        let mut summary = ArrivalSummary {
            packets: 0,
            earliest: Instant { micros: 0 },
            latest: Instant { micros: 0 },
            shortest_gap: Duration { micros: 0 },
        };
        let mut before: Option<Instant> = None;
        let mut i: usize = 0;
        while i < self.span
            invariant
                self.wf(),
                i <= self.span(),
                summary@ == arrival_stats(self.window(), i as int),
                summary.packets <= i,
                match before {
                    Some(at) => i > 0 && (self.window()[i - 1] matches SlotView::Filled {
                        arrival,
                        ..
                    } && arrival == at@),
                    None => i == 0 || !(self.window()[i - 1] is Filled),
                },
            decreases self.span - i,
        {
            let here: Option<Instant> = match self.slot(i) {
                Slot::Filled { arrival, .. } => Some(*arrival),
                _ => None,
            };
            match here {
                Some(arrival) => {
                    let gap: u64 = match before {
                        Some(at) => if arrival.micros > at.micros {
                            arrival.micros - at.micros
                        } else {
                            0
                        },
                        None => 0,
                    };
                    assert(gap == arrival_gap(self.window(), i as int));
                    if summary.packets == 0 || arrival.micros < summary.earliest.micros {
                        summary.earliest = arrival;
                    }
                    if summary.packets == 0 || arrival.micros > summary.latest.micros {
                        summary.latest = arrival;
                    }
                    if gap > 0 && (summary.shortest_gap.micros == 0 || gap
                        < summary.shortest_gap.micros) {
                        summary.shortest_gap = Duration { micros: gap };
                    }
                    summary.packets = summary.packets + 1;
                },
                None => {},
            }
            before = here;
            i += 1;
        }
        summary
    }

    /// No slot belongs to a number before the low-water mark.
    pub proof fn lemma_nothing_before_low_water(&self, seq: int)
        requires
            circle_distance(self.next_release(), seq) < 0,
        ensures
            self.slot_at(seq) is Empty,
    {
    }

    /// A slot holds a packet only for a number of the window: one at or after the
    /// low-water mark and less than the capacity ahead of it.
    pub proof fn lemma_filled_in_window(&self, seq: int)
        requires
            self.slot_at(seq) is Filled,
        ensures
            0 <= circle_distance(self.next_release(), seq) < self.cap(),
    {
    }

    /// A packet that was accepted is refused as a duplicate when it comes again, and the
    /// buffer stays as it is: no packet is held, or released, twice.
    pub proof fn lemma_second_insert_is_duplicate(
        before: Self,
        between: Self,
        after: Self,
        clock: &Clock,
        seq: SeqNumber,
        payload: Vec<u8>,
        arrival: Instant,
        peer_ts: TimeStamp,
        first: Result<Inserted, BufferError>,
        second: Result<Inserted, BufferError>,
    )
        requires
            before.wf(),
            seq.wf(),
            Self::inserted(before, between, clock, seq, payload, arrival, peer_ts, first),
            Self::inserted(between, after, clock, seq, payload, arrival, peer_ts, second),
            first.is_ok(),
        ensures
            second == Err::<Inserted, BufferError>(BufferError::DiscardedDuplicate { seq_number: seq }),
            after == between,
    {
    }
}

} // verus!
