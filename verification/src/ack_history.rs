//! The full acknowledgements that were sent and not yet confirmed.

use crate::seq_number::SeqNumber;
use crate::time::Instant;
use std::collections::VecDeque;
use vstd::prelude::*;

verus! {

/// How many full acknowledgements a history keeps unless told otherwise.
pub const DEFAULT_ACK_HISTORY_SIZE: usize = 64;

/// The number that a full acknowledgement carries and its confirmation repeats.
#[derive(Clone, Copy, Debug, PartialEq, Eq, Hash, Structural)]
pub struct FullAckSeqNumber(pub u32);

/// One full acknowledgement that was sent.
#[derive(Clone, Copy, Debug, PartialEq, Eq, Structural)]
pub struct AckEntry {
    pub full_ack_seq: FullAckSeqNumber,
    /// The sequence number up to which it acknowledged.
    pub highest_acked: SeqNumber,
    pub sent_at: Instant,
}

/// The place of the first entry numbered `seq`, or the length where there is none.
pub open spec fn position(entries: Seq<AckEntry>, seq: FullAckSeqNumber) -> int
    decreases entries.len(),
{
    if entries.len() == 0 {
        0
    } else if entries[0].full_ack_seq == seq {
        0
    } else {
        1 + position(entries.drop_first(), seq)
    }
}

/// The entries without the first one numbered `seq`.
pub open spec fn without(entries: Seq<AckEntry>, seq: FullAckSeqNumber) -> Seq<AckEntry> {
    if position(entries, seq) < entries.len() {
        entries.remove(position(entries, seq))
    } else {
        entries
    }
}

/// The entries after `entry` was recorded in a history of `capacity` places: no older
/// entry has its number, and the oldest entry left where there was no room.
pub open spec fn recorded(entries: Seq<AckEntry>, capacity: int, entry: AckEntry) -> Seq<AckEntry> {
    let others = without(entries, entry.full_ack_seq);
    if capacity <= 0 {
        others
    } else if others.len() >= capacity {
        others.drop_first().push(entry)
    } else {
        others.push(entry)
    }
}

/// No two entries have the same number.
pub open spec fn distinct(entries: Seq<AckEntry>) -> bool {
    forall|i: int, j: int|
        0 <= i < j < entries.len() ==> (#[trigger] entries[i]).full_ack_seq != (
        #[trigger] entries[j]).full_ack_seq
}

/// Whether no entry is numbered `seq`.
pub open spec fn absent(entries: Seq<AckEntry>, seq: FullAckSeqNumber) -> bool {
    forall|i: int| 0 <= i < entries.len() ==> (#[trigger] entries[i]).full_ack_seq != seq
}

/// The place of the first entry numbered `seq` is the one before which no entry has
/// the number and at which one has it, if it is a place at all.
pub proof fn lemma_position(entries: Seq<AckEntry>, seq: FullAckSeqNumber, i: int)
    requires
        0 <= i <= entries.len(),
        forall|j: int| 0 <= j < i ==> (#[trigger] entries[j]).full_ack_seq != seq,
        i < entries.len() ==> entries[i].full_ack_seq == seq,
    ensures
        position(entries, seq) == i,
    decreases entries.len(),
{
    if entries.len() > 0 && i > 0 {
        let tail = entries.drop_first();
        assert(entries[0].full_ack_seq != seq);
        assert forall|j: int| 0 <= j < i - 1 implies (#[trigger] tail[j]).full_ack_seq != seq by {
            assert(tail[j] == entries[j + 1]);
        }
        lemma_position(tail, seq, i - 1);
    }
}

/// Among distinct entries, none is numbered `seq` once the first such entry is gone.
pub proof fn lemma_without(entries: Seq<AckEntry>, seq: FullAckSeqNumber)
    requires
        distinct(entries),
    ensures
        distinct(without(entries, seq)),
        absent(without(entries, seq), seq),
        0 <= position(entries, seq) <= entries.len(),
        position(entries, seq) < entries.len() ==> entries[position(entries, seq)].full_ack_seq == seq,
        position(entries, seq) == entries.len() ==> absent(entries, seq),
    decreases entries.len(),
{
    if entries.len() > 0 {
        let tail = entries.drop_first();
        assert forall|i: int, j: int| 0 <= i < j < tail.len() implies (#[trigger] tail[i]).full_ack_seq
            != (#[trigger] tail[j]).full_ack_seq by {
            assert(tail[i] == entries[i + 1]);
            assert(tail[j] == entries[j + 1]);
        }
        lemma_without(tail, seq);
        let p = position(entries, seq);
        let out = without(entries, seq);
        if entries[0].full_ack_seq == seq {
            assert(out =~= tail);
            assert forall|i: int| 0 <= i < out.len() implies (#[trigger] out[i]).full_ack_seq
                != seq by {
                assert(out[i] == entries[i + 1]);
            }
        } else {
            assert(p == 1 + position(tail, seq));
            if p < entries.len() {
                assert(entries[p] == tail[p - 1]);
                assert forall|i: int| 0 <= i < out.len() implies (#[trigger] out[i]).full_ack_seq
                    != seq by {
                    if i < p {
                        if i > 0 {
                            assert(out[i] == tail[i - 1]);
                            assert(tail[i - 1].full_ack_seq != tail[p - 1].full_ack_seq);
                        }
                    } else {
                        assert(out[i] == tail[i]);
                        assert(tail[p - 1].full_ack_seq != tail[i].full_ack_seq);
                    }
                }
                assert forall|i: int, j: int| 0 <= i < j < out.len() implies (
                #[trigger] out[i]).full_ack_seq != (#[trigger] out[j]).full_ack_seq by {
                    let a = if i < p { i } else { i + 1 };
                    let b = if j < p { j } else { j + 1 };
                    assert(out[i] == entries[a]);
                    assert(out[j] == entries[b]);
                }
            } else {
                assert forall|i: int| 0 <= i < entries.len() implies (
                #[trigger] entries[i]).full_ack_seq != seq by {
                    if i > 0 {
                        assert(entries[i] == tail[i - 1]);
                    }
                }
            }
        }
    }
}

/// A bounded record of the full acknowledgements that were sent, oldest first.
#[derive(Debug)]
pub struct AckHistory {
    entries: VecDeque<AckEntry>,
    capacity: usize,
}

impl AckHistory {
    /// The entries, oldest first.
    pub closed spec fn entries(&self) -> Seq<AckEntry> {
        self.entries@
    }

    /// The number of entries that the history keeps at most.
    pub closed spec fn capacity(&self) -> int {
        self.capacity as int
    }

    /// The history keeps no more entries than it has room for, and no two with the
    /// same number.
    pub open spec fn wf(&self) -> bool {
        &&& self.entries().len() <= self.capacity() <= usize::MAX
        &&& distinct(self.entries())
    }

    /// An empty history with room for `capacity` entries.
    pub fn new(capacity: usize) -> (r: AckHistory)
        ensures
            r.wf(),
            r.capacity() == capacity,
            r.entries() == Seq::<AckEntry>::empty(),
    {
        AckHistory { entries: VecDeque::new(), capacity }
    }

    pub fn len(&self) -> (r: usize)
        ensures
            r == self.entries().len(),
    {
        self.entries.len()
    }

    /// The place of the first entry numbered `seq`, or the length where there is none.
    fn find(&self, seq: FullAckSeqNumber) -> (i: usize)
        ensures
            i == position(self.entries(), seq),
            i <= self.entries().len(),
    {
        let mut i: usize = 0;
        while i < self.entries.len() && self.entries[i].full_ack_seq.0 != seq.0
            invariant
                i <= self.entries@.len(),
                forall|j: int| 0 <= j < i ==> (#[trigger] self.entries@[j]).full_ack_seq != seq,
            decreases self.entries.len() - i,
        {
            i += 1;
        }
        proof {
            lemma_position(self.entries@, seq, i as int);
        }
        i
    }

    /// Records that the full acknowledgement numbered `full_ack_seq`, which acknowledges
    /// up to `highest_acked`, was sent at `now`. An older entry with the same number is
    /// dropped, and so is the oldest entry where the history is full.
    pub fn record(&mut self, full_ack_seq: FullAckSeqNumber, highest_acked: SeqNumber, now: Instant)
        requires
            old(self).wf(),
        ensures
            final(self).wf(),
            final(self).capacity() == old(self).capacity(),
            final(self).entries() == recorded(
                old(self).entries(),
                old(self).capacity(),
                AckEntry { full_ack_seq, highest_acked, sent_at: now },
            ),
    {
        let entry = AckEntry { full_ack_seq, highest_acked, sent_at: now };
        proof {
            lemma_without(self.entries@, full_ack_seq);
        }
        let at: usize = self.find(full_ack_seq);
        if at < self.entries.len() {
            let _ = self.entries.remove(at);
        }
        let ghost others = self.entries@;
        if self.capacity == 0 {
            return ;
        }
        if self.entries.len() >= self.capacity {
            let _ = self.entries.pop_front();
        }
        let ghost kept = self.entries@;
        self.entries.push_back(entry);
        proof {
            assert(kept =~= if others.len() >= self.capacity {
                others.drop_first()
            } else {
                others
            });
            assert forall|i: int, j: int| 0 <= i < j < self.entries@.len() implies (
            #[trigger] self.entries@[i]).full_ack_seq != (#[trigger] self.entries@[j]).full_ack_seq by {
                let shift = if others.len() >= self.capacity { 1int } else { 0int };
                assert(self.entries@[i] == others[i + shift]);
                if j < kept.len() {
                    assert(self.entries@[j] == others[j + shift]);
                }
            }
        }
    }

    /// The time at which the full acknowledgement numbered `full_ack_seq` was sent, if
    /// the history holds it. The entry leaves the history: a second confirmation of the
    /// same acknowledgement finds nothing.
    pub fn lookup(&mut self, full_ack_seq: FullAckSeqNumber) -> (r: Option<Instant>)
        requires
            old(self).wf(),
        ensures
            final(self).wf(),
            final(self).capacity() == old(self).capacity(),
            final(self).entries() == without(old(self).entries(), full_ack_seq),
            absent(final(self).entries(), full_ack_seq),
            match r {
                Some(sent_at) => {
                    &&& position(old(self).entries(), full_ack_seq) < old(self).entries().len()
                    &&& sent_at == old(self).entries()[position(
                        old(self).entries(),
                        full_ack_seq,
                    )].sent_at
                },
                None => absent(old(self).entries(), full_ack_seq),
            },
    {
        proof {
            lemma_without(self.entries@, full_ack_seq);
        }
        let at: usize = self.find(full_ack_seq);
        if at < self.entries.len() {
            match self.entries.remove(at) {
                Some(entry) => Some(entry.sent_at),
                None => None,
            }
        } else {
            None
        }
    }

    /// Forgets every entry.
    pub fn clear(&mut self)
        ensures
            final(self).wf(),
            final(self).capacity() == old(self).capacity(),
            final(self).entries() == Seq::<AckEntry>::empty(),
    {
        self.entries.clear();
    }
}

} // verus!
