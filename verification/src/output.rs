//! The control packets that wait to be sent.

use crate::packet::{ControlTypes, ControlView};
use crate::time::Instant;
use vstd::prelude::*;

verus! {

/// A control packet and the time at which it was handed over.
#[derive(Debug, PartialEq, Eq)]
pub struct OutboundPacket {
    pub time: Instant,
    pub packet: ControlTypes,
}

impl View for OutboundPacket {
    type V = (int, ControlView);

    open spec fn view(&self) -> (int, ControlView) {
        (self.time@, self.packet@)
    }
}

/// The values of a vector of waiting packets.
pub open spec fn outbound_views(packets: Seq<OutboundPacket>) -> Seq<(int, ControlView)> {
    Seq::new(packets.len(), |i: int| packets[i]@)
}

/// The queue of control packets to send, oldest first.
#[derive(Debug)]
pub struct Output {
    queue: Vec<OutboundPacket>,
}

impl View for Output {
    type V = Seq<(int, ControlView)>;

    closed spec fn view(&self) -> Seq<(int, ControlView)> {
        outbound_views(self.queue@)
    }
}

impl Output {
    /// An empty queue.
    pub fn new() -> (r: Output)
        ensures
            r@ == Seq::<(int, ControlView)>::empty(),
    {
        let r = Output { queue: Vec::new() };
        proof {
            assert(r@ =~= Seq::<(int, ControlView)>::empty());
        }
        r
    }

    /// Puts a control packet at the end of the queue. Never waits.
    pub fn send_control(&mut self, now: Instant, packet: ControlTypes)
        ensures
            final(self)@ == old(self)@.push((now@, packet@)),
    {
        self.queue.push(OutboundPacket { time: now, packet });
        proof {
            assert(self@ =~= old(self)@.push((now@, packet@)));
        }
    }

    /// The number of packets that wait.
    pub fn len(&self) -> (r: usize)
        ensures
            r == self@.len(),
    {
        self.queue.len()
    }

    /// Hands out the packets that wait, oldest first, and leaves the queue empty.
    pub fn take_packets(&mut self) -> (r: Vec<OutboundPacket>)
        ensures
            outbound_views(r@) == old(self)@,
            final(self)@ == Seq::<(int, ControlView)>::empty(),
    {
        let mut taken: Vec<OutboundPacket> = Vec::new();
        std::mem::swap(&mut self.queue, &mut taken);
        proof {
            assert(self@ =~= Seq::<(int, ControlView)>::empty());
        }
        taken
    }
}

} // verus!
