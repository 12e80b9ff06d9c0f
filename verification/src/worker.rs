//! The I/O worker's decision state.
//!
//! The worker thread owns the socket and multiplexes readiness; what it
//! *decides* lives here. Outbound datagrams wait in a FIFO: the writer
//! pops from the front, and a datagram the socket refuses (would-block)
//! is put back at the front so per-remote send order is preserved.
//! Inbound datagrams shorter than the trailer are discarded before they
//! reach the peer, so garbage cannot clog the incoming queue.

use crate::header::HEADER_SIZE;
use crate::peer::spec_packets_view;
use crate::peer::Packet;
use crate::peer::PacketModel;
use std::collections::VecDeque;
use vstd::prelude::*;

verus! {

/// The FIFO of datagrams accepted for sending but not yet written to
/// the socket.
pub struct PendingSends {
    queue: VecDeque<Packet>,
}

impl View for PendingSends {
    type V = Seq<PacketModel>;

    closed spec fn view(&self) -> Seq<PacketModel> {
        spec_packets_view(self.queue@)
    }
}

impl PendingSends {
    /// An empty queue.
    pub fn new() -> (queue: PendingSends)
        ensures
            queue@ == Seq::<PacketModel>::empty(),
    {
        let queue = PendingSends { queue: VecDeque::new() };
        proof {
            assert(queue@ =~= Seq::<PacketModel>::empty());
        }
        queue
    }

    /// How many datagrams are waiting.
    pub fn len(&self) -> (length: usize)
        ensures
            length == self@.len(),
    {
        self.queue.len()
    }

    /// Whether nothing is waiting; the writer then stops watching for
    /// writability.
    pub fn is_empty(&self) -> (empty: bool)
        ensures
            empty == (self@.len() == 0),
    {
        self.queue.len() == 0
    }

    /// Accepts one more datagram, behind all waiting ones.
    pub fn push_back(&mut self, packet: Packet)
        ensures
            final(self)@ == old(self)@.push(packet@),
    {
        let ghost packet_view = packet@;
        self.queue.push_back(packet);
        proof {
            assert(final(self)@ =~= old(self)@.push(packet_view));
        }
    }

    /// Takes the datagram that has waited longest, if any.
    pub fn pop_front(&mut self) -> (packet: Option<Packet>)
        ensures
            match packet {
                Some(packet) => {
                    &&& old(self)@.len() > 0
                    &&& packet@ == old(self)@[0]
                    &&& final(self)@ == old(self)@.skip(1)
                },
                None => {
                    &&& old(self)@.len() == 0
                    &&& final(self)@ == old(self)@
                },
            },
    {
        let popped = self.queue.pop_front();
        proof {
            if old(self).queue@.len() > 0 {
                assert(final(self)@ =~= old(self)@.skip(1));
            } else {
                assert(final(self)@ =~= old(self)@);
            }
        }
        popped
    }

    /// Puts a datagram back at the front after the socket refused it,
    /// so it is retried first and send order is preserved.
    pub fn push_front(&mut self, packet: Packet)
        ensures
            final(self)@ == seq![packet@] + old(self)@,
    {
        let ghost packet_view = packet@;
        self.queue.push_front(packet);
        proof {
            assert(final(self)@ =~= seq![packet_view] + old(self)@);
        }
    }
}

/// The worker's inbound filter: a datagram is worth delivering to the
/// peer only if it is long enough to hold the trailer. Dropping shorter
/// ones early keeps garbage and amplification traffic out of the
/// incoming queue.
pub fn should_deliver(length: usize) -> (deliver: bool)
    ensures
        deliver == (length >= HEADER_SIZE),
{
    length >= HEADER_SIZE
}

} // verus!
