//! The user-facing peer: framing, validation, demultiplexing, connection
//! bookkeeping, heartbeats and timeouts.
//!
//! The peer is a sans-I/O state machine. It owns no socket and reads no
//! clock: the caller passes a monotonic timestamp in milliseconds into
//! every time-dependent operation, hands received datagrams to
//! [`Peer::update`], and ships the datagrams queued by the peer (drained
//! with [`Peer::take_outgoing`]) over its own socket. Every transition
//! is specified exactly by the `spec_*` model functions in this module.

use crate::address::Address;
use crate::checksum::crc32_ieee;
use crate::checksum::crc32_of;
use crate::connection::lemma_conn_index_addr_equal;
use crate::connection::lemma_conn_index_first;
use crate::connection::lemma_conn_index_props;
use crate::connection::lemma_conn_index_push;
use crate::connection::lemma_conn_index_update;
use crate::connection::spec_addrs_unique;
use crate::connection::spec_conn_index;
use crate::connection::spec_has_conn;
use crate::connection::Connection;
use crate::events::lemma_contains_timeout_push;
use crate::events::lemma_live_append_timeouts;
use crate::events::lemma_live_append_unrelated;
use crate::events::spec_contains_timeout;
use crate::events::lemma_well_ordered_append_message;
use crate::events::lemma_well_ordered_append_non_messages;
use crate::events::spec_events_view;
use crate::events::spec_events_well_ordered;
use crate::events::spec_live;
use crate::events::Event;
use crate::events::EventModel;
use crate::header::spec_extract;
use crate::header::spec_frame;
use crate::header::Header;
use crate::header::PacketClass;
use crate::header::SequencedHeader;
use crate::header::HEADER_SIZE;
use crate::header::SEQUENCED_HEADER_SIZE;
use crate::sequence::sequence_greater_than;
use crate::sequence::spec_nth_packet_number;
use crate::sequence::spec_sequence_greater_than;
use crate::Error;
use crate::MTU_ESTIMATE;
use vstd::bytes::lemma_auto_spec_u16_to_from_le_bytes;
use vstd::bytes::lemma_auto_spec_u32_to_from_le_bytes;
use vstd::bytes::spec_u16_from_le_bytes;
use vstd::bytes::spec_u16_to_le_bytes;
use vstd::prelude::*;
use vstd::string::StringSliceAdditionalSpecFns;

verus! {

/// A remote has to stay silent this long before its connection entry is
/// dropped.
pub const TIMEOUT_MS: u64 = 5000;

/// A heartbeat is sent when nothing was sent to a remote for longer than
/// this.
pub const HEARTBEAT_INTERVAL_MS: u64 = 1000;

/// A fresh connection entry pretends the last send happened this long
/// ago, so that the first heartbeat sweep fires immediately.
pub const INITIAL_LAST_SENT_OFFSET_MS: u64 = 10000;

/// A datagram together with the remote address it goes to or came from.
#[derive(Debug, Clone, PartialEq, Eq)]
pub struct Packet {
    pub address: Address,
    pub data: Vec<u8>,
}

/// The mathematical value of a [`Packet`].
pub struct PacketModel {
    pub address: Address,
    pub data: Seq<u8>,
}

impl View for Packet {
    type V = PacketModel;

    open spec fn view(&self) -> PacketModel {
        PacketModel { address: self.address, data: self.data@ }
    }
}

/// The sequence of packet values a sequence of packets stands for.
pub open spec fn spec_packets_view(packets: Seq<Packet>) -> Seq<PacketModel> {
    Seq::new(packets.len(), |i: int| packets[i]@)
}

/// How a message is to be delivered.
#[derive(Debug, Clone, Copy, PartialEq, Eq, Structural)]
pub enum Reliability {
    /// This message:
    /// - May not arrive
    /// - May not arrive in order
    Unreliable,
    /// This message:
    /// - May not arrive
    /// - Is dropped if arriving later than other messages
    Sequenced,
}

/// The mathematical state of a [`Peer`].
pub struct PeerModel {
    /// CRC32 of the protocol name; the magic number on every datagram.
    pub protocol_id: u32,
    /// One entry per known remote, addresses pairwise distinct.
    pub connections: Seq<Connection>,
    /// The number the next sequenced message will carry.
    pub next_packet_number: u16,
    /// Framed datagrams waiting to be handed to the caller's socket.
    pub outgoing: Seq<PacketModel>,
}

/// Where a fresh connection entry's `last_sent` starts: far enough in
/// the past that the next heartbeat sweep fires promptly (clamped at the
/// clock's origin).
pub open spec fn spec_initial_last_sent(now: u64) -> u64 {
    if now >= INITIAL_LAST_SENT_OFFSET_MS {
        (now - INITIAL_LAST_SENT_OFFSET_MS) as u64
    } else {
        0
    }
}

/// Notes that a validated datagram arrived from `source` at `now`: a
/// known remote gets its `last_received` refreshed; an unknown one gets
/// a fresh entry and a `NewPeer` event.
pub open spec fn spec_update_last_packet(m: PeerModel, source: Address, now: u64) -> (
    PeerModel,
    Seq<EventModel>,
) {
    let i = spec_conn_index(m.connections, source);
    if i >= 0 {
        let entry = m.connections[i];
        let updated = Connection {
            address: entry.address,
            last_received: now,
            last_sent: entry.last_sent,
            last_received_packet_number: entry.last_received_packet_number,
        };
        (
            PeerModel {
                protocol_id: m.protocol_id,
                connections: m.connections.update(i, updated),
                next_packet_number: m.next_packet_number,
                outgoing: m.outgoing,
            },
            Seq::empty(),
        )
    } else {
        let entry = Connection {
            address: source,
            last_received: now,
            last_sent: spec_initial_last_sent(now),
            last_received_packet_number: 0,
        };
        (
            PeerModel {
                protocol_id: m.protocol_id,
                connections: m.connections.push(entry),
                next_packet_number: m.next_packet_number,
                outgoing: m.outgoing,
            },
            seq![EventModel::NewPeer { address: source }],
        )
    }
}

/// The sequenced-message tail of datagram processing: too-short payloads
/// and late or duplicate packet numbers are dropped silently; otherwise
/// the remote's high-water mark advances and the message is delivered.
pub open spec fn spec_process_sequenced(
    m: PeerModel,
    events: Seq<EventModel>,
    source: Address,
    payload: Seq<u8>,
) -> (PeerModel, Seq<EventModel>) {
    if payload.len() < SEQUENCED_HEADER_SIZE {
        (m, events)
    } else {
        let number = spec_u16_from_le_bytes(
            payload.subrange(payload.len() - 2, payload.len() as int),
        );
        let rest = payload.take(payload.len() - 2);
        let i = spec_conn_index(m.connections, source);
        if i >= 0 && spec_sequence_greater_than(
            number,
            m.connections[i].last_received_packet_number,
        ) {
            let entry = m.connections[i];
            let updated = Connection {
                address: entry.address,
                last_received: entry.last_received,
                last_sent: entry.last_sent,
                last_received_packet_number: number,
            };
            (
                PeerModel {
                    protocol_id: m.protocol_id,
                    connections: m.connections.update(i, updated),
                    next_packet_number: m.next_packet_number,
                    outgoing: m.outgoing,
                },
                events.push(EventModel::Message { source, data: rest }),
            )
        } else {
            (m, events)
        }
    }
}

/// Processing of one received datagram: length filter, trailer
/// validation, bookkeeping, then dispatch on the class.
pub open spec fn spec_process_datagram(
    m: PeerModel,
    source: Address,
    data: Seq<u8>,
    now: u64,
) -> (PeerModel, Seq<EventModel>) {
    if data.len() < HEADER_SIZE {
        (m, Seq::empty())
    } else {
        match spec_extract(data, m.protocol_id) {
            None => (m, Seq::empty()),
            Some((class, payload)) => {
                let (noted, events) = spec_update_last_packet(m, source, now);
                match class {
                    PacketClass::Heartbeat => (noted, events),
                    PacketClass::UnreliableMessage => (
                        noted,
                        events.push(EventModel::Message { source, data: payload }),
                    ),
                    PacketClass::SequencedMessage => spec_process_sequenced(
                        noted,
                        events,
                        source,
                        payload,
                    ),
                }
            },
        }
    }
}

/// Processing of a batch of received datagrams, in order.
pub open spec fn spec_process_incoming(
    m: PeerModel,
    incoming: Seq<PacketModel>,
    now: u64,
) -> (PeerModel, Seq<EventModel>)
    decreases incoming.len(),
{
    if incoming.len() == 0 {
        (m, Seq::empty())
    } else {
        let (m1, events1) = spec_process_incoming(m, incoming.drop_last(), now);
        let last = incoming.last();
        let (m2, events2) = spec_process_datagram(m1, last.address, last.data, now);
        (m2, events1 + events2)
    }
}

/// A connection is idle long enough to be dropped.
pub open spec fn spec_timed_out(entry: Connection, now: u64) -> bool {
    now >= entry.last_received && now - entry.last_received >= TIMEOUT_MS
}

/// The idle sweep: entries silent for the timeout are removed, each with
/// a `PeerTimedOut` event, in table order.
pub open spec fn spec_check_timeouts(conns: Seq<Connection>, now: u64) -> (
    Seq<Connection>,
    Seq<EventModel>,
)
    decreases conns.len(),
{
    if conns.len() == 0 {
        (Seq::empty(), Seq::empty())
    } else {
        let (kept, events) = spec_check_timeouts(conns.drop_last(), now);
        let entry = conns.last();
        if spec_timed_out(entry, now) {
            (kept, events.push(EventModel::PeerTimedOut { address: entry.address }))
        } else {
            (kept.push(entry), events)
        }
    }
}

/// A connection has been quiet on the send side long enough to owe the
/// remote a heartbeat.
pub open spec fn spec_needs_heartbeat(entry: Connection, now: u64) -> bool {
    now >= entry.last_sent && now - entry.last_sent > HEARTBEAT_INTERVAL_MS
}

/// The five bytes of a heartbeat datagram: an empty payload's framing.
pub open spec fn spec_heartbeat_frame(protocol_id: u32) -> Seq<u8> {
    spec_frame(Seq::empty(), PacketClass::Heartbeat, protocol_id)
}

/// The heartbeat sweep: every connection that was not sent to recently
/// gets a heartbeat datagram queued and its `last_sent` set to `now`.
pub open spec fn spec_send_heartbeats(
    conns: Seq<Connection>,
    outgoing: Seq<PacketModel>,
    now: u64,
    protocol_id: u32,
) -> (Seq<Connection>, Seq<PacketModel>)
    decreases conns.len(),
{
    if conns.len() == 0 {
        (Seq::empty(), outgoing)
    } else {
        let (front, out) = spec_send_heartbeats(conns.drop_last(), outgoing, now, protocol_id);
        let entry = conns.last();
        if spec_needs_heartbeat(entry, now) {
            let updated = Connection {
                address: entry.address,
                last_received: entry.last_received,
                last_sent: now,
                last_received_packet_number: entry.last_received_packet_number,
            };
            (
                front.push(updated),
                out.push(
                    PacketModel {
                        address: entry.address,
                        data: spec_heartbeat_frame(protocol_id),
                    },
                ),
            )
        } else {
            (front.push(entry), out)
        }
    }
}

/// One full `update` tick: process the received datagrams, sweep idle
/// connections, then sweep heartbeats. Returns the new state and the
/// events emitted, datagram events first, timeout events after.
pub open spec fn spec_update(m: PeerModel, incoming: Seq<PacketModel>, now: u64) -> (
    PeerModel,
    Seq<EventModel>,
) {
    let (m1, events1) = spec_process_incoming(m, incoming, now);
    let (kept, events2) = spec_check_timeouts(m1.connections, now);
    let (fresh, outgoing) = spec_send_heartbeats(kept, m1.outgoing, now, m1.protocol_id);
    (
        PeerModel {
            protocol_id: m1.protocol_id,
            connections: fresh,
            next_packet_number: m1.next_packet_number,
            outgoing,
        },
        events1 + events2,
    )
}

/// Refreshes `last_sent` of the entry for `target`, if there is one.
pub open spec fn spec_update_last_sent(
    conns: Seq<Connection>,
    target: Address,
    now: u64,
) -> Seq<Connection> {
    let i = spec_conn_index(conns, target);
    if i >= 0 {
        let entry = conns[i];
        conns.update(
            i,
            Connection {
                address: entry.address,
                last_received: entry.last_received,
                last_sent: now,
                last_received_packet_number: entry.last_received_packet_number,
            },
        )
    } else {
        conns
    }
}

/// Handing a framed datagram to the worker queue: rejected outright when
/// longer than the MTU budget, otherwise queued, with `last_sent`
/// bookkeeping for a known target. The boolean is acceptance.
pub open spec fn spec_send_packet(m: PeerModel, target: Address, data: Seq<u8>, now: u64) -> (
    PeerModel,
    bool,
) {
    if data.len() > MTU_ESTIMATE {
        (m, false)
    } else {
        (
            PeerModel {
                protocol_id: m.protocol_id,
                connections: spec_update_last_sent(m.connections, target, now),
                next_packet_number: m.next_packet_number,
                outgoing: m.outgoing.push(PacketModel { address: target, data }),
            },
            true,
        )
    }
}

/// What `connect` and the heartbeat sweep queue for a remote.
pub open spec fn spec_send_heartbeat_to(m: PeerModel, target: Address, now: u64) -> PeerModel {
    spec_send_packet(m, target, spec_heartbeat_frame(m.protocol_id), now).0
}

/// Framing bytes added by `send` for each delivery mode.
pub open spec fn spec_overhead(reliability: Reliability) -> int {
    match reliability {
        Reliability::Unreliable => HEADER_SIZE as int,
        Reliability::Sequenced => HEADER_SIZE + SEQUENCED_HEADER_SIZE,
    }
}

/// The outbound sequence counter's successor: plus one, modulo 2^16.
pub open spec fn spec_next_packet_number(number: u16) -> u16 {
    ((number + 1) % 0x10000) as u16
}

/// One `send` call: frame the payload for the chosen delivery mode
/// (consuming a sequence number for `Sequenced`), then hand the framed
/// datagram over. The boolean is acceptance; on rejection only the
/// sequence counter has moved.
pub open spec fn spec_send(
    m: PeerModel,
    target: Address,
    data: Seq<u8>,
    reliability: Reliability,
    now: u64,
) -> (PeerModel, bool) {
    let framed = match reliability {
        Reliability::Unreliable => spec_frame(data, PacketClass::UnreliableMessage, m.protocol_id),
        Reliability::Sequenced => spec_frame(
            data + spec_u16_to_le_bytes(m.next_packet_number),
            PacketClass::SequencedMessage,
            m.protocol_id,
        ),
    };
    let next = match reliability {
        Reliability::Unreliable => m.next_packet_number,
        Reliability::Sequenced => spec_next_packet_number(m.next_packet_number),
    };
    let advanced = PeerModel {
        protocol_id: m.protocol_id,
        connections: m.connections,
        next_packet_number: next,
        outgoing: m.outgoing,
    };
    spec_send_packet(advanced, target, framed, now)
}

/// The connection table and the event history agree: a remote has an
/// entry exactly while it is live in the history.
pub open spec fn spec_conn_live_link(conns: Seq<Connection>, history: Seq<EventModel>) -> bool {
    forall|a: Address|
        #![trigger spec_has_conn(conns, a)]
        #![trigger spec_live(history, a)]
        spec_has_conn(conns, a) <==> spec_live(history, a)
}

/// An open, connectionless transport endpoint.
///
/// Created by [`Peer::start`]; driven by periodic [`Peer::update`]
/// calls. The caller performs the socket I/O: received datagrams go in
/// through `update`, datagrams to transmit come out of
/// [`Peer::take_outgoing`].
pub struct Peer {
    protocol_id: u32,
    connections: Vec<Connection>,
    next_packet_number: u16,
    outgoing: Vec<Packet>,
    emitted: Ghost<Seq<EventModel>>,
}

impl View for Peer {
    type V = PeerModel;

    closed spec fn view(&self) -> PeerModel {
        PeerModel {
            protocol_id: self.protocol_id,
            connections: self.connections@,
            next_packet_number: self.next_packet_number,
            outgoing: spec_packets_view(self.outgoing@),
        }
    }
}

impl Peer {
    /// Every event this peer has returned from `update`, in order.
    pub closed spec fn history(&self) -> Seq<EventModel> {
        self.emitted@
    }

    /// The peer's invariant: distinct connection addresses, a well
    /// ordered event history, and agreement between the connection table
    /// and the history.
    pub open spec fn wf(&self) -> bool {
        &&& spec_addrs_unique(self@.connections)
        &&& spec_events_well_ordered(self.history())
        &&& spec_conn_live_link(self@.connections, self.history())
    }

    /// Starts a new open peer speaking `protocol`. The protocol name is
    /// hashed into the 32-bit id that brands every datagram.
    pub fn start(protocol: &str) -> (peer: Peer)
        ensures
            peer.wf(),
            peer@.protocol_id == crc32_of(protocol.spec_bytes()),
            peer@.connections == Seq::<Connection>::empty(),
            peer@.next_packet_number == 1,
            peer@.outgoing == Seq::<PacketModel>::empty(),
            peer.history() == Seq::<EventModel>::empty(),
    {
        let protocol_id = crc32_ieee(protocol.as_bytes());
        let peer = Peer {
            protocol_id,
            connections: Vec::new(),
            next_packet_number: 1,
            outgoing: Vec::new(),
            emitted: Ghost(Seq::empty()),
        };
        proof {
            assert(spec_packets_view(peer.outgoing@) =~= Seq::<PacketModel>::empty());
            assert forall|a: Address| !spec_has_conn(peer@.connections, a) by {
                lemma_conn_index_props(peer@.connections, a);
            }
            assert forall|a: Address| !spec_live(peer.history(), a) by {}
        }
        peer
    }

    /// The index of the connection entry for `address`, if any.
    fn find_connection(&self, address: Address) -> (found: Option<usize>)
        ensures
            match found {
                Some(i) => i < self@.connections.len() && spec_conn_index(
                    self@.connections,
                    address,
                ) == i,
                None => spec_conn_index(self@.connections, address) == -1,
            },
    {
        let mut i: usize = 0;
        while i < self.connections.len()
            invariant
                i <= self.connections@.len(),
                forall|j: int| 0 <= j < i ==> (#[trigger] self.connections@[j]).address != address,
            decreases self.connections@.len() - i,
        {
            if self.connections[i].address == address {
                proof {
                    lemma_conn_index_first(self.connections@, address, i as int);
                }
                return Some(i);
            }
            i = i + 1;
        }
        proof {
            lemma_conn_index_props(self.connections@, address);
            if spec_conn_index(self.connections@, address) != -1 {
                assert(false);
            }
        }
        None
    }

    /// Queues a framed datagram for transmission, refusing one over the
    /// MTU budget and noting the send time for a known target.
    fn send_packet(&mut self, target: Address, data: Vec<u8>, now: u64) -> (result: Result<
        (),
        Error,
    >)
        ensures
            ({
                let (next, accepted) = spec_send_packet(old(self)@, target, data@, now);
                &&& final(self)@ == next
                &&& result is Ok <==> accepted
            }),
            result is Err ==> result == Err::<(), Error>(Error::DataTooLarge),
            final(self).history() == old(self).history(),
    {
        let ghost data0 = data@;
        // Limit packet sizes to at most the MTU, anything more might get
        // dropped on real paths.
        if data.len() > MTU_ESTIMATE {
            return Err(Error::DataTooLarge);
        }
        // Keep track of when we last sent to this remote; the heartbeat
        // sweep uses it to keep the connection alive.
        match self.find_connection(target) {
            Some(i) => {
                let mut entry = self.connections[i];
                entry.last_sent = now;
                self.connections.set(i, entry);
            },
            None => {},
        }
        self.outgoing.push(Packet { address: target, data });
        proof {
            assert(spec_packets_view(self.outgoing@) =~= old(self)@.outgoing.push(
                PacketModel { address: target, data: data0 },
            ));
        }
        Ok(())
    }

    /// Queues a header-only heartbeat datagram for `target`.
    fn send_heartbeat(&mut self, target: Address, now: u64)
        ensures
            final(self)@ == spec_send_heartbeat_to(old(self)@, target, now),
            final(self).history() == old(self).history(),
    {
        let mut data = Vec::new();
        let header = Header { class: PacketClass::Heartbeat };
        header.write_to(&mut data, self.protocol_id);
        proof {
            lemma_auto_spec_u32_to_from_le_bytes();
            assert(data@.len() == HEADER_SIZE);
        }
        let result = self.send_packet(target, data, now);
        proof {
            assert(result is Ok);
        }
    }

    /// Starts tracking `target` by sending it a heartbeat. No handshake
    /// is performed; the remote will discover us from the datagram.
    pub fn connect(&mut self, target: Address, now: u64)
        requires
            old(self).wf(),
        ensures
            final(self).wf(),
            final(self)@ == spec_send_heartbeat_to(old(self)@, target, now),
            final(self).history() == old(self).history(),
    {
        self.send_heartbeat(target, now);
        proof {
            lemma_update_last_sent_preserves(
                old(self)@.connections,
                target,
                now,
                old(self).history(),
            );
        }
    }

    /// Frames `data` for the chosen delivery mode and queues it for
    /// `target`. Fails with `DataTooLarge` exactly when the payload plus
    /// its framing exceeds the MTU budget; a sequenced send consumes its
    /// sequence number even then.
    pub fn send(
        &mut self,
        target: Address,
        data: Vec<u8>,
        reliability: Reliability,
        now: u64,
    ) -> (result: Result<(), Error>)
        requires
            old(self).wf(),
        ensures
            final(self).wf(),
            ({
                let (next, accepted) = spec_send(old(self)@, target, data@, reliability, now);
                &&& final(self)@ == next
                &&& result is Ok <==> accepted
            }),
            result is Err <==> data@.len() + spec_overhead(reliability) > MTU_ESTIMATE,
            result is Err ==> result == Err::<(), Error>(Error::DataTooLarge),
            final(self).history() == old(self).history(),
    {
        let ghost data0 = data@;
        let mut data = data;

        // Headers are attached after the payload; the trailer at the end
        // tells the receiver what to read in front of it.
        let class = match reliability {
            Reliability::Unreliable => PacketClass::UnreliableMessage,
            Reliability::Sequenced => {
                let sequenced_header = SequencedHeader {
                    packet_number: self.next_packet_number,
                };
                self.next_packet_number = self.next_packet_number.wrapping_add(1);
                sequenced_header.write_to(&mut data);
                PacketClass::SequencedMessage
            },
        };

        let header = Header { class };
        header.write_to(&mut data, self.protocol_id);

        proof {
            lemma_auto_spec_u16_to_from_le_bytes();
            lemma_auto_spec_u32_to_from_le_bytes();
        }

        let result = self.send_packet(target, data, now);
        proof {
            lemma_update_last_sent_preserves(
                old(self)@.connections,
                target,
                now,
                old(self).history(),
            );
        }
        result
    }

    /// Notes that a validated datagram arrived from `source`: refreshes
    /// a known remote's `last_received`, or creates a fresh entry and
    /// pushes a `NewPeer` event for an unknown one.
    fn update_last_packet(&mut self, events: &mut Vec<Event>, source: Address, now: u64)
        requires
            spec_addrs_unique(old(self)@.connections),
        ensures
            ({
                let (noted, new_events) = spec_update_last_packet(old(self)@, source, now);
                &&& final(self)@ == noted
                &&& spec_events_view(final(events)@) == spec_events_view(old(events)@)
                    + new_events
            }),
            final(self).history() == old(self).history(),
            spec_addrs_unique(final(self)@.connections),
            spec_has_conn(final(self)@.connections, source),
    {
        match self.find_connection(source) {
            Some(i) => {
                // We currently have a connection with this peer; update
                // the last time we saw it.
                let mut entry = self.connections[i];
                entry.last_received = now;
                self.connections.set(i, entry);
                proof {
                    lemma_conn_index_update(old(self)@.connections, i as int, entry, source);
                    assert(spec_events_view(events@) =~= spec_events_view(events@) + Seq::<
                        EventModel,
                    >::empty());
                    assert forall|p: int, q: int|
                        0 <= p < q < self.connections@.len() implies (
                    #[trigger] self.connections@[p]).address != (
                    #[trigger] self.connections@[q]).address by {
                        assert(old(self)@.connections[p].address
                            != old(self)@.connections[q].address);
                    }
                }
            },
            None => {
                // We haven't seen this peer yet, so add it now and raise
                // an event for it.
                let last_sent = if now >= INITIAL_LAST_SENT_OFFSET_MS {
                    now - INITIAL_LAST_SENT_OFFSET_MS
                } else {
                    0
                };
                let entry = Connection {
                    address: source,
                    last_received: now,
                    last_sent,
                    last_received_packet_number: 0,
                };
                self.connections.push(entry);
                events.push(Event::NewPeer { address: source });
                proof {
                    lemma_conn_index_props(old(self)@.connections, source);
                    lemma_conn_index_push(old(self)@.connections, entry, source);
                    assert(spec_events_view(events@) =~= spec_events_view(old(events)@) + seq![
                        EventModel::NewPeer { address: source },
                    ]);
                    assert forall|p: int, q: int|
                        0 <= p < q < self.connections@.len() implies (
                    #[trigger] self.connections@[p]).address != (
                    #[trigger] self.connections@[q]).address by {
                        if q < self.connections@.len() - 1 {
                            assert(old(self)@.connections[p].address
                                != old(self)@.connections[q].address);
                        } else {
                            assert(old(self)@.connections[p].address != source);
                        }
                    }
                }
            },
        }
    }

    /// The idle sweep: drops every connection that has been silent for
    /// the timeout, pushing one `PeerTimedOut` event each, in table
    /// order.
    fn check_timeouts(&mut self, events: &mut Vec<Event>, now: u64)
        ensures
            ({
                let (kept, new_events) = spec_check_timeouts(old(self)@.connections, now);
                &&& final(self)@.connections == kept
                &&& spec_events_view(final(events)@) == spec_events_view(old(events)@)
                    + new_events
            }),
            final(self)@.protocol_id == old(self)@.protocol_id,
            final(self)@.next_packet_number == old(self)@.next_packet_number,
            final(self)@.outgoing == old(self)@.outgoing,
            final(self).history() == old(self).history(),
    {
        let ghost conns0 = self@.connections;
        let ghost events0 = spec_events_view(events@);
        let mut kept: Vec<Connection> = Vec::new();
        let mut i: usize = 0;
        while i < self.connections.len()
            invariant
                i <= conns0.len(),
                self.connections@ == conns0,
                ({
                    let (k, e) = spec_check_timeouts(conns0.take(i as int), now);
                    &&& kept@ == k
                    &&& spec_events_view(events@) == events0 + e
                }),
            decreases conns0.len() - i,
        {
            let entry = self.connections[i];
            if now >= entry.last_received && now - entry.last_received >= TIMEOUT_MS {
                events.push(Event::PeerTimedOut { address: entry.address });
                proof {
                    let (k, e) = spec_check_timeouts(conns0.take(i as int), now);
                    assert(conns0.take(i + 1).drop_last() =~= conns0.take(i as int));
                    assert(conns0.take(i + 1).last() == entry);
                    assert(spec_events_view(events@) =~= (events0 + e).push(
                        EventModel::PeerTimedOut { address: entry.address },
                    ));
                    assert((events0 + e).push(EventModel::PeerTimedOut { address: entry.address })
                        =~= events0 + e.push(
                        EventModel::PeerTimedOut { address: entry.address },
                    ));
                }
            } else {
                kept.push(entry);
                proof {
                    assert(conns0.take(i + 1).drop_last() =~= conns0.take(i as int));
                    assert(conns0.take(i + 1).last() == entry);
                }
            }
            i = i + 1;
        }
        self.connections = kept;
        proof {
            assert(conns0.take(conns0.len() as int) =~= conns0);
        }
    }

    /// The heartbeat sweep: sends a header-only heartbeat to every
    /// connection that was not sent to within the heartbeat interval,
    /// noting the send time.
    fn send_heartbeats(&mut self, now: u64)
        ensures
            ({
                let (fresh, out) = spec_send_heartbeats(
                    old(self)@.connections,
                    old(self)@.outgoing,
                    now,
                    old(self)@.protocol_id,
                );
                &&& final(self)@.connections == fresh
                &&& final(self)@.outgoing == out
            }),
            final(self)@.protocol_id == old(self)@.protocol_id,
            final(self)@.next_packet_number == old(self)@.next_packet_number,
            final(self).history() == old(self).history(),
    {
        let ghost conns0 = self@.connections;
        let ghost out0 = self@.outgoing;
        let ghost protocol0 = self@.protocol_id;
        let mut fresh: Vec<Connection> = Vec::new();
        let mut i: usize = 0;
        while i < self.connections.len()
            invariant
                i <= conns0.len(),
                self.connections@ == conns0,
                self@.protocol_id == protocol0,
                self@.next_packet_number == old(self)@.next_packet_number,
                self.history() == old(self).history(),
                ({
                    let (f, out) = spec_send_heartbeats(
                        conns0.take(i as int),
                        out0,
                        now,
                        protocol0,
                    );
                    &&& fresh@ == f
                    &&& spec_packets_view(self.outgoing@) == out
                }),
            decreases conns0.len() - i,
        {
            let entry = self.connections[i];
            if now >= entry.last_sent && now - entry.last_sent > HEARTBEAT_INTERVAL_MS {
                let mut data = Vec::new();
                let header = Header { class: PacketClass::Heartbeat };
                header.write_to(&mut data, self.protocol_id);
                let ghost data_view = data@;
                self.outgoing.push(Packet { address: entry.address, data });
                let mut updated = entry;
                updated.last_sent = now;
                fresh.push(updated);
                proof {
                    let (f, out) = spec_send_heartbeats(conns0.take(i as int), out0, now, protocol0);
                    assert(conns0.take(i + 1).drop_last() =~= conns0.take(i as int));
                    assert(conns0.take(i + 1).last() == entry);
                    assert(data_view =~= spec_heartbeat_frame(protocol0));
                    assert(spec_packets_view(self.outgoing@) =~= out.push(
                        PacketModel { address: entry.address, data: spec_heartbeat_frame(protocol0) },
                    ));
                }
            } else {
                fresh.push(entry);
                proof {
                    assert(conns0.take(i + 1).drop_last() =~= conns0.take(i as int));
                    assert(conns0.take(i + 1).last() == entry);
                }
            }
            i = i + 1;
        }
        self.connections = fresh;
        proof {
            assert(conns0.take(conns0.len() as int) =~= conns0);
        }
    }

    /// Validates and dispatches one received datagram, pushing any
    /// events it gives rise to.
    fn handle_datagram(&mut self, events: &mut Vec<Event>, source: Address, data: Vec<u8>, now: u64)
        requires
            spec_addrs_unique(old(self)@.connections),
        ensures
            ({
                let (next, new_events) = spec_process_datagram(old(self)@, source, data@, now);
                &&& final(self)@ == next
                &&& spec_events_view(final(events)@) == spec_events_view(old(events)@)
                    + new_events
            }),
            final(self).history() == old(self).history(),
            spec_addrs_unique(final(self)@.connections),
    {
        let ghost data_view = data@;
        proof {
            assert(spec_events_view(events@) =~= spec_events_view(events@) + Seq::<
                EventModel,
            >::empty());
        }
        // Too short to even hold the trailer: drop it outright.
        if data.len() < HEADER_SIZE {
            return ;
        }
        let protocol_id = self.protocol_id;
        // The header extraction makes sure we're not being sent garbage.
        match Header::extract(data, protocol_id) {
            None => {},
            Some((header, payload)) => {
                let ghost payload_view = payload@;
                // Update when the last time we got a packet was.
                self.update_last_packet(events, source, now);
                match header.class {
                    PacketClass::Heartbeat => {},
                    PacketClass::UnreliableMessage => {
                        let ghost before = spec_events_view(events@);
                        events.push(Event::Message { source, data: payload });
                        proof {
                            assert(spec_events_view(events@) =~= before.push(
                                EventModel::Message { source, data: payload_view },
                            ));
                            let (noted, new_events) = spec_update_last_packet(
                                old(self)@,
                                source,
                                now,
                            );
                            assert(spec_events_view(old(events)@) + new_events.push(
                                EventModel::Message { source, data: payload_view },
                            ) =~= (spec_events_view(old(events)@) + new_events).push(
                                EventModel::Message { source, data: payload_view },
                            ));
                        }
                    },
                    PacketClass::SequencedMessage => {
                        // Make sure we have enough remaining data for
                        // this header.
                        if payload.len() < SEQUENCED_HEADER_SIZE {
                            return ;
                        }
                        // This means we also need to extract the
                        // sequenced header.
                        let (sequenced_header, rest) = SequencedHeader::extract(payload);
                        let ghost rest_view = rest@;
                        match self.find_connection(source) {
                            Some(i) => {
                                let last = self.connections[i].last_received_packet_number;
                                // Check if we should drop this packet.
                                if sequence_greater_than(sequenced_header.packet_number, last) {
                                    let mut entry = self.connections[i];
                                    entry.last_received_packet_number =
                                        sequenced_header.packet_number;
                                    self.connections.set(i, entry);
                                    let ghost before = spec_events_view(events@);
                                    events.push(Event::Message { source, data: rest });
                                    proof {
                                        lemma_conn_index_update(
                                            spec_update_last_packet(
                                                old(self)@,
                                                source,
                                                now,
                                            ).0.connections,
                                            i as int,
                                            entry,
                                            source,
                                        );
                                        assert(spec_events_view(events@) =~= before.push(
                                            EventModel::Message { source, data: rest_view },
                                        ));
                                        let (noted, new_events) = spec_update_last_packet(
                                            old(self)@,
                                            source,
                                            now,
                                        );
                                        assert(spec_events_view(old(events)@) + new_events.push(
                                            EventModel::Message { source, data: rest_view },
                                        ) =~= (spec_events_view(old(events)@) + new_events).push(
                                            EventModel::Message { source, data: rest_view },
                                        ));
                                        assert forall|p: int, q: int|
                                            0 <= p < q < self.connections@.len() implies (
                                        #[trigger] self.connections@[p]).address != (
                                        #[trigger] self.connections@[q]).address by {
                                            let noted_conns = noted.connections;
                                            assert(noted_conns[p].address
                                                != noted_conns[q].address);
                                        }
                                    }
                                }
                            },
                            None => {
                                proof {
                                    assert(false);
                                }
                            },
                        }
                    },
                }
            },
        }
    }

    /// Checks the received datagrams, sweeps idle connections, and sends
    /// out heartbeats.
    ///
    /// `incoming` holds the datagrams read from the socket since the
    /// last call, in receive order; `now` is a monotonic timestamp in
    /// milliseconds. The returned events are ordered so that a
    /// `Message` is never seen before the `NewPeer` for its source:
    /// datagram events come first, in receive order, then the timeout
    /// events of this tick.
    pub fn update(&mut self, incoming: Vec<Packet>, now: u64) -> (events: Vec<Event>)
        requires
            old(self).wf(),
        ensures
            final(self).wf(),
            ({
                let (next, new_events) = spec_update(
                    old(self)@,
                    spec_packets_view(incoming@),
                    now,
                );
                &&& final(self)@ == next
                &&& spec_events_view(events@) == new_events
                &&& final(self).history() == old(self).history() + new_events
            }),
            forall|i: int|
                0 <= i < final(self)@.connections.len() ==> !spec_needs_heartbeat(
                    #[trigger] final(self)@.connections[i],
                    now,
                ),
    {
        let ghost m0 = self@;
        let ghost h0 = self.history();
        let ghost incoming0 = spec_packets_view(incoming@);
        let mut incoming = incoming;
        let mut events: Vec<Event> = Vec::new();
        let ghost mut processed: int = 0;
        proof {
            assert(incoming0.skip(0) =~= incoming0);
            assert(incoming0.take(0) =~= Seq::<PacketModel>::empty());
            assert(spec_events_view(events@) =~= Seq::<EventModel>::empty());
        }
        while incoming.len() > 0
            invariant
                0 <= processed <= incoming0.len(),
                incoming@.len() == incoming0.len() - processed,
                spec_packets_view(incoming@) == incoming0.skip(processed),
                spec_addrs_unique(self@.connections),
                ({
                    let (m1, events1) = spec_process_incoming(
                        m0,
                        incoming0.take(processed),
                        now,
                    );
                    &&& self@ == m1
                    &&& spec_events_view(events@) == events1
                }),
                self.history() == h0,
            decreases incoming@.len(),
        {
            let ghost before = incoming@;
            let packet = incoming.remove(0);
            let Packet { address, data } = packet;
            proof {
                assert(spec_packets_view(before)[0] == incoming0.skip(processed)[0]);
                assert(incoming0.skip(processed)[0] == incoming0[processed]);
                assert(incoming0[processed] == (PacketModel { address, data: data@ }));
                assert(spec_packets_view(incoming@) =~= spec_packets_view(before).skip(1));
                assert(incoming0.skip(processed).skip(1) =~= incoming0.skip(processed + 1));
            }
            let ghost events_before = spec_events_view(events@);
            self.handle_datagram(&mut events, address, data, now);
            proof {
                processed = processed + 1;
                assert(incoming0.take(processed).drop_last() =~= incoming0.take(processed - 1));
                assert(incoming0.take(processed).last() == incoming0[processed - 1]);
                let (m1, events1) = spec_process_incoming(
                    m0,
                    incoming0.take(processed - 1),
                    now,
                );
                let (m2, events2) = spec_process_datagram(
                    m1,
                    address,
                    incoming0[processed - 1].data,
                    now,
                );
                assert(spec_events_view(events@) =~= events1 + events2);
            }
        }
        proof {
            assert(incoming0.take(processed) =~= incoming0);
        }
        let ghost m1 = self@;
        let ghost events1 = spec_events_view(events@);
        self.check_timeouts(&mut events, now);
        self.send_heartbeats(now);
        proof {
            lemma_process_incoming_preserves(m0, h0, incoming0, now);
            lemma_check_timeouts_preserves(m1.connections, h0 + events1, now);
            let (kept, events2) = spec_check_timeouts(m1.connections, now);
            lemma_send_heartbeats_preserves(
                kept,
                m1.outgoing,
                now,
                m1.protocol_id,
                (h0 + events1) + events2,
            );
            lemma_send_heartbeats_shape(kept, m1.outgoing, now, m1.protocol_id);
            assert((h0 + events1) + events2 =~= h0 + (events1 + events2));
            assert(spec_events_view(events@) =~= events1 + events2);
        }
        self.emitted = Ghost(h0 + spec_events_view(events@));
        events
    }

    /// Hands every queued outbound datagram to the caller, in the order
    /// it was queued, leaving the queue empty.
    pub fn take_outgoing(&mut self) -> (packets: Vec<Packet>)
        requires
            old(self).wf(),
        ensures
            final(self).wf(),
            spec_packets_view(packets@) == old(self)@.outgoing,
            final(self)@.protocol_id == old(self)@.protocol_id,
            final(self)@.connections == old(self)@.connections,
            final(self)@.next_packet_number == old(self)@.next_packet_number,
            final(self)@.outgoing == Seq::<PacketModel>::empty(),
            final(self).history() == old(self).history(),
    {
        let packets = self.outgoing.split_off(0);
        proof {
            assert(spec_packets_view(self.outgoing@) =~= Seq::<PacketModel>::empty());
            assert(packets@ =~= old(self).outgoing@);
        }
        packets
    }
}

/// A heartbeat datagram for `address` is among the queued packets.
pub open spec fn spec_contains_heartbeat(
    out: Seq<PacketModel>,
    address: Address,
    protocol_id: u32,
) -> bool {
    exists|k: int|
        0 <= k < out.len() && out[k] == (PacketModel {
            address,
            data: spec_heartbeat_frame(protocol_id),
        })
}

/// Noting an arrival preserves the peer invariants, and afterwards the
/// source has an entry and is live.
proof fn lemma_update_last_packet_preserves(
    m: PeerModel,
    history: Seq<EventModel>,
    source: Address,
    now: u64,
)
    requires
        spec_addrs_unique(m.connections),
        spec_events_well_ordered(history),
        spec_conn_live_link(m.connections, history),
    ensures
        ({
            let (noted, new_events) = spec_update_last_packet(m, source, now);
            &&& spec_addrs_unique(noted.connections)
            &&& spec_events_well_ordered(history + new_events)
            &&& spec_conn_live_link(noted.connections, history + new_events)
            &&& spec_live(history + new_events, source)
            &&& spec_has_conn(noted.connections, source)
        }),
{
    let i = spec_conn_index(m.connections, source);
    let (noted, new_events) = spec_update_last_packet(m, source, now);
    lemma_conn_index_props(m.connections, source);
    if i >= 0 {
        let updated = noted.connections[i];
        assert(history + new_events =~= history);
        assert forall|p: int, q: int| 0 <= p < q < noted.connections.len() implies (
        #[trigger] noted.connections[p]).address != (#[trigger] noted.connections[q]).address by {
            assert(m.connections[p].address != m.connections[q].address);
        }
        assert forall|a: Address| spec_has_conn(noted.connections, a) == spec_live(
            history,
            a,
        ) by {
            lemma_conn_index_update(m.connections, i, updated, a);
            assert(spec_has_conn(m.connections, a) <==> spec_live(history, a));
        }
        lemma_conn_index_update(m.connections, i, updated, source);
        assert(spec_has_conn(noted.connections, source));
        assert(spec_live(history, source));
    } else {
        let entry = Connection {
            address: source,
            last_received: now,
            last_sent: spec_initial_last_sent(now),
            last_received_packet_number: 0,
        };
        let extended = history + new_events;
        assert(extended =~= history.push(EventModel::NewPeer { address: source }));
        assert forall|p: int, q: int| 0 <= p < q < noted.connections.len() implies (
        #[trigger] noted.connections[p]).address != (#[trigger] noted.connections[q]).address by {
            if q < noted.connections.len() - 1 {
                assert(m.connections[p].address != m.connections[q].address);
            } else {
                assert(noted.connections[q] == entry);
                assert(m.connections[p].address != source);
            }
        }
        assert forall|k: int| 0 <= k < new_events.len() implies !(#[trigger] new_events[k]
            is Message) by {}
        lemma_well_ordered_append_non_messages(history, new_events);
        assert(extended.last() == (EventModel::NewPeer { address: source }));
        assert(spec_live(extended, source));
        assert forall|a: Address| spec_has_conn(noted.connections, a) == spec_live(
            extended,
            a,
        ) by {
            assert(noted.connections == m.connections.push(entry));
            lemma_conn_index_push(m.connections, entry, a);
            assert(spec_has_conn(m.connections, a) <==> spec_live(history, a));
            if a == source {
                assert(spec_conn_index(m.connections, a) == -1);
                assert(spec_conn_index(noted.connections, a) == m.connections.len());
                assert(spec_has_conn(noted.connections, a));
                assert(spec_live(extended, a));
            } else {
                lemma_live_append_unrelated(history, EventModel::NewPeer { address: source }, a);
                assert(extended == history.push(EventModel::NewPeer { address: source }));
                assert(spec_live(extended, a) == spec_live(history, a));
                if spec_conn_index(m.connections, a) >= 0 {
                    assert(spec_conn_index(noted.connections, a) == spec_conn_index(
                        m.connections,
                        a,
                    ));
                    assert(spec_has_conn(noted.connections, a));
                    assert(spec_live(history, a));
                } else {
                    lemma_conn_index_props(m.connections, a);
                    assert(spec_conn_index(m.connections, a) == -1);
                    assert(spec_conn_index(noted.connections, a) == -1);
                    assert(!spec_has_conn(noted.connections, a));
                    assert(!spec_live(history, a));
                }
            }
        }
        lemma_conn_index_push(m.connections, entry, source);
        assert(spec_has_conn(noted.connections, source));
    }
}

/// Processing one datagram preserves the peer invariants.
proof fn lemma_process_datagram_preserves(
    m: PeerModel,
    history: Seq<EventModel>,
    source: Address,
    data: Seq<u8>,
    now: u64,
)
    requires
        spec_addrs_unique(m.connections),
        spec_events_well_ordered(history),
        spec_conn_live_link(m.connections, history),
    ensures
        ({
            let (next, new_events) = spec_process_datagram(m, source, data, now);
            &&& spec_addrs_unique(next.connections)
            &&& spec_events_well_ordered(history + new_events)
            &&& spec_conn_live_link(next.connections, history + new_events)
            &&& next.protocol_id == m.protocol_id
            &&& next.next_packet_number == m.next_packet_number
            &&& next.outgoing == m.outgoing
        }),
{
    let (next, new_events) = spec_process_datagram(m, source, data, now);
    if data.len() < HEADER_SIZE {
        assert(history + new_events =~= history);
    } else {
        match spec_extract(data, m.protocol_id) {
            None => {
                assert(history + new_events =~= history);
            },
            Some((class, payload)) => {
                lemma_update_last_packet_preserves(m, history, source, now);
                let (noted, noted_events) = spec_update_last_packet(m, source, now);
                let mid = history + noted_events;
                match class {
                    PacketClass::Heartbeat => {},
                    PacketClass::UnreliableMessage => {
                        let message = EventModel::Message { source, data: payload };
                        lemma_well_ordered_append_message(mid, source, payload);
                        assert(history + noted_events.push(message) =~= mid.push(message));
                        assert forall|a: Address| spec_has_conn(next.connections, a)
                            == spec_live(mid.push(message), a) by {
                            lemma_live_append_unrelated(mid, message, a);
                            assert(spec_has_conn(noted.connections, a) <==> spec_live(mid, a));
                        }
                    },
                    PacketClass::SequencedMessage => {
                        if payload.len() < SEQUENCED_HEADER_SIZE {
                        } else {
                            let i = spec_conn_index(noted.connections, source);
                            let number = spec_u16_from_le_bytes(
                                payload.subrange(payload.len() - 2, payload.len() as int),
                            );
                            if i >= 0 && spec_sequence_greater_than(
                                number,
                                noted.connections[i].last_received_packet_number,
                            ) {
                                let rest = payload.take(payload.len() - 2);
                                let message = EventModel::Message { source, data: rest };
                                let advanced = next.connections[i];
                                lemma_conn_index_props(noted.connections, source);
                                lemma_well_ordered_append_message(mid, source, rest);
                                assert(history + noted_events.push(message) =~= mid.push(message));
                                assert forall|p: int, q: int|
                                    0 <= p < q < next.connections.len() implies (
                                #[trigger] next.connections[p]).address != (
                                #[trigger] next.connections[q]).address by {
                                    assert(noted.connections[p].address
                                        != noted.connections[q].address);
                                }
                                assert forall|a: Address| spec_has_conn(next.connections, a)
                                    == spec_live(mid.push(message), a) by {
                                    lemma_conn_index_update(noted.connections, i, advanced, a);
                                    lemma_live_append_unrelated(mid, message, a);
                                    assert(spec_has_conn(noted.connections, a) <==> spec_live(
                                        mid,
                                        a,
                                    ));
                                }
                            }
                        }
                    },
                }
            },
        }
    }
}

/// Processing a batch of datagrams preserves the peer invariants.
proof fn lemma_process_incoming_preserves(
    m: PeerModel,
    history: Seq<EventModel>,
    incoming: Seq<PacketModel>,
    now: u64,
)
    requires
        spec_addrs_unique(m.connections),
        spec_events_well_ordered(history),
        spec_conn_live_link(m.connections, history),
    ensures
        ({
            let (next, new_events) = spec_process_incoming(m, incoming, now);
            &&& spec_addrs_unique(next.connections)
            &&& spec_events_well_ordered(history + new_events)
            &&& spec_conn_live_link(next.connections, history + new_events)
            &&& next.protocol_id == m.protocol_id
            &&& next.next_packet_number == m.next_packet_number
            &&& next.outgoing == m.outgoing
        }),
    decreases incoming.len(),
{
    let (next, new_events) = spec_process_incoming(m, incoming, now);
    if incoming.len() == 0 {
        assert(history + new_events =~= history);
    } else {
        let (m1, events1) = spec_process_incoming(m, incoming.drop_last(), now);
        let last = incoming.last();
        let (m2, events2) = spec_process_datagram(m1, last.address, last.data, now);
        lemma_process_incoming_preserves(m, history, incoming.drop_last(), now);
        lemma_process_datagram_preserves(m1, history + events1, last.address, last.data, now);
        assert(history + (events1 + events2) =~= (history + events1) + events2);
    }
}

/// Every event of the idle sweep is a `PeerTimedOut`.
proof fn lemma_check_timeouts_events(conns: Seq<Connection>, now: u64)
    ensures
        forall|k: int|
            0 <= k < spec_check_timeouts(conns, now).1.len() ==> (
            #[trigger] spec_check_timeouts(conns, now).1[k]) is PeerTimedOut,
    decreases conns.len(),
{
    if conns.len() == 0 {
    } else {
        lemma_check_timeouts_events(conns.drop_last(), now);
        let (kept, events) = spec_check_timeouts(conns.drop_last(), now);
        let (kept2, events2) = spec_check_timeouts(conns, now);
        assert forall|k: int| 0 <= k < events2.len() implies (#[trigger] events2[k])
            is PeerTimedOut by {
            if k < events.len() {
                assert(events2[k] == events[k]);
            }
        }
    }
}

/// Membership after the idle sweep: an address keeps its entry exactly
/// when it had one that was not timed out, and gets a timeout event
/// exactly when it had one that was.
proof fn lemma_check_timeouts_membership(conns: Seq<Connection>, now: u64, address: Address)
    requires
        spec_addrs_unique(conns),
    ensures
        ({
            let (kept, events) = spec_check_timeouts(conns, now);
            let i = spec_conn_index(conns, address);
            &&& (i >= 0 && !spec_timed_out(conns[i], now) <==> spec_has_conn(kept, address))
            &&& (i >= 0 && spec_timed_out(conns[i], now) <==> spec_contains_timeout(
                events,
                address,
            ))
        }),
    decreases conns.len(),
{
    let (kept, events) = spec_check_timeouts(conns, now);
    let i = spec_conn_index(conns, address);
    lemma_conn_index_props(conns, address);
    if conns.len() == 0 {
        lemma_conn_index_props(kept, address);
    } else {
        let butlast = conns.drop_last();
        let last = conns.last();
        let (kept1, events1) = spec_check_timeouts(butlast, now);
        assert forall|p: int, q: int| 0 <= p < q < butlast.len() implies (
        #[trigger] butlast[p]).address != (#[trigger] butlast[q]).address by {
            assert(conns[p].address != conns[q].address);
        }
        lemma_check_timeouts_membership(butlast, now, address);
        lemma_conn_index_props(butlast, address);
        let j = spec_conn_index(butlast, address);
        assert(butlast.push(last) =~= conns);
        lemma_conn_index_push(butlast, last, address);
        if spec_timed_out(last, now) {
            lemma_contains_timeout_push(
                events1,
                EventModel::PeerTimedOut { address: last.address },
                address,
            );
            if j >= 0 {
                assert(i == j);
                assert(conns[i] == butlast[j]);
                assert(last.address != address);
            } else if last.address == address {
                assert(i == conns.len() - 1);
                assert(conns[i] == last);
            }
        } else {
            lemma_conn_index_push(kept1, last, address);
            lemma_conn_index_props(kept1, address);
            if j >= 0 {
                assert(i == j);
                assert(conns[i] == butlast[j]);
                assert(last.address != address);
            } else if last.address == address {
                assert(i == conns.len() - 1);
                assert(conns[i] == last);
                assert(!spec_has_conn(kept1, address));
                assert(spec_conn_index(kept, address) == kept1.len());
            }
        }
    }
}

/// The idle sweep keeps the kept entries' addresses distinct.
proof fn lemma_check_timeouts_unique(conns: Seq<Connection>, now: u64)
    requires
        spec_addrs_unique(conns),
    ensures
        spec_addrs_unique(spec_check_timeouts(conns, now).0),
    decreases conns.len(),
{
    if conns.len() == 0 {
    } else {
        let butlast = conns.drop_last();
        let last = conns.last();
        let (kept1, _events1) = spec_check_timeouts(butlast, now);
        assert forall|p: int, q: int| 0 <= p < q < butlast.len() implies (
        #[trigger] butlast[p]).address != (#[trigger] butlast[q]).address by {
            assert(conns[p].address != conns[q].address);
        }
        lemma_check_timeouts_unique(butlast, now);
        if !spec_timed_out(last, now) {
            let kept = spec_check_timeouts(conns, now).0;
            assert(kept == kept1.push(last));
            assert forall|p: int| 0 <= p < butlast.len() implies (#[trigger] butlast[p]).address
                != last.address by {
                assert(conns[p].address != conns[conns.len() - 1].address);
            }
            lemma_check_timeouts_membership(butlast, now, last.address);
            lemma_conn_index_props(butlast, last.address);
            if spec_conn_index(butlast, last.address) >= 0 {
                assert(false);
            }
            assert(!spec_has_conn(kept1, last.address));
            lemma_conn_index_props(kept1, last.address);
            assert forall|p: int, q: int| 0 <= p < q < kept.len() implies (
            #[trigger] kept[p]).address != (#[trigger] kept[q]).address by {
                if q < kept.len() - 1 {
                    assert(kept1[p].address != kept1[q].address);
                } else {
                    assert(kept[q] == last);
                    assert(kept1[p].address != last.address);
                }
            }
        }
    }
}

/// The idle sweep preserves the peer invariants.
proof fn lemma_check_timeouts_preserves(conns: Seq<Connection>, history: Seq<EventModel>, now: u64)
    requires
        spec_addrs_unique(conns),
        spec_events_well_ordered(history),
        spec_conn_live_link(conns, history),
    ensures
        ({
            let (kept, events) = spec_check_timeouts(conns, now);
            &&& spec_addrs_unique(kept)
            &&& spec_events_well_ordered(history + events)
            &&& spec_conn_live_link(kept, history + events)
        }),
{
    let (kept, events) = spec_check_timeouts(conns, now);
    lemma_check_timeouts_events(conns, now);
    lemma_check_timeouts_unique(conns, now);
    assert forall|k: int| 0 <= k < events.len() implies !(#[trigger] events[k] is Message) by {}
    lemma_well_ordered_append_non_messages(history, events);
    assert forall|a: Address| spec_has_conn(kept, a) == spec_live(history + events, a) by {
        lemma_check_timeouts_membership(conns, now, a);
        lemma_live_append_timeouts(history, events, a);
        lemma_conn_index_props(conns, a);
        assert(spec_has_conn(conns, a) <==> spec_live(history, a));
    }
}

/// The heartbeat sweep keeps the table's shape: same length, same
/// addresses in the same order, every entry freshly sent to, and a
/// heartbeat datagram queued for every entry that owed one.
proof fn lemma_send_heartbeats_shape(
    conns: Seq<Connection>,
    outgoing: Seq<PacketModel>,
    now: u64,
    protocol_id: u32,
)
    ensures
        ({
            let (fresh, out) = spec_send_heartbeats(conns, outgoing, now, protocol_id);
            &&& fresh.len() == conns.len()
            &&& forall|i: int|
                0 <= i < conns.len() ==> (#[trigger] fresh[i]).address == conns[i].address
            &&& forall|i: int|
                0 <= i < conns.len() ==> !spec_needs_heartbeat(#[trigger] fresh[i], now)
            &&& forall|i: int|
                0 <= i < conns.len() && spec_needs_heartbeat(#[trigger] conns[i], now)
                    ==> spec_contains_heartbeat(out, conns[i].address, protocol_id)
        }),
    decreases conns.len(),
{
    if conns.len() == 0 {
    } else {
        let butlast = conns.drop_last();
        let last = conns.last();
        let (fresh1, out1) = spec_send_heartbeats(butlast, outgoing, now, protocol_id);
        let (fresh, out) = spec_send_heartbeats(conns, outgoing, now, protocol_id);
        lemma_send_heartbeats_shape(butlast, outgoing, now, protocol_id);
        assert forall|i: int|
            0 <= i < conns.len() && spec_needs_heartbeat(
                #[trigger] conns[i],
                now,
            ) implies spec_contains_heartbeat(out, conns[i].address, protocol_id) by {
            if i < conns.len() - 1 {
                assert(butlast[i] == conns[i]);
                assert(spec_contains_heartbeat(out1, conns[i].address, protocol_id));
                let k = choose|k: int|
                    0 <= k < out1.len() && out1[k] == (PacketModel {
                        address: conns[i].address,
                        data: spec_heartbeat_frame(protocol_id),
                    });
                assert(out[k] == out1[k]);
            } else {
                assert(out[out.len() - 1] == (PacketModel {
                    address: last.address,
                    data: spec_heartbeat_frame(protocol_id),
                }));
            }
        }
    }
}

/// The heartbeat sweep preserves the peer invariants.
proof fn lemma_send_heartbeats_preserves(
    conns: Seq<Connection>,
    outgoing: Seq<PacketModel>,
    now: u64,
    protocol_id: u32,
    history: Seq<EventModel>,
)
    requires
        spec_addrs_unique(conns),
        spec_conn_live_link(conns, history),
    ensures
        ({
            let (fresh, out) = spec_send_heartbeats(conns, outgoing, now, protocol_id);
            &&& spec_addrs_unique(fresh)
            &&& spec_conn_live_link(fresh, history)
        }),
{
    let (fresh, out) = spec_send_heartbeats(conns, outgoing, now, protocol_id);
    lemma_send_heartbeats_shape(conns, outgoing, now, protocol_id);
    assert forall|p: int, q: int| 0 <= p < q < fresh.len() implies (#[trigger] fresh[p]).address
        != (#[trigger] fresh[q]).address by {
        assert(conns[p].address != conns[q].address);
    }
    assert forall|a: Address| spec_has_conn(fresh, a) == spec_live(history, a) by {
        lemma_conn_index_addr_equal(fresh, conns, a);
        assert(spec_has_conn(conns, a) <==> spec_live(history, a));
    }
}

/// One sequenced send moves the outbound counter one step along the
/// packet-number stream, whether or not the datagram is accepted, and
/// the framed datagram carries the number the counter stood at. Together
/// with `lemma_packet_numbers_distinct`, no two sequenced sends within a
/// window of 2^16 share a number.
pub proof fn lemma_sequenced_send_numbering(
    m: PeerModel,
    target: Address,
    data: Seq<u8>,
    now: u64,
)
    ensures
        ({
            let (next, accepted) = spec_send(m, target, data, Reliability::Sequenced, now);
            &&& next.next_packet_number == spec_nth_packet_number(m.next_packet_number, 1)
            &&& accepted ==> next.outgoing.last() == (PacketModel {
                address: target,
                data: spec_frame(
                    data + spec_u16_to_le_bytes(m.next_packet_number),
                    PacketClass::SequencedMessage,
                    m.protocol_id,
                ),
            })
        }),
{
}

/// A datagram too short for the trailer, or whose trailer fails
/// validation, leaves the peer exactly as it was and emits nothing.
pub proof fn lemma_foreign_datagram_ignored(
    m: PeerModel,
    source: Address,
    data: Seq<u8>,
    now: u64,
)
    requires
        data.len() < HEADER_SIZE || spec_extract(data, m.protocol_id) is None,
    ensures
        spec_process_datagram(m, source, data, now) == (m, Seq::<EventModel>::empty()),
{
}

/// Processing a batch made only of foreign or truncated datagrams does
/// nothing at all.
proof fn lemma_foreign_process_incoming(m: PeerModel, incoming: Seq<PacketModel>, now: u64)
    requires
        forall|i: int|
            0 <= i < incoming.len() ==> (#[trigger] incoming[i]).data.len() < HEADER_SIZE
                || spec_extract(incoming[i].data, m.protocol_id) is None,
    ensures
        spec_process_incoming(m, incoming, now) == (m, Seq::<EventModel>::empty()),
    decreases incoming.len(),
{
    if incoming.len() == 0 {
    } else {
        let butlast = incoming.drop_last();
        assert forall|i: int|
            0 <= i < butlast.len() implies (#[trigger] butlast[i]).data.len() < HEADER_SIZE
            || spec_extract(butlast[i].data, m.protocol_id) is None by {
            assert(butlast[i] == incoming[i]);
        }
        lemma_foreign_process_incoming(m, butlast, now);
        assert(incoming.last() == incoming[incoming.len() - 1]);
        lemma_foreign_datagram_ignored(m, incoming.last().address, incoming.last().data, now);
        assert(Seq::<EventModel>::empty() + Seq::<EventModel>::empty() =~= Seq::<
            EventModel,
        >::empty());
    }
}

/// Idempotence of unknown-protocol drops: an update fed only foreign or
/// truncated datagrams is the same update fed nothing.
pub proof fn lemma_foreign_update_no_effect(m: PeerModel, incoming: Seq<PacketModel>, now: u64)
    requires
        forall|i: int|
            0 <= i < incoming.len() ==> (#[trigger] incoming[i]).data.len() < HEADER_SIZE
                || spec_extract(incoming[i].data, m.protocol_id) is None,
    ensures
        spec_update(m, incoming, now) == spec_update(m, Seq::<PacketModel>::empty(), now),
{
    lemma_foreign_process_incoming(m, incoming, now);
    let (kept, events2) = spec_check_timeouts(m.connections, now);
    assert(Seq::<EventModel>::empty() + events2 =~= events2);
}

/// A stream of foreign datagrams arriving at a peer with no connections
/// produces zero events.
pub proof fn lemma_foreign_update_no_events(m: PeerModel, incoming: Seq<PacketModel>, now: u64)
    requires
        m.connections.len() == 0,
        forall|i: int|
            0 <= i < incoming.len() ==> (#[trigger] incoming[i]).data.len() < HEADER_SIZE
                || spec_extract(incoming[i].data, m.protocol_id) is None,
    ensures
        spec_update(m, incoming, now).1 == Seq::<EventModel>::empty(),
{
    lemma_foreign_process_incoming(m, incoming, now);
    assert(m.connections =~= Seq::<Connection>::empty());
    assert(spec_check_timeouts(m.connections, now).1 =~= Seq::<EventModel>::empty());
    assert(Seq::<EventModel>::empty() + Seq::<EventModel>::empty() =~= Seq::<
        EventModel,
    >::empty());
}

/// Datagram processing never touches the protocol id, the outbound
/// sequence counter, or the outgoing queue.
proof fn lemma_process_incoming_fields(m: PeerModel, incoming: Seq<PacketModel>, now: u64)
    ensures
        ({
            let (next, _) = spec_process_incoming(m, incoming, now);
            &&& next.protocol_id == m.protocol_id
            &&& next.next_packet_number == m.next_packet_number
            &&& next.outgoing == m.outgoing
        }),
    decreases incoming.len(),
{
    if incoming.len() == 0 {
    } else {
        lemma_process_incoming_fields(m, incoming.drop_last(), now);
    }
}

/// Heartbeat liveness: after an update, no connection owes a heartbeat,
/// and every connection that owed one when the sweep ran has a
/// heartbeat datagram queued for it.
pub proof fn lemma_update_heartbeat_liveness(m: PeerModel, incoming: Seq<PacketModel>, now: u64)
    ensures
        ({
            let (m1, _) = spec_process_incoming(m, incoming, now);
            let (kept, _) = spec_check_timeouts(m1.connections, now);
            let (next, _) = spec_update(m, incoming, now);
            &&& forall|i: int|
                0 <= i < next.connections.len() ==> !spec_needs_heartbeat(
                    #[trigger] next.connections[i],
                    now,
                )
            &&& forall|i: int|
                0 <= i < kept.len() && spec_needs_heartbeat(#[trigger] kept[i], now)
                    ==> spec_contains_heartbeat(next.outgoing, kept[i].address, m.protocol_id)
        }),
{
    lemma_process_incoming_fields(m, incoming, now);
    let (m1, _) = spec_process_incoming(m, incoming, now);
    let (kept, _) = spec_check_timeouts(m1.connections, now);
    lemma_send_heartbeats_shape(kept, m1.outgoing, now, m1.protocol_id);
}

/// Refreshing `last_sent` for one target keeps the addresses, their
/// uniqueness, and the table/history agreement unchanged.
proof fn lemma_update_last_sent_preserves(
    conns: Seq<Connection>,
    target: Address,
    now: u64,
    history: Seq<EventModel>,
)
    requires
        spec_addrs_unique(conns),
        spec_conn_live_link(conns, history),
    ensures
        spec_addrs_unique(spec_update_last_sent(conns, target, now)),
        spec_conn_live_link(spec_update_last_sent(conns, target, now), history),
{
    let i = spec_conn_index(conns, target);
    if i >= 0 {
        lemma_conn_index_props(conns, target);
        let updated = spec_update_last_sent(conns, target, now);
        assert forall|p: int, q: int| 0 <= p < q < updated.len() implies (
        #[trigger] updated[p]).address != (#[trigger] updated[q]).address by {
            assert(conns[p].address != conns[q].address);
        }
        assert forall|a: Address| spec_has_conn(updated, a) == spec_live(history, a) by {
            lemma_conn_index_update(conns, i, updated[i], a);
            assert(spec_has_conn(conns, a) <==> spec_live(history, a));
        }
    }
}

} // verus!
