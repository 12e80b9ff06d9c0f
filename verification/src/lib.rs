//! A connectionless, bidirectional UDP datagram transport that layers
//! protocol identification, heartbeats, timeouts and optional sequencing
//! over raw datagrams.
//!
//! The crate is a sans-I/O core: every decision the transport makes
//! (framing, validation, connection bookkeeping, timeouts, heartbeats)
//! is implemented and verified here on plain values. The caller owns the
//! socket, samples a monotonic clock, and shuttles datagrams between the
//! socket and [`Peer`].

use vstd::prelude::*;

mod address;
mod checksum;
mod connection;
mod events;
mod header;
mod input;
mod peer;
mod sequence;
mod ui;
mod worker;

pub use address::Address;
pub use checksum::crc32_of;
pub use connection::spec_addrs_unique;
pub use connection::spec_conn_index;
pub use connection::spec_has_conn;
pub use connection::Connection;
pub use events::lemma_live_witness;
pub use events::lemma_message_preceded;
pub use events::spec_contains_timeout;
pub use events::spec_events_view;
pub use events::spec_events_well_ordered;
pub use events::spec_live;
pub use events::Event;
pub use events::EventModel;
pub use header::lemma_frame_foreign_protocol;
pub use header::lemma_frame_round_trip;
pub use header::spec_class_from_u8;
pub use header::spec_class_to_u8;
pub use header::spec_extract;
pub use header::spec_frame;
pub use header::Header;
pub use header::PacketClass;
pub use header::SequencedHeader;
pub use header::HEADER_SIZE;
pub use header::SEQUENCED_HEADER_SIZE;
pub use input::DirectionalInput;
pub use peer::lemma_foreign_datagram_ignored;
pub use peer::lemma_sequenced_send_numbering;
pub use peer::lemma_foreign_update_no_effect;
pub use peer::lemma_foreign_update_no_events;
pub use peer::lemma_update_heartbeat_liveness;
pub use peer::spec_check_timeouts;
pub use peer::spec_contains_heartbeat;
pub use peer::spec_heartbeat_frame;
pub use peer::spec_initial_last_sent;
pub use peer::spec_needs_heartbeat;
pub use peer::spec_next_packet_number;
pub use peer::spec_overhead;
pub use peer::spec_packets_view;
pub use peer::spec_process_datagram;
pub use peer::spec_process_incoming;
pub use peer::spec_process_sequenced;
pub use peer::spec_send;
pub use peer::spec_send_heartbeat_to;
pub use peer::spec_send_heartbeats;
pub use peer::spec_send_packet;
pub use peer::spec_timed_out;
pub use peer::spec_update;
pub use peer::spec_update_last_packet;
pub use peer::spec_update_last_sent;
pub use peer::Packet;
pub use peer::PacketModel;
pub use peer::Peer;
pub use peer::PeerModel;
pub use peer::Reliability;
pub use peer::HEARTBEAT_INTERVAL_MS;
pub use peer::INITIAL_LAST_SENT_OFFSET_MS;
pub use peer::TIMEOUT_MS;
pub use sequence::lemma_nth_packet_number_step;
pub use sequence::lemma_packet_numbers_distinct;
pub use sequence::lemma_sequence_greater_than_asymmetric;
pub use sequence::lemma_sequence_successor_greater;
pub use sequence::sequence_greater_than;
pub use sequence::spec_nth_packet_number;
pub use sequence::spec_sequence_greater_than;
pub use sequence::SEQUENCE_HALF;
pub use ui::FontId;
pub use ui::Orientation;
pub use worker::should_deliver;
pub use worker::PendingSends;

verus! {

/// Upper bound on the total size of one datagram, framing included.
/// This number for Maximum Transmission Unit is frequently used in the
/// games industry as a good rule of thumb for what's likely to be safe
/// in most real-world situations.
pub const MTU_ESTIMATE: usize = 1024;

/// Errors surfaced to the caller of the transport.
#[derive(Debug, PartialEq, Eq, Structural, Clone, Copy)]
pub enum Error {
    /// The payload plus its framing would exceed the datagram size budget.
    DataTooLarge,
}

} // verus!
