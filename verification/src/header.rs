//! The datagram trailer codec.
//!
//! Headers are appended to the *end* of a datagram so that a payload the
//! caller already owns never has to be shifted: framing is pure appending.
//! The trailer is five bytes: one class byte followed by the four-byte
//! little-endian protocol identifier. A sequenced message additionally
//! carries a two-byte little-endian packet number immediately before
//! those five bytes.

use vstd::bytes::{
    lemma_auto_spec_u16_to_from_le_bytes, lemma_auto_spec_u32_to_from_le_bytes,
    spec_u16_from_le_bytes, spec_u16_to_le_bytes, spec_u32_from_le_bytes, spec_u32_to_le_bytes,
    u16_from_le_bytes, u16_to_le_bytes, u32_from_le_bytes, u32_to_le_bytes,
};
use vstd::prelude::*;
use vstd::slice::slice_subrange;

verus! {

/// Number of trailing bytes occupied by the class byte and protocol id.
pub const HEADER_SIZE: usize = 5;

/// Number of bytes occupied by the packet number of a sequenced message.
pub const SEQUENCED_HEADER_SIZE: usize = 2;

/// The class of a datagram, encoded as the byte in front of the trailing
/// protocol id.
#[derive(Debug, PartialEq, Eq, Structural, Clone, Copy)]
pub enum PacketClass {
    Heartbeat,
    UnreliableMessage,
    SequencedMessage,
}

/// The byte encoding a packet class on the wire.
pub open spec fn spec_class_to_u8(class: PacketClass) -> u8 {
    match class {
        PacketClass::Heartbeat => 0,
        PacketClass::UnreliableMessage => 1,
        PacketClass::SequencedMessage => 2,
    }
}

/// The packet class a wire byte stands for, if any.
pub open spec fn spec_class_from_u8(byte: u8) -> Option<PacketClass> {
    if byte == 0 {
        Some(PacketClass::Heartbeat)
    } else if byte == 1 {
        Some(PacketClass::UnreliableMessage)
    } else if byte == 2 {
        Some(PacketClass::SequencedMessage)
    } else {
        None
    }
}

impl PacketClass {
    /// Encodes the class as its wire byte.
    pub fn to_u8(self) -> (byte: u8)
        ensures
            byte == spec_class_to_u8(self),
    {
        match self {
            PacketClass::Heartbeat => 0,
            PacketClass::UnreliableMessage => 1,
            PacketClass::SequencedMessage => 2,
        }
    }

    /// Decodes a wire byte back into a class; unrecognized bytes yield `None`.
    pub fn from_u8(byte: u8) -> (class: Option<PacketClass>)
        ensures
            class == spec_class_from_u8(byte),
    {
        if byte == 0 {
            Some(PacketClass::Heartbeat)
        } else if byte == 1 {
            Some(PacketClass::UnreliableMessage)
        } else if byte == 2 {
            Some(PacketClass::SequencedMessage)
        } else {
            None
        }
    }
}

/// A payload framed with its trailing class byte and protocol id.
pub open spec fn spec_frame(payload: Seq<u8>, class: PacketClass, protocol_id: u32) -> Seq<u8> {
    payload.push(spec_class_to_u8(class)) + spec_u32_to_le_bytes(protocol_id)
}

/// The result of decoding a framed datagram: the class and the remaining
/// payload, or `None` when the protocol id does not match or the class
/// byte is unrecognized.
pub open spec fn spec_extract(data: Seq<u8>, protocol_id: u32) -> Option<(PacketClass, Seq<u8>)>
    recommends
        data.len() >= HEADER_SIZE,
{
    let len = data.len() as int;
    if spec_u32_from_le_bytes(data.subrange(len - 4, len)) != protocol_id {
        None
    } else {
        match spec_class_from_u8(data[len - 5]) {
            Some(class) => Some((class, data.take(len - 5))),
            None => None,
        }
    }
}

/// The fixed five-byte trailer of every datagram.
#[derive(Debug, PartialEq, Eq, Structural, Clone, Copy)]
pub struct Header {
    pub class: PacketClass,
}

impl Header {
    /// Appends the class byte and the little-endian protocol id to `data`,
    /// leaving the payload bytes in place.
    pub fn write_to(&self, data: &mut Vec<u8>, protocol_id: u32)
        ensures
            final(data)@ == spec_frame(old(data)@, self.class, protocol_id),
    {
        data.push(self.class.to_u8());
        let mut id_bytes = u32_to_le_bytes(protocol_id);
        data.append(&mut id_bytes);
    }

    /// Validates the trailing protocol id and class byte of `data`.
    /// On success, returns the class and the datagram with the five-byte
    /// trailer removed; a foreign protocol id or an unrecognized class
    /// byte yields `None`.
    pub fn extract(data: Vec<u8>, protocol_id: u32) -> (result: Option<(Header, Vec<u8>)>)
        requires
            data@.len() >= HEADER_SIZE,
        ensures
            match spec_extract(data@, protocol_id) {
                Some((class, payload)) => {
                    &&& result matches Some(pair)
                    &&& pair.0.class == class
                    &&& pair.1@ == payload
                },
                None => result is None,
            },
    {
        let len = data.len();
        let start = len - HEADER_SIZE;

        let id_bytes = slice_subrange(data.as_slice(), len - 4, len);
        let client_protocol_id = u32_from_le_bytes(id_bytes);
        if client_protocol_id != protocol_id {
            return None;
        }

        match PacketClass::from_u8(data[start]) {
            Some(class) => {
                let mut data = data;
                data.truncate(start);
                Some((Header { class }, data))
            },
            None => None,
        }
    }
}

/// The two-byte packet number carried by sequenced messages, sitting
/// immediately before the fixed trailer.
#[derive(Debug, PartialEq, Eq, Structural, Clone, Copy)]
pub struct SequencedHeader {
    pub packet_number: u16,
}

impl SequencedHeader {
    /// Appends the little-endian packet number to `data`.
    pub fn write_to(&self, data: &mut Vec<u8>)
        ensures
            final(data)@ == old(data)@ + spec_u16_to_le_bytes(self.packet_number),
    {
        let mut number_bytes = u16_to_le_bytes(self.packet_number);
        data.append(&mut number_bytes);
    }

    /// Reads the trailing two-byte packet number and returns it together
    /// with the datagram truncated in front of it.
    pub fn extract(data: Vec<u8>) -> (result: (SequencedHeader, Vec<u8>))
        requires
            data@.len() >= SEQUENCED_HEADER_SIZE,
        ensures
            result.0.packet_number == spec_u16_from_le_bytes(
                data@.subrange(data@.len() - 2, data@.len() as int),
            ),
            result.1@ == data@.take(data@.len() - 2),
    {
        let len = data.len();
        let start = len - SEQUENCED_HEADER_SIZE;

        let number_bytes = slice_subrange(data.as_slice(), start, len);
        let packet_number = u16_from_le_bytes(number_bytes);

        let mut data = data;
        data.truncate(start);

        (SequencedHeader { packet_number }, data)
    }
}

/// Round-trip framing: decoding a framed payload with the id it was
/// framed with yields the class and the payload back, exactly.
pub proof fn lemma_frame_round_trip(payload: Seq<u8>, class: PacketClass, protocol_id: u32)
    ensures
        spec_extract(spec_frame(payload, class, protocol_id), protocol_id) == Some(
            (class, payload),
        ),
{
    lemma_auto_spec_u32_to_from_le_bytes();
    let framed = spec_frame(payload, class, protocol_id);
    let len = framed.len() as int;
    assert(framed.subrange(len - 4, len) =~= spec_u32_to_le_bytes(protocol_id));
    assert(framed[len - 5] == spec_class_to_u8(class));
    assert(framed.take(len - 5) =~= payload);
}

/// Decoding a framed payload under any other protocol id yields nothing:
/// foreign traffic is rejected outright.
pub proof fn lemma_frame_foreign_protocol(
    payload: Seq<u8>,
    class: PacketClass,
    protocol_id: u32,
    other_id: u32,
)
    requires
        other_id != protocol_id,
    ensures
        spec_extract(spec_frame(payload, class, protocol_id), other_id) is None,
{
    lemma_auto_spec_u32_to_from_le_bytes();
    let framed = spec_frame(payload, class, protocol_id);
    let len = framed.len() as int;
    assert(framed.subrange(len - 4, len) =~= spec_u32_to_le_bytes(protocol_id));
}

} // verus!
