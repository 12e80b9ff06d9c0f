use udpcon::Header;
use udpcon::PacketClass;
use udpcon::SequencedHeader;

#[test]
fn header_serialization_works_two_ways() {
    let header = Header {
        class: PacketClass::UnreliableMessage,
    };
    let payload = vec![55; 32];
    let mut data = payload.clone();
    let protocol_id = 5;

    header.write_to(&mut data, protocol_id);
    let res = Header::extract(data.clone(), protocol_id);

    assert!(res.is_some());
    let (new_header, new_payload) = res.unwrap();
    assert_eq!(payload, new_payload);
    assert_eq!(header, new_header)
}

#[test]
fn header_layout_is_class_byte_then_little_endian_id() {
    let header = Header {
        class: PacketClass::UnreliableMessage,
    };
    let mut data = vec![0xAA, 0xBB];
    header.write_to(&mut data, 0x01020304);
    assert_eq!(data, vec![0xAA, 0xBB, 0x01, 0x04, 0x03, 0x02, 0x01]);
}

#[test]
fn heartbeat_frame_is_five_bytes() {
    let header = Header {
        class: PacketClass::Heartbeat,
    };
    let mut data = Vec::new();
    header.write_to(&mut data, 0xDEADBEEF);
    assert_eq!(data, vec![0x00, 0xEF, 0xBE, 0xAD, 0xDE]);
}

#[test]
fn extract_rejects_foreign_protocol_id() {
    let header = Header {
        class: PacketClass::UnreliableMessage,
    };
    let mut data = vec![1, 2, 3];
    header.write_to(&mut data, 77);
    assert!(Header::extract(data, 78).is_none());
}

#[test]
fn extract_rejects_unknown_class_byte() {
    // Hand-built frame: payload, an out-of-range class byte, then the id.
    let data = vec![9, 9, 3, 5, 0, 0, 0];
    assert!(Header::extract(data, 5).is_none());
}

#[test]
fn extract_round_trips_every_class() {
    for class in [
        PacketClass::Heartbeat,
        PacketClass::UnreliableMessage,
        PacketClass::SequencedMessage,
    ] {
        let header = Header { class };
        let mut data = vec![7, 8, 9];
        header.write_to(&mut data, 0xFFFF_FFFF);
        let (parsed, payload) = Header::extract(data, 0xFFFF_FFFF).unwrap();
        assert_eq!(parsed.class, class);
        assert_eq!(payload, vec![7, 8, 9]);
    }
}

#[test]
fn sequenced_header_round_trips() {
    let header = SequencedHeader {
        packet_number: 0xBEEF,
    };
    let mut data = vec![1, 2, 3];
    header.write_to(&mut data);
    assert_eq!(data, vec![1, 2, 3, 0xEF, 0xBE]);
    let (parsed, rest) = SequencedHeader::extract(data);
    assert_eq!(parsed.packet_number, 0xBEEF);
    assert_eq!(rest, vec![1, 2, 3]);
}
