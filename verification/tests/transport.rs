use udpcon::Address;
use udpcon::Error;
use udpcon::Event;
use udpcon::Packet;
use udpcon::Peer;
use udpcon::Reliability;

fn addr_a() -> Address {
    Address::V4 {
        ip: 0x7F00_0001,
        port: 40001,
    }
}

fn addr_b() -> Address {
    Address::V4 {
        ip: 0x7F00_0001,
        port: 40002,
    }
}

fn addr_c() -> Address {
    Address::V4 {
        ip: 0x7F00_0001,
        port: 40003,
    }
}

/// Re-addresses datagrams queued by one peer so they arrive at another
/// peer as coming from `from`.
fn deliver(from: Address, outgoing: Vec<Packet>) -> Vec<Packet> {
    outgoing
        .into_iter()
        .map(|packet| Packet {
            address: from,
            data: packet.data,
        })
        .collect()
}

#[test]
fn handshake_free_discovery() {
    let mut a = Peer::start("t");
    let mut b = Peer::start("t");
    let t0 = 100_000;

    b.connect(addr_a(), t0);
    let wire = b.take_outgoing();
    assert_eq!(wire.len(), 1);
    assert_eq!(wire[0].address, addr_a());

    let events: Vec<Event> = a.update(deliver(addr_b(), wire), t0 + 50);
    assert_eq!(events, vec![Event::NewPeer { address: addr_b() }]);
}

#[test]
fn unreliable_echo() {
    let mut a = Peer::start("t");
    let mut b = Peer::start("t");
    let t0 = 100_000;

    b.connect(addr_a(), t0);
    let events = a.update(deliver(addr_b(), b.take_outgoing()), t0 + 50);
    assert_eq!(events, vec![Event::NewPeer { address: addr_b() }]);

    b.send(
        addr_a(),
        vec![0xDE, 0xAD, 0xBE, 0xEF],
        Reliability::Unreliable,
        t0 + 60,
    )
    .unwrap();
    let events = a.update(deliver(addr_b(), b.take_outgoing()), t0 + 100);
    assert_eq!(
        events,
        vec![Event::Message {
            source: addr_b(),
            data: vec![0xDE, 0xAD, 0xBE, 0xEF],
        }]
    );
}

#[test]
fn sequenced_out_of_order_drop() {
    let mut a = Peer::start("t");
    let mut b = Peer::start("t");
    let t0 = 100_000;

    b.send(addr_a(), b"a".to_vec(), Reliability::Sequenced, t0).unwrap();
    let first = b.take_outgoing();
    b.send(addr_a(), b"b".to_vec(), Reliability::Sequenced, t0).unwrap();
    let second = b.take_outgoing();
    b.send(addr_a(), b"c".to_vec(), Reliability::Sequenced, t0).unwrap();
    let third = b.take_outgoing();

    // Delivered as "a", "c", "b": the late "b" is silently dropped.
    let mut delivered = deliver(addr_b(), first);
    delivered.extend(deliver(addr_b(), third));
    delivered.extend(deliver(addr_b(), second));

    let events = a.update(delivered, t0 + 50);
    assert_eq!(
        events,
        vec![
            Event::NewPeer { address: addr_b() },
            Event::Message {
                source: addr_b(),
                data: b"a".to_vec(),
            },
            Event::Message {
                source: addr_b(),
                data: b"c".to_vec(),
            },
        ]
    );
}

#[test]
fn wrong_protocol_produces_no_events() {
    let mut a = Peer::start("t");
    let mut b = Peer::start("t");
    let mut c = Peer::start("u");
    let t0 = 100_000;

    // A already knows B.
    b.connect(addr_a(), t0);
    let events = a.update(deliver(addr_b(), b.take_outgoing()), t0 + 50);
    assert_eq!(events.len(), 1);

    // C speaks another protocol; its datagram must have no visible effect.
    c.send(addr_a(), vec![0x00], Reliability::Unreliable, t0 + 60).unwrap();
    let events = a.update(deliver(addr_c(), c.take_outgoing()), t0 + 100);
    assert_eq!(events, vec![]);
}

#[test]
fn silent_peer_times_out_exactly_once() {
    let mut a = Peer::start("t");
    let mut b = Peer::start("t");
    let t0 = 100_000;

    b.connect(addr_a(), t0);
    let events = a.update(deliver(addr_b(), b.take_outgoing()), t0);
    assert_eq!(events, vec![Event::NewPeer { address: addr_b() }]);

    // B goes silent; A keeps polling every 100 ms.
    let mut timeouts = Vec::new();
    let mut others = Vec::new();
    for tick in 1..=60 {
        let now = t0 + tick * 100;
        for event in a.update(Vec::new(), now) {
            match event {
                Event::PeerTimedOut { address } => timeouts.push((now, address)),
                other => others.push(other),
            }
        }
    }
    assert_eq!(timeouts.len(), 1);
    let (when, who) = timeouts[0];
    assert_eq!(who, addr_b());
    assert!(when >= t0 + 5000 && when <= t0 + 5500);
    assert_eq!(others, vec![]);
}

#[test]
fn reconnect_after_timeout_raises_new_peer_again() {
    let mut a = Peer::start("t");
    let mut b = Peer::start("t");
    let t0 = 100_000;

    b.connect(addr_a(), t0);
    let events = a.update(deliver(addr_b(), b.take_outgoing()), t0);
    assert_eq!(events, vec![Event::NewPeer { address: addr_b() }]);

    let events = a.update(Vec::new(), t0 + 5000);
    assert_eq!(events, vec![Event::PeerTimedOut { address: addr_b() }]);

    b.connect(addr_a(), t0 + 6000);
    let events = a.update(deliver(addr_b(), b.take_outgoing()), t0 + 6000);
    assert_eq!(events, vec![Event::NewPeer { address: addr_b() }]);
}

#[test]
fn oversize_payload_is_rejected_without_transmission() {
    let mut b = Peer::start("t");
    let t0 = 100_000;

    let result = b.send(addr_a(), vec![0; 2048], Reliability::Unreliable, t0);
    assert_eq!(result, Err(Error::DataTooLarge));
    assert!(b.take_outgoing().is_empty());
}

#[test]
fn payload_size_boundaries() {
    let mut b = Peer::start("t");
    let t0 = 100_000;

    // 1019 + 5 bytes of framing == 1024: accepted.
    assert!(b.send(addr_a(), vec![0; 1019], Reliability::Unreliable, t0).is_ok());
    // 1020 + 5 == 1025: rejected.
    assert_eq!(
        b.send(addr_a(), vec![0; 1020], Reliability::Unreliable, t0),
        Err(Error::DataTooLarge)
    );
    // 1017 + 7 == 1024: accepted.
    assert!(b.send(addr_a(), vec![0; 1017], Reliability::Sequenced, t0).is_ok());
    // 1018 + 7 == 1025: rejected.
    assert_eq!(
        b.send(addr_a(), vec![0; 1018], Reliability::Sequenced, t0),
        Err(Error::DataTooLarge)
    );
    assert_eq!(b.take_outgoing().len(), 2);
}

#[test]
fn heartbeats_keep_flowing_while_updating() {
    let mut a = Peer::start("t");
    let mut b = Peer::start("t");
    let t0 = 100_000;

    b.connect(addr_a(), t0);
    a.update(deliver(addr_b(), b.take_outgoing()), t0);
    // The fresh connection owes a heartbeat immediately.
    let first = a.take_outgoing();
    assert!(first.iter().any(|p| p.address == addr_b() && p.data.len() == 5));

    // While B keeps talking, A sends B something at least every 1.1 s.
    let mut last_sent_at = t0;
    for tick in 1..=40 {
        let now = t0 + tick * 100;
        // B pings A so the connection never times out on A's side.
        b.connect(addr_a(), now);
        a.update(deliver(addr_b(), b.take_outgoing()), now);
        let outgoing = a.take_outgoing();
        if outgoing.iter().any(|p| p.address == addr_b()) {
            assert!(now - last_sent_at <= 1100);
            last_sent_at = now;
        }
    }
    assert!(last_sent_at >= t0 + 3000);
}

#[test]
fn empty_unreliable_message_is_delivered() {
    let mut a = Peer::start("t");
    let mut b = Peer::start("t");
    let t0 = 100_000;

    b.send(addr_a(), Vec::new(), Reliability::Unreliable, t0).unwrap();
    let events = a.update(deliver(addr_b(), b.take_outgoing()), t0);
    assert_eq!(
        events,
        vec![
            Event::NewPeer { address: addr_b() },
            Event::Message {
                source: addr_b(),
                data: vec![],
            },
        ]
    );
}

#[test]
fn both_directions_carry_messages() {
    let mut a = Peer::start("t");
    let mut b = Peer::start("t");
    let t0 = 100_000;

    b.send(addr_a(), b"ping".to_vec(), Reliability::Sequenced, t0).unwrap();
    let events = a.update(deliver(addr_b(), b.take_outgoing()), t0);
    assert_eq!(
        events,
        vec![
            Event::NewPeer { address: addr_b() },
            Event::Message {
                source: addr_b(),
                data: b"ping".to_vec(),
            },
        ]
    );

    a.send(addr_b(), b"pong".to_vec(), Reliability::Sequenced, t0 + 10).unwrap();
    let events = b.update(deliver(addr_a(), a.take_outgoing()), t0 + 10);
    assert_eq!(
        events,
        vec![
            Event::NewPeer { address: addr_a() },
            Event::Message {
                source: addr_a(),
                data: b"pong".to_vec(),
            },
        ]
    );
}

#[test]
fn connect_alone_creates_no_connection_entry() {
    // `connect` only sends a heartbeat; the entry appears when the
    // remote answers. A silent target therefore never "times out".
    let mut a = Peer::start("t");
    let t0 = 100_000;

    a.connect(addr_b(), t0);
    assert_eq!(a.take_outgoing().len(), 1);

    for tick in 1u64..=70 {
        let events = a.update(Vec::new(), t0 + tick * 100);
        assert_eq!(events, vec![]);
    }
}

#[test]
fn first_heartbeat_fires_immediately_then_respects_interval() {
    let mut a = Peer::start("t");
    let mut b = Peer::start("t");
    let t0 = 100_000;

    b.connect(addr_a(), t0);
    a.update(deliver(addr_b(), b.take_outgoing()), t0);
    // A fresh entry owes a heartbeat in the same update.
    assert_eq!(a.take_outgoing().len(), 1);

    // Within the following second, nothing more goes out.
    let events = a.update(Vec::new(), t0 + 1000);
    assert_eq!(events, vec![]);
    assert!(a.take_outgoing().is_empty());

    // Just past the interval, the next heartbeat fires.
    a.update(Vec::new(), t0 + 1001);
    let wire = a.take_outgoing();
    assert_eq!(wire.len(), 1);
    assert_eq!(wire[0].address, addr_b());
    assert_eq!(wire[0].data.len(), 5);
}

#[test]
fn sequenced_message_too_short_still_discovers_peer() {
    let mut a = Peer::start("t");
    let t0 = 100_000;

    // A hand-built sequenced datagram with no room for its packet
    // number: the peer is noted, the message is dropped.
    let id = crc::crc32::checksum_ieee(b"t");
    let mut data = Vec::new();
    data.push(2u8);
    data.extend_from_slice(&id.to_le_bytes());
    let events = a.update(
        vec![Packet {
            address: addr_b(),
            data,
        }],
        t0,
    );
    assert_eq!(events, vec![Event::NewPeer { address: addr_b() }]);
}

#[test]
fn protocol_id_matches_crc32_of_name() {
    let mut a = Peer::start("t");
    let t0 = 100_000;

    // A datagram framed by hand with the CRC32 the transport promises
    // to use. If the id did not match, the datagram would be dropped
    // and no events would come out.
    let id = crc::crc32::checksum_ieee(b"t");
    let mut data = vec![0x42];
    data.push(1u8);
    data.extend_from_slice(&id.to_le_bytes());
    let events = a.update(
        vec![Packet {
            address: addr_b(),
            data,
        }],
        t0,
    );
    assert_eq!(
        events,
        vec![
            Event::NewPeer { address: addr_b() },
            Event::Message {
                source: addr_b(),
                data: vec![0x42],
            },
        ]
    );
}

#[test]
fn sequenced_wraparound_accepts_post_wrap_numbers() {
    let mut a = Peer::start("t");
    let t0 = 100_000;
    let id = crc::crc32::checksum_ieee(b"t");

    let frame = |payload: &[u8], number: u16| {
        let mut data = payload.to_vec();
        data.extend_from_slice(&number.to_le_bytes());
        data.push(2u8);
        data.extend_from_slice(&id.to_le_bytes());
        Packet {
            address: addr_b(),
            data,
        }
    };

    let events = a.update(
        vec![
            // Walk the high-water mark towards the wrap...
            frame(b"w", 32768),
            frame(b"x", 65535),
            // ...then past it: 1 is newer than 65535.
            frame(b"y", 1),
            // A replay of 65535 is late now and must be dropped.
            frame(b"z", 65535),
        ],
        t0,
    );
    assert_eq!(
        events,
        vec![
            Event::NewPeer { address: addr_b() },
            Event::Message {
                source: addr_b(),
                data: b"w".to_vec(),
            },
            Event::Message {
                source: addr_b(),
                data: b"x".to_vec(),
            },
            Event::Message {
                source: addr_b(),
                data: b"y".to_vec(),
            },
        ]
    );
}

#[test]
fn first_sequenced_packet_number_is_one() {
    let mut b = Peer::start("t");
    let t0 = 100_000;

    b.send(addr_a(), b"hello".to_vec(), Reliability::Sequenced, t0).unwrap();
    let wire = b.take_outgoing();
    assert_eq!(wire.len(), 1);
    let data = &wire[0].data;
    // payload | seq:u16 | class | id:u32
    assert_eq!(&data[..5], b"hello");
    assert_eq!(u16::from_le_bytes([data[5], data[6]]), 1);
    assert_eq!(data[7], 2);
}

#[test]
fn sequence_numbers_increment_per_send() {
    let mut b = Peer::start("t");
    let t0 = 100_000;

    for expected in 1u16..=5 {
        b.send(addr_a(), Vec::new(), Reliability::Sequenced, t0).unwrap();
        let wire = b.take_outgoing();
        let data = &wire[0].data;
        assert_eq!(u16::from_le_bytes([data[0], data[1]]), expected);
    }
}
