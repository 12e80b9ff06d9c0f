use udpcon::should_deliver;
use udpcon::Address;
use udpcon::Packet;
use udpcon::PendingSends;

fn packet(port: u16, byte: u8) -> Packet {
    Packet {
        address: Address::V4 {
            ip: 0x7F00_0001,
            port,
        },
        data: vec![byte],
    }
}

#[test]
fn pending_sends_is_first_in_first_out() {
    let mut queue = PendingSends::new();
    assert!(queue.is_empty());
    queue.push_back(packet(1, 10));
    queue.push_back(packet(2, 20));
    queue.push_back(packet(3, 30));
    assert_eq!(queue.len(), 3);

    assert_eq!(queue.pop_front().unwrap().data, vec![10]);
    assert_eq!(queue.pop_front().unwrap().data, vec![20]);
    assert_eq!(queue.pop_front().unwrap().data, vec![30]);
    assert!(queue.pop_front().is_none());
}

#[test]
fn refused_datagram_is_retried_first() {
    let mut queue = PendingSends::new();
    queue.push_back(packet(1, 10));
    queue.push_back(packet(2, 20));

    // The socket refused the first datagram: put it back in front.
    let refused = queue.pop_front().unwrap();
    queue.push_front(refused);

    assert_eq!(queue.pop_front().unwrap().data, vec![10]);
    assert_eq!(queue.pop_front().unwrap().data, vec![20]);
}

#[test]
fn too_short_datagrams_are_not_delivered() {
    assert!(!should_deliver(0));
    assert!(!should_deliver(4));
    assert!(should_deliver(5));
    assert!(should_deliver(1024));
}
