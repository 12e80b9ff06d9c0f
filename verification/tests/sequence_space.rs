use udpcon::sequence_greater_than;

#[test]
fn greater_than_plain_ordering() {
    assert!(sequence_greater_than(2, 1));
    assert!(!sequence_greater_than(1, 2));
    assert!(!sequence_greater_than(5, 5));
}

#[test]
fn greater_than_wraparound() {
    // Just past the wrap, 0 is newer than 65535.
    assert!(sequence_greater_than(0, 65535));
    assert!(!sequence_greater_than(65535, 0));
    // Half the space ahead still counts as newer...
    assert!(sequence_greater_than(32768, 0));
    // ...but a full half-space behind does not.
    assert!(!sequence_greater_than(0, 32768));
    assert!(sequence_greater_than(1, 32770));
}

#[test]
fn greater_than_is_asymmetric_on_samples() {
    let samples = [0u16, 1, 2, 100, 32767, 32768, 32769, 65534, 65535];
    for &a in &samples {
        for &b in &samples {
            assert!(
                !(sequence_greater_than(a, b) && sequence_greater_than(b, a)),
                "both directions greater for {} and {}",
                a,
                b
            );
        }
    }
}

#[test]
fn successor_is_always_greater_on_samples() {
    let samples = [0u16, 1, 100, 32767, 32768, 65534, 65535];
    for &a in &samples {
        assert!(sequence_greater_than(a.wrapping_add(1), a));
    }
}
