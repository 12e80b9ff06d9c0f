use udpcon::DirectionalInput;
use udpcon::FontId;
use udpcon::Orientation;

#[test]
fn directional_input_starts_released() {
    let input = DirectionalInput::new();
    assert!(!input.backward);
    assert!(!input.forward);
    assert!(!input.left);
    assert!(!input.right);
}

#[test]
fn font_ids_compare_by_raw_id() {
    assert_eq!(FontId::new(3), FontId::new(3));
    assert_ne!(FontId::new(3), FontId::new(4));
}

#[test]
fn orientations_are_distinct() {
    assert_ne!(Orientation::Horizontal, Orientation::Vertical);
}
