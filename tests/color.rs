use raytracer::color::Color;

#[test]
fn new_and_black() {
    let c = Color::new(1, 2, 3);
    assert_eq!((c.r, c.g, c.b), (1, 2, 3));
    assert_eq!(Color::black(), Color::new(0, 0, 0));
}

#[test]
fn from_hex_splits_channels() {
    assert_eq!(Color::from_hex(0x12AB7F), Color::new(0x12, 0xAB, 0x7F));
    assert_eq!(Color::from_hex(0xFF00_0001), Color::new(0, 0, 1));
}

#[test]
fn to_hex_packs_channels() {
    assert_eq!(Color::new(0x12, 0xAB, 0x7F).to_hex(), 0x12AB7F);
    assert_eq!(Color::new(255, 255, 255).to_hex(), 0xFFFFFF);
    assert_eq!(Color::black().to_hex(), 0);
}

#[test]
fn hex_round_trip() {
    let c = Color::new(200, 100, 50);
    assert_eq!(Color::from_hex(c.to_hex()), c);
    assert_eq!(Color::from_hex(0xABCDEF12).to_hex(), 0xCDEF12);
}

#[test]
fn add_saturates_per_channel() {
    let a = Color::new(200, 10, 255);
    let b = Color::new(100, 20, 1);
    assert_eq!(a + b, Color::new(255, 30, 255));
}
