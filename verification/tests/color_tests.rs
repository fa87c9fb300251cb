use dither::color::Srgb8;

#[test]
fn key_packs_channels() {
    let c = Srgb8::new(0x12, 0x34, 0x56);
    assert_eq!(c.key(), 0x123456);
    assert_eq!(Srgb8::new(0, 0, 0).key(), 0);
    assert_eq!(Srgb8::new(255, 255, 255).key(), 0xFFFFFF);
    assert_eq!(Srgb8::new(255, 0, 0).key(), 0xFF0000);
    assert_eq!(Srgb8::new(0, 0, 255).key(), 0x0000FF);
}

#[test]
fn key_round_trip() {
    for &(r, g, b) in &[(0u8, 0u8, 0u8), (255, 255, 255), (1, 2, 3), (200, 100, 50)] {
        let c = Srgb8::new(r, g, b);
        let back = Srgb8::from_key(c.key());
        assert_eq!(back, c);
    }
}

#[test]
fn distinct_colors_distinct_keys() {
    let a = Srgb8::new(1, 0, 0);
    let b = Srgb8::new(0, 1, 0);
    let c = Srgb8::new(0, 0, 1);
    assert_ne!(a.key(), b.key());
    assert_ne!(b.key(), c.key());
    assert_ne!(a.key(), c.key());
}
