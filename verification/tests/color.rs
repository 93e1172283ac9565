use game_of_life::color::Color;

#[test]
fn colour_packs_to_red_green_blue_bytes() {
    assert_eq!(Color::new(0x12, 0x34, 0x56).to_hex(), 0x0012_3456);
    assert_eq!(Color::new(255, 0, 0).to_hex(), 0x00ff_0000);
    assert_eq!(Color::new(0, 255, 0).to_hex(), 0x0000_ff00);
    assert_eq!(Color::new(0, 0, 255).to_hex(), 0x0000_00ff);
}

#[test]
fn black_and_white() {
    assert_eq!(Color::black(), Color::new(0, 0, 0));
    assert_eq!(Color::white(), Color::new(255, 255, 255));
    assert_eq!(Color::black().to_hex(), 0);
    assert_eq!(Color::white().to_hex(), 0x00ff_ffff);
}

#[test]
fn colour_unpacks_from_the_low_three_bytes() {
    assert_eq!(Color::from_hex(0x0012_3456), Color::new(0x12, 0x34, 0x56));
    assert_eq!(Color::from_hex(0xab12_3456), Color::new(0x12, 0x34, 0x56));
    assert_eq!(Color::from_hex(0xffff_ffff), Color::white());
}

#[test]
fn packing_and_unpacking_are_inverse() {
    for &(r, g, b) in &[(0u8, 0u8, 0u8), (1, 2, 3), (255, 254, 253), (128, 0, 255), (7, 77, 177)] {
        let c = Color::new(r, g, b);
        assert_eq!(Color::from_hex(c.to_hex()), c);
        assert_eq!((c.r, c.g, c.b), (r, g, b));
    }
    for &word in &[0u32, 1, 0x00ff_ffff, 0x0080_4020, 0xdead_beef] {
        assert_eq!(Color::from_hex(word).to_hex(), word & 0x00ff_ffff);
    }
}
