use iroh_esp32::ieee::{at_most, less};
use iroh_esp32::led::{co2_band, encode, pending_color, pixel_frame, pixel_word, Band, Color};

#[test]
fn waveforms() {
    assert_eq!(encode(0), [0x92, 0x49, 0x24, 0x92, 0x49, 0x24, 0x92, 0x49, 0x24]);
    assert_eq!(encode(0xff_ffff), [0xdb, 0x6d, 0xb6, 0xdb, 0x6d, 0xb6, 0xdb, 0x6d, 0xb6]);
    assert_eq!(encode(0xff_00ff), [0xdb, 0x6d, 0xb6, 0x92, 0x49, 0x24, 0xdb, 0x6d, 0xb6]);
    assert_eq!(encode(0x80_0000), [0xd2, 0x49, 0x24, 0x92, 0x49, 0x24, 0x92, 0x49, 0x24]);
    assert_eq!(encode(0x00_0001), [0x92, 0x49, 0x24, 0x92, 0x49, 0x24, 0x92, 0x49, 0x26]);
}

#[test]
fn different_pixels_have_different_waveforms() {
    for bit in 0..24 {
        assert_ne!(encode(0x12_3456), encode(0x12_3456 ^ (1 << bit)));
    }
    assert_eq!(encode(0xff12_3456), encode(0x12_3456));
}

#[test]
fn pixels_are_green_red_blue() {
    assert_eq!(pixel_word(0x11, 0x22, 0x33), 0x22_1133);
    assert_eq!(pixel_frame(Color { r: 0x11, g: 0x22, b: 0x33 }), encode(0x22_1133));
    assert_eq!(pending_color(), Color { r: 18, g: 0, b: 24 });
}

fn band(ppm: f32) -> Band {
    co2_band(ppm.to_bits())
}

#[test]
fn bands_of_the_scale() {
    let blue = Color { r: 0, g: 0, b: 45 };
    let green = Color { r: 0, g: 45, b: 0 };
    let yellow = Color { r: 45, g: 35, b: 0 };
    let red = Color { r: 55, g: 0, b: 0 };
    let first = Band::Fade { low: 420, high: 650, from: blue, to: green };
    let second = Band::Fade { low: 650, high: 1000, from: green, to: yellow };
    let third = Band::Fade { low: 1000, high: 1500, from: yellow, to: red };
    for ppm in [f32::NEG_INFINITY, -1.0, -0.0, 0.0, 419.9, 420.0] {
        assert_eq!(band(ppm), Band::Solid { color: blue });
    }
    for ppm in [420.1, 500.0, 650.0] {
        assert_eq!(band(ppm), first);
    }
    for ppm in [650.1, 1000.0] {
        assert_eq!(band(ppm), second);
    }
    for ppm in [1000.1, 1500.0] {
        assert_eq!(band(ppm), third);
    }
    for ppm in [1500.1, 40000.0, f32::INFINITY, f32::NAN] {
        assert_eq!(band(ppm), Band::Solid { color: red });
    }
}

#[test]
fn bit_patterns_compare_like_floats() {
    let mut values = vec![
        0.0f32, -0.0, 1.0, -1.0, 2.0, 10.0, 420.0, 1500.0, f32::MIN_POSITIVE, f32::EPSILON,
        f32::MAX, f32::MIN, f32::INFINITY, f32::NEG_INFINITY, f32::NAN, f32::from_bits(1),
        f32::from_bits(0x8000_0001), f32::from_bits(0xffff_ffff),
    ];
    let mut bits = 1u32;
    for _ in 0..200 {
        bits = bits.wrapping_mul(1664525).wrapping_add(1013904223);
        values.push(f32::from_bits(bits));
    }
    for &a in &values {
        for &b in &values {
            assert_eq!(at_most(a.to_bits(), b.to_bits()), a <= b, "{a} {b}");
            assert_eq!(less(a.to_bits(), b.to_bits()), a < b, "{a} {b}");
        }
    }
}
