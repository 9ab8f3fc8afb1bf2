use iroh_esp32::protocol::Tenths;
use iroh_esp32::text::{
    char_count, chars_of, decimal_text, find, hex_encode, is_whitespace, parse_u64,
    push_left_aligned, push_right_aligned, same_text, signed_decimal_text, split_once, starts_with,
    trim,
};

#[test]
fn decimals_read_back() {
    for n in [0u64, 1, 9, 10, 99, 100, 1234567890, u64::MAX] {
        assert_eq!(decimal_text(n), n.to_string());
        assert_eq!(parse_u64(&decimal_text(n)), Some(n));
    }
    for n in [0i64, -1, 1, -127, i64::MIN, i64::MAX] {
        assert_eq!(signed_decimal_text(n), n.to_string());
    }
}

#[test]
fn numbers_parse_like_std() {
    let texts = [
        "", "+", "-", "0", "+0", "-0", "007", "1a", " 1", "1 ", "+-1", "++1",
        "18446744073709551615", "18446744073709551616", "99999999999999999999", "١",
        "000000000000000000000000000001",
    ];
    for text in texts {
        assert_eq!(parse_u64(text), text.parse::<u64>().ok(), "{text:?}");
    }
}

#[test]
fn hex_is_lower_case() {
    assert_eq!(hex_encode(&[]), "");
    assert_eq!(hex_encode(&[0x00, 0x0f, 0xf0, 0xab, 0xff]), "000ff0abff");
    for b in 0..=255u8 {
        assert_eq!(hex_encode(&[b]), format!("{b:02x}"));
    }
    assert_ne!(hex_encode(&[1, 0]), hex_encode(&[0, 1]));
}

#[test]
fn whitespace_is_what_std_says() {
    for n in 0..=0x10ffffu32 {
        if let Some(c) = char::from_u32(n) {
            assert_eq!(is_whitespace(c), c.is_whitespace(), "{n:x}");
        }
    }
}

#[test]
fn trims_like_std() {
    for text in ["", " ", "\t\n", "a", " a ", "a b", "\u{3000}é x\u{85}", "  trailing\r\n"] {
        assert_eq!(trim(text), text.trim(), "{text:?}");
    }
}

#[test]
fn splits_like_std() {
    for text in ["", ":", "a:b", "a:b:c", "ab", "::", "é:ü"] {
        assert_eq!(split_once(text, ":"), text.split_once(':'), "{text:?}");
    }
    for text in ["", "..", "1..2", "1...2", "1.2", "...", "1..2..3"] {
        assert_eq!(split_once(text, ".."), text.split_once(".."), "{text:?}");
    }
    assert_eq!(find("héllo", "l"), Some(2));
    assert_eq!(find("hello", "xyz"), None);
}

#[test]
fn prefixes_and_equality() {
    assert!(starts_with("--once", "--"));
    assert!(!starts_with("-", "--"));
    assert!(starts_with("x", ""));
    assert!(same_text("é", "é"));
    assert!(!same_text("a", "ab"));
    assert_eq!(char_count("°C"), 2);
    assert_eq!(chars_of("°C"), vec!['°', 'C']);
}

#[test]
fn padding_like_format() {
    for text in ["", "a", "°C", "exact", "too long for it"] {
        let mut out = "x".to_string();
        push_right_aligned(&mut out, text, 5);
        assert_eq!(out, format!("x{text:>5}"));
        let mut out = "x".to_string();
        push_left_aligned(&mut out, text, 5);
        assert_eq!(out, format!("x{text:<5}"));
    }
}

#[test]
fn tenths_are_written_like_floats() {
    for magnitude in 0..=65535u32 {
        for negative in [false, true] {
            let value = magnitude as f32;
            let value = if negative { -value } else { value } / 10.0;
            let tenths = Tenths { negative, magnitude };
            assert_eq!(tenths.to_text(), format!("{value:.1}"));
            assert_eq!(tenths.to_whole_text(), format!("{value:.0}"));
        }
    }
}
