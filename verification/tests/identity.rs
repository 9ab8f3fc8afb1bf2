use iroh_esp32::identity::{
    browser_identity, client_identity, identity_with, parse_secret_key, stored_secret, Identity,
    KeyError,
};
use iroh_esp32::text::hex_encode;

const HEX: &str = "ae58ff8833241ac82d6ff7611046ed67b5072d142c588d0063e942d9a75502b6";

fn bytes_of(hex: &str) -> [u8; 32] {
    let mut bytes = [0u8; 32];
    for (i, byte) in bytes.iter_mut().enumerate() {
        *byte = u8::from_str_radix(&hex[2 * i..2 * i + 2], 16).unwrap();
    }
    bytes
}

/// Unpadded lower-case base32.
fn base32(bytes: &[u8]) -> String {
    let bit = |i: usize| bytes.get(i / 8).map_or(0, |b| b >> (7 - i % 8) & 1);
    let digit = |k: usize| (0..5).fold(0, |d, j| 2 * d + bit(5 * k + j));
    let count = (8 * bytes.len() + 4) / 5;
    (0..count)
        .map(|k| {
            let d = digit(k);
            if d < 26 { (b'a' + d) as char } else { (b'2' + d - 26) as char }
        })
        .collect()
}

#[test]
fn keys_in_hex_and_base32() {
    let bytes = bytes_of(HEX);
    assert_eq!(parse_secret_key(Some(HEX)), Ok(Some(bytes)));
    let text = base32(&bytes);
    assert_eq!(text.len(), 52);
    assert_eq!(parse_secret_key(Some(&text)), Ok(Some(bytes)));
    assert_eq!(parse_secret_key(Some(&text.to_uppercase())), Ok(Some(bytes)));
    assert_eq!(parse_secret_key(None), Ok(None));
}

#[test]
fn texts_that_are_no_keys() {
    let failed = |text: &str| parse_secret_key(Some(text)).unwrap_err();
    assert_eq!(failed(&HEX.to_uppercase()), KeyError::Hex);
    assert_eq!(failed(&HEX.replace('a', "g")), KeyError::Hex);
    assert_eq!(failed(&"é".repeat(32)), KeyError::Hex);
    assert_eq!(failed(&"1".repeat(52)), KeyError::Base32);
    assert_eq!(failed(&"b".repeat(52)), KeyError::Base32);
    assert_eq!(failed(&"é".repeat(26)), KeyError::Base32);
    assert_eq!(failed(""), KeyError::Length);
    assert_eq!(failed(&HEX[1..]), KeyError::Length);
    assert_eq!(failed(&format!(" {HEX}")), KeyError::Length);
}

#[test]
fn key_errors_read_as_the_key_parser_words_them() {
    for (text, error) in [
        ("g".repeat(64), KeyError::Hex),
        ("1".repeat(52), KeyError::Base32),
        (String::new(), KeyError::Length),
    ] {
        let outside = text.parse::<iroh::SecretKey>().unwrap_err();
        assert_eq!(parse_secret_key(Some(&text)), Err(error));
        assert_eq!(error.message(), outside.to_string());
    }
    assert_eq!(KeyError::Data.message(), "data is not a valid public key");
}

#[test]
fn a_client_keeps_the_secret_it_is_given() {
    let identity = client_identity(Some(HEX)).unwrap();
    assert!(!identity.fresh);
    assert_eq!(identity.secret, bytes_of(HEX));
    assert_eq!(client_identity(Some(" ")).unwrap_err(), KeyError::Length);
}

#[test]
fn a_client_without_a_secret_gets_one() {
    let first = client_identity(None).unwrap();
    let second = client_identity(None).unwrap();
    assert!(first.fresh && second.fresh);
    assert_ne!(first.secret, second.secret);
    assert_eq!(first.reuse_setting(), format!("\tIROH_SECRET={}", hex_encode(&first.secret)));
}

#[test]
fn an_identity_is_what_was_given_or_drawn() {
    let drawn = [7u8; 32];
    let fresh = identity_with(None, drawn).unwrap();
    assert!(fresh.fresh);
    assert_eq!(fresh.secret, drawn);
    let kept = identity_with(Some(HEX), drawn).unwrap();
    assert!(!kept.fresh);
    assert_eq!(kept.secret, bytes_of(HEX));
    assert_eq!(identity_with(Some(""), drawn).unwrap_err(), KeyError::Length);
}

#[test]
fn a_blank_secret_is_none() {
    assert_eq!(stored_secret(None), None);
    assert_eq!(stored_secret(Some("")), None);
    assert_eq!(stored_secret(Some("\u{2003}\n")), None);
    assert_eq!(stored_secret(Some(" a b\t")), Some("a b"));
}

#[test]
fn a_browser_trims_what_it_stored() {
    for text in [HEX.to_string(), format!("  {HEX}\n")] {
        let identity = browser_identity(Some(&text)).unwrap();
        assert!(!identity.fresh);
        assert_eq!(identity.secret, bytes_of(HEX));
    }
    for blank in [None, Some(""), Some(" \t\n")] {
        assert!(browser_identity(blank).unwrap().fresh);
    }
    assert_eq!(browser_identity(Some(" x ")).unwrap_err(), KeyError::Length);
}

#[test]
fn stored_secrets_read_back() {
    for _ in 0..20 {
        let fresh = browser_identity(None).unwrap();
        let hex = fresh.secret_hex();
        for text in [hex.clone(), format!("\u{3000}\r\n{hex}"), format!("\t{hex} \u{85}")] {
            let again = browser_identity(Some(&text)).unwrap();
            assert!(!again.fresh);
            assert_eq!(again.secret, fresh.secret);
            assert_eq!(again.endpoint_id(), fresh.endpoint_id());
        }
    }
}

#[test]
fn ids_are_the_public_keys() {
    let identity = Identity { secret: bytes_of(HEX), fresh: false };
    let public = iroh::SecretKey::from_bytes(&identity.secret).public();
    assert_eq!(identity.public(), *public.as_bytes());
    assert_eq!(identity.endpoint_id(), public.to_string());
    assert_ne!(identity.public(), identity.secret);
}
