use iroh_esp32::identity::{client_identity, Identity};
use iroh_esp32::ticket::{
    bad_ticket, long_ticket, read_ticket, read_trimmed_ticket, short_ticket, ticket_of, Address,
    Ticket,
};
use iroh_tickets::endpoint::EndpointTicket;

const HEX: &str = "ae58ff8833241ac82d6ff7611046ed67b5072d142c588d0063e942d9a75502b6";

fn bytes_of(hex: &str) -> [u8; 32] {
    let mut bytes = [0u8; 32];
    for (i, byte) in bytes.iter_mut().enumerate() {
        *byte = u8::from_str_radix(&hex[2 * i..2 * i + 2], 16).unwrap();
    }
    bytes
}

/// Unpadded lower-case base32.
fn base32(bytes: &[u8]) -> String {
    let bit = |i: usize| bytes.get(i / 8).map_or(0, |b| b >> (7 - i % 8) & 1);
    let digit = |k: usize| (0..5).fold(0, |d, j| 2 * d + bit(5 * k + j));
    let count = (8 * bytes.len() + 4) / 5;
    (0..count)
        .map(|k| {
            let d = digit(k);
            if d < 26 { (b'a' + d) as char } else { (b'2' + d - 26) as char }
        })
        .collect()
}

fn endpoint() -> Identity {
    Identity { secret: bytes_of(HEX), fresh: false }
}

/// The endpoint with these addresses.
fn known(addresses: Vec<Address>) -> Ticket {
    Ticket { id: endpoint().public(), addresses }
}

fn ip(text: &str) -> Address {
    Address::Ip(text.to_string())
}

fn relay(url: &str) -> Address {
    Address::Relay(url.to_string())
}

/// What the ticket crate writes for the endpoint with these addresses.
fn outside(addresses: Vec<iroh::TransportAddr>) -> String {
    let id = iroh::PublicKey::from_bytes(&endpoint().public()).unwrap();
    EndpointTicket::new(iroh::EndpointAddr::from_parts(id, addresses)).to_string()
}

#[test]
fn short_tickets_read_back() {
    let identity = endpoint();
    let id = identity.public();
    let text = ticket_of(&identity);
    let mut bytes = vec![0u8];
    bytes.extend_from_slice(&id);
    bytes.push(0);
    assert_eq!(text, format!("endpoint{}", base32(&bytes)));
    assert_eq!(text, outside(vec![]));
    assert_eq!(short_ticket(&id), Some(text.clone()));
    assert_eq!(read_ticket(&text), Ok(known(vec![])));
    assert_eq!(read_trimmed_ticket(&format!(" {text}\r\n")), Ok(known(vec![])));
    assert!(read_ticket(&format!(" {text}")).is_err());
}

#[test]
fn long_tickets_read_back() {
    let ports: [(u16, &[u8]); 6] = [
        (0, &[0]),
        (127, &[127]),
        (128, &[0x80, 1]),
        (16383, &[0xff, 0x7f]),
        (16384, &[0x80, 0x80, 1]),
        (65535, &[0xff, 0xff, 3]),
    ];
    for (port, written) in ports {
        let mut bytes = vec![0u8];
        bytes.extend_from_slice(&endpoint().public());
        bytes.extend_from_slice(&[1, 1, 0, 192, 168, 1, 20]);
        bytes.extend_from_slice(written);
        let text = long_ticket(known(vec![]), [192, 168, 1, 20], port).unwrap();
        assert_eq!(text, format!("endpoint{}", base32(&bytes)));
        assert_eq!(read_ticket(&text), Ok(known(vec![ip(&format!("192.168.1.20:{port}"))])));
    }
}

#[test]
fn long_tickets_keep_what_was_known() {
    let one = read_ticket(&long_ticket(known(vec![]), [10, 0, 0, 1], 80).unwrap()).unwrap();
    let two = read_ticket(&long_ticket(one, [10, 0, 0, 2], 81).unwrap()).unwrap();
    assert_eq!(two, known(vec![ip("10.0.0.1:80"), ip("10.0.0.2:81")]));
    let again = read_ticket(&long_ticket(two, [10, 0, 0, 1], 80).unwrap()).unwrap();
    assert_eq!(again, known(vec![ip("10.0.0.1:80"), ip("10.0.0.2:81")]));
}

#[test]
fn long_tickets_keep_a_relay() {
    let url = "https://euw1-1.relay.example.com./";
    let text = long_ticket(known(vec![relay(url)]), [10, 0, 0, 1], 80).unwrap();
    let written = outside(vec![
        iroh::TransportAddr::Ip("10.0.0.1:80".parse().unwrap()),
        iroh::TransportAddr::Relay(url.parse().unwrap()),
    ]);
    assert_eq!(text, written);
    assert_eq!(read_ticket(&text), Ok(known(vec![relay(url), ip("10.0.0.1:80")])));
}

#[test]
fn long_tickets_keep_every_kind_of_address() {
    let custom = || Address::Custom { id: 300, data: vec![1, 2, 0xff] };
    let all = || vec![relay("https://r.example.com/"), ip("10.0.0.9:1"), ip("[::1]:9"), custom()];
    let text = long_ticket(known(all()), [10, 0, 0, 1], 80).unwrap();
    let written = outside(vec![
        iroh::TransportAddr::Custom((300, [1u8, 2, 0xff].as_slice()).into()),
        iroh::TransportAddr::Ip("[::1]:9".parse().unwrap()),
        iroh::TransportAddr::Ip("10.0.0.1:80".parse().unwrap()),
        iroh::TransportAddr::Ip("10.0.0.9:1".parse().unwrap()),
        iroh::TransportAddr::Relay("https://r.example.com/".parse().unwrap()),
    ]);
    assert_eq!(text, written);
    let mut expected = all();
    expected.insert(1, ip("10.0.0.1:80"));
    assert_eq!(read_ticket(&text), Ok(known(expected)));
}

#[test]
fn a_relay_that_reads_back_otherwise_is_refused() {
    // The URL is not the same once it was written and read.
    let url: iroh::RelayUrl = "file://h//c|/x".parse().unwrap();
    assert_eq!(url.to_string(), "file://h/c|/x");
    let once = relay(&url.to_string());
    assert!(!once.is_settled());
    assert_eq!(long_ticket(known(vec![once]), [10, 0, 0, 1], 80), None);
    let text = outside(vec![iroh::TransportAddr::Relay(url)]);
    assert_eq!(read_ticket(&text), Ok(known(vec![relay("file:///c:/x")])));
}

#[test]
fn addresses_in_their_usual_form_are_settled() {
    for address in [
        relay("https://r.example.com./"),
        ip("255.0.10.1:65535"),
        ip("[2001:db8::1]:443"),
        Address::Custom { id: 0, data: vec![] },
    ] {
        assert!(address.is_settled(), "{address:?}");
    }
    for address in [
        relay("https://r.example.com."),
        relay("HTTPS://r.example.com./"),
        relay("r"),
        ip("[2001:DB8::1]:443"),
        ip("[fe80::1%3]:80"),
        ip("10.0.0.1"),
        ip(""),
    ] {
        assert!(!address.is_settled(), "{address:?}");
        assert_eq!(long_ticket(known(vec![address]), [10, 0, 0, 1], 80), None);
    }
}

#[test]
fn a_listener_is_written_as_usual() {
    assert_eq!(Address::listener([10, 0, 255, 1], 80), ip("10.0.255.1:80"));
    assert_eq!(Address::listener([0, 0, 0, 0], 0), ip("0.0.0.0:0"));
    assert!(Address::listener([192, 168, 100, 200], 65535).is_settled());
}

#[test]
fn a_usual_ticket_has_room() {
    assert!(known(vec![]).has_room());
    assert!(known(vec![relay("https://r.example.com./"), ip("10.0.0.1:80")]).has_room());
}

#[test]
fn tickets_name_one_endpoint() {
    let one = client_identity(None).unwrap();
    let other = client_identity(None).unwrap();
    assert_ne!(ticket_of(&one), ticket_of(&other));
}

#[test]
fn some_bytes_are_no_id() {
    let mut bytes = [0u8; 32];
    let mut refused = 0;
    for n in 0..=255u8 {
        bytes[0] = n;
        let valid = iroh::PublicKey::from_bytes(&bytes).is_ok();
        assert_eq!(short_ticket(&bytes).is_some(), valid);
        let nobody = Ticket { id: bytes, addresses: vec![] };
        assert_eq!(long_ticket(nobody, [10, 0, 0, 1], 80).is_some(), valid);
        if !valid {
            refused += 1;
        }
    }
    assert!(refused > 0);
}

#[test]
fn texts_that_are_no_tickets() {
    for text in ["", "endpoint", "node1234", "endpoint!!!!", "ENDPOINTAAAA"] {
        let error = read_ticket(text).unwrap_err();
        let refused = text.parse::<EndpointTicket>().unwrap_err();
        assert_eq!(error, refused.to_string(), "{text:?}");
        assert_eq!(bad_ticket(read_ticket(text)).unwrap_err(), format!("bad ticket: {error}"));
    }
    assert_eq!(read_ticket("x").unwrap_err(), "wrong prefix, expected endpoint");
    assert_eq!(bad_ticket(Ok(known(vec![ip("10.0.0.1:80")]))), Ok(known(vec![ip("10.0.0.1:80")])));
}
