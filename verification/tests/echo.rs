use iroh_esp32::echo::{Echo, Reply, TransportLimits, CHUNK};

#[test]
fn bytes_are_written_back() {
    let mut echo = Echo::new();
    let mut buf = [0u8; CHUNK];
    buf[..5].copy_from_slice(b"hello");
    assert_eq!(echo.accept(&buf, 5), Some(&b"hello"[..]));
    assert_eq!(echo.accept(&buf, 2), Some(&b"he"[..]));
    assert_eq!(echo.total(), 7);
    assert_eq!(echo.accept(&buf, 0), None);
    assert_eq!(echo.total(), 7);
}

/// Sends a message through the device, cut into pieces of the given sizes.
fn through(message: &[u8], there: usize, back: usize) -> Reply {
    let mut echo = Echo::new();
    let mut wire = Vec::new();
    for piece in message.chunks(there) {
        let mut buf = [0u8; CHUNK];
        buf[..piece.len()].copy_from_slice(piece);
        wire.extend_from_slice(echo.accept(&buf, piece.len()).unwrap());
    }
    assert_eq!(echo.total(), message.len() as u64);
    let mut reply = Reply::new();
    for piece in wire.chunks(back) {
        let mut chunk = [0u8; CHUNK];
        chunk[..piece.len()].copy_from_slice(piece);
        reply.extend(&chunk, piece.len());
    }
    reply
}

#[test]
fn messages_come_back_whole() {
    let message: Vec<u8> = (0..5000u32).map(|n| (n * 31 % 251) as u8).collect();
    for (there, back) in [(1, 1024), (1024, 1), (1000, 7), (3, 500)] {
        let reply = through(&message, there, back);
        assert!(reply.is_echo_of(&message));
        assert_eq!(reply.len(), message.len());
        assert_eq!(reply.bytes(), &message[..]);
    }
}

#[test]
fn a_different_reply_is_no_echo() {
    let reply = through(b"hello", 5, 5);
    assert!(reply.is_echo_of(b"hello"));
    assert!(!reply.is_echo_of(b"hellO"));
    assert!(!reply.is_echo_of(b"hell"));
    assert!(!reply.is_echo_of(b"hello!"));
    assert!(Reply::new().is_echo_of(b""));
}

#[test]
fn text_comes_back_as_text() {
    for text in ["", "hello", "grüße — ✓ 🙂"] {
        assert_eq!(through(text.as_bytes(), 3, 2).into_text().unwrap(), text);
    }
}

#[test]
fn bytes_that_are_no_text() {
    let mut reply = Reply::new();
    reply.extend(&[b'a', 0xff, b'b'], 3);
    assert_eq!(reply.into_text().unwrap_err(), "invalid utf-8 sequence of 1 bytes from index 1");
}

#[test]
fn limits_of_the_boards() {
    let small = TransportLimits::small();
    assert_eq!(small.stream_receive_window, 4 * 1024);
    assert_eq!(small.receive_window, 8 * 1024);
    assert_eq!(small.send_window, 8 * 1024);
    assert_eq!((small.bidi_streams, small.uni_streams), (1, 0));
    let roomy = TransportLimits::roomy();
    assert_eq!(roomy.stream_receive_window, 16 * 1024);
    assert_eq!(roomy.receive_window, 32 * 1024);
    assert_eq!(roomy.send_window, 32 * 1024);
}
