use iroh_esp32::dht22::{
    decode_frame, wait_for, Dht22Read, Dht22Retry, DhtError, Level, PinAction, PinEvent, Wait,
    DHT_EDGE_TIMEOUT_US, SETTLE_US,
};
use iroh_esp32::protocol::{Reading, Tenths};

fn frame(humidity: u16, temperature: u16) -> [u8; 5] {
    let [a, b] = humidity.to_be_bytes();
    let [c, d] = temperature.to_be_bytes();
    [a, b, c, d, a.wrapping_add(b).wrapping_add(c).wrapping_add(d)]
}

fn read_of(humidity: u32, negative: bool, temperature: u32) -> Reading {
    Reading {
        temperature: Tenths { negative, magnitude: temperature },
        humidity: Tenths { negative: false, magnitude: humidity },
    }
}

#[test]
fn frames_decode() {
    assert_eq!(decode_frame(&[0x02, 0x8c, 0x01, 0x5f, 0xee]), Ok(read_of(652, false, 351)));
    assert_eq!(decode_frame(&frame(0x0292, 0x8065)), Ok(read_of(658, true, 101)));
    assert_eq!(decode_frame(&frame(0, 0x8000)), Ok(read_of(0, true, 0)));
    assert_eq!(decode_frame(&[0xff; 5]), Err(DhtError::ChecksumMismatch));
    assert_eq!(decode_frame(&[0xff, 0xff, 0xff, 0xff, 0xfc]), Ok(read_of(0xffff, true, 0x7fff)));
}

#[test]
fn a_damaged_byte_is_refused() {
    let good = frame(512, 213);
    for at in 0..5 {
        for byte in 0..=255u8 {
            let mut bad = good;
            bad[at] = byte;
            if byte != good[at] {
                assert_eq!(decode_frame(&bad), Err(DhtError::ChecksumMismatch));
            }
        }
    }
}

#[test]
fn error_words() {
    assert_eq!(DhtError::SetLow.message(), "set_low");
    assert_eq!(DhtError::SetHigh.message(), "set_high");
    assert_eq!(DhtError::Timeout.message(), "timeout");
    assert_eq!(DhtError::ChecksumMismatch.message(), "checksum mismatch");
}

#[test]
fn waiting_for_a_level() {
    assert_eq!(wait_for(true, 0, 10_000, 3_000), Wait::Reached);
    assert_eq!(wait_for(false, 100, 3_100, 3_000), Wait::Again);
    assert_eq!(wait_for(false, 100, 3_101, 3_000), Wait::TimedOut);
}

/// Plays the sensor: each operation succeeds, and the pulses spell `data`.
fn play(read: &mut Dht22Read, data: [u8; 5]) {
    let mut now = 0i64;
    let mut edges = 0usize;
    loop {
        now += match read.action() {
            PinAction::DriveLow | PinAction::Release => 1,
            PinAction::Delay { micros } => micros as i64,
            PinAction::Await { level, timeout_us } => {
                assert_eq!(timeout_us, DHT_EDGE_TIMEOUT_US);
                edges += 1;
                let expected = if edges % 2 == 1 { Level::Low } else { Level::High };
                assert_eq!(level, expected);
                if edges > 3 && level == Level::Low {
                    let bit = (edges - 5) / 2;
                    if data[bit / 8] >> (7 - bit % 8) & 1 == 1 { 70 } else { 27 }
                } else {
                    50
                }
            }
            PinAction::Finished { .. } => return,
        };
        read.step(PinEvent::Done { at: now });
    }
}

#[test]
fn pulses_become_a_reading() {
    let mut read = Dht22Read::new();
    assert_eq!(read.result(), None);
    play(&mut read, frame(0x0292, 0x8065));
    assert_eq!(read.result(), Some(Ok(read_of(658, true, 101))));
    assert_eq!(read.action(), PinAction::Finished { result: Ok(read_of(658, true, 101)) });
}

#[test]
fn bad_pulses_are_refused() {
    let mut read = Dht22Read::new();
    play(&mut read, [1, 2, 3, 4, 5]);
    assert_eq!(read.result(), Some(Err(DhtError::ChecksumMismatch)));
}

#[test]
fn the_start_signal() {
    let mut read = Dht22Read::new();
    let mut seen = Vec::new();
    for at in 0..6i64 {
        seen.push(read.action());
        read.step(PinEvent::Done { at });
    }
    let edge = |level| PinAction::Await { level, timeout_us: 3_000 };
    assert_eq!(
        seen,
        vec![
            PinAction::DriveLow,
            PinAction::Delay { micros: 3_000 },
            PinAction::Release,
            PinAction::Delay { micros: 40 },
            edge(Level::Low),
            edge(Level::High),
        ],
    );
}

#[test]
fn a_pulse_of_the_threshold_is_a_zero() {
    for (width, bit) in [(40i64, 0u32), (41, 1)] {
        let mut read = Dht22Read::new();
        let mut now = 0i64;
        for stage in 0..87u32 {
            now += if stage == 86 { width } else { 20 };
            read.step(PinEvent::Done { at: now });
        }
        let expected = if bit == 0 { Ok(read_of(0, false, 0)) } else { Err(DhtError::ChecksumMismatch) };
        assert_eq!(read.result(), Some(expected));
    }
}

#[test]
fn each_stage_has_its_error() {
    for (stage, error) in [
        (0, DhtError::SetLow),
        (2, DhtError::SetHigh),
        (4, DhtError::Timeout),
        (7, DhtError::Timeout),
        (86, DhtError::Timeout),
    ] {
        let mut read = Dht22Read::new();
        for at in 0..stage {
            read.step(PinEvent::Done { at });
        }
        read.step(PinEvent::Failed);
        assert_eq!(read.result(), Some(Err(error)));
    }
}

fn finish(read: &mut Dht22Retry, fail_at: Option<u32>) {
    let mut now = 0i64;
    for stage in 0..87u32 {
        if fail_at == Some(stage) {
            read.step(PinEvent::Failed);
            return;
        }
        now += 20;
        read.step(PinEvent::Done { at: now });
    }
}

#[test]
fn a_first_success_stands() {
    let mut read = Dht22Retry::new();
    finish(&mut read, None);
    assert_eq!(read.action(), PinAction::Finished { result: Ok(read_of(0, false, 0)) });
}

#[test]
fn a_failure_is_retried_once() {
    let mut read = Dht22Retry::new();
    finish(&mut read, Some(4));
    assert_eq!(read.action(), PinAction::Delay { micros: SETTLE_US });
    read.step(PinEvent::Done { at: 9 });
    assert_eq!(read.action(), PinAction::DriveLow);
    finish(&mut read, None);
    assert_eq!(read.action(), PinAction::Finished { result: Ok(read_of(0, false, 0)) });
}

#[test]
fn a_second_failure_is_the_result() {
    let mut read = Dht22Retry::new();
    finish(&mut read, Some(4));
    read.step(PinEvent::Done { at: 9 });
    finish(&mut read, Some(2));
    assert_eq!(read.action(), PinAction::Finished { result: Err(DhtError::SetHigh) });
}

#[test]
fn events_that_cannot_follow_are_known() {
    let mut read = Dht22Read::new();
    assert!(read.can_step(PinEvent::Done { at: i64::MIN }));
    for stage in 0..8i64 {
        read.step(PinEvent::Done { at: stage });
    }
    // A bit ends: the time since it began, at 7, must be a number.
    assert!(read.can_step(PinEvent::Done { at: i64::MIN + 7 }));
    assert!(!read.can_step(PinEvent::Done { at: i64::MIN + 6 }));
    assert!(read.can_step(PinEvent::Done { at: i64::MAX }));
    read.step(PinEvent::Failed);
    assert!(!read.can_step(PinEvent::Done { at: 9 }));

    let mut retry = Dht22Retry::new();
    assert!(retry.can_step(PinEvent::Failed));
    retry.step(PinEvent::Failed);
    assert!(!retry.can_step(PinEvent::Failed));
    assert!(retry.can_step(PinEvent::Done { at: 9 }));
}
