use iroh_esp32::led::{co2_band, pending_color, Band};
use iroh_esp32::scd30::{
    arg_frame, command_frame, command_text, crc8, decode_words, f32_from_words, first_light, Light,
    Outcome, Report, Scd30, Task, ADDR, CMD_DATA_READY, CMD_FIRMWARE_VERSION, CMD_READ_MEASUREMENT,
    CMD_START_CONTINUOUS,
};

#[test]
fn crc_of_known_words() {
    assert_eq!(crc8(&[0xbe, 0xef]), 0x92);
    assert_eq!(crc8(&[0x00, 0x00]), 0x81);
    assert_eq!(crc8(&[]), 0xff);
}

#[test]
fn crc_over_its_own_crc_is_zero() {
    for n in (0..=65535u16).step_by(77) {
        let [a, b] = n.to_be_bytes();
        assert_eq!(crc8(&[a, b, crc8(&[a, b])]), 0);
    }
}

#[test]
fn a_damaged_byte_changes_the_crc() {
    let good = crc8(&[0x12, 0x34]);
    for byte in 0..=255u8 {
        if byte != 0x12 {
            assert_ne!(crc8(&[byte, 0x34]), good);
        }
        if byte != 0x34 {
            assert_ne!(crc8(&[0x12, byte]), good);
        }
    }
}

#[test]
fn frames_on_the_bus() {
    assert_eq!(ADDR, 0x61);
    assert_eq!(command_frame(CMD_FIRMWARE_VERSION), [0xd1, 0x00]);
    assert_eq!(arg_frame(CMD_START_CONTINUOUS, 0), [0x00, 0x10, 0x00, 0x00, 0x81]);
    assert_eq!(arg_frame(CMD_START_CONTINUOUS, 0xbeef), [0x00, 0x10, 0xbe, 0xef, 0x92]);
    assert_eq!(command_text(CMD_DATA_READY), "0x0202");
    assert_eq!(command_text(CMD_FIRMWARE_VERSION), format!("{:#06x}", CMD_FIRMWARE_VERSION));
}

#[test]
fn words_are_checked() {
    assert_eq!(decode_words(&[]), Some(vec![]));
    assert_eq!(decode_words(&[0xbe, 0xef, 0x92]), Some(vec![0xbeef]));
    assert_eq!(decode_words(&[0xbe, 0xef, 0x92, 0, 0, 0x81]), Some(vec![0xbeef, 0]));
    assert_eq!(decode_words(&[0xbe, 0xef, 0x92, 0, 0, 0x80]), None);
    assert_eq!(decode_words(&[0xbe, 0xef, 0x91, 0, 0, 0x81]), None);
}

#[test]
fn arguments_read_back() {
    for argument in [0u16, 1, 700, 1400, 0xffff] {
        let frame = arg_frame(CMD_START_CONTINUOUS, argument);
        assert_eq!(decode_words(&frame[2..]), Some(vec![argument]));
    }
}

#[test]
fn floats_are_reassembled() {
    for value in [0.0f32, 439.09, -1.5, f32::MAX] {
        let bits = value.to_bits();
        assert_eq!(f32::from_bits(f32_from_words((bits >> 16) as u16, bits as u16)), value);
    }
}

fn words(values: &[u16]) -> Outcome {
    Outcome::Words(values.to_vec())
}

/// A sensor that was found and started.
fn started() -> Scd30 {
    let mut sensor = Scd30::new();
    sensor.step(&words(&[0x0342]));
    sensor.step(&Outcome::Done);
    sensor
}

#[test]
fn the_way_to_a_sample() {
    let mut sensor = Scd30::new();
    assert_eq!(sensor.task(), Task::ReadWords { command: CMD_FIRMWARE_VERSION, count: 1 });
    assert_eq!(sensor.step(&words(&[0x0342])), Report::Found { major: 3, minor: 0x42 });
    assert_eq!(sensor.task(), Task::WriteArg { command: CMD_START_CONTINUOUS, argument: 0 });
    assert_eq!(sensor.step(&Outcome::Done), Report::Started);
    assert_eq!(sensor.task(), Task::Sleep { seconds: 2 });
    assert_eq!(sensor.step(&Outcome::Done), Report::Quiet);
    assert_eq!(sensor.task(), Task::ReadWords { command: CMD_DATA_READY, count: 1 });
    assert_eq!(sensor.step(&words(&[1])), Report::Quiet);
    assert_eq!(sensor.task(), Task::ReadWords { command: CMD_READ_MEASUREMENT, count: 6 });
    assert_eq!(
        sensor.step(&words(&[0x43db, 0x8c2e, 0x41d9, 0xe7ff, 0x4243, 0x3a1b])),
        Report::Measured { co2: 0x43db_8c2e, temperature: 0x41d9_e7ff, humidity: 0x4243_3a1b },
    );
    assert_eq!(sensor.task(), Task::Sleep { seconds: 2 });
}

#[test]
fn the_led_follows_the_sensor() {
    assert_eq!(first_light(), Light::Pending);
    let mut sensor = Scd30::new();
    let mut lights = vec![first_light()];
    let sample = 700.0f32.to_bits();
    let measured = [(sample >> 16) as u16, sample as u16, 1, 2, 3, 4];
    for outcome in [
        Outcome::Failed,
        Outcome::Done,
        words(&[0x0342]),
        Outcome::Failed,
        Outcome::Done,
        words(&[0x0342]),
        Outcome::Done,
        Outcome::Done,
        words(&[0]),
        Outcome::Done,
        words(&[1]),
        words(&measured),
        Outcome::Done,
        words(&[1]),
        Outcome::Failed,
    ] {
        lights.extend(sensor.step(&outcome).light());
    }
    assert_eq!(
        lights,
        vec![Light::Pending, Light::Pending, Light::Measured { co2: sample }],
    );
}

#[test]
fn lights_lie_on_the_scale() {
    assert_eq!(Light::Pending.band(), Band::Solid { color: pending_color() });
    let co2 = 700.0f32.to_bits();
    assert_eq!(Light::Measured { co2 }.band(), co2_band(co2));
    assert_eq!(
        Report::Measured { co2, temperature: 1, humidity: 2 }.light(),
        Some(Light::Measured { co2 }),
    );
    assert_eq!(Report::Stopped.light(), None);
}

#[test]
fn no_fresh_sample_means_another_pause() {
    let mut sensor = started();
    sensor.step(&Outcome::Done);
    assert_eq!(sensor.step(&words(&[0])), Report::Quiet);
    assert_eq!(sensor.task(), Task::Sleep { seconds: 2 });
}

#[test]
fn absence_is_announced_once() {
    let mut sensor = Scd30::new();
    assert_eq!(sensor.step(&Outcome::Failed), Report::Missing { announce: true });
    for _ in 0..3 {
        assert_eq!(sensor.task(), Task::Sleep { seconds: 2 });
        assert_eq!(sensor.step(&Outcome::Done), Report::Quiet);
        assert_eq!(sensor.step(&Outcome::Failed), Report::Missing { announce: false });
    }
    sensor.step(&Outcome::Done);
    assert_eq!(sensor.step(&words(&[0x0101])), Report::Found { major: 1, minor: 1 });
    assert_eq!(sensor.step(&Outcome::Failed), Report::StartFailed);
    sensor.step(&Outcome::Done);
    assert_eq!(sensor.step(&Outcome::Failed), Report::Missing { announce: true });
}

#[test]
fn the_third_failure_reinitializes() {
    let mut sensor = started();
    sensor.step(&Outcome::Done);
    assert_eq!(sensor.step(&Outcome::Failed), Report::Quiet);
    sensor.step(&Outcome::Done);
    sensor.step(&words(&[1]));
    assert_eq!(sensor.step(&Outcome::Failed), Report::MeasurementFailed);
    sensor.step(&Outcome::Done);
    assert_eq!(sensor.step(&Outcome::Failed), Report::Stopped);
    assert_eq!(sensor.task(), Task::ReadWords { command: CMD_FIRMWARE_VERSION, count: 1 });
}

#[test]
fn a_sample_clears_the_failures() {
    let mut sensor = started();
    for _ in 0..5 {
        for _ in 0..2 {
            sensor.step(&Outcome::Done);
            assert_eq!(sensor.step(&Outcome::Failed), Report::Quiet);
        }
        sensor.step(&Outcome::Done);
        sensor.step(&words(&[1]));
        assert!(matches!(sensor.step(&words(&[0; 6])), Report::Measured { .. }));
    }
}
