use iroh_esp32::dht22::DhtError;
use iroh_esp32::protocol::{Reading, Tenths};
use iroh_esp32::sensors::{next_fan, record_time, SensorLoop};

fn air(temperature: i32, humidity: u32) -> Result<Reading, DhtError> {
    Ok(Reading {
        temperature: Tenths { negative: temperature < 0, magnitude: temperature.unsigned_abs() },
        humidity: Tenths { negative: false, magnitude: humidity },
    })
}

#[test]
fn fan_hysteresis() {
    let next = |on: bool, advantage: f32| next_fan(on, advantage.to_bits());
    assert!(!next(false, 9.99));
    assert!(!next(false, 10.0));
    assert!(next(false, 10.01));
    assert!(next(true, 10.0));
    assert!(next(true, 2.0));
    assert!(!next(true, 1.99));
    assert!(!next(false, 5.0));
    assert!(next(true, 5.0));
    assert!(!next(true, f32::NEG_INFINITY));
    assert!(next(false, f32::INFINITY));
    assert!(next(true, f32::NAN));
    assert!(!next(false, f32::NAN));
}

#[test]
fn an_advantage_of_the_threshold_leaves_the_fan_off() {
    let mut sensors = SensorLoop::new();
    let cycle = sensors.cycle(&air(200, 100), &air(200, 0), 10.0f32.to_bits());
    assert!(!cycle.fan);
}

#[test]
fn records_have_no_time_before_the_clock_is_set() {
    assert_eq!(record_time(false, 12), 0);
    assert_eq!(record_time(true, 1_700_000_000), 1_700_000_000);
}

#[test]
fn a_cycle_shows_and_records() {
    let mut sensors = SensorLoop::new();
    let cycle = sensors.cycle(&air(215, 485), &air(-35, 900), 12.0f32.to_bits());
    assert_eq!(cycle.row_inside, "In  22C 48%     ");
    assert_eq!(cycle.row_outside, "Out -4C 90%     ");
    assert_eq!(cycle.inside, air(215, 485).ok());
    assert_eq!(cycle.outside, air(-35, 900).ok());
    assert!(cycle.fan);
    assert!(!cycle.watch_heap);
}

#[test]
fn a_failed_read_holds_the_fan() {
    let mut sensors = SensorLoop::new();
    sensors.cycle(&air(200, 500), &air(100, 500), 20.0f32.to_bits());
    let cycle = sensors.cycle(&Err(DhtError::Timeout), &air(100, 500), 0);
    assert!(cycle.fan);
    assert_eq!(cycle.inside, None);
    assert_eq!(cycle.row_inside, "In  --          ");
    let cycle = sensors.cycle(&air(200, 500), &Err(DhtError::SetLow), 0);
    assert!(cycle.fan);
    assert_eq!(cycle.outside, None);
    assert_eq!(cycle.row_outside, "Out --          ");
    let cycle = sensors.cycle(&air(200, 500), &air(100, 500), 0);
    assert!(!cycle.fan);
}

#[test]
fn every_tenth_cycle_watches_the_heap() {
    let mut sensors = SensorLoop::new();
    for n in 1..=40 {
        let cycle = sensors.cycle(&air(0, 0), &air(0, 0), 0);
        assert_eq!(cycle.watch_heap, n % 10 == 0);
    }
}

#[test]
fn rows_fill_the_display() {
    let mut sensors = SensorLoop::new();
    for (inside, outside) in [
        (air(0, 0), air(1000, 1000)),
        (air(-3276, 6553), Err(DhtError::ChecksumMismatch)),
    ] {
        let cycle = sensors.cycle(&inside, &outside, 0);
        assert!(cycle.row_inside.len() >= 16);
        assert!(cycle.row_outside.len() >= 16);
    }
}
