use iroh_esp32::buffer::{Buffer, SensorReply, BUFFER_CAP};
use iroh_esp32::protocol::{GetLatest, GetLog, Reading, Record, SensorProtocol, Tenths};

fn reading(n: u32) -> Option<Reading> {
    let value = Tenths { negative: false, magnitude: n };
    Some(Reading { temperature: value, humidity: value })
}

fn filled(count: u64) -> Buffer {
    let mut buffer = Buffer::default();
    for n in 0..count {
        buffer.push(1000 + n, reading(n as u32), None, n % 2 == 0);
    }
    buffer
}

fn ids(records: &[Record]) -> Vec<u64> {
    records.iter().map(|r| r.id).collect()
}

#[test]
fn an_empty_log_has_nothing() {
    let buffer = Buffer::default();
    assert_eq!(buffer.latest(), None);
    assert!(buffer.range(0, 10).is_empty());
}

#[test]
fn samples_become_records() {
    let buffer = filled(3);
    assert_eq!(
        buffer.latest(),
        Some(Record { id: 2, time: 1002, inside: reading(2), outside: None, fan: true }),
    );
    assert_eq!(ids(&buffer.range(0, usize::MAX)), vec![0, 1, 2]);
}

#[test]
fn only_the_newest_records_stay() {
    let count = BUFFER_CAP as u64 + 100;
    let buffer = filled(count);
    let all = buffer.range(0, usize::MAX);
    assert_eq!(all.len(), BUFFER_CAP);
    assert_eq!(all[0].id, 100);
    assert_eq!(all[0].time, 1100);
    assert_eq!(all[BUFFER_CAP - 1].id, count - 1);
    assert_eq!(buffer.latest().unwrap().id, count - 1);
}

#[test]
fn a_range_is_a_limited_window() {
    let buffer = filled(20);
    assert_eq!(ids(&buffer.range(15, usize::MAX)), vec![15, 16, 17, 18, 19]);
    assert_eq!(ids(&buffer.range(15, 2)), vec![15, 16]);
    assert_eq!(ids(&buffer.range(15, 0)), Vec::<u64>::new());
    assert_eq!(ids(&buffer.range(20, 5)), Vec::<u64>::new());
}

#[test]
fn a_gap_is_visible() {
    let buffer = filled(BUFFER_CAP as u64 + 10);
    assert_eq!(buffer.range(3, 1)[0].id, 10);
}

#[test]
fn asking_behind_the_last_gives_what_came_since() {
    let mut buffer = filled(5);
    let next = buffer.latest().unwrap().id + 1;
    assert!(buffer.range(next, usize::MAX).is_empty());
    for n in 0..BUFFER_CAP as u64 {
        buffer.push(n, None, None, false);
    }
    let since = buffer.range(next, usize::MAX);
    assert_eq!(since.len(), BUFFER_CAP);
    assert_eq!(since[0].id, next);
}

#[test]
fn a_restart_shows() {
    let before = filled(50).latest().unwrap().id;
    let after = filled(10);
    assert!(after.range(before + 1, usize::MAX).is_empty());
    assert!(after.latest().unwrap().id < before);
}

#[test]
fn requests_are_answered() {
    let buffer = filled(4);
    match buffer.handle_message(&SensorProtocol::GetLatest(GetLatest)) {
        SensorReply::Latest(latest) => assert_eq!(latest.unwrap().id, 3),
        other => panic!("{other:?}"),
    }
    match buffer.handle_message(&SensorProtocol::GetLog(GetLog { start_id: 1, limit: 2 })) {
        SensorReply::Log(records) => assert_eq!(ids(&records), vec![1, 2]),
        other => panic!("{other:?}"),
    }
    match Buffer::default().handle_message(&SensorProtocol::GetLatest(GetLatest)) {
        SensorReply::Latest(latest) => assert_eq!(latest, None),
        other => panic!("{other:?}"),
    }
}

#[test]
fn a_new_log_has_ids_left() {
    let mut buf = Buffer::default();
    assert!(!buf.out_of_ids());
    buf.push(0, None, None, false);
    assert!(!buf.out_of_ids());
}
