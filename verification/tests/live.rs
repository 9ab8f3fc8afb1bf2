use iroh_esp32::buffer::Buffer;
use iroh_esp32::live::{notice, Action, Event, Poller, Report};

fn at_work(once: bool) -> Poller {
    let mut poller = Poller::new(once);
    assert_eq!(poller.action(), Action::Dial);
    assert_eq!(poller.step(Event::Connected), Report::Quiet);
    assert_eq!(poller.action(), Action::GetLatest);
    poller
}

/// A poller that has shown record 9.
fn following() -> Poller {
    let mut poller = at_work(false);
    assert_eq!(poller.step(Event::Latest(Some(9))), Report::Show);
    assert_eq!(poller.action(), Action::Wait { millis: 2000 });
    assert_eq!(poller.step(Event::Woke), Report::Quiet);
    assert_eq!(poller.action(), Action::GetLog { start_id: 10, limit: u32::MAX });
    poller
}

#[test]
fn new_records_are_shown_in_order() {
    let mut poller = following();
    assert_eq!(poller.step(Event::Opened), Report::Quiet);
    for id in 10..15 {
        assert_eq!(poller.action(), Action::Receive);
        assert_eq!(poller.step(Event::Received(id)), Report::Show);
        assert_eq!(poller.last_id(), Some(id));
    }
    assert_eq!(poller.step(Event::Ended), Report::Quiet);
    assert_eq!(poller.action(), Action::Wait { millis: 2000 });
    poller.step(Event::Woke);
    assert_eq!(poller.action(), Action::GetLog { start_id: 15, limit: u32::MAX });
    assert!(poller.connected());
}

#[test]
fn no_readings_yet() {
    let mut poller = at_work(false);
    assert_eq!(poller.step(Event::Latest(None)), Report::Quiet);
    assert_eq!(poller.action(), Action::Wait { millis: 2000 });
    poller.step(Event::Woke);
    assert_eq!(poller.action(), Action::GetLatest);
    assert_eq!(poller.last_id(), None);
}

#[test]
fn a_restarted_device_is_noticed() {
    let mut poller = following();
    poller.step(Event::Opened);
    assert_eq!(poller.step(Event::Ended), Report::Quiet);
    assert_eq!(poller.action(), Action::GetLatest);
    assert_eq!(poller.step(Event::Latest(Some(3))), Report::Restarted);
    poller.step(Event::Woke);
    assert_eq!(poller.action(), Action::GetLog { start_id: 4, limit: u32::MAX });
}

#[test]
fn an_idle_device_is_no_restart() {
    for answer in [Event::Latest(Some(9)), Event::Latest(None), Event::RpcFailed] {
        let mut poller = following();
        poller.step(Event::Opened);
        poller.step(Event::Ended);
        assert_eq!(poller.step(answer), Report::Quiet);
        assert_eq!(poller.action(), Action::Wait { millis: 2000 });
        assert!(poller.connected());
        assert_eq!(poller.last_id(), Some(9));
    }
}

#[test]
fn backoff_grows_to_ten_seconds() {
    let mut poller = Poller::new(false);
    for seconds in [2u64, 4, 6, 8, 10, 10, 10] {
        assert_eq!(poller.action(), Action::Dial);
        assert_eq!(poller.step(Event::ConnectFailed), Report::ConnectError);
        assert_eq!(poller.action(), Action::Wait { millis: seconds * 1000 });
        poller.step(Event::Woke);
    }
    poller.step(Event::Connected);
    poller.step(Event::Latest(None));
    poller.step(Event::Woke);
    poller.step(Event::RpcFailed);
    assert_eq!(poller.action(), Action::Wait { millis: 2000 });
}

#[test]
fn a_failure_drops_the_connection() {
    let mut poller = following();
    assert_eq!(poller.step(Event::RpcFailed), Report::RpcError);
    assert!(!poller.connected());
    assert_eq!(poller.action(), Action::Wait { millis: 2000 });
    poller.step(Event::Woke);
    assert_eq!(poller.action(), Action::Dial);
}

#[test]
fn a_broken_stream_resumes() {
    let mut poller = following();
    poller.step(Event::Opened);
    poller.step(Event::Received(10));
    poller.step(Event::Received(11));
    assert_eq!(poller.step(Event::StreamFailed), Report::StreamError);
    assert!(!poller.connected());
    poller.step(Event::Woke);
    poller.step(Event::Connected);
    assert_eq!(poller.action(), Action::GetLog { start_id: 12, limit: u32::MAX });
}

#[test]
fn failures_lose_nothing() {
    let mut poller = following();
    let mut shown = Vec::new();
    let rounds: [&[Event]; 5] = [
        &[Event::RpcFailed, Event::Woke, Event::ConnectFailed, Event::Woke, Event::Connected],
        &[
            Event::Opened,
            Event::Received(10),
            Event::StreamFailed,
            Event::Woke,
            Event::Connected,
        ],
        &[Event::Opened, Event::StreamFailed, Event::Woke, Event::Connected],
        &[Event::Opened, Event::Received(11), Event::Received(12), Event::Ended, Event::Woke],
        &[Event::Opened, Event::Ended, Event::RpcFailed, Event::Woke],
    ];
    for events in rounds {
        for &event in events {
            if poller.step(event) == Report::Show {
                if let Event::Received(id) = event {
                    shown.push(id);
                }
            }
        }
        let next = shown.last().copied().unwrap_or(9) + 1;
        assert_eq!(poller.action(), Action::GetLog { start_id: next, limit: u32::MAX });
    }
    assert_eq!(shown, vec![10, 11, 12]);
}

#[test]
fn once_is_one_round() {
    for answer in [Event::Latest(Some(1)), Event::Latest(None), Event::RpcFailed] {
        let mut poller = at_work(true);
        poller.step(answer);
        assert_eq!(poller.action(), Action::Stop);
    }
    let mut poller = Poller::new(true);
    poller.step(Event::ConnectFailed);
    assert_eq!(poller.action(), Action::Wait { millis: 2000 });
}

/// Runs rounds of a poller against a device and collects what is shown.
fn round(poller: &mut Poller, device: &Buffer, shown: &mut Vec<u64>) {
    let mut stream = Vec::new().into_iter();
    loop {
        let event = match poller.action() {
            Action::Dial => Event::Connected,
            Action::GetLatest => Event::Latest(device.latest().map(|r| r.id)),
            Action::GetLog { start_id, limit } => {
                stream = device.range(start_id, limit as usize).into_iter();
                Event::Opened
            }
            Action::Receive => match stream.next() {
                Some(record) => Event::Received(record.id),
                None => Event::Ended,
            },
            Action::Wait { .. } => {
                poller.step(Event::Woke);
                return;
            }
            Action::Stop => return,
        };
        let report = poller.step(event);
        if matches!(report, Report::Show | Report::Restarted) {
            match event {
                Event::Received(id) | Event::Latest(Some(id)) => shown.push(id),
                other => panic!("{other:?}"),
            }
        }
    }
}

#[test]
fn every_record_is_shown_once() {
    let mut device = Buffer::default();
    let mut poller = Poller::new(false);
    let mut shown = Vec::new();
    device.push(0, None, None, false);
    for batch in [0usize, 0, 3, 1, 1440, 0, 7] {
        for _ in 0..batch {
            device.push(0, None, None, false);
        }
        round(&mut poller, &device, &mut shown);
    }
    let expected: Vec<u64> = (0..=1451).collect();
    assert_eq!(shown, expected);
}

#[test]
fn after_a_restart_the_new_ids_follow() {
    let mut device = Buffer::default();
    let mut poller = Poller::new(false);
    let mut shown = Vec::new();
    for _ in 0..5 {
        device.push(0, None, None, false);
    }
    round(&mut poller, &device, &mut shown);
    let mut device = Buffer::default();
    device.push(0, None, None, false);
    round(&mut poller, &device, &mut shown);
    device.push(0, None, None, false);
    round(&mut poller, &device, &mut shown);
    assert_eq!(shown, vec![4, 0, 1]);
}

#[test]
fn ids_run_out() {
    let mut poller = at_work(false);
    poller.step(Event::Latest(Some(u64::MAX)));
    assert!(!poller.out_of_ids());
    poller.step(Event::Woke);
    assert!(poller.out_of_ids());
    assert!(!following().out_of_ids());
}

#[test]
fn notices() {
    assert_eq!(notice(Report::Quiet, "x"), None);
    assert_eq!(notice(Report::Show, "x"), None);
    assert_eq!(notice(Report::Restarted, "x").unwrap(), "(device restarted)");
    assert_eq!(notice(Report::ConnectError, "x").unwrap(), "connect error: x");
    assert_eq!(notice(Report::RpcError, "x").unwrap(), "rpc error: x");
    assert_eq!(notice(Report::StreamError, "x").unwrap(), "stream error: x");
    assert_eq!(notice(Report::Live, "x").unwrap(), "live ✓");
    assert_eq!(notice(Report::ShowLive, "x").unwrap(), "live ✓");
    assert_eq!(notice(Report::NoReadings, "x").unwrap(), "no readings yet — waiting…");
}

#[test]
fn over_a_gap_the_retained_records_are_shown() {
    let mut device = Buffer::default();
    let mut poller = Poller::new(false);
    let mut shown = Vec::new();
    device.push(0, None, None, false);
    for batch in [0usize, 2000, 1441, 3] {
        for _ in 0..batch {
            device.push(0, None, None, false);
        }
        round(&mut poller, &device, &mut shown);
    }
    let expected: Vec<u64> = (0..1).chain(561..2001).chain(2002..3445).collect();
    assert_eq!(shown, expected);
}
