use iroh_esp32::buffer::Buffer;
use iroh_esp32::feed::Feed;
use iroh_esp32::live::{Action, Event, Report};

#[test]
fn history_comes_before_the_live_tail() {
    let mut feed = Feed::new();
    assert_eq!(feed.action(), Action::GetLatest);
    assert_eq!(feed.step(Event::Latest(Some(5000))), Report::Quiet);
    assert_eq!(feed.action(), Action::GetLog { start_id: 4001, limit: u32::MAX });
    assert_eq!(feed.step(Event::Opened), Report::Quiet);
    assert_eq!(feed.action(), Action::Receive);
    assert_eq!(feed.step(Event::Received(4999)), Report::Show);
    assert_eq!(feed.step(Event::Received(5000)), Report::Show);
    assert_eq!(feed.step(Event::Ended), Report::Live);
    assert_eq!(feed.action(), Action::GetLog { start_id: 5001, limit: u32::MAX });
}

#[test]
fn a_short_history_begins_at_zero() {
    let mut feed = Feed::new();
    feed.step(Event::Latest(Some(999)));
    assert_eq!(feed.action(), Action::GetLog { start_id: 0, limit: u32::MAX });
    let mut feed = Feed::new();
    feed.step(Event::Latest(Some(1000)));
    assert_eq!(feed.action(), Action::GetLog { start_id: 1, limit: u32::MAX });
}

#[test]
fn the_history_has_a_thousand_records() {
    let mut device = Buffer::default();
    for _ in 0..1201 {
        device.push(0, None, None, false);
    }
    let mut shown = Vec::new();
    feed_round(&mut Feed::new(), &device, &mut shown);
    let expected: Vec<u64> = (201..1201).collect();
    assert_eq!(shown, expected);
}

#[test]
fn failures_lose_the_feed_nothing() {
    let mut feed = tail();
    let mut shown = Vec::new();
    let rounds: [&[Event]; 5] = [
        &[Event::RpcFailed],
        &[Event::Opened, Event::Received(10), Event::StreamFailed],
        &[Event::Opened, Event::StreamFailed, Event::RpcFailed],
        &[Event::Opened, Event::StreamFailed, Event::Latest(Some(12))],
        &[Event::Opened, Event::Received(11), Event::Received(12), Event::Ended],
    ];
    for events in rounds {
        for &event in events {
            if feed.step(event) == Report::Show {
                if let Event::Received(id) = event {
                    shown.push(id);
                }
            }
        }
        assert_eq!(feed.action(), Action::Wait { millis: 2000 });
        feed.step(Event::Woke);
        let next = shown.last().copied().unwrap_or(9) + 1;
        assert_eq!(feed.action(), Action::GetLog { start_id: next, limit: u32::MAX });
    }
    assert_eq!(shown, vec![10, 11, 12]);
}

#[test]
fn a_failed_history_is_passed_over() {
    let mut feed = Feed::new();
    feed.step(Event::Latest(Some(7)));
    assert_eq!(feed.step(Event::RpcFailed), Report::Live);
    assert_eq!(feed.action(), Action::GetLatest);
    assert_eq!(feed.last_id(), None);

    let mut feed = Feed::new();
    feed.step(Event::Latest(Some(7)));
    feed.step(Event::Opened);
    feed.step(Event::Received(5));
    assert_eq!(feed.step(Event::StreamFailed), Report::Live);
    assert_eq!(feed.action(), Action::GetLog { start_id: 6, limit: u32::MAX });
}

#[test]
fn waiting_for_a_first_reading() {
    for answer in [Event::Latest(None), Event::RpcFailed] {
        let mut feed = Feed::new();
        assert_eq!(feed.step(answer), Report::NoReadings);
        assert_eq!(feed.action(), Action::GetLatest);
        assert_eq!(feed.step(Event::Latest(None)), Report::NoReadings);
        assert_eq!(feed.action(), Action::Wait { millis: 2000 });
        feed.step(Event::Woke);
        assert_eq!(feed.step(Event::RpcFailed), Report::RpcError);
        feed.step(Event::Woke);
        assert_eq!(feed.step(Event::Latest(Some(0))), Report::ShowLive);
        assert_eq!(feed.action(), Action::Wait { millis: 2000 });
        feed.step(Event::Woke);
        assert_eq!(feed.action(), Action::GetLog { start_id: 1, limit: u32::MAX });
    }
}

/// A feed that has shown record 9.
fn tail() -> Feed {
    let mut feed = Feed::new();
    feed.step(Event::Latest(Some(9)));
    feed.step(Event::Opened);
    feed.step(Event::Received(9));
    feed.step(Event::Ended);
    feed
}

#[test]
fn the_feed_notices_a_restart_even_after_an_error() {
    for end in [Event::Ended, Event::StreamFailed] {
        let mut feed = tail();
        feed.step(Event::Opened);
        let report = feed.step(end);
        assert_eq!(report == Report::StreamError, end == Event::StreamFailed);
        assert_eq!(feed.action(), Action::GetLatest);
        assert_eq!(feed.step(Event::Latest(Some(2))), Report::Restarted);
        assert_eq!(feed.last_id(), Some(2));
    }
}

#[test]
fn the_feed_keeps_its_place() {
    let mut feed = tail();
    assert_eq!(feed.step(Event::RpcFailed), Report::RpcError);
    feed.step(Event::Woke);
    assert_eq!(feed.action(), Action::GetLog { start_id: 10, limit: u32::MAX });
    feed.step(Event::Opened);
    feed.step(Event::Received(10));
    assert_eq!(feed.step(Event::StreamFailed), Report::StreamError);
    assert_eq!(feed.action(), Action::Wait { millis: 2000 });
    feed.step(Event::Woke);
    feed.step(Event::Opened);
    feed.step(Event::Ended);
    assert_eq!(feed.step(Event::Latest(Some(10))), Report::Quiet);
    assert_eq!(feed.last_id(), Some(10));
}

#[test]
fn the_ids_of_a_feed_run_out() {
    let mut feed = Feed::new();
    feed.step(Event::Latest(Some(u64::MAX)));
    feed.step(Event::Opened);
    feed.step(Event::Received(u64::MAX));
    assert!(!feed.out_of_ids());
    feed.step(Event::Ended);
    assert!(feed.out_of_ids());
    assert!(!tail().out_of_ids());
}

fn feed_round(feed: &mut Feed, device: &Buffer, shown: &mut Vec<u64>) {
    let mut stream = Vec::new().into_iter();
    loop {
        let event = match feed.action() {
            Action::GetLatest => Event::Latest(device.latest().map(|r| r.id)),
            Action::GetLog { start_id, limit } => {
                stream = device.range(start_id, limit as usize).into_iter();
                Event::Opened
            }
            Action::Receive => match stream.next() {
                Some(record) => Event::Received(record.id),
                None => Event::Ended,
            },
            Action::Wait { .. } => {
                feed.step(Event::Woke);
                return;
            }
            other => panic!("{other:?}"),
        };
        if matches!(feed.step(event), Report::Show | Report::ShowLive | Report::Restarted) {
            match event {
                Event::Received(id) | Event::Latest(Some(id)) => shown.push(id),
                other => panic!("{other:?}"),
            }
        }
    }
}

#[test]
fn the_feed_shows_every_record_once() {
    let mut device = Buffer::default();
    for _ in 0..1200 {
        device.push(0, None, None, false);
    }
    let mut feed = Feed::new();
    let mut shown = Vec::new();
    for batch in [0usize, 2, 0, 5] {
        for _ in 0..batch {
            device.push(0, None, None, false);
        }
        feed_round(&mut feed, &device, &mut shown);
    }
    let expected: Vec<u64> = (200..1207).collect();
    assert_eq!(shown, expected);
}

#[test]
fn over_a_gap_the_feed_shows_the_retained_records() {
    let mut device = Buffer::default();
    let mut feed = Feed::new();
    let mut shown = Vec::new();
    device.push(0, None, None, false);
    for batch in [0usize, 1500, 2] {
        for _ in 0..batch {
            device.push(0, None, None, false);
        }
        feed_round(&mut feed, &device, &mut shown);
    }
    let expected: Vec<u64> = (0..1).chain(61..1503).collect();
    assert_eq!(shown, expected);
}
