use iroh_esp32::wifi::{
    access_point_line, channel_summary, scan_lines, strongest_first, wifi_credentials, AccessPoint,
    ClockWait, ConnectStep, Joining, SntpStep,
};

fn ap(ssid: &str, channel: u8, signal_strength: i8) -> AccessPoint {
    AccessPoint {
        ssid: ssid.to_string(),
        bssid: [0, 0x1b, 0x2c, 0xff, 9, channel],
        channel,
        signal_strength,
        auth_method: Some("WPA2Personal".to_string()),
    }
}

#[test]
fn credentials_split_at_the_first_colon() {
    let split = |config: &str| wifi_credentials(config);
    assert_eq!(split("home:secret"), Some(("home".to_string(), "secret".to_string())));
    assert_eq!(split("home:se:cret"), Some(("home".to_string(), "se:cret".to_string())));
    assert_eq!(split(":"), Some((String::new(), String::new())));
    assert_eq!(split("home"), None);
}

#[test]
fn joining_is_tried_ten_times() {
    let mut joining = Joining::patient();
    for attempt in 1..10 {
        assert_eq!(joining.attempted(false), ConnectStep::RetryAfter { seconds: 2 });
        assert_eq!(joining.made(), attempt);
    }
    assert_eq!(joining.attempted(false), ConnectStep::GiveUp);
    assert_eq!(joining.made(), 10);
}

#[test]
fn joining_can_be_tried_once() {
    assert_eq!(Joining::once().attempted(false), ConnectStep::GiveUp);
    assert_eq!(Joining::once().attempted(true), ConnectStep::Connected);
}

#[test]
fn a_success_ends_joining() {
    let mut joining = Joining::patient();
    joining.attempted(false);
    joining.attempted(false);
    assert_eq!(joining.attempted(true), ConnectStep::Connected);
    assert_eq!(joining.made(), 3);
}

#[test]
fn the_clock_gets_thirty_seconds() {
    let mut wait = ClockWait::new();
    for _ in 0..30 {
        assert_eq!(wait.polled(false), SntpStep::WaitFor { seconds: 1 });
    }
    assert_eq!(wait.polled(false), SntpStep::TimedOut);
    assert_eq!(wait.polled(true), SntpStep::Synced);
    assert_eq!(ClockWait::new().polled(true), SntpStep::Synced);
}

#[test]
fn strongest_lead_and_equals_keep_their_order() {
    let sorted = strongest_first(vec![
        ap("a", 1, -70), ap("b", 1, -40), ap("c", 1, -70), ap("d", 1, -128), ap("e", 1, 127),
        ap("f", 1, -40),
    ]);
    let order: Vec<&str> = sorted.iter().map(|ap| ap.ssid.as_str()).collect();
    assert_eq!(order, vec!["e", "b", "f", "a", "c", "d"]);
}

#[test]
fn scans_are_listed() {
    let mut hidden = ap("", 11, -100);
    hidden.auth_method = None;
    assert_eq!(
        access_point_line(&ap("home", 6, -42)),
        " -42 dBm  ch6   00:1b:2c:ff:09:06  WPA2Personal      home",
    );
    assert_eq!(
        scan_lines(&vec![ap("home", 6, -42), hidden]),
        vec![
            "=== scan: 2 access point(s) ===",
            " -42 dBm  ch6   00:1b:2c:ff:09:06  WPA2Personal      home",
            "-100 dBm  ch11  00:1b:2c:ff:09:0b  Open              <hidden>",
        ],
    );
}

#[test]
fn channels_are_summed_up() {
    let aps = vec![
        ap("a", 11, -80), ap("b", 1, -60), ap("c", 11, -50), ap("d", 6, -70), ap("e", 1, -30),
        ap("f", 1, -90),
    ];
    assert_eq!(
        channel_summary(&aps),
        vec!["6 APs / 3 ch", "ch 1   3x   -30dBm", "ch11   2x   -50dBm", "ch 6   1x   -70dBm"],
    );
    assert_eq!(channel_summary(&vec![]), vec!["0 APs / 0 ch"]);
}

#[test]
fn the_summary_fits_the_panel() {
    let aps: Vec<AccessPoint> = (1..=13).map(|channel| ap("x", channel, -50)).collect();
    let lines = channel_summary(&aps);
    assert_eq!(lines.len(), 8);
    assert_eq!(lines[0], "13 APs / 13 ch");
    assert_eq!(lines[1], "ch 1   1x   -50dBm");
    assert_eq!(lines[7], "ch 7   1x   -50dBm");
}

#[test]
fn the_summary_ignores_the_order_of_the_scan() {
    let forward: Vec<AccessPoint> =
        (0..30u8).map(|n| ap("x", n * 7 % 12, -(n as i8))).collect();
    let backward: Vec<AccessPoint> =
        (0..30u8).rev().map(|n| ap("x", n * 7 % 12, -(n as i8))).collect();
    assert_eq!(channel_summary(&forward), channel_summary(&backward));
}
