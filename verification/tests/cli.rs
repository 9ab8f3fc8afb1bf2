use iroh_esp32::cli::{
    format_line, format_measured, format_reading, format_record, heading, parse_args, parse_range,
    ArgsError, Fetch, RangeError,
};
use iroh_esp32::protocol::{Reading, Record, Tenths};

fn tenths(n: i32) -> Tenths {
    Tenths { negative: n < 0, magnitude: n.unsigned_abs() }
}

fn args(words: &[&str]) -> Vec<String> {
    words.iter().map(|w| w.to_string()).collect()
}

#[test]
fn range_forms() {
    assert_eq!(parse_range("600"), Ok((600, None)));
    assert_eq!(parse_range("600.."), Ok((600, None)));
    assert_eq!(parse_range("600..700"), Ok((600, Some(700))));
    assert_eq!(parse_range("600..600"), Ok((600, Some(600))));
    assert_eq!(parse_range("+6..+7"), Ok((6, Some(7))));
    assert_eq!(parse_range("18446744073709551615"), Ok((u64::MAX, None)));
}

#[test]
fn range_errors() {
    assert_eq!(parse_range("700..600"), Err(RangeError::Reversed));
    assert_eq!(parse_range(""), Err(RangeError::Start));
    assert_eq!(parse_range("..700"), Err(RangeError::Start));
    assert_eq!(parse_range("x..700"), Err(RangeError::Start));
    assert_eq!(parse_range("x..y"), Err(RangeError::Start));
    assert_eq!(parse_range("600..y"), Err(RangeError::End));
    assert_eq!(parse_range("600...700"), Err(RangeError::End));
    assert_eq!(parse_range("600..=700"), Err(RangeError::End));
    assert_eq!(parse_range("-1"), Err(RangeError::Start));
    assert_eq!(parse_range("18446744073709551616"), Err(RangeError::Start));
}

#[test]
fn range_error_messages() {
    assert_eq!(RangeError::Start.message(), "range start must be a u64");
    assert_eq!(RangeError::End.message(), "range end must be a u64");
    assert_eq!(RangeError::Reversed.message(), "range end must be >= start");
}

#[test]
fn written_ranges_read_back() {
    for (start, end) in [(0u64, 0u64), (1, 2), (999, 1000), (0, u64::MAX), (u64::MAX, u64::MAX)] {
        assert_eq!(parse_range(&format!("{start}")), Ok((start, None)));
        assert_eq!(parse_range(&format!("{start}..")), Ok((start, None)));
        assert_eq!(parse_range(&format!("{start}..{end}")), Ok((start, Some(end))));
        if start < end {
            assert_eq!(parse_range(&format!("{end}..{start}")), Err(RangeError::Reversed));
        }
    }
}

#[test]
fn arguments_in_any_order() {
    let options = parse_args(&args(&["ticket"])).unwrap();
    assert!(!options.once);
    assert_eq!(options.range, None);
    assert_eq!(options.ticket, "ticket");

    let options = parse_args(&args(&["--range", "5..9", "--once", "ticket"])).unwrap();
    assert!(options.once);
    assert_eq!(options.range, Some((5, Some(9))));
    assert_eq!(options.ticket, "ticket");

    let options = parse_args(&args(&["ticket", "--once", "--range", "1", "--range", "2"])).unwrap();
    assert!(options.once);
    assert_eq!(options.range, Some((2, None)));
}

#[test]
fn argument_errors() {
    let failed = |words: &[&str]| parse_args(&args(words)).unwrap_err();
    assert!(matches!(failed(&[]), ArgsError::NoTicket));
    assert!(matches!(failed(&["--once"]), ArgsError::NoTicket));
    assert!(matches!(failed(&["ticket", "--range"]), ArgsError::RangeMissing));
    assert!(matches!(failed(&["--range", "x", "t"]), ArgsError::Range(RangeError::Start)));
    assert!(matches!(failed(&["a", "b"]), ArgsError::ExtraTicket));
    match failed(&["--verbose", "ticket"]) {
        ArgsError::UnknownFlag(flag) => assert_eq!(flag, "--verbose"),
        other => panic!("{other:?}"),
    }
}

#[test]
fn argument_error_messages() {
    assert_eq!(ArgsError::RangeMissing.message(), "--range needs <start[..end]>");
    assert_eq!(ArgsError::Range(RangeError::End).message(), "range end must be a u64");
    assert_eq!(ArgsError::UnknownFlag("--x".to_string()).message(), "unknown flag: --x");
    assert_eq!(ArgsError::ExtraTicket.message(), "expected a single endpoint ticket");
    assert_eq!(
        ArgsError::NoTicket.message(),
        "usage: dht22-cli [--once] [--range <start[..end]>] <endpoint-ticket>",
    );
}

#[test]
fn record_lines() {
    let record = Record {
        id: 7,
        time: 1700000000,
        inside: Some(Reading { temperature: tenths(215), humidity: tenths(480) }),
        outside: None,
        fan: true,
    };
    assert_eq!(
        format_record(&record),
        "[id      7 t=1700000000] inside:  21.5°C 48.0%  outside:     --        fan: on",
    );
    let record = Record {
        id: 1234567,
        time: 0,
        inside: None,
        outside: Some(Reading { temperature: tenths(-53), humidity: tenths(1000) }),
        fan: false,
    };
    assert_eq!(
        format_record(&record),
        "[id 1234567 t=         0] inside:     --        outside:  -5.3°C 100.0%  fan: off",
    );
}

#[test]
fn readings_are_formatted_like_floats() {
    for n in -1000i32..=2000 {
        let temperature = n as f32 / 10.0;
        let humidity = n.unsigned_abs() as f32 / 10.0;
        let expected = format!("{temperature:5.1}°C {humidity:4.1}%");
        let reading =
            Some(Reading { temperature: tenths(n), humidity: tenths(n.unsigned_abs() as i32) });
        assert_eq!(format_reading(&reading), expected);
        assert_eq!(
            format_measured(&format!("{temperature:.1}"), &format!("{humidity:.1}")),
            expected,
        );
    }
    assert_eq!(format_reading(&None), "    --      ");
    assert_eq!(format_line(1, 2, "i", "o", false), "[id      1 t=         2] inside: i  outside: o  fan: off");
}

#[test]
fn a_fetch_stops_behind_its_end() {
    let mut fetch = Fetch::new(Some(12));
    let mut shown = Vec::new();
    for id in 10u64..20 {
        if !fetch.offer(id) {
            break;
        }
        shown.push(id);
    }
    assert_eq!(shown, vec![10, 11, 12]);
    assert_eq!(fetch.count(), 3);
    assert_eq!(fetch.summary(), "(3 records)");
}

#[test]
fn an_open_fetch_takes_everything() {
    let mut fetch = Fetch::new(None);
    for id in 0u64..100 {
        assert!(fetch.offer(id));
    }
    assert_eq!(fetch.summary(), "(100 records)");
}

#[test]
fn fetch_headings() {
    assert_eq!(heading(600, Some(700)), "Fetching log range id 600..=700...");
    assert_eq!(heading(600, None), "Fetching log from id 600...");
}
