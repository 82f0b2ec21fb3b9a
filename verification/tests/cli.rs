use memwatch::cli::{parse_duration, should_quit, Interval, Key, DEFAULT_INTERVAL};

#[test]
fn default_interval_is_one_second() {
    assert_eq!(parse_duration(DEFAULT_INTERVAL), Ok(Interval { secs: 1, nanos: 0 }));
}

#[test]
fn parses_human_interval_values() {
    assert_eq!(parse_duration("500ms"), Ok(Interval { secs: 0, nanos: 500_000_000 }));
}

#[test]
fn rejects_zero_interval() {
    let error = parse_duration("0s").unwrap_err();
    assert!(error.contains("interval must be greater than zero"));
}

#[test]
fn passes_on_humantime_errors() {
    let error = parse_duration("soon").unwrap_err();
    assert!(!error.contains("interval must be greater than zero"));
    assert!(parse_duration("").is_err());
    assert_eq!(parse_duration("2.5s"), Ok(Interval { secs: 2, nanos: 500_000_000 }));
}

#[test]
fn should_quit_accepts_q_escape_and_ctrl_c() {
    assert!(should_quit(Key::Char('q'), false));
    assert!(should_quit(Key::Esc, false));
    assert!(should_quit(Key::Char('c'), true));
    assert!(!should_quit(Key::Char('c'), false));
    assert!(!should_quit(Key::Other, true));
}

#[test]
fn refuses_texts_with_too_many_digits() {
    assert_eq!(
        parse_duration("18446744073709551615s 500ms 500ms"),
        Err("interval has too many digits".to_string())
    );
    assert_eq!(parse_duration("1 000 000 000 000ns"), Err("interval has too many digits".to_string()));
    assert_eq!(parse_duration("99999999999s"), Ok(Interval { secs: 99_999_999_999, nanos: 0 }));
    assert_eq!(parse_duration("999999999s 99ms"), Ok(Interval { secs: 999_999_999, nanos: 99_000_000 }));
    assert_eq!(parse_duration("000000000001s"), Ok(Interval { secs: 1, nanos: 0 }));
    assert_eq!(parse_duration("0000000000000.5s 00000000000000002ms"), Ok(Interval { secs: 0, nanos: 502_000_000 }));
    assert_eq!(parse_duration("999999999s 999ms"), Err("interval has too many digits".to_string()));
    assert_eq!(parse_duration("1.5h 30m 250ms"), Ok(Interval { secs: 7200, nanos: 250_000_000 }));
}
