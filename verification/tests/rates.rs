use gabion::period::{measure_period, SPAN_NANOS};
use gabion::rules::{parse_rate, resolve_rate, RateResolveError, ResolvedRate};
use gabion::time::Duration;

// -- parse_rate -------------------------------------------------------------

#[test]
fn parse_rate_unit_letters() {
    assert_eq!(parse_rate("100r/s").unwrap(), (100, Duration::from_secs(1)));
    assert_eq!(
        parse_rate("100r/m").unwrap(),
        (100, Duration::from_secs(60))
    );
    assert_eq!(parse_rate("1r/h").unwrap(), (1, Duration::from_secs(3600)));
    assert_eq!(parse_rate("1r/d").unwrap(), (1, Duration::from_secs(86400)));
}

#[test]
fn parse_rate_humantime_periods() {
    assert_eq!(parse_rate("5r/30s").unwrap(), (5, Duration::from_secs(30)));
    assert_eq!(
        parse_rate("100r/5m").unwrap(),
        (100, Duration::from_secs(300))
    );
    assert_eq!(
        parse_rate("100r/2h30m").unwrap(),
        (100, Duration::from_secs(2 * 3600 + 30 * 60))
    );
    assert_eq!(
        parse_rate("100r/500ms").unwrap(),
        (100, Duration::from_millis(500))
    );
}

#[test]
fn parse_rate_rejects_unknown_unit() {
    assert!(parse_rate("100r/fortnight").is_err());
    assert!(parse_rate("100r/").is_err());
    assert!(parse_rate("100").is_err());
    assert!(parse_rate("100/s").is_err());
}

#[test]
fn parse_rate_rejects_zero_count() {
    assert!(parse_rate("0r/s").is_err());
}

#[test]
fn parse_rate_rejects_zero_period() {
    assert!(parse_rate("10r/0s").is_err());
}

// -- resolve_rate -----------------------------------------------------------

#[test]
fn resolve_rate_window_defaults_to_period() {
    let r = resolve_rate(10, Duration::from_secs(1), None, None).unwrap();
    assert_eq!(
        r,
        ResolvedRate {
            limit: 10,
            window_millis: 1_000,
            bucket_millis: 1_000,
        }
    );
}

#[test]
fn resolve_rate_bucket_defaults_to_window() {
    let r = resolve_rate(
        10,
        Duration::from_secs(1),
        Some(Duration::from_secs(60)),
        None,
    )
    .unwrap();
    assert_eq!(r.window_millis, 60_000);
    assert_eq!(r.bucket_millis, 60_000);
}

#[test]
fn resolve_rate_scales_to_window() {
    // 10 r/s over 5h → 180_000 over 5h.
    let r = resolve_rate(
        10,
        Duration::from_secs(1),
        Some(Duration::from_secs(5 * 3600)),
        Some(Duration::from_secs(3600)),
    )
    .unwrap();
    assert_eq!(r.limit, 180_000);
    assert_eq!(r.window_millis, 5 * 3600 * 1_000);
    assert_eq!(r.bucket_millis, 3600 * 1_000);
}

#[test]
fn resolve_rate_floors_non_multiple_windows() {
    // 10 r/m over 85s → floor(10 * 85000 / 60000) = 14.
    let r = resolve_rate(
        10,
        Duration::from_secs(60),
        Some(Duration::from_secs(85)),
        None,
    )
    .unwrap();
    assert_eq!(r.limit, 14);

    // 10 r/m over 90s → floor(10 * 90000 / 60000) = 15.
    let r = resolve_rate(
        10,
        Duration::from_secs(60),
        Some(Duration::from_secs(90)),
        None,
    )
    .unwrap();
    assert_eq!(r.limit, 15);
}

#[test]
fn resolve_rate_window_equal_to_period_keeps_count() {
    // rate=10r/m window=60s → limit 10. (window == period, no scaling.)
    let r = resolve_rate(
        10,
        Duration::from_secs(60),
        Some(Duration::from_secs(60)),
        Some(Duration::from_secs(1)),
    )
    .unwrap();
    assert_eq!(r.limit, 10);
    assert_eq!(r.bucket_millis, 1_000);
}

#[test]
fn resolve_rate_rejects_window_shorter_than_period() {
    // rate=10r/m window=500ms would give limit=0; reject up front.
    let err = resolve_rate(
        10,
        Duration::from_secs(60),
        Some(Duration::from_millis(500)),
        None,
    )
    .unwrap_err();
    assert_eq!(err, RateResolveError::WindowShorterThanPeriod);
}

#[test]
fn resolve_rate_rejects_zero_window() {
    let err = resolve_rate(10, Duration::from_secs(1), Some(Duration::zero()), None).unwrap_err();
    assert_eq!(err, RateResolveError::ZeroWindow);
}

#[test]
fn resolve_rate_rejects_zero_bucket() {
    let err = resolve_rate(
        10,
        Duration::from_secs(1),
        Some(Duration::from_secs(60)),
        Some(Duration::zero()),
    )
    .unwrap_err();
    assert_eq!(err, RateResolveError::ZeroBucket);
}

#[test]
fn resolve_rate_rejects_overflow() {
    // rate=u64::MAX, window=2s, period=1s → u64::MAX * 2000 overflows u64.
    let err = resolve_rate(
        u64::MAX,
        Duration::from_secs(1),
        Some(Duration::from_secs(2)),
        None,
    )
    .unwrap_err();
    assert_eq!(err, RateResolveError::LimitOverflow);
}

#[test]
fn long_periods_are_read() {
    let (count, period) = parse_rate("1r/1000000000000ns").unwrap();
    assert_eq!((count, period), (1, Duration::from_secs(1_000)));
    let (count, period) = parse_rate(" \t\u{2003}7r/1h 30m\u{a0}\n").unwrap();
    assert_eq!((count, period), (7, Duration::from_secs(5_400)));
}

#[test]
fn one_number_may_have_any_length() {
    let padded = parse_rate("1r/0000000000000000000000001s").unwrap();
    assert_eq!(padded, (1, Duration::from_secs(1)));
    let nanos = parse_rate("1r/1000000000000000000ns").unwrap();
    assert_eq!(nanos, (1, Duration::from_secs(1_000_000_000)));
    let fraction = parse_rate("2r/1.5m").unwrap();
    assert_eq!(fraction, (2, Duration::from_secs(90)));
    let (_, longest) = parse_rate("2r/18446744073709551615.5s").unwrap();
    assert_eq!((longest.secs, longest.nanos), (u64::MAX, 500_000_000));
}

#[test]
fn several_numbers_may_come_to_less_than_the_clock_holds() {
    for (text, secs, nanos) in [
        ("1r/1s1000000000000000ns", 1_000_001, 0),
        ("1r/1000000000s 100000us", 1_000_000_000, 100_000_000),
        ("1r/18446744073709551615s 999999999ns", u64::MAX, 999_999_999),
        ("1r/18446744073709551614s 1000ms", u64::MAX, 0),
        ("1r/18446744073709551614s 1msec 2millis 3us", u64::MAX - 1, 3_003_000),
        ("1r/1month 1M 1min 1y", 2 * 2_630_016 + 60 + 31_557_600, 0),
        ("1r/18446744073709551615s 0.005m 400ms", u64::MAX, 700_000_000),
    ] {
        let period = parse_rate(text).unwrap().1;
        assert_eq!((period.secs, period.nanos), (secs, nanos), "{text}");
    }
    for text in [
        "1r/18446744073709551615s 1000ms",
        "1r/18446744073709551615s 400ms 0.01m",
        "1r/18446744073709551615s 400ms 0.01m s",
        "1r/18446744073709551615s 1000000us",
        "1r/18446744073709551555s 1m 1000ms",
        "1r/999999999999y 1s",
    ] {
        assert_eq!(
            parse_rate(text),
            Err("rate period must be `s`, `m`, `h`, `d`, or a duration like `30s`, `5m`"),
        );
    }
}

/// What a period comes to is the sum of its numbers, each by its unit.
#[test]
fn periods_are_sums() {
    for (text, nanos) in [
        ("", 0),
        ("7", 0),
        ("3ns", 3),
        ("1 2 us", 12_000),
        ("2ms", 2_000_000),
        ("2millis", 2_000_000),
        ("1.25s", 1_250_000_000),
        ("2mins", 120_000_000_000),
        ("1h30m", 5_400_000_000_000),
        ("2months", 5_260_032_000_000_000),
        ("1m s", 60_000_000_000),
        ("18446744073709551616ns", 18_446_744_073_709_551_616),
        ("99999999999999999999999999ns", 18_446_744_073_709_551_616),
        ("18446744073709551616s", SPAN_NANOS),
        ("585000000000y", SPAN_NANOS),
    ] {
        assert_eq!(measure_period(text), nanos, "{text}");
    }
}

/// Rates are trimmed of exactly what is whitespace.
#[test]
fn all_whitespace_is_trimmed() {
    for c in '\0'..=char::MAX {
        let read = parse_rate(&format!("{c}1r/s")).is_ok();
        assert_eq!(read, c.is_whitespace() || c.is_ascii_digit() || c == '+', "{c:?}");
    }
}
