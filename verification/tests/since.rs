use kb_core::since::{cutoff, parse, read_since, relative, since_spec, Since, Unit};

fn now_seconds() -> i64 {
    jiff::Zoned::now().timestamp().as_second()
}

#[test]
fn reads_relative_durations() {
    let now = now_seconds();
    let week = parse("7d").unwrap();
    assert!(week.seconds < now);
    assert!(parse("3w").unwrap().seconds < week.seconds);
    assert!(parse("6m").unwrap().seconds < parse("3w").unwrap().seconds);
    assert!(parse("1y").unwrap().seconds < parse("6m").unwrap().seconds);
}

#[test]
fn reads_absolute_dates() {
    let date = parse("2026-01-01").unwrap();
    assert_eq!(date.date, "2026-01-01");
    assert_eq!(parse("2026-04-20T13:34:09+09:00").unwrap().date, "2026-04-20");
}

#[test]
fn rejects_nonsense() {
    assert!(parse("").is_err());
    assert!(parse("soon").is_err());
    assert!(parse("d").is_err());
    // A bare number is a date attempt, not a duration.
    assert!(parse("7").is_err());
}

#[test]
fn names_what_went_wrong() {
    assert_eq!(parse("  ").err(), Some("empty --since value".to_string()));
}

#[test]
fn splits_amount_and_unit() {
    assert_eq!(relative("12w"), Ok(Some((Unit::Weeks, 12))));
    assert_eq!(relative("x7d"), Ok(None));
    assert_eq!(relative("7"), Ok(None));
    assert_eq!(
        relative("99999999999999999999d"),
        Err("bad duration `99999999999999999999d`".to_string())
    );
    assert_eq!(
        parse("99999999y").err(),
        Some("duration `99999999y` is out of range".to_string())
    );
    assert_eq!(
        parse("soon").err(),
        Some("cannot read `soon` as a date or a duration like `7d`".to_string())
    );
}

#[test]
fn an_absolute_since_reads_the_date_it_names() {
    let s = parse(" 2024-01-02 ").expect("date");
    assert!((s.seconds - 1_704_153_600).abs() <= 93_600);
    let t = parse("1999-12-31T23:59:59").expect("datetime");
    assert!((t.seconds - 946_684_799).abs() <= 93_600);
}

#[test]
fn reading_a_since_value_does_not_need_the_clock() {
    assert!(matches!(since_spec(" 3w "), Ok(Since::Ago(Unit::Weeks, 3))));
    assert!(matches!(since_spec("6m"), Ok(Since::Ago(Unit::Months, 6))));
    assert!(matches!(since_spec("2024-01-02"), Ok(Since::At(_))));
    assert_eq!(since_spec("").err(), Some("empty --since value".to_string()));
    assert_eq!(since_spec("99999999d").err(), Some("duration `99999999d` is out of range".to_string()));
    let (weeks, _) = cutoff(Unit::Weeks, 3).unwrap();
    let (days, now) = cutoff(Unit::Days, 7).unwrap();
    assert!(weeks.seconds < days.seconds);
    assert!((now - days.seconds - 7 * 86_400).abs() <= 187_200);
    assert!((now - now_seconds()).abs() <= 5);
}

#[test]
fn a_relative_since_counts_back_from_the_clock() {
    let (s, now) = read_since("3w").unwrap();
    let now = now.expect("a duration reads the clock");
    assert!((now - s.seconds - 21 * 86_400).abs() <= 187_200);
    let (m, now) = read_since(" 6m ").unwrap();
    let back = now.unwrap() - m.seconds;
    assert!(back >= 6 * 28 * 86_400 - 187_200 && back <= 189 * 86_400 + 187_200);
    let (d, none) = read_since("2024-01-02").unwrap();
    assert_eq!(none, None);
    assert!((d.seconds - 1_704_153_600).abs() <= 93_600);
    assert_eq!(read_since("soon").err(), Some("cannot read `soon` as a date or a duration like `7d`".to_string()));
}
