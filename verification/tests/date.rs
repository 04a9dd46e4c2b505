use chrono::Datelike;
use td::date::{
    ago, ago_from, label, label_from, parse_due, parse_due_from, today, Date, MAX_DAYS, MIN_DAYS,
};

/// The date `n` days from today.
fn from_today(n: i64) -> Date {
    Date::from_days(today().days() as i64 + n).unwrap()
}

/// How chrono writes `d`.
fn chrono_text(d: Date) -> String {
    chrono::NaiveDate::from_num_days_from_ce_opt(d.days())
        .unwrap()
        .to_string()
}

fn ymd(y: i32, m: u32, d: u32) -> Option<Date> {
    chrono::NaiveDate::from_ymd_opt(y, m, d)
        .map(|x| Date::from_days(x.num_days_from_ce() as i64).unwrap())
}

#[test]
fn labels_past_dates_for_history() {
    assert_eq!(ago(today()), "today");
    assert_eq!(ago(from_today(-1)), "yesterday");
    assert_eq!(ago(from_today(-3)), "3d ago");
    let old = from_today(-30);
    assert_eq!(ago(old), chrono_text(old));
}

#[test]
fn clears_on_empty_and_dashes() {
    for s in ["", "  ", "-", "none", "clear"] {
        assert_eq!(parse_due(s), Ok(None));
    }
}

#[test]
fn parses_keywords_and_offsets() {
    assert_eq!(parse_due("today"), Ok(Some(today())));
    assert_eq!(parse_due("TOMORROW"), Ok(Some(from_today(1))));
    assert_eq!(parse_due("+3d"), Ok(Some(from_today(3))));
    assert_eq!(parse_due("2w"), Ok(Some(from_today(14))));
}

#[test]
fn parses_iso_dates() {
    assert_eq!(parse_due("2026-12-25"), Ok(ymd(2026, 12, 25)));
}

#[test]
fn month_day_rolls_into_next_year_once_past() {
    let past = from_today(-30);
    let s = chrono::NaiveDate::from_num_days_from_ce_opt(past.days())
        .unwrap()
        .format("%m-%d")
        .to_string();
    let got = parse_due(&s).unwrap().unwrap();
    assert!(
        got.days() >= today().days(),
        "{s} resolved to {}, which is in the past",
        chrono_text(got)
    );
}

#[test]
fn rejects_nonsense() {
    for s in ["next thursday", "2026-13-45", "soon", "3x"] {
        assert_eq!(parse_due(s), Err(()), "{s} should not parse");
    }
}

#[test]
fn labels_relative_dates() {
    assert_eq!(label(today()), "today");
    assert_eq!(label(from_today(1)), "tomorrow");
    assert_eq!(label(from_today(-1)), "yesterday");
    assert_eq!(label(from_today(-5)), "5d late");
    assert_eq!(label(from_today(3)), "in 3d");
    assert_eq!(label(from_today(90)), chrono_text(from_today(90)));
}

#[test]
fn parse_due_from_a_fixed_day() {
    let day = ymd(2026, 3, 10).unwrap();
    assert_eq!(parse_due_from("tmr", day), Ok(ymd(2026, 3, 11)));
    assert_eq!(parse_due_from(" +1m ", day), Ok(ymd(2026, 4, 9)));
    assert_eq!(parse_due_from("12-25", day), Ok(ymd(2026, 12, 25)));
    assert_eq!(parse_due_from("03-01", day), Ok(ymd(2027, 3, 1)));
    assert_eq!(parse_due_from("03-10", day), Ok(ymd(2026, 3, 10)));
    assert_eq!(parse_due_from("02-30", day), Err(()));
    assert_eq!(parse_due_from("NONE", day), Ok(None));
}

#[test]
fn labels_from_a_fixed_day() {
    let day = ymd(2026, 3, 10).unwrap();
    assert_eq!(label_from(ymd(2026, 3, 16).unwrap(), day), "in 6d");
    assert_eq!(label_from(ymd(2026, 3, 17).unwrap(), day), "2026-03-17");
    assert_eq!(label_from(ymd(2026, 3, 1).unwrap(), day), "9d late");
    assert_eq!(ago_from(ymd(2026, 3, 8).unwrap(), day), "2d ago");
    assert_eq!(ago_from(ymd(2026, 3, 3).unwrap(), day), "2026-03-03");
}

#[test]
fn offsets_past_the_calendar_are_refused() {
    let last = Date::from_days(MAX_DAYS as i64).unwrap();
    assert_eq!(parse_due_from("+1d", last), Err(()));
    assert_eq!(parse_due_from("today", last), Ok(Some(last)));
}

#[test]
fn day_range_is_the_calendar_of_chrono() {
    assert_eq!(MIN_DAYS, chrono::NaiveDate::MIN.num_days_from_ce());
    assert_eq!(MAX_DAYS, chrono::NaiveDate::MAX.num_days_from_ce());
    assert!(Date::from_days(MIN_DAYS as i64 - 1).is_none());
    assert!(Date::from_days(MAX_DAYS as i64 + 1).is_none());
}

#[test]
fn leap_day_waits_for_the_next_leap_year() {
    let day = ymd(2028, 3, 30).unwrap();
    assert_eq!(parse_due_from("02-29", day), Ok(ymd(2032, 2, 29)));
    let day = ymd(2026, 3, 10).unwrap();
    assert_eq!(parse_due_from("02-29", day), Ok(ymd(2028, 2, 29)));
    let day = ymd(2028, 2, 1).unwrap();
    assert_eq!(parse_due_from("02-29", day), Ok(ymd(2028, 2, 29)));
    assert_eq!(parse_due_from("02-30", day), Err(()));
    assert_eq!(parse_due_from("13-01", day), Err(()));
}
