use chrono::{Datelike, NaiveDate};

use habitus::calendar::{parse_checkin_days, Day, MAX_DAY, MIN_DAY};

#[test]
fn from_ymd_gives_chrono_day_numbers() {
    let d = Day::from_ymd(2026, 7, 11).unwrap();
    assert_eq!(d.num, 739808);
    assert_eq!(d.num, NaiveDate::from_ymd_opt(2026, 7, 11).unwrap().num_days_from_ce());
    assert_eq!(Day::from_ymd(1, 1, 1).unwrap().num, 1);
    assert_eq!(Day::from_ymd(2026, 7, 12).unwrap().num, d.num + 1);
}

#[test]
fn from_ymd_refuses_invalid_dates() {
    assert_eq!(Day::from_ymd(2015, 0, 14), None);
    assert_eq!(Day::from_ymd(2015, 2, 29), None);
    assert_eq!(Day::from_ymd(2015, 4, 31), None);
    assert_eq!(Day::from_ymd(2015, 13, 1), None);
    assert_eq!(Day::from_ymd(400000, 1, 1), None);
    assert!(Day::from_ymd(2016, 2, 29).is_some());
    assert!(Day::from_ymd(-4, 2, 29).is_some());
    assert_eq!(Day::from_ymd(1900, 2, 29), None);
    assert!(Day::from_ymd(2000, 2, 29).is_some());
}

#[test]
fn calendar_bounds_match_chrono() {
    assert_eq!(NaiveDate::MIN.num_days_from_ce(), MIN_DAY);
    assert_eq!(NaiveDate::MAX.num_days_from_ce(), MAX_DAY);
    assert_eq!(Day::from_ymd(-262143, 1, 1).unwrap().num, MIN_DAY);
    assert_eq!(Day::from_ymd(262142, 12, 31).unwrap().num, MAX_DAY);
    assert_eq!(Day::from_ymd(-262144, 12, 31), None);
    assert_eq!(Day::from_ymd(262143, 1, 1), None);
}

#[test]
fn weekday_counts_from_monday() {
    assert_eq!(Day::from_ymd(1, 1, 1).unwrap().weekday(), 0);
    assert_eq!(Day::from_ymd(2026, 7, 11).unwrap().weekday(), 5);
    assert_eq!(Day::from_ymd(2026, 7, 6).unwrap().weekday(), 0);
    assert_eq!(Day::from_ymd(2026, 7, 12).unwrap().weekday(), 6);
    assert_eq!(Day { num: 0 }.weekday(), 6);
}

/// The proleptic Gregorian count that the contract of `Day::from_ymd` states.
fn ce_day_number(year: i64, month: u32, day: u32) -> i64 {
    let leap = year.rem_euclid(4) == 0 && (year.rem_euclid(100) != 0 || year.rem_euclid(400) == 0);
    let before = [0, 31, 59, 90, 120, 151, 181, 212, 243, 273, 304, 334][(month - 1) as usize]
        + if month > 2 && leap { 1 } else { 0 };
    let p = year - 1;
    365 * p + p.div_euclid(4) - p.div_euclid(100) + p.div_euclid(400) + before + day as i64
}

#[test]
fn from_ymd_follows_the_gregorian_count() {
    for year in (-2000..2500).chain(-262143..-261900).chain(261900..262143) {
        for month in 1..=12u32 {
            for d in [1u32, 15, 28] {
                let got = Day::from_ymd(year as i32, month, d).unwrap().num as i64;
                assert_eq!(got, ce_day_number(year, month, d), "{}-{}-{}", year, month, d);
            }
        }
    }
    assert_eq!(Day::from_ymd(2026, 7, 12).unwrap().num, Day::from_ymd(2026, 7, 11).unwrap().num + 1);
}

#[test]
fn dates_parse_and_print_as_stored() {
    let d = Day::from_ymd(2026, 7, 11).unwrap();
    assert_eq!(d.to_text(), "2026-07-11");
    assert_eq!(Day::parse("2026-07-11"), Some(d));
    assert_eq!(Day::parse("2026-7-11"), Some(d));
    assert_eq!(Day::parse("2026-02-30"), None);
    assert_eq!(Day::parse("ontem"), None);
    for (y, m, dd) in [(12345, 6, 7), (-44, 3, 15), (0, 1, 1), (-262143, 1, 1), (262142, 12, 31)] {
        let day = Day::from_ymd(y, m, dd).unwrap();
        assert_eq!(Day::parse(&day.to_text()), Some(day), "{}", day.to_text());
    }
}

#[test]
fn checkin_texts_read_in_order() {
    let texts = vec!["2026-07-11".to_string(), "2026-07-01".to_string()];
    assert_eq!(
        parse_checkin_days(&texts),
        Some(vec![Day::from_ymd(2026, 7, 11).unwrap(), Day::from_ymd(2026, 7, 1).unwrap()])
    );
    assert_eq!(parse_checkin_days(&[]), Some(vec![]));
    let bad = vec!["2026-07-11".to_string(), "11/07/2026".to_string()];
    assert_eq!(parse_checkin_days(&bad), None);
}
