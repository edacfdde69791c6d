use chrono::{Datelike, Duration, NaiveDate};

use habitus::calendar::{week_start, Day};
use habitus::streak::{
    count_on, current_streak, current_streak_weeks, grid, longest_streak, longest_streak_weeks,
    progress, qualifying_days, qualifying_weeks, tally, Frequency, GRAY_SQUARE, GREEN_SQUARE,
};

fn day(d: NaiveDate) -> Day {
    Day::from_ymd(d.year(), d.month(), d.day()).unwrap()
}

fn ymd(y: i32, m: u32, d: u32) -> NaiveDate {
    NaiveDate::from_ymd_opt(y, m, d).unwrap()
}

fn days(list: &[NaiveDate]) -> Vec<Day> {
    list.iter().map(|d| day(*d)).collect()
}

#[test]
fn streak_quebra_com_um_dia_faltando() {
    let today = ymd(2026, 7, 11);
    let checkins = days(&[
        today - Duration::days(1),
        today - Duration::days(2),
        today - Duration::days(4),
    ]);
    assert_eq!(current_streak(&checkins, day(today)), 2);
}

#[test]
fn streak_zero_se_nao_fez_hoje_nem_ontem() {
    let today = ymd(2026, 7, 11);
    let checkins = days(&[today - Duration::days(2)]);
    assert_eq!(current_streak(&checkins, day(today)), 0);
}

#[test]
fn recorde_encontra_maior_sequencia_mesmo_apos_quebra() {
    let today = ymd(2026, 7, 11);
    let checkins = days(&[
        today - Duration::days(10),
        today - Duration::days(9),
        today - Duration::days(8),
        today - Duration::days(7),
        today - Duration::days(6),
        today - Duration::days(1),
        today,
    ]);
    assert_eq!(longest_streak(&checkins), 5);
}

#[test]
fn semana_bate_meta_com_checkins_espalhados() {
    let monday = ymd(2026, 7, 6);
    let checkins = days(&[monday, monday + Duration::days(2), monday + Duration::days(4)]);
    let weeks = qualifying_weeks(&checkins, 3);
    assert_eq!(weeks.len(), 1);
    assert_eq!(weeks[0], day(monday));
}

#[test]
fn streak_semanal_quebra_com_semana_sem_meta() {
    let today = ymd(2026, 7, 13);
    let last_monday = today - Duration::days(7);
    let qualifying = days(&[last_monday]);
    assert_eq!(current_streak_weeks(&qualifying, day(today)), 1);
}

#[test]
fn streak_counts_from_today_when_done_today() {
    let today = ymd(2026, 7, 11);
    let checkins = days(&[today, today - Duration::days(1), today - Duration::days(2)]);
    assert_eq!(current_streak(&checkins, day(today)), 3);
}

#[test]
fn streak_ignores_order_and_duplicates() {
    let today = ymd(2026, 7, 11);
    let checkins = days(&[
        today - Duration::days(2),
        today,
        today - Duration::days(1),
        today,
        today - Duration::days(2),
    ]);
    assert_eq!(current_streak(&checkins, day(today)), 3);
    assert_eq!(longest_streak(&checkins), 3);
}

#[test]
fn missing_day_caps_streak_on_concrete_days() {
    let today = ymd(2026, 7, 11);
    // 3 days ago is missing: the streak can be at most 3.
    let checkins = days(&[
        today,
        today - Duration::days(1),
        today - Duration::days(2),
        today - Duration::days(4),
        today - Duration::days(5),
    ]);
    let s = current_streak(&checkins, day(today));
    assert_eq!(s, 3);
    assert!(s <= 3);
}

#[test]
fn checkin_today_raises_streak_by_one() {
    let today = ymd(2026, 7, 11);
    let mut checkins = days(&[today - Duration::days(1), today - Duration::days(2)]);
    let before = current_streak(&checkins, day(today));
    checkins.push(day(today));
    let after = current_streak(&checkins, day(today));
    assert_eq!(before, 2);
    assert_eq!(after, before + 1);
    checkins.push(day(today));
    assert_eq!(current_streak(&checkins, day(today)), after);
}

#[test]
fn longest_streak_of_nothing_is_zero() {
    assert_eq!(longest_streak(&[]), 0);
    assert_eq!(longest_streak_weeks(&[]), 0);
    assert_eq!(current_streak(&[], day(ymd(2026, 7, 11))), 0);
}

#[test]
fn longest_streak_single_day_is_one() {
    assert_eq!(longest_streak(&days(&[ymd(2026, 1, 1)])), 1);
}

#[test]
fn longest_streak_crosses_month_and_year() {
    let checkins = days(&[ymd(2025, 12, 30), ymd(2025, 12, 31), ymd(2026, 1, 1), ymd(2026, 1, 2)]);
    assert_eq!(longest_streak(&checkins), 4);
}

#[test]
fn qualifying_days_needs_the_target() {
    let today = ymd(2026, 7, 11);
    let mut checkins = days(&[today, today]);
    let q = qualifying_days(&checkins, 3);
    assert!(!q.contains(&day(today)));
    checkins.push(day(today));
    let q = qualifying_days(&checkins, 3);
    assert!(q.contains(&day(today)));
    assert_eq!(q.len(), 1);
}

#[test]
fn qualifying_days_sorted_and_distinct() {
    let a = ymd(2026, 7, 1);
    let b = ymd(2026, 7, 3);
    let c = ymd(2026, 7, 2);
    let q = qualifying_days(&days(&[b, a, c, a, b]), 1);
    assert_eq!(q, days(&[a, c, b]));
}

#[test]
fn target_one_keeps_every_day() {
    let a = ymd(2026, 7, 1);
    let b = ymd(2026, 7, 9);
    assert_eq!(qualifying_days(&days(&[b, a]), 1), days(&[a, b]));
    assert_eq!(qualifying_days(&days(&[b, a]), 0), days(&[a, b]));
    assert_eq!(qualifying_days(&days(&[b, a]), -4), days(&[a, b]));
}

#[test]
fn higher_target_fewer_days() {
    let a = ymd(2026, 7, 1);
    let b = ymd(2026, 7, 2);
    let checkins = days(&[a, a, b, a, b, b, b]);
    assert_eq!(qualifying_days(&checkins, 2), days(&[a, b]));
    assert_eq!(qualifying_days(&checkins, 4), days(&[b]));
    assert_eq!(qualifying_days(&checkins, 5), Vec::<Day>::new());
}

#[test]
fn streak_quebra_com_um_dia_faltando_via_qualifying_days() {
    let today = ymd(2026, 7, 15);
    let checkins = days(&[
        today - Duration::days(1),
        today - Duration::days(2),
        today - Duration::days(4),
    ]);
    let qualifying = qualifying_days(&checkins, 1);
    assert_eq!(current_streak(&qualifying, day(today)), 2);
}

#[test]
fn count_on_counts_same_day_checkins() {
    let today = ymd(2026, 7, 11);
    let checkins = days(&[today, today - Duration::days(1), today]);
    assert_eq!(count_on(&checkins, day(today)), 2);
    assert_eq!(count_on(&checkins, day(today - Duration::days(5))), 0);
}

#[test]
fn tally_counts_each_day_in_order() {
    let a = ymd(2026, 7, 1);
    let b = ymd(2026, 7, 2);
    let t = tally(&days(&[b, a, b]));
    assert_eq!(t, vec![(day(a), 1), (day(b), 2)]);
}

#[test]
fn weeks_group_monday_to_sunday() {
    let monday = ymd(2026, 7, 6);
    let sunday = ymd(2026, 7, 12);
    let next_monday = ymd(2026, 7, 13);
    let checkins = days(&[sunday, monday, next_monday]);
    assert_eq!(qualifying_weeks(&checkins, 2), days(&[monday]));
    assert_eq!(qualifying_weeks(&checkins, 1), days(&[monday, next_monday]));
}

#[test]
fn weekly_streak_counts_consecutive_weeks() {
    let today = ymd(2026, 7, 15); // a Wednesday
    let this_monday = ymd(2026, 7, 13);
    let q = days(&[
        this_monday,
        this_monday - Duration::days(7),
        this_monday - Duration::days(14),
        this_monday - Duration::days(28),
    ]);
    assert_eq!(current_streak_weeks(&q, day(today)), 3);
    assert_eq!(longest_streak_weeks(&q), 3);
    assert_eq!(current_streak_weeks(&days(&[this_monday - Duration::days(14)]), day(today)), 0);
}

#[test]
fn progress_daily_and_weekly() {
    let today = ymd(2026, 7, 15);
    let checkins = days(&[
        today,
        today,
        today - Duration::days(1),
        today - Duration::days(1),
        today - Duration::days(2),
        today - Duration::days(9),
        today - Duration::days(9),
    ]);
    let daily = Frequency::Daily { daily_target: 2 };
    assert_eq!(progress(&checkins, &daily, day(today)), (2, 2));
    let weekly = Frequency::Weekly { weekly_target: 2 };
    // this week: 5 check-ins (13th..15th); last week: 2 (6th).
    assert_eq!(progress(&checkins, &weekly, day(today)), (2, 2));
    let weekly_hard = Frequency::Weekly { weekly_target: 3 };
    assert_eq!(progress(&checkins, &weekly_hard, day(today)), (1, 1));
}

#[test]
fn streak_never_exceeds_record_on_concrete_days() {
    let today = ymd(2026, 7, 15);
    let checkins = days(&[today, today - Duration::days(1), today - Duration::days(5)]);
    let (cur, rec) = progress(&checkins, &Frequency::Daily { daily_target: 1 }, day(today));
    assert!(cur <= rec);
    assert_eq!((cur, rec), (2, 2));
}

#[test]
fn week_start_is_the_monday() {
    assert_eq!(week_start(day(ymd(2026, 7, 8))), day(ymd(2026, 7, 6)));
    assert_eq!(week_start(day(ymd(2026, 7, 6))), day(ymd(2026, 7, 6)));
    assert_eq!(week_start(day(ymd(2026, 7, 12))), day(ymd(2026, 7, 6)));
}

#[test]
fn grid_colors_the_last_days() {
    let today = ymd(2026, 7, 11);
    let checkins = days(&[today, today - Duration::days(2)]);
    let g = grid(&checkins, day(today), 3);
    assert_eq!(g, format!("{}{}{}", GREEN_SQUARE, GRAY_SQUARE, GREEN_SQUARE));
    assert_eq!(GREEN_SQUARE, "\x1b[32m■\x1b[0m");
    assert_eq!(GRAY_SQUARE, "\x1b[90m■\x1b[0m");
}

#[test]
fn grid_breaks_lines_every_seven_days() {
    let today = ymd(2026, 7, 11);
    let g = grid(&[], day(today), 9);
    let row: String = std::iter::repeat(GRAY_SQUARE).take(7).collect();
    assert_eq!(g, format!("{}\n{}{}", row, GRAY_SQUARE, GRAY_SQUARE));
    assert_eq!(grid(&[], day(today), 0), "");
    assert_eq!(grid(&[], day(today), -3), "");
    assert_eq!(grid(&[], day(today), 14).matches('\n').count(), 1);
}
