use chrono::{Datelike, NaiveDate};

use habitus::calendar::Day;
use habitus::db::{
    declares_unique_checkins, frequency_from_targets, habit_not_found, has_column,
    pending_migrations, Migration,
};
use habitus::reminders::{to_minutes, within_window};
use habitus::report::{count_since, export_rows, grid_days, ExportRow};
use habitus::streak::Frequency;
use habitus::text::{confirms, find_text};
use habitus::tui::{
    handle_key, initial_selection, select_next, select_prev, summarize, Key, KeyOutcome, Screen,
};

fn day(y: i32, m: u32, d: u32) -> Day {
    let n = NaiveDate::from_ymd_opt(y, m, d).unwrap();
    Day::from_ymd(n.year(), n.month(), n.day()).unwrap()
}

#[test]
fn window_is_five_minutes_from_target() {
    assert!(within_window("07:00", "07:00"));
    assert!(within_window("07:00", "07:04"));
    assert!(!within_window("07:00", "07:05"));
    assert!(!within_window("07:00", "06:59"));
    assert!(within_window("23:58", "24:01"));
}

#[test]
fn window_runs_past_midnight() {
    assert!(within_window("23:58", "00:01"));
    assert!(within_window("23:59", "00:03"));
    assert!(!within_window("23:59", "00:04"));
    assert!(!within_window("00:01", "23:58"));
    assert!(!within_window("00:00", "24:00"));
    assert!(!within_window("25:00", "01:02"));
    assert!(!within_window("24:00", "00:02"));
    assert!(!within_window("-1:00", "23:00"));
    assert!(within_window("25:00", "25:04"));
}

#[test]
fn window_refuses_bad_times() {
    assert!(!within_window("0700", "07:00"));
    assert!(!within_window("07:00:00", "07:00"));
    assert!(!within_window("7:x", "07:00"));
    assert!(!within_window(":", ":"));
    assert!(!within_window("", "07:00"));
    assert!(!within_window(" 7:00", "07:00"));
}

#[test]
fn to_minutes_reads_like_parse() {
    assert_eq!(to_minutes("07:30"), Some(450));
    assert_eq!(to_minutes("+1:-5"), Some(55));
    assert_eq!(to_minutes("-1:00"), Some(-60));
    assert_eq!(to_minutes("2147483647:0"), Some(2147483647i64 * 60));
    assert_eq!(to_minutes("2147483648:0"), None);
    assert_eq!(to_minutes("-2147483648:0"), Some(-2147483648i64 * 60));
    assert_eq!(to_minutes("+:00"), None);
    assert_eq!(to_minutes("-:00"), None);
    assert_eq!(to_minutes("99999999999:00"), None);
}

#[test]
fn select_next_wraps_around() {
    assert_eq!(select_next(Some(0), 3), Some(1));
    assert_eq!(select_next(Some(2), 3), Some(0));
    assert_eq!(select_next(None, 3), Some(0));
    assert_eq!(select_next(Some(1), 0), Some(1));
}

#[test]
fn select_prev_wraps_around() {
    assert_eq!(select_prev(Some(1), 3), Some(0));
    assert_eq!(select_prev(Some(0), 3), Some(2));
    assert_eq!(select_prev(None, 3), Some(2));
    assert_eq!(select_prev(None, 0), None);
}

#[test]
fn prev_undoes_next() {
    for len in 1..6usize {
        for i in 0..len {
            assert_eq!(select_prev(select_next(Some(i), len), len), Some(i));
            assert_eq!(select_next(select_prev(Some(i), len), len), Some(i));
        }
    }
}

#[test]
fn keys_drive_the_view() {
    assert_eq!(handle_key(Screen::List, Some(0), Key::Char('q'), 2), KeyOutcome::Quit);
    assert_eq!(handle_key(Screen::Detail, Some(0), Key::Char('q'), 2), KeyOutcome::Quit);
    assert_eq!(handle_key(Screen::List, Some(0), Key::Esc, 2), KeyOutcome::Quit);
    assert_eq!(
        handle_key(Screen::List, Some(1), Key::Down, 2),
        KeyOutcome::Show { view: Screen::List, selected: Some(0) }
    );
    assert_eq!(
        handle_key(Screen::List, Some(0), Key::Up, 2),
        KeyOutcome::Show { view: Screen::List, selected: Some(1) }
    );
    assert_eq!(
        handle_key(Screen::List, Some(0), Key::Enter, 2),
        KeyOutcome::Show { view: Screen::Detail, selected: Some(0) }
    );
    assert_eq!(
        handle_key(Screen::List, None, Key::Enter, 0),
        KeyOutcome::Show { view: Screen::List, selected: None }
    );
    assert_eq!(
        handle_key(Screen::Detail, Some(1), Key::Backspace, 2),
        KeyOutcome::Show { view: Screen::List, selected: Some(1) }
    );
    assert_eq!(
        handle_key(Screen::Detail, Some(1), Key::Esc, 2),
        KeyOutcome::Show { view: Screen::List, selected: Some(1) }
    );
    assert_eq!(
        handle_key(Screen::Detail, Some(1), Key::Down, 2),
        KeyOutcome::Show { view: Screen::Detail, selected: Some(1) }
    );
    assert_eq!(
        handle_key(Screen::List, Some(1), Key::Char('x'), 2),
        KeyOutcome::Show { view: Screen::List, selected: Some(1) }
    );
    assert_eq!(initial_selection(0), None);
    assert_eq!(initial_selection(4), Some(0));
}

#[test]
fn summary_uses_the_daily_target() {
    let today = day(2026, 7, 11);
    let yesterday = day(2026, 7, 10);
    let s = summarize(
        "agua".to_string(),
        &[today, today, yesterday],
        &Frequency::Daily { daily_target: 2 },
        2,
        today,
    );
    assert_eq!(s.name, "agua");
    assert!(!s.weekly);
    assert_eq!(s.streak, 1);
    assert_eq!(s.record, 1);
    assert_eq!(s.grid_text.matches('\n').count(), 3);
}

#[test]
fn summary_counts_weeks_for_a_weekly_goal() {
    let monday = day(2026, 7, 13);
    let today = day(2026, 7, 15);
    let s = summarize(
        "leitura".to_string(),
        &[monday],
        &Frequency::Weekly { weekly_target: 1 },
        2,
        today,
    );
    assert!(s.weekly);
    assert_eq!(s.streak, 1);
    assert_eq!(s.record, 1);
    // The grid colors the days that met the daily target of 2: none here.
    let green = habitus::streak::GREEN_SQUARE;
    assert_eq!(s.grid_text.matches(green).count(), 0);
    let s1 = summarize("leitura".to_string(), &[monday], &Frequency::Weekly { weekly_target: 1 }, 1, today);
    assert_eq!(s1.grid_text.matches(green).count(), 1);
}

#[test]
fn confirmation_needs_a_single_s() {
    assert!(confirms("s\n"));
    assert!(confirms("  S  "));
    assert!(confirms("s"));
    assert!(!confirms("sim"));
    assert!(!confirms("n"));
    assert!(!confirms(""));
    assert!(!confirms("s s"));
    assert!(confirms("\u{3000}s\t"));
}

#[test]
fn frequency_follows_weekly_target() {
    assert!(matches!(
        frequency_from_targets(2, Some(3)),
        Frequency::Weekly { weekly_target: 3 }
    ));
    assert!(matches!(frequency_from_targets(2, None), Frequency::Daily { daily_target: 2 }));
}

#[test]
fn not_found_message_names_the_fix() {
    assert_eq!(
        habit_not_found("ler"),
        "Hábito 'ler' não encontrado. Crie primeiro com: habitus habit \"ler\""
    );
}

#[test]
fn column_lookup_and_unique_constraint() {
    let cols = vec!["id".to_string(), "name".to_string()];
    assert!(has_column(&cols, "name"));
    assert!(!has_column(&cols, "nam"));
    assert!(declares_unique_checkins(Some(
        "CREATE TABLE checkins (id INTEGER, UNIQUE(habit_id, date), FOREIGN KEY(habit_id))"
    )));
    assert!(!declares_unique_checkins(Some("CREATE TABLE checkins (id INTEGER)")));
    assert!(!declares_unique_checkins(None));
    assert!(find_text("abc", ""));
    assert!(find_text("abc", "bc"));
    assert!(!find_text("ab", "abc"));
}

#[test]
fn migrations_for_old_and_new_schemas() {
    let old = vec!["id".to_string(), "name".to_string()];
    assert_eq!(
        pending_migrations(&old, Some("x UNIQUE(habit_id, date) y")),
        vec![
            Migration::AddReminderTime,
            Migration::AddDailyTarget,
            Migration::AddWeeklyTarget,
            Migration::DropUniqueCheckins
        ]
    );
    let new = vec![
        "id".to_string(),
        "name".to_string(),
        "reminder_time".to_string(),
        "daily_target".to_string(),
        "weekly_target".to_string(),
    ];
    assert_eq!(pending_migrations(&new, Some("CREATE TABLE checkins (id)")), vec![]);
    // A database upgraded once needs nothing more.
    let after: Vec<String> = old
        .iter()
        .cloned()
        .chain(["reminder_time", "daily_target", "weekly_target"].iter().map(|c| c.to_string()))
        .collect();
    assert_eq!(pending_migrations(&after, Some("CREATE TABLE checkins (id)")), vec![]);
    let partial = vec!["id".to_string(), "reminder_time".to_string()];
    assert_eq!(
        pending_migrations(&partial, None),
        vec![Migration::AddDailyTarget, Migration::AddWeeklyTarget]
    );
}

#[test]
fn count_since_counts_this_week() {
    let monday = day(2026, 7, 6);
    let checkins = [day(2026, 7, 5), monday, day(2026, 7, 8), day(2026, 7, 8)];
    assert_eq!(count_since(&checkins, monday), 3);
}

#[test]
fn export_rows_sorted_with_counts() {
    let a = day(2026, 7, 1);
    let b = day(2026, 7, 2);
    let rows = export_rows(&[b, a, b, b], 2);
    assert_eq!(
        rows,
        vec![
            ExportRow { day: a, checkins: 1, target_met: false },
            ExportRow { day: b, checkins: 3, target_met: true },
        ]
    );
}

#[test]
fn grid_days_by_frequency() {
    let a = day(2026, 7, 1);
    let b = day(2026, 7, 2);
    let checkins = [b, a, b];
    assert_eq!(grid_days(&checkins, &Frequency::Daily { daily_target: 2 }), vec![b]);
    assert_eq!(grid_days(&checkins, &Frequency::Weekly { weekly_target: 2 }), vec![b, a, b]);
}
