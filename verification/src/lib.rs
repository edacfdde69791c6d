//! Habit tracking logic: calendar days, rigid streaks, daily and weekly goals,
//! habit correlation, reminders and the navigation rules of the terminal view.

pub mod calendar;
pub mod streak;
pub mod stats;
pub mod text;
pub mod reminders;
pub mod models;
pub mod tui;
pub mod db;
pub mod report;
