# habitus

A habit tracker for the terminal: one check-in a day (or several, for a daily
goal above one, or a number per week for a weekly goal), and a rigid streak
that breaks on the first missed day.

The verified library lives in `src/`:

- `calendar` — dates as day numbers (January 1 of year 1 is day 1), their
  construction from year/month/day, their weekday, and reading and writing
  them as stored (`YYYY-MM-DD`) through `chrono`; the Monday that starts a week.
- `streak` — the current streak (from today, or from yesterday while today is
  not over), the record, the days and weeks that met their goal, the colored
  grid, and the laws that tie them together.
- `stats` — the days two habits share and the days of either (the Jaccard index).
- `reminders` — `HH:MM` times and the five-minute window of a reminder.
- `report` — the figures the commands print and export.
- `db` — the decisions of the store: goal mode, the message for an unknown
  habit, the schema upgrades an old database needs.
- `tui` — selection and key handling of the overview screen, and each
  habit's line of it (in weeks for a weekly goal).
- `text` — characters of a string, substring search, the delete confirmation.

`app/` is the program around it: command-line parsing, the SQLite store,
CSV export, notifications and the ratatui screen.
