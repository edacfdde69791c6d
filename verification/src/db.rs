//! Decisions of the habit store: the goal mode of a habit, the message for an
//! unknown habit, and which schema upgrades an existing database still needs.
use vstd::prelude::*;

use crate::streak::Frequency;
use crate::text::{contains_text, find_text};

verus! {

/// The goal mode of a habit from its stored targets: a weekly target, where
/// one is set, makes the habit weekly; otherwise the daily target applies.
pub fn frequency_from_targets(daily_target: i32, weekly_target: Option<i32>) -> (r: Frequency)
    ensures
        r == (match weekly_target {
            Some(w) => Frequency::Weekly { weekly_target: w },
            None => Frequency::Daily { daily_target },
        }),
{
    match weekly_target {
        Some(w) => Frequency::Weekly { weekly_target: w },
        None => Frequency::Daily { daily_target },
    }
}

/// The message for a habit that does not exist, with the command that creates it.
pub open spec fn not_found_text(name: Seq<char>) -> Seq<char> {
    "Hábito '"@ + name + "' não encontrado. Crie primeiro com: habitus habit \""@ + name + "\""@
}

/// The message shown when `name` names no habit.
pub fn habit_not_found(name: &str) -> (r: String)
    ensures
        r@ == not_found_text(name@),
{
    let mut msg = String::new();
    msg.append("Hábito '");
    msg.append(name);
    msg.append("' não encontrado. Crie primeiro com: habitus habit \"");
    msg.append(name);
    msg.append("\"");
    proof {
        assert(msg@ =~= not_found_text(name@));
    }
    msg
}

/// Whether `column` is among the column names `columns` of a table.
pub fn has_column(columns: &[String], column: &str) -> (r: bool)
    ensures
        r == exists|i: int| 0 <= i < columns@.len() && #[trigger] columns@[i]@ == column@,
{
    let wanted: String = column.to_owned();
    let mut i: usize = 0;
    while i < columns.len()
        invariant
            wanted@ == column@,
            i <= columns.len(),
            forall|j: int| 0 <= j < i ==> #[trigger] columns@[j]@ != column@,
        decreases columns.len() - i,
    {
        if columns[i] == wanted {
            return true;
        }
        i = i + 1;
    }
    false
}

/// The constraint that older databases put on check-ins: one per habit and day.
pub const UNIQUE_CHECKIN: &'static str = "UNIQUE(habit_id, date)";

/// Whether the stored definition `sql` of the check-in table still forbids a
/// second check-in on the same day.
pub fn declares_unique_checkins(sql: Option<&str>) -> (r: bool)
    ensures
        r == (match sql {
            Some(s) => contains_text(s@, UNIQUE_CHECKIN@),
            None => false,
        }),
{
    match sql {
        Some(s) => find_text(s, UNIQUE_CHECKIN),
        None => false,
    }
}

/// A schema upgrade of an existing database.
#[derive(Clone, Copy, Debug, PartialEq, Eq, Structural)]
pub enum Migration {
    /// Add the reminder time of habits.
    AddReminderTime,
    /// Add the daily target of habits, 1 by default.
    AddDailyTarget,
    /// Add the optional weekly target of habits.
    AddWeeklyTarget,
    /// Rebuild the check-in table without its one-per-day constraint.
    DropUniqueCheckins,
}

/// Column names of the habit table that upgrades add.
pub const REMINDER_TIME: &'static str = "reminder_time";
pub const DAILY_TARGET: &'static str = "daily_target";
pub const WEEKLY_TARGET: &'static str = "weekly_target";

/// The names of the columns `columns`.
pub open spec fn column_set(columns: Seq<String>) -> Set<Seq<char>> {
    Set::new(|name: Seq<char>| exists|i: int| 0 <= i < columns.len() && #[trigger] columns[i]@ == name)
}

/// The state of a database schema that the upgrades look at: the column names
/// of the habit table, and whether the check-in table still allows only one
/// check-in per day.
pub struct Schema {
    pub columns: Set<Seq<char>>,
    pub unique_checkins: bool,
}

/// The upgrades still needed, in the order they run: each missing column of
/// the habit table, then the rebuild of a check-in table that still allows
/// one check-in per day.
pub open spec fn needed_migrations(schema: Schema) -> Seq<Migration> {
    (if schema.columns.contains(REMINDER_TIME@) { seq![] } else { seq![Migration::AddReminderTime] })
        + (if schema.columns.contains(DAILY_TARGET@) { seq![] } else { seq![Migration::AddDailyTarget] })
        + (if schema.columns.contains(WEEKLY_TARGET@) { seq![] } else { seq![Migration::AddWeeklyTarget] })
        + (if schema.unique_checkins { seq![Migration::DropUniqueCheckins] } else { seq![] })
}

/// What an upgrade does to the schema: each column upgrade adds its column,
/// the rebuild drops the one-per-day constraint.
pub open spec fn upgraded(schema: Schema, m: Migration) -> Schema {
    match m {
        Migration::AddReminderTime => Schema { columns: schema.columns.insert(REMINDER_TIME@), ..schema },
        Migration::AddDailyTarget => Schema { columns: schema.columns.insert(DAILY_TARGET@), ..schema },
        Migration::AddWeeklyTarget => Schema { columns: schema.columns.insert(WEEKLY_TARGET@), ..schema },
        Migration::DropUniqueCheckins => Schema { unique_checkins: false, ..schema },
    }
}

/// The schema after running the upgrades `ms` in order.
pub open spec fn upgraded_all(schema: Schema, ms: Seq<Migration>) -> Schema
    decreases ms.len(),
{
    if ms.len() == 0 {
        schema
    } else {
        upgraded_all(upgraded(schema, ms[0]), ms.drop_first())
    }
}

/// Opening a database twice upgrades it once: after the pending upgrades have
/// run, none is pending any more.
pub proof fn lemma_upgrades_settle(schema: Schema)
    ensures
        needed_migrations(upgraded_all(schema, needed_migrations(schema))) == Seq::<Migration>::empty(),
{
    reveal_with_fuel(upgraded_all, 5);
    let ms = needed_migrations(schema);
    let after = upgraded_all(schema, ms);
    assert(after.columns.contains(REMINDER_TIME@));
    assert(after.columns.contains(DAILY_TARGET@));
    assert(after.columns.contains(WEEKLY_TARGET@));
    assert(!after.unique_checkins);
    assert(needed_migrations(after) =~= Seq::<Migration>::empty());
}

/// The upgrades that a database with habit columns `columns` and check-in
/// table definition `checkins_sql` still needs.
pub fn pending_migrations(columns: &[String], checkins_sql: Option<&str>) -> (r: Vec<Migration>)
    ensures
        r@ == needed_migrations(
            Schema {
                columns: column_set(columns@),
                unique_checkins: match checkins_sql {
                    Some(s) => contains_text(s@, UNIQUE_CHECKIN@),
                    None => false,
                },
            },
        ),
{
    let mut r: Vec<Migration> = Vec::new();
    if !has_column(columns, REMINDER_TIME) {
        r.push(Migration::AddReminderTime);
    }
    if !has_column(columns, DAILY_TARGET) {
        r.push(Migration::AddDailyTarget);
    }
    if !has_column(columns, WEEKLY_TARGET) {
        r.push(Migration::AddWeeklyTarget);
    }
    if declares_unique_checkins(checkins_sql) {
        r.push(Migration::DropUniqueCheckins);
    }
    proof {
        let u = match checkins_sql {
            Some(s) => contains_text(s@, UNIQUE_CHECKIN@),
            None => false,
        };
        let schema = Schema { columns: column_set(columns@), unique_checkins: u };
        assert(r@ =~= needed_migrations(schema));
    }
    r
}

} // verus!
