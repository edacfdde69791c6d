//! The records that the habit store hands back.
use vstd::prelude::*;

use crate::calendar::Day;

verus! {

/// A habit as stored: its key and its unique name.
#[derive(Debug)]
pub struct Habit {
    pub id: i64,
    pub name: String,
}

/// A habit with its current streak and the days on which it was done.
#[derive(Debug)]
pub struct HabitStatus {
    pub name: String,
    pub current_streak: i32,
    pub checkins: Vec<Day>,
}

} // verus!
