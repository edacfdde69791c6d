//! Figures that the commands report: this week's check-ins, the exported
//! history, and the days that the status grid colors.
use vstd::prelude::*;

use crate::calendar::Day;
use crate::streak::{
    count_in, day_set, increasing, is_tally, qualifying_days, qualifying_set, tally, tally_days,
    Frequency,
};

verus! {

/// Number of entries of `days` on day number `start` or later.
pub open spec fn count_from(days: Seq<Day>, start: int) -> nat
    decreases days.len(),
{
    if days.len() == 0 {
        0
    } else {
        count_from(days.drop_last(), start) + if days.last().num >= start { 1nat } else { 0nat }
    }
}

/// Number of check-ins on `start` or later: with `start` the Monday of this
/// week, the check-ins of this week so far.
pub fn count_since(checkins: &[Day], start: Day) -> (r: i32)
    requires
        checkins.len() <= i32::MAX,
    ensures
        r == count_from(checkins@, start.num as int),
        r == checkins@.filter(|d: Day| d.num >= start.num).len(),
{
    let mut n: i32 = 0;
    let mut i: usize = 0;
    while i < checkins.len()
        invariant
            i <= checkins.len(),
            checkins.len() <= i32::MAX,
            n == count_from(checkins@.take(i as int), start.num as int),
            n <= i,
        decreases checkins.len() - i,
    {
        proof {
            assert(checkins@.take(i + 1).drop_last() =~= checkins@.take(i as int));
        }
        if checkins[i].num >= start.num {
            n = n + 1;
        }
        i = i + 1;
    }
    proof {
        assert(checkins@.take(checkins.len() as int) =~= checkins@);
        lemma_count_from_is_filter(checkins@, start.num as int);
    }
    n
}

/// The count from a day is the number of entries on that day or later:
/// exactly the entries that the filter `d.num >= start` keeps.
pub proof fn lemma_count_from_is_filter(days: Seq<Day>, start: int)
    ensures
        count_from(days, start) == days.filter(|d: Day| d.num >= start).len(),
    decreases days.len(),
{
    reveal(Seq::filter);
    if days.len() > 0 {
        lemma_count_from_is_filter(days.drop_last(), start);
    }
}

/// Adding one more check-in adds one to the count exactly when it falls on
/// `start` or later, whatever day of the week it is.
pub proof fn lemma_count_from_push(days: Seq<Day>, d: Day, start: int)
    ensures
        count_from(days.push(d), start) == count_from(days, start) + if d.num >= start {
            1int
        } else {
            0int
        },
{
    assert(days.push(d).drop_last() =~= days);
}

/// Every check-in from `start` on counts, however late: with `start` a Monday,
/// the check-ins from that Monday to the Sunday after all count for the week,
/// and the count is the check-ins of the week when none lies after its Sunday.
pub proof fn lemma_count_from_covers_week(days: Seq<Day>, monday: int)
    requires
        forall|i: int| 0 <= i < days.len() ==> #[trigger] days[i].num < monday + 7,
    ensures
        count_from(days, monday) == crate::streak::count_between(days, monday, monday + 7),
    decreases days.len(),
{
    if days.len() > 0 {
        let init = days.drop_last();
        assert forall|i: int| 0 <= i < init.len() implies #[trigger] init[i].num < monday + 7 by {
            assert(init[i] == days[i]);
        }
        lemma_count_from_covers_week(init, monday);
        assert(days[days.len() - 1].num < monday + 7);
    }
}

/// A line of the exported history: a day, its number of check-ins, and
/// whether that number reached the daily target.
#[derive(Clone, Copy, Debug, PartialEq, Eq, Structural)]
pub struct ExportRow {
    pub day: Day,
    pub checkins: usize,
    pub target_met: bool,
}

/// The history to export: each day with check-ins once, in increasing order,
/// with its number of check-ins and whether it reached `daily_target`.
pub fn export_rows(checkins: &[Day], daily_target: i32) -> (r: Vec<ExportRow>)
    ensures
        forall|i: int, j: int| 0 <= i < j < r@.len() ==> r@[i].day.num < r@[j].day.num,
        forall|x: int| #[trigger] day_set(checkins@).contains(x) <==> exists|i: int|
            0 <= i < r@.len() && r@[i].day.num == x,
        forall|i: int| 0 <= i < r@.len() ==> #[trigger] r@[i].checkins == count_in(checkins@, r@[i].day.num as int),
        forall|i: int| 0 <= i < r@.len() ==> #[trigger] r@[i].target_met == (r@[i].checkins >= daily_target),
{
    let t = tally(checkins);
    let mut r: Vec<ExportRow> = Vec::new();
    let mut k: usize = 0;
    while k < t.len()
        invariant
            k <= t@.len(),
            is_tally(checkins@, t@),
            r@.len() == k,
            forall|i: int|
                #![trigger r@[i]]
                0 <= i < k ==> r@[i].day == t@[i].0 && r@[i].checkins == t@[i].1 && r@[i].target_met
                    == (t@[i].1 >= daily_target),
        decreases t.len() - k,
    {
        let (d, c) = t[k];
        let met = daily_target <= 0 || c >= daily_target as usize;
        let row = ExportRow { day: d, checkins: c, target_met: met };
        r.push(row);
        proof {
            assert(r@[k as int] == row);
        }
        k = k + 1;
    }
    proof {
        assert forall|x: int| #[trigger] day_set(checkins@).contains(x) <==> exists|i: int|
            0 <= i < r@.len() && r@[i].day.num == x by {
            if day_set(checkins@).contains(x) {
                assert(day_set(tally_days(t@)).contains(x));
                let i = choose|i: int| 0 <= i < tally_days(t@).len() && tally_days(t@)[i].num == x;
                assert(r@[i].day.num == x);
            }
            if exists|i: int| 0 <= i < r@.len() && r@[i].day.num == x {
                let i = choose|i: int| 0 <= i < r@.len() && r@[i].day.num == x;
                assert(tally_days(t@)[i].num == x);
                assert(day_set(tally_days(t@)).contains(x));
            }
        }
    }
    r
}

/// A copy of the days.
fn copy_days(days: &[Day]) -> (r: Vec<Day>)
    ensures
        r@ == days@,
{
    let mut r: Vec<Day> = Vec::new();
    let mut i: usize = 0;
    while i < days.len()
        invariant
            i <= days.len(),
            r@ == days@.take(i as int),
        decreases days.len() - i,
    {
        r.push(days[i]);
        proof {
            assert(days@.take(i + 1) =~= days@.take(i as int).push(days@[i as int]));
        }
        i = i + 1;
    }
    proof {
        assert(days@.take(days.len() as int) =~= days@);
    }
    r
}

/// The days that the status grid colors green: those that met the daily goal
/// for a daily habit, every day with a check-in for a weekly one.
pub open spec fn grid_set(checkins: Seq<Day>, freq: Frequency) -> Set<int> {
    match freq {
        Frequency::Daily { daily_target } => qualifying_set(checkins, daily_target as int),
        Frequency::Weekly { .. } => day_set(checkins),
    }
}

/// The days that the status grid colors green: those that met the daily goal
/// for a daily habit, every check-in for a weekly one (the grid shows where in
/// the week they fell).
pub fn grid_days(checkins: &[Day], freq: &Frequency) -> (r: Vec<Day>)
    ensures
        match *freq {
            Frequency::Daily { daily_target } => increasing(r@) && day_set(r@) == qualifying_set(
                checkins@,
                daily_target as int,
            ),
            Frequency::Weekly { .. } => r@ == checkins@,
        },
        day_set(r@) == grid_set(checkins@, *freq),
{
    match freq {
        Frequency::Daily { daily_target } => qualifying_days(checkins, *daily_target),
        Frequency::Weekly { .. } => copy_days(checkins),
    }
}

} // verus!
