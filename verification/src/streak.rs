//! Rigid streaks over check-in days, daily and weekly goals.
use vstd::multiset::Multiset;
use vstd::prelude::*;

use crate::calendar::{
    all_valid, in_calendar, week_start, week_start_of, weekday_of, Day, MIN_DAY,
};

verus! {

// ---------------------------------------------------------------------------
// Models
// ---------------------------------------------------------------------------

/// The set of day numbers that occur in `days`.
pub open spec fn day_set(days: Seq<Day>) -> Set<int> {
    Set::new(|x: int| exists|i: int| 0 <= i < days.len() && days[i].num == x)
}

/// Number of entries of `days` that fall on day number `x`.
pub open spec fn count_in(days: Seq<Day>, x: int) -> nat
    decreases days.len(),
{
    if days.len() == 0 {
        0
    } else {
        count_in(days.drop_last(), x) + if days.last().num == x { 1nat } else { 0nat }
    }
}

/// Walking back from `d` in steps of `step`, exactly `k` members of `s` are met
/// before the first day that is not in `s`.
pub open spec fn run_len(s: Set<int>, d: int, k: nat, step: int) -> bool
    decreases k,
{
    if k == 0 {
        !s.contains(d)
    } else {
        s.contains(d) && run_len(s, d - step, (k - 1) as nat, step)
    }
}

/// The current streak of `s` seen from `anchor`: it counts back from `anchor`
/// when `anchor` is in `s`, from `anchor - step` when only that one is, and
/// is 0 when neither is.
pub open spec fn is_current_streak(s: Set<int>, anchor: int, step: int, r: int) -> bool {
    if s.contains(anchor) {
        r >= 0 && run_len(s, anchor, r as nat, step)
    } else if s.contains(anchor - step) {
        r >= 0 && run_len(s, anchor - step, r as nat, step)
    } else {
        r == 0
    }
}

/// The days of a tally, in its order.
pub open spec fn tally_days(t: Seq<(Day, usize)>) -> Seq<Day> {
    t.map_values(|p: (Day, usize)| p.0)
}

/// The days of `t` come in strictly increasing order.
pub open spec fn strictly_increasing(t: Seq<(Day, usize)>) -> bool {
    forall|i: int, j: int| 0 <= i < j < t.len() ==> t[i].0.num < t[j].0.num
}

/// `t` lists each day of `days` once, in increasing order, with the number of
/// entries of `days` that fall on it.
pub open spec fn is_tally(days: Seq<Day>, t: Seq<(Day, usize)>) -> bool {
    &&& strictly_increasing(t)
    &&& day_set(tally_days(t)) == day_set(days)
    &&& forall|k: int| 0 <= k < t.len() ==> #[trigger] t[k].1 == count_in(days, t[k].0.num as int)
}

/// `d` and `d - step` are both in `s`, and no member of `s` lies between them.
pub open spec fn linked(s: Set<int>, d: int, step: int) -> bool {
    &&& s.contains(d)
    &&& s.contains(d - step)
    &&& forall|x: int| d - step < x < d ==> !#[trigger] s.contains(x)
}

/// `k` members of `s` that end at `d`, each `step` after the member of `s`
/// that precedes it.
pub open spec fn chain(s: Set<int>, d: int, k: nat, step: int) -> bool
    decreases k,
{
    if k == 0 {
        true
    } else if k == 1 {
        s.contains(d)
    } else {
        linked(s, d, step) && chain(s, d - step, (k - 1) as nat, step)
    }
}

/// `r` is the length of the longest chain of `s`: 0 when `s` is empty.
pub open spec fn is_longest_run(s: Set<int>, step: int, r: int) -> bool {
    &&& r >= 0
    &&& exists|d: int| #[trigger] chain(s, d, r as nat, step)
    &&& forall|d: int, k: nat| #[trigger] chain(s, d, k, step) ==> k <= r
}

/// Days on which at least one entry, and at least `target` entries, of `days` fall.
pub open spec fn qualifying_set(days: Seq<Day>, target: int) -> Set<int> {
    Set::new(|x: int| count_in(days, x) > 0 && count_in(days, x) >= target)
}

/// The days of the sequence come in strictly increasing order.
pub open spec fn increasing(days: Seq<Day>) -> bool {
    forall|i: int, j: int| 0 <= i < j < days.len() ==> days[i].num < days[j].num
}

/// Each entry replaced by the Monday that starts its week.
pub open spec fn weeks_of(days: Seq<Day>) -> Seq<Day> {
    days.map_values(|d: Day| Day { num: week_start_of(d.num as int) as i32 })
}

/// The Monday of the week of every entry is a representable date.
pub open spec fn weeks_representable(days: Seq<Day>) -> bool {
    forall|i: int| 0 <= i < days.len() ==> in_calendar(week_start_of(#[trigger] days[i].num as int))
}

/// Every day of the sequence is a Monday.
pub open spec fn all_mondays(days: Seq<Day>) -> bool {
    forall|i: int| 0 <= i < days.len() ==> weekday_of(#[trigger] days[i].num as int) == 0
}

// ---------------------------------------------------------------------------
// Lemmas
// ---------------------------------------------------------------------------

proof fn lemma_count_in_take_step(days: Seq<Day>, i: int, x: int)
    requires
        0 <= i < days.len(),
    ensures
        count_in(days.take(i + 1), x) == count_in(days.take(i), x) + if days[i].num == x {
            1nat
        } else {
            0nat
        },
{
    assert(days.take(i + 1).drop_last() =~= days.take(i));
}

pub proof fn lemma_count_in_positive(days: Seq<Day>, x: int)
    ensures
        count_in(days, x) > 0 <==> day_set(days).contains(x),
    decreases days.len(),
{
    if days.len() > 0 {
        lemma_count_in_positive(days.drop_last(), x);
        if day_set(days.drop_last()).contains(x) {
            let i = choose|i: int| 0 <= i < days.drop_last().len() && days.drop_last()[i].num == x;
            assert(days[i].num == x);
        }
        if day_set(days).contains(x) && days.last().num != x {
            let i = choose|i: int| 0 <= i < days.len() && days[i].num == x;
            assert(i < days.len() - 1);
            assert(days.drop_last()[i].num == x);
        }
    }
}

proof fn lemma_count_in_bound(days: Seq<Day>, x: int)
    ensures
        count_in(days, x) <= days.len(),
    decreases days.len(),
{
    if days.len() > 0 {
        lemma_count_in_bound(days.drop_last(), x);
    }
}

proof fn lemma_chain_shorter(s: Set<int>, d: int, k: nat, j: nat, step: int)
    requires
        chain(s, d, k, step),
        j <= k,
    ensures
        chain(s, d, j, step),
    decreases k,
{
    if j < k && k >= 2 {
        lemma_chain_shorter(s, d - step, (k - 1) as nat, if j == 0 { 0 } else { (j - 1) as nat }, step);
    }
}

/// In an increasing list of distinct days, a day is linked to its predecessor
/// exactly when the gap to the previous entry is `step`.
proof fn lemma_linked_in_tally(t: Seq<(Day, usize)>, j: int, step: int)
    requires
        strictly_increasing(t),
        0 <= j < t.len(),
        step >= 1,
    ensures
        linked(day_set(tally_days(t)), t[j].0.num as int, step) <==> (j > 0 && t[j].0.num - t[j
            - 1].0.num == step),
{
    let s = day_set(tally_days(t));
    let d = t[j].0.num as int;
    assert(tally_days(t)[j].num == d);
    if j > 0 {
        assert(tally_days(t)[j - 1].num == t[j - 1].0.num);
    }
    if linked(s, d, step) {
        let m = choose|m: int| 0 <= m < tally_days(t).len() && tally_days(t)[m].num == d - step;
        if m >= j {
            if m > j {
                assert(t[j].0.num < t[m].0.num);
            }
        }
        assert(m < j);
        if m < j - 1 {
            assert(t[m].0.num < t[j - 1].0.num);
            assert(t[j - 1].0.num < t[j].0.num);
            assert(s.contains(t[j - 1].0.num as int));
        }
    }
    if j > 0 && t[j].0.num - t[j - 1].0.num == step {
        assert forall|x: int| d - step < x < d implies !#[trigger] s.contains(x) by {
            if s.contains(x) {
                let m = choose|m: int| 0 <= m < tally_days(t).len() && tally_days(t)[m].num == x;
                if m < j - 1 {
                    assert(t[m].0.num < t[j - 1].0.num);
                } else if m > j {
                    assert(t[j].0.num < t[m].0.num);
                }
            }
        }
    }
}

proof fn lemma_tally_valid(days: Seq<Day>, t: Seq<(Day, usize)>)
    requires
        all_valid(days),
        day_set(tally_days(t)) == day_set(days),
    ensures
        forall|k: int| 0 <= k < t.len() ==> #[trigger] t[k].0.valid(),
{
    assert forall|k: int| 0 <= k < t.len() implies #[trigger] t[k].0.valid() by {
        assert(tally_days(t)[k].num == t[k].0.num);
        assert(day_set(tally_days(t)).contains(t[k].0.num as int));
        let i = choose|i: int| 0 <= i < days.len() && days[i].num == t[k].0.num;
        assert(days[i].valid());
    }
}

proof fn lemma_qualifying_valid(days: Seq<Day>, q: Seq<Day>, target: int)
    requires
        all_valid(days),
        day_set(q) == qualifying_set(days, target),
    ensures
        all_valid(q),
{
    assert forall|i: int| 0 <= i < q.len() implies #[trigger] q[i].valid() by {
        assert(day_set(q).contains(q[i].num as int));
        lemma_count_in_positive(days, q[i].num as int);
        let j = choose|j: int| 0 <= j < days.len() && days[j].num == q[i].num;
        assert(days[j].valid());
    }
}

/// A tally has as many entries as its days make distinct dates.
pub proof fn lemma_tally_len(t: Seq<(Day, usize)>)
    requires
        strictly_increasing(t),
    ensures
        day_set(tally_days(t)).finite(),
        day_set(tally_days(t)).len() == t.len(),
    decreases t.len(),
{
    let s = day_set(tally_days(t));
    if t.len() == 0 {
        assert(s =~= Set::empty());
    } else {
        let u = t.drop_last();
        lemma_tally_len(u);
        let x = t.last().0.num as int;
        assert forall|y: int| #[trigger] s.contains(y) <==> day_set(tally_days(u)).insert(x).contains(y) by {
            if s.contains(y) {
                let k = choose|k: int| 0 <= k < tally_days(t).len() && tally_days(t)[k].num == y;
                if k < u.len() {
                    assert(tally_days(u)[k].num == y);
                }
            }
            if day_set(tally_days(u)).contains(y) {
                let k = choose|k: int| 0 <= k < tally_days(u).len() && tally_days(u)[k].num == y;
                assert(tally_days(t)[k].num == y);
            }
            if y == x {
                assert(tally_days(t)[t.len() - 1].num == y);
            }
        }
        assert(s =~= day_set(tally_days(u)).insert(x));
        if day_set(tally_days(u)).contains(x) {
            let k = choose|k: int| 0 <= k < tally_days(u).len() && tally_days(u)[k].num == x;
            assert(t[k].0.num < t[t.len() - 1].0.num);
        }
    }
}

// ---------------------------------------------------------------------------
// Executable functions
// ---------------------------------------------------------------------------

/// Whether some entry of `days` falls on `date`.
pub fn contains_day(days: &[Day], date: Day) -> (r: bool)
    ensures
        r == day_set(days@).contains(date.num as int),
{
    let mut i: usize = 0;
    while i < days.len()
        invariant
            i <= days.len(),
            forall|j: int| 0 <= j < i ==> days@[j].num != date.num,
        decreases days.len() - i,
    {
        if days[i].num == date.num {
            return true;
        }
        i = i + 1;
    }
    false
}

/// Number of check-ins registered on `date`.
pub fn count_on(checkins: &[Day], date: Day) -> (r: i32)
    requires
        checkins.len() <= i32::MAX,
    ensures
        r == count_in(checkins@, date.num as int),
{
    let mut n: i32 = 0;
    let mut i: usize = 0;
    while i < checkins.len()
        invariant
            i <= checkins.len(),
            checkins.len() <= i32::MAX,
            n == count_in(checkins@.take(i as int), date.num as int),
            n <= i,
        decreases checkins.len() - i,
    {
        proof {
            lemma_count_in_take_step(checkins@, i as int, date.num as int);
        }
        if checkins[i].num == date.num {
            n = n + 1;
        }
        i = i + 1;
    }
    assert(checkins@.take(checkins.len() as int) =~= checkins@);
    n
}

/// Length of the run of consecutive members of `days` (stepping back by
/// `step`) that starts at `start`, which is in `days`.
fn run_back(days: &[Day], start: Day, step: i32) -> (r: i32)
    requires
        all_valid(days@),
        start.valid(),
        1 <= step <= 7,
        day_set(days@).contains(start.num as int),
    ensures
        r >= 1,
        run_len(day_set(days@), start.num as int, r as nat, step as int),
{
    let ghost s = day_set(days@);
    let mut count: i32 = 0;
    let mut day: i32 = start.num;
    let mut present = true;
    while present
        invariant
            present == s.contains(day as int),
            all_valid(days@),
            s == day_set(days@),
            1 <= step <= 7,
            start.valid(),
            MIN_DAY - 7 <= day <= start.num,
            0 <= count <= start.num - day,
            count == 0 ==> day == start.num,
            forall|k: nat|
                #[trigger] run_len(s, day as int, k, step as int) ==> run_len(
                    s,
                    start.num as int,
                    k + count as nat,
                    step as int,
                ),
        decreases day - MIN_DAY + 8,
    {
        proof {
            let i = choose|i: int| 0 <= i < days@.len() && days@[i].num == day;
            assert(days@[i].valid());
            assert forall|k: nat|
                #[trigger] run_len(s, day - step, k, step as int) implies run_len(
                    s,
                    start.num as int,
                    k + (count + 1) as nat,
                    step as int,
                ) by {
                assert(run_len(s, day as int, k + 1, step as int));
            }
        }
        count = count + 1;
        day = day - step;
        let probe = Day { num: day };
        present = contains_day(days, probe);
    }
    assert(run_len(s, day as int, 0, step as int));
    count
}

/// The streak counted from `anchor` (or from the step before it) over `days`.
fn streak_from(days: &[Day], anchor: Day, step: i32) -> (r: i32)
    requires
        all_valid(days@),
        anchor.valid(),
        1 <= step <= 7,
        in_calendar(anchor.num - step),
    ensures
        is_current_streak(day_set(days@), anchor.num as int, step as int, r as int),
{
    if contains_day(days, anchor) {
        run_back(days, anchor, step)
    } else {
        let before = Day { num: anchor.num - step };
        if contains_day(days, before) {
            run_back(days, before, step)
        } else {
            0
        }
    }
}

/// The current streak of consecutive days, counted rigidly: it counts back from
/// `today` when today has a check-in, from yesterday when only yesterday has
/// one (today is not over yet), and is 0 otherwise. One missing day ends it.
pub fn current_streak(checkins: &[Day], today: Day) -> (r: i32)
    requires
        all_valid(checkins@),
        today.valid(),
        today.num > MIN_DAY,
    ensures
        is_current_streak(day_set(checkins@), today.num as int, 1, r as int),
{
    streak_from(checkins, today, 1)
}

/// Every day of `days` once, in increasing order, with its number of entries.
pub fn tally(days: &[Day]) -> (r: Vec<(Day, usize)>)
    ensures
        is_tally(days@, r@),
{
    let mut t: Vec<(Day, usize)> = Vec::new();
    let mut i: usize = 0;
    assert(day_set(tally_days(t@)) =~= day_set(days@.take(0)));
    while i < days.len()
        invariant
            i <= days.len(),
            strictly_increasing(t@),
            day_set(tally_days(t@)) == day_set(days@.take(i as int)),
            forall|k: int|
                0 <= k < t@.len() ==> #[trigger] t@[k].1 == count_in(
                    days@.take(i as int),
                    t@[k].0.num as int,
                ),
            forall|k: int| 0 <= k < t@.len() ==> #[trigger] t@[k].1 <= i,
        decreases days.len() - i,
    {
        let d = days[i];
        let ghost prev = t@;
        let ghost before = days@.take(i as int);
        let ghost after = days@.take(i + 1);
        proof {
            assert forall|x: int| #[trigger] count_in(after, x) == count_in(before, x) + if x
                == d.num {
                1nat
            } else {
                0nat
            } by {
                lemma_count_in_take_step(days@, i as int, x);
            }
            assert forall|x: int| #[trigger] day_set(after).contains(x) <==> (day_set(
                before,
            ).contains(x) || x == d.num) by {
                lemma_count_in_positive(after, x);
                lemma_count_in_positive(before, x);
            }
            lemma_count_in_bound(before, d.num as int);
        }
        let mut p: usize = 0;
        while p < t.len() && t[p].0.num < d.num
            invariant
                p <= t.len(),
                t@ == prev,
                forall|k: int| 0 <= k < p ==> t@[k].0.num < d.num,
            decreases t.len() - p,
        {
            p = p + 1;
        }
        if p < t.len() && t[p].0.num == d.num {
            let c = t[p].1;
            t.set(p, (d, c + 1));
            proof {
                assert(tally_days(t@) =~= tally_days(prev));
                assert(tally_days(prev)[p as int].num == d.num);
                assert(day_set(tally_days(prev)).contains(d.num as int));
                assert(day_set(after) =~= day_set(before));
            }
        } else {
            proof {
                if day_set(before).contains(d.num as int) {
                    assert(day_set(tally_days(prev)).contains(d.num as int));
                    let k = choose|k: int|
                        0 <= k < tally_days(prev).len() && tally_days(prev)[k].num == d.num;
                    if k < p {
                    } else {
                        assert(prev[p as int].0.num <= prev[k].0.num);
                    }
                }
                lemma_count_in_positive(before, d.num as int);
            }
            t.insert(p, (d, 1));
            proof {
                assert(tally_days(t@) =~= tally_days(prev).insert(p as int, d));
                assert forall|x: int| #[trigger] day_set(tally_days(t@)).contains(x) <==> day_set(
                    after,
                ).contains(x) by {
                    if day_set(tally_days(t@)).contains(x) {
                        let k = choose|k: int|
                            0 <= k < tally_days(t@).len() && tally_days(t@)[k].num == x;
                        if k < p {
                            assert(tally_days(prev)[k].num == x);
                        } else if k > p {
                            assert(tally_days(prev)[k - 1].num == x);
                        }
                    }
                    if day_set(tally_days(prev)).contains(x) {
                        let k = choose|k: int|
                            0 <= k < tally_days(prev).len() && tally_days(prev)[k].num == x;
                        if k < p {
                            assert(tally_days(t@)[k].num == x);
                        } else {
                            assert(tally_days(t@)[k + 1].num == x);
                        }
                    }
                    if x == d.num {
                        assert(tally_days(t@)[p as int].num == x);
                    }
                }
                assert(day_set(tally_days(t@)) =~= day_set(after));
            }
        }
        i = i + 1;
    }
    assert(days@.take(days.len() as int) =~= days@);
    t
}

/// Length of the longest chain of the days of the tally `t`.
fn longest_chain(t: &Vec<(Day, usize)>, step: i32) -> (r: i32)
    requires
        strictly_increasing(t@),
        forall|k: int| 0 <= k < t@.len() ==> #[trigger] t@[k].0.valid(),
        1 <= step <= 7,
    ensures
        is_longest_run(day_set(tally_days(t@)), step as int, r as int),
{
    let ghost s = day_set(tally_days(t@));
    if t.len() == 0 {
        assert forall|d: int, k: nat| #[trigger] chain(s, d, k, step as int) implies k <= 0 by {
            if k >= 1 {
                assert(s.contains(d));
            }
        }
        assert(chain(s, 0, 0int as nat, step as int));
        return 0;
    }
    let mut best: i32 = 1;
    let mut cur: i32 = 1;
    let mut j: usize = 1;
    proof {
        assert(tally_days(t@)[0].num == t@[0].0.num);
        lemma_linked_in_tally(t@, 0, step as int);
        assert(chain(s, t@[0].0.num as int, 1, step as int));
        assert(chain(s, t@[0].0.num as int, best as nat, step as int));
        assert forall|k: nat| #[trigger] chain(s, t@[0].0.num as int, k, step as int) implies k
            <= 1 by {
            if k >= 2 {
                lemma_chain_shorter(s, t@[0].0.num as int, k, 2, step as int);
            }
        }
    }
    while j < t.len()
        invariant
            1 <= j <= t@.len(),
            strictly_increasing(t@),
            forall|k: int| 0 <= k < t@.len() ==> #[trigger] t@[k].0.valid(),
            1 <= step <= 7,
            s == day_set(tally_days(t@)),
            1 <= cur <= best <= j,
            t@[j - 1].0.num - t@[0].0.num >= j - 1,
            chain(s, t@[j - 1].0.num as int, cur as nat, step as int),
            forall|k: nat| #[trigger] chain(s, t@[j - 1].0.num as int, k, step as int) ==> k <= cur,
            exists|idx: int| 0 <= idx < j && #[trigger] chain(s, t@[idx].0.num as int, best as nat, step as int),
            forall|idx: int, k: nat|
                0 <= idx < j && #[trigger] chain(s, t@[idx].0.num as int, k, step as int) ==> k <= best,
        decreases t.len() - j,
    {
        let prev = t[j - 1].0.num;
        let here = t[j].0.num;
        proof {
            assert(t@[j - 1].0.num < t@[j as int].0.num);
            assert(t@[0].0.valid() && t@[j as int].0.valid());
            lemma_linked_in_tally(t@, j as int, step as int);
            assert(tally_days(t@)[j as int].num == here);
        }
        if here - prev == step {
            proof {
                assert(chain(s, here as int, (cur + 1) as nat, step as int));
                assert forall|k: nat| #[trigger] chain(s, here as int, k, step as int) implies k <= cur + 1 by {
                    if k >= 2 {
                        assert(chain(s, prev as int, (k - 1) as nat, step as int));
                    }
                }
            }
            cur = cur + 1;
        } else {
            proof {
                assert(chain(s, here as int, 1, step as int));
                assert forall|k: nat| #[trigger] chain(s, here as int, k, step as int) implies k <= 1 by {
                    if k >= 2 {
                        lemma_chain_shorter(s, here as int, k, 2, step as int);
                    }
                }
            }
            cur = 1;
        }
        if cur > best {
            best = cur;
        }
        j = j + 1;
    }
    assert forall|d: int, k: nat| #[trigger] chain(s, d, k, step as int) implies k <= best by {
        if k >= 1 {
            assert(s.contains(d));
            let idx = choose|idx: int| 0 <= idx < tally_days(t@).len() && tally_days(t@)[idx].num == d;
            assert(t@[idx].0.num == d);
        }
    }
    best
}

/// The longest run of consecutive days in the whole history, whatever the
/// current streak is: the personal record.
pub fn longest_streak(checkins: &[Day]) -> (r: i32)
    requires
        all_valid(checkins@),
    ensures
        is_longest_run(day_set(checkins@), 1, r as int),
{
    let t = tally(checkins);
    proof {
        lemma_tally_valid(checkins@, t@);
    }
    longest_chain(&t, 1)
}

/// The days of the tally `t` on which at least `target` entries fall, in increasing order.
fn days_meeting(t: &Vec<(Day, usize)>, target: i32) -> (r: Vec<Day>)
    requires
        strictly_increasing(t@),
    ensures
        increasing(r@),
        forall|x: int| #[trigger] day_set(r@).contains(x) <==> exists|k: int|
            0 <= k < t@.len() && t@[k].0.num == x && t@[k].1 >= target,
{
    let mut r: Vec<Day> = Vec::new();
    let mut k: usize = 0;
    while k < t.len()
        invariant
            k <= t@.len(),
            strictly_increasing(t@),
            increasing(r@),
            forall|i: int| #![trigger r@[i]] 0 <= i < r@.len() ==> exists|m: int| #![trigger t@[m]] 0 <= m < k && t@[m].0 == r@[i],
            forall|x: int| #[trigger] day_set(r@).contains(x) <==> exists|m: int|
                0 <= m < k && t@[m].0.num == x && t@[m].1 >= target,
        decreases t.len() - k,
    {
        let (d, c) = t[k];
        let meets = target <= 0 || c >= target as usize;
        if meets {
            let ghost prev = r@;
            proof {
                assert forall|i: int| 0 <= i < prev.len() implies prev[i].num < d.num by {
                    let m = choose|m: int| #![trigger t@[m]] 0 <= m < k && t@[m].0 == prev[i];
                }
            }
            r.push(d);
            proof {
                assert forall|x: int| #[trigger] day_set(r@).contains(x) <==> (day_set(prev).contains(x) || x == d.num) by {
                    if day_set(r@).contains(x) {
                        let i = choose|i: int| 0 <= i < r@.len() && r@[i].num == x;
                        if i < prev.len() {
                            assert(prev[i].num == x);
                        }
                    }
                    if day_set(prev).contains(x) {
                        let i = choose|i: int| 0 <= i < prev.len() && prev[i].num == x;
                        assert(r@[i].num == x);
                    }
                    if x == d.num {
                        assert(r@[prev.len() as int].num == x);
                    }
                }
                assert(t@[k as int].0 == r@[prev.len() as int]);
            }
        }
        k = k + 1;
    }
    r
}

proof fn lemma_tally_meeting(days: Seq<Day>, t: Seq<(Day, usize)>, target: int, x: int)
    requires
        is_tally(days, t),
    ensures
        (exists|k: int| 0 <= k < t.len() && t[k].0.num == x && t[k].1 >= target)
            <==> qualifying_set(days, target).contains(x),
{
    lemma_count_in_positive(days, x);
    if exists|k: int| 0 <= k < t.len() && t[k].0.num == x && t[k].1 >= target {
        let k = choose|k: int| 0 <= k < t.len() && t[k].0.num == x && t[k].1 >= target;
        assert(tally_days(t)[k].num == x);
        assert(day_set(tally_days(t)).contains(x));
        assert(t[k].1 == count_in(days, t[k].0.num as int));
    }
    if qualifying_set(days, target).contains(x) {
        assert(day_set(days).contains(x));
        assert(day_set(tally_days(t)).contains(x));
        let k = choose|k: int| 0 <= k < tally_days(t).len() && tally_days(t)[k].num == x;
        assert(t[k].0.num == x);
        assert(t[k].1 == count_in(days, t[k].0.num as int));
    }
}

/// The days on which the check-ins reach the daily goal: a day counts when it
/// has at least one check-in and at least `daily_target` of them. The days
/// come once each, in increasing order.
pub fn qualifying_days(checkins: &[Day], daily_target: i32) -> (r: Vec<Day>)
    ensures
        increasing(r@),
        day_set(r@) == qualifying_set(checkins@, daily_target as int),
{
    let t = tally(checkins);
    let r = days_meeting(&t, daily_target);
    proof {
        assert forall|x: int| #[trigger] day_set(r@).contains(x) == qualifying_set(checkins@, daily_target as int).contains(x) by {
            lemma_tally_meeting(checkins@, t@, daily_target as int, x);
        }
        assert(day_set(r@) =~= qualifying_set(checkins@, daily_target as int));
    }
    r
}

/// Each check-in replaced by the Monday that starts its week.
fn week_starts(checkins: &[Day]) -> (r: Vec<Day>)
    requires
        all_valid(checkins@),
        weeks_representable(checkins@),
    ensures
        r@ == weeks_of(checkins@),
{
    let mut r: Vec<Day> = Vec::new();
    let mut i: usize = 0;
    while i < checkins.len()
        invariant
            i <= checkins.len(),
            all_valid(checkins@),
            weeks_representable(checkins@),
            r@ == weeks_of(checkins@).take(i as int),
        decreases checkins.len() - i,
    {
        let d = checkins[i];
        proof {
            assert(checkins@[i as int].valid());
        }
        let w = week_start(d);
        r.push(w);
        proof {
            assert(weeks_of(checkins@).take(i + 1) =~= weeks_of(checkins@).take(i as int).push(w));
        }
        i = i + 1;
    }
    proof {
        assert(weeks_of(checkins@).take(checkins.len() as int) =~= weeks_of(checkins@));
    }
    r
}

/// The weeks in which the check-ins reach the weekly goal, each named by its
/// Monday: a week counts when at least one, and at least `weekly_target`,
/// check-ins fall in it. The Mondays come once each, in increasing order.
pub fn qualifying_weeks(checkins: &[Day], weekly_target: i32) -> (r: Vec<Day>)
    requires
        all_valid(checkins@),
        weeks_representable(checkins@),
    ensures
        increasing(r@),
        day_set(r@) == qualifying_set(weeks_of(checkins@), weekly_target as int),
        all_mondays(r@),
        all_valid(r@),
{
    let weeks = week_starts(checkins);
    let t = tally(weeks.as_slice());
    let r = days_meeting(&t, weekly_target);
    proof {
        let q = qualifying_set(weeks@, weekly_target as int);
        assert forall|x: int| #[trigger] day_set(r@).contains(x) == q.contains(x) by {
            lemma_tally_meeting(weeks@, t@, weekly_target as int, x);
        }
        assert(day_set(r@) =~= q);
        assert forall|i: int| 0 <= i < r@.len() implies weekday_of(#[trigger] r@[i].num as int) == 0
            && r@[i].valid() by {
            assert(day_set(r@).contains(r@[i].num as int));
            lemma_count_in_positive(weeks@, r@[i].num as int);
            let j = choose|j: int| 0 <= j < weeks@.len() && weeks@[j].num == r@[i].num;
            assert(checkins@[j].valid());
            assert(in_calendar(week_start_of(checkins@[j].num as int)));
        }
    }
    r
}

/// The current streak of consecutive weeks over the weeks that met their goal
/// (given by their Mondays): it counts back, a week at a time, from this week
/// when this week is among them, from last week when only last week is, and is
/// 0 otherwise.
pub fn current_streak_weeks(qualifying_weeks: &[Day], today: Day) -> (r: i32)
    requires
        all_valid(qualifying_weeks@),
        today.valid(),
        in_calendar(week_start_of(today.num as int) - 7),
    ensures
        is_current_streak(day_set(qualifying_weeks@), week_start_of(today.num as int), 7, r as int),
{
    let this_week = week_start(today);
    streak_from(qualifying_weeks, this_week, 7)
}

/// The longest run of weeks in the history, each week 7 days after the
/// previous entry.
pub fn longest_streak_weeks(qualifying_weeks: &[Day]) -> (r: i32)
    requires
        all_valid(qualifying_weeks@),
    ensures
        is_longest_run(day_set(qualifying_weeks@), 7, r as int),
{
    let t = tally(qualifying_weeks);
    proof {
        lemma_tally_valid(qualifying_weeks@, t@);
    }
    longest_chain(&t, 7)
}

/// How a habit's goal is counted: a number of check-ins on the same day, or a
/// number of check-ins on any days of the same week.
pub enum Frequency {
    Daily { daily_target: i32 },
    Weekly { weekly_target: i32 },
}

/// The days, or the Mondays of the weeks, that met the goal of `freq`.
pub open spec fn goal_met_set(checkins: Seq<Day>, freq: Frequency) -> Set<int> {
    match freq {
        Frequency::Daily { daily_target } => qualifying_set(checkins, daily_target as int),
        Frequency::Weekly { weekly_target } => qualifying_set(weeks_of(checkins), weekly_target as int),
    }
}

/// What the inputs of `progress` need: representable dates, and for a weekly
/// goal the Mondays of their weeks and of the week before today's.
pub open spec fn progress_inputs_ok(checkins: Seq<Day>, freq: Frequency, today: Day) -> bool {
    &&& all_valid(checkins)
    &&& today.valid()
    &&& today.num > MIN_DAY
    &&& (freq is Weekly ==> weeks_representable(checkins) && in_calendar(
        week_start_of(today.num as int) - 7,
    ))
}

/// `cur` and `rec` are the current streak and the record of `checkins` under
/// the goal `freq`: in days for a daily goal, in weeks for a weekly goal.
pub open spec fn is_progress(checkins: Seq<Day>, freq: Frequency, today: Day, cur: int, rec: int) -> bool {
    match freq {
        Frequency::Daily { .. } => {
            &&& is_current_streak(goal_met_set(checkins, freq), today.num as int, 1, cur)
            &&& is_longest_run(goal_met_set(checkins, freq), 1, rec)
        },
        Frequency::Weekly { .. } => {
            &&& is_current_streak(goal_met_set(checkins, freq), week_start_of(today.num as int), 7, cur)
            &&& is_longest_run(goal_met_set(checkins, freq), 7, rec)
        },
    }
}

/// The (current streak, record) of a habit, in days for a daily goal and in
/// weeks for a weekly goal.
pub fn progress(checkins: &[Day], freq: &Frequency, today: Day) -> (r: (i32, i32))
    requires
        progress_inputs_ok(checkins@, *freq, today),
    ensures
        is_progress(checkins@, *freq, today, r.0 as int, r.1 as int),
{
    match freq {
        Frequency::Daily { daily_target } => {
            let qualifying = qualifying_days(checkins, *daily_target);
            proof {
                lemma_qualifying_valid(checkins@, qualifying@, *daily_target as int);
            }
            (current_streak(&qualifying, today), longest_streak(&qualifying))
        },
        Frequency::Weekly { weekly_target } => {
            let qualifying = qualifying_weeks(checkins, *weekly_target);
            (current_streak_weeks(&qualifying, today), longest_streak_weeks(&qualifying))
        },
    }
}

/// A green square: a day that met its goal.
pub const GREEN_SQUARE: &'static str = "\x1b[32m■\x1b[0m";

/// A gray square: a day that did not.
pub const GRAY_SQUARE: &'static str = "\x1b[90m■\x1b[0m";

/// The square drawn for a day.
pub open spec fn square(done: bool) -> Seq<char> {
    if done {
        GREEN_SQUARE@
    } else {
        GRAY_SQUARE@
    }
}

/// The first `k` squares of a grid of `days` days that ends on `today`, the
/// oldest day first, seven squares to a line.
pub open spec fn grid_prefix(s: Set<int>, today: int, days: int, k: int) -> Seq<char>
    decreases k,
{
    if k <= 0 {
        Seq::empty()
    } else {
        grid_prefix(s, today, days, k - 1) + (if k - 1 > 0 && (k - 1) % 7 == 0 {
            seq!['\n']
        } else {
            Seq::empty()
        }) + square(s.contains(today - (days - k)))
    }
}

/// The whole grid of the last `days` days up to `today`.
pub open spec fn grid_text(s: Set<int>, today: int, days: int) -> Seq<char> {
    grid_prefix(s, today, days, days)
}

/// A grid of colored squares, GitHub style, for the last `days` days ending on
/// `today`: green where the day is among `checkins`, gray where not, seven
/// squares (a week) to a line, the oldest day first.
pub fn grid(checkins: &[Day], today: Day, days: i32) -> (r: String)
    requires
        today.valid(),
        days <= 0 || in_calendar(today.num - (days - 1)),
    ensures
        r@ == grid_text(day_set(checkins@), today.num as int, days as int),
{
    let ghost s = day_set(checkins@);
    let mut out = String::new();
    let mut k: i32 = 0;
    while k < days
        invariant
            0 <= k,
            days <= 0 ==> k == 0,
            days > 0 ==> k <= days,
            today.valid(),
            days <= 0 || in_calendar(today.num - (days - 1)),
            s == day_set(checkins@),
            out@ == grid_prefix(s, today.num as int, days as int, k as int),
        decreases days - k,
    {
        let day = Day { num: today.num - (days - 1 - k) };
        let ghost prev = out@;
        if k > 0 && k % 7 == 0 {
            proof {
                reveal_strlit("\n");
            }
            out.append("\n");
        }
        if contains_day(checkins, day) {
            out.append(GREEN_SQUARE);
        } else {
            out.append(GRAY_SQUARE);
        }
        proof {
            assert(grid_prefix(s, today.num as int, days as int, k + 1) == prev + (if k > 0 && k % 7
                == 0 {
                seq!['\n']
            } else {
                Seq::<char>::empty()
            }) + square(s.contains(today.num - (days - (k + 1)))));
        }
        k = k + 1;
    }
    out
}

/// Both squares are ten characters long, and they differ.
pub proof fn lemma_squares_differ()
    ensures
        GREEN_SQUARE@.len() == 10,
        GRAY_SQUARE@.len() == 10,
        GREEN_SQUARE@ != GRAY_SQUARE@,
{
    reveal_strlit("\x1b[32m■\x1b[0m");
    reveal_strlit("\x1b[90m■\x1b[0m");
    assert(GREEN_SQUARE@[3] != GRAY_SQUARE@[3]);
}

/// Where the square of index `i` (oldest first) starts: ten characters for
/// each square before it, and one line break for each full week before it.
pub open spec fn square_start(i: int) -> int {
    10 * i + i / 7
}

proof fn lemma_grid_prefix_len(s: Set<int>, today: int, days: int, k: int)
    requires
        k >= 1,
    ensures
        grid_prefix(s, today, days, k).len() == square_start(k - 1) + 10,
    decreases k,
{
    lemma_squares_differ();
    let sq = square(s.contains(today - (days - k)));
    let nl: Seq<char> = if k - 1 > 0 && (k - 1) % 7 == 0 { seq!['\n'] } else { Seq::empty() };
    assert(grid_prefix(s, today, days, k) == grid_prefix(s, today, days, k - 1) + nl + sq);
    assert(sq.len() == 10);
    if k > 1 {
        lemma_grid_prefix_len(s, today, days, k - 1);
        let m = k - 1;
        assert((m / 7 == (m - 1) / 7 + 1 && m % 7 == 0) || (m / 7 == (m - 1) / 7 && m % 7 != 0))
            by (nonlinear_arith)
            requires
                m >= 1,
        ;
    }
}

proof fn lemma_grid_prefix_extends(s: Set<int>, today: int, days: int, j: int, k: int)
    requires
        0 <= j <= k,
    ensures
        grid_prefix(s, today, days, k).len() >= grid_prefix(s, today, days, j).len(),
        grid_prefix(s, today, days, k).subrange(0, grid_prefix(s, today, days, j).len() as int)
            == grid_prefix(s, today, days, j),
    decreases k - j,
{
    if j < k {
        lemma_grid_prefix_extends(s, today, days, j, k - 1);
        let p = grid_prefix(s, today, days, k - 1);
        let q = grid_prefix(s, today, days, j);
        assert(grid_prefix(s, today, days, k).subrange(0, q.len() as int) =~= p.subrange(0, q.len() as int));
    } else {
        assert(grid_prefix(s, today, days, k).subrange(0, grid_prefix(s, today, days, k).len() as int)
            =~= grid_prefix(s, today, days, k));
    }
}

proof fn lemma_last_square(s: Set<int>, today: int, days: int, i: int)
    requires
        0 <= i,
    ensures
        grid_prefix(s, today, days, i + 1).len() == square_start(i) + 10,
        grid_prefix(s, today, days, i + 1).subrange(square_start(i), square_start(i) + 10)
            == square(s.contains(today - (days - 1 - i))),
        i > 0 && i % 7 == 0 ==> grid_prefix(s, today, days, i + 1)[square_start(i) - 1] == '\n',
{
    lemma_squares_differ();
    lemma_grid_prefix_len(s, today, days, i + 1);
    let upto = grid_prefix(s, today, days, i + 1);
    let before = grid_prefix(s, today, days, i);
    let sq = square(s.contains(today - (days - (i + 1))));
    let nl: Seq<char> = if i > 0 && i % 7 == 0 { seq!['\n'] } else { Seq::empty() };
    assert(upto == before + nl + sq);
    assert(upto.subrange(square_start(i), square_start(i) + 10) =~= sq);
    if i > 0 && i % 7 == 0 {
        lemma_grid_prefix_len(s, today, days, i);
        assert(upto[square_start(i) - 1] == (before + nl)[before.len() as int]);
    }
}

/// The grid shows one square per day, oldest first, seven to a line: the
/// square of index `i` stands at `square_start(i)` and is green exactly when
/// the day `today - (days - 1 - i)` is in `s`, however far back that day is.
#[verifier::spinoff_prover]
pub proof fn lemma_grid_squares(s: Set<int>, today: int, days: int, i: int)
    requires
        0 <= i < days,
    ensures
        grid_text(s, today, days).len() == square_start(days - 1) + 10,
        grid_text(s, today, days).subrange(square_start(i), square_start(i) + 10) == if s.contains(
            today - (days - 1 - i),
        ) {
            GREEN_SQUARE@
        } else {
            GRAY_SQUARE@
        },
        i > 0 && i % 7 == 0 ==> grid_text(s, today, days)[square_start(i) - 1] == '\n',
{
    lemma_grid_prefix_len(s, today, days, days);
    lemma_last_square(s, today, days, i);
    lemma_grid_prefix_extends(s, today, days, i + 1, days);
    let whole = grid_text(s, today, days);
    let upto = grid_prefix(s, today, days, i + 1);
    assert(whole.subrange(0, upto.len() as int) == upto);
    assert(whole.subrange(square_start(i), square_start(i) + 10) =~= upto.subrange(
        square_start(i),
        square_start(i) + 10,
    ));
    if i > 0 && i % 7 == 0 {
        assert(whole[square_start(i) - 1] == whole.subrange(0, upto.len() as int)[square_start(i) - 1]);
    }
}

// ---------------------------------------------------------------------------
// Laws
// ---------------------------------------------------------------------------

/// Every two members of `s` that lie `step` apart have no member between them.
pub open spec fn steps_are_gapless(s: Set<int>, step: int) -> bool {
    forall|d: int| #[trigger] s.contains(d) && s.contains(d - step) ==> linked(s, d, step)
}

proof fn lemma_run_is_chain(s: Set<int>, d: int, k: nat, step: int)
    requires
        run_len(s, d, k, step),
        steps_are_gapless(s, step),
    ensures
        chain(s, d, k, step),
    decreases k,
{
    if k >= 2 {
        lemma_run_is_chain(s, d - step, (k - 1) as nat, step);
        assert(s.contains(d) && s.contains(d - step));
    }
}

proof fn lemma_current_within_longest(s: Set<int>, anchor: int, step: int, cur: int, rec: int)
    requires
        is_current_streak(s, anchor, step, cur),
        is_longest_run(s, step, rec),
        steps_are_gapless(s, step),
    ensures
        cur <= rec,
{
    if s.contains(anchor) {
        lemma_run_is_chain(s, anchor, cur as nat, step);
    } else if s.contains(anchor - step) {
        lemma_run_is_chain(s, anchor - step, cur as nat, step);
    }
}

proof fn lemma_mondays_gapless(s: Set<int>)
    requires
        forall|x: int| #[trigger] s.contains(x) ==> weekday_of(x) == 0,
    ensures
        steps_are_gapless(s, 7),
{
    assert forall|d: int| #[trigger] s.contains(d) && s.contains(d - 7) implies linked(s, d, 7) by {
        assert forall|x: int| d - 7 < x < d implies !#[trigger] s.contains(x) by {
            if s.contains(x) {
                assert(weekday_of(x) == 0 && weekday_of(d) == 0);
                assert((x - 1) % 7 == 0 && (d - 1) % 7 == 0);
                assert(false) by (nonlinear_arith)
                    requires
                        (x - 1) % 7 == 0,
                        (d - 1) % 7 == 0,
                        d - 7 < x < d,
                ;
            }
        }
    }
}

/// Every week that met a weekly goal is named by its Monday.
proof fn lemma_goal_weeks_are_mondays(checkins: Seq<Day>, weekly_target: i32)
    requires
        weeks_representable(checkins),
    ensures
        forall|x: int| #[trigger] goal_met_set(checkins, Frequency::Weekly { weekly_target }).contains(x)
            ==> weekday_of(x) == 0,
{
    let s = goal_met_set(checkins, Frequency::Weekly { weekly_target });
    assert forall|x: int| #[trigger] s.contains(x) implies weekday_of(x) == 0 by {
        let w = weeks_of(checkins);
        lemma_count_in_positive(w, x);
        let j = choose|j: int| 0 <= j < w.len() && w[j].num == x;
        assert(w[j].num == week_start_of(checkins[j].num as int) as i32);
        assert(in_calendar(week_start_of(checkins[j].num as int)));
        assert(weekday_of(week_start_of(checkins[j].num as int)) == 0);
    }
}

/// The current streak never exceeds the record, for a daily goal as for a
/// weekly one.
#[verifier::spinoff_prover]
pub proof fn lemma_streak_within_record(
    checkins: Seq<Day>,
    freq: Frequency,
    today: Day,
    cur: int,
    rec: int,
)
    requires
        progress_inputs_ok(checkins, freq, today),
        is_progress(checkins, freq, today, cur, rec),
    ensures
        cur <= rec,
{
    let s = goal_met_set(checkins, freq);
    match freq {
        Frequency::Daily { .. } => {
            assert forall|d: int| #[trigger] s.contains(d) && s.contains(d - 1) implies linked(s, d, 1) by {}
            lemma_current_within_longest(s, today.num as int, 1, cur, rec);
        },
        Frequency::Weekly { weekly_target } => {
            lemma_goal_weeks_are_mondays(checkins, weekly_target);
            lemma_mondays_gapless(s);
            lemma_current_within_longest(s, week_start_of(today.num as int), 7, cur, rec);
        },
    }
}

/// Raising the daily target never adds a qualifying day.
pub proof fn lemma_higher_target_fewer_days(days: Seq<Day>, low: int, high: int)
    requires
        low <= high,
    ensures
        qualifying_set(days, high).subset_of(qualifying_set(days, low)),
{
}

/// With a target of one check-in (the default) or less, every day with a
/// check-in qualifies.
pub proof fn lemma_low_target_keeps_every_day(days: Seq<Day>, target: int)
    requires
        target <= 1,
    ensures
        qualifying_set(days, target) == day_set(days),
{
    assert forall|x: int| #[trigger] qualifying_set(days, target).contains(x) == day_set(days).contains(x) by {
        lemma_count_in_positive(days, x);
    }
    assert(qualifying_set(days, target) =~= day_set(days));
}

proof fn lemma_run_members(s: Set<int>, d: int, k: nat, j: int)
    requires
        run_len(s, d, k, 1),
        0 <= j < k,
    ensures
        s.contains(d - j),
    decreases k,
{
    if j > 0 {
        lemma_run_members(s, d - 1, (k - 1) as nat, j - 1);
    }
}

/// The streak is rigid: when the day `gap` days before today (`gap >= 1`) has
/// no check-in, the current streak is at most `gap`.
pub proof fn lemma_missing_day_caps_streak(s: Set<int>, today: int, r: int, gap: int)
    requires
        is_current_streak(s, today, 1, r),
        gap >= 1,
        !s.contains(today - gap),
    ensures
        r <= gap,
{
    if s.contains(today) {
        if r > gap {
            lemma_run_members(s, today, r as nat, gap);
        }
    } else if s.contains(today - 1) {
        if r > gap {
            lemma_run_members(s, today - 1, r as nat, gap - 1);
        }
    }
}

proof fn lemma_run_ignores_later_day(s: Set<int>, d: int, k: nat, x: int)
    requires
        run_len(s, d, k, 1),
        x > d,
    ensures
        run_len(s.insert(x), d, k, 1),
    decreases k,
{
    if k > 0 {
        lemma_run_ignores_later_day(s, d - 1, (k - 1) as nat, x);
    }
}

/// A check-in today raises the current streak by exactly one, unless today
/// already had one, in which case the streak stays as it was.
pub proof fn lemma_checkin_today_extends_streak(s: Set<int>, today: int, before: int, after: int)
    requires
        is_current_streak(s, today, 1, before),
        is_current_streak(s.insert(today), today, 1, after),
    ensures
        after == if s.contains(today) {
            before
        } else {
            before + 1
        },
{
    let t = s.insert(today);
    if s.contains(today) {
        assert(t =~= s);
        lemma_run_unique(s, today, before as nat, after as nat, 1);
    } else {
        if s.contains(today - 1) {
            lemma_run_ignores_later_day(s, today - 1, before as nat, today);
            assert(run_len(t, today, (before + 1) as nat, 1));
        } else {
            assert(run_len(t, today - 1, 0, 1));
            assert(run_len(t, today, 1, 1));
        }
        lemma_run_unique(t, today, (if s.contains(today - 1) { before + 1 } else { 1 }) as nat, after as nat, 1);
    }
}

proof fn lemma_run_unique(s: Set<int>, d: int, k1: nat, k2: nat, step: int)
    requires
        run_len(s, d, k1, step),
        run_len(s, d, k2, step),
    ensures
        k1 == k2,
    decreases k1,
{
    if k1 > 0 && k2 > 0 {
        lemma_run_unique(s, d - step, (k1 - 1) as nat, (k2 - 1) as nat, step);
    }
}

/// Number of entries of `days` from day number `lo` up to, not including, `hi`.
pub open spec fn count_between(days: Seq<Day>, lo: int, hi: int) -> nat
    decreases days.len(),
{
    if days.len() == 0 {
        0
    } else {
        count_between(days.drop_last(), lo, hi) + if lo <= days.last().num < hi {
            1nat
        } else {
            0nat
        }
    }
}

/// The check-ins that count for the week starting on Monday `monday` are
/// exactly those from that Monday to the Sunday after it.
pub proof fn lemma_week_count(days: Seq<Day>, monday: int)
    requires
        weekday_of(monday) == 0,
        weeks_representable(days),
    ensures
        count_in(weeks_of(days), monday) == count_between(days, monday, monday + 7),
    decreases days.len(),
{
    if days.len() > 0 {
        let init = days.drop_last();
        assert(weeks_of(days).drop_last() =~= weeks_of(init));
        assert(weeks_representable(init)) by {
            assert forall|i: int| 0 <= i < init.len() implies in_calendar(week_start_of(#[trigger] init[i].num as int)) by {
                assert(init[i] == days[i]);
            }
        }
        lemma_week_count(init, monday);
        let d = days.last().num as int;
        assert(in_calendar(week_start_of(days[days.len() - 1].num as int)));
        assert(weeks_of(days).last().num == week_start_of(d));
        if monday <= d < monday + 7 {
            crate::calendar::lemma_same_week(monday, d);
        }
    }
}

proof fn lemma_count_in_multiset(days: Seq<Day>, x: int)
    ensures
        count_in(days, x) == if i32::MIN <= x <= i32::MAX {
            days.to_multiset().count(Day { num: x as i32 })
        } else {
            0
        },
    decreases days.len(),
{
    broadcast use vstd::seq_lib::group_to_multiset_ensures;
    broadcast use vstd::multiset::group_multiset_axioms;

    if days.len() == 0 {
        assert(days.to_multiset() =~= Multiset::empty());
    } else {
        let init = days.drop_last();
        lemma_count_in_multiset(init, x);
        assert(init.push(days.last()) =~= days);
        assert(days.to_multiset() =~= init.to_multiset().insert(days.last()));
    }
}

/// The days (and weeks) that meet a goal depend only on which check-ins there
/// are, not on the order in which they are listed.
pub proof fn lemma_order_irrelevant(a: Seq<Day>, b: Seq<Day>, target: int)
    requires
        a.to_multiset() == b.to_multiset(),
    ensures
        qualifying_set(a, target) == qualifying_set(b, target),
        day_set(a) == day_set(b),
{
    assert forall|x: int| #[trigger] count_in(a, x) == count_in(b, x) by {
        lemma_count_in_multiset(a, x);
        lemma_count_in_multiset(b, x);
    }
    assert forall|x: int| #[trigger] day_set(a).contains(x) == day_set(b).contains(x) by {
        lemma_count_in_positive(a, x);
        lemma_count_in_positive(b, x);
    }
    assert(qualifying_set(a, target) =~= qualifying_set(b, target));
    assert(day_set(a) =~= day_set(b));
}

} // verus!
