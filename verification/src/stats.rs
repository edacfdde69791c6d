//! How much two habits go together: the overlap of their days.
use vstd::prelude::*;
use vstd::set_lib::{lemma_int_range, lemma_len_subset, lemma_set_intersect_union_lens, set_int_range};

use crate::calendar::{all_valid, in_calendar, Day, MAX_DAY, MIN_DAY};
use crate::streak::{contains_day, day_set, lemma_tally_len, tally, tally_days};

verus! {

/// Number of days that both histories share.
pub open spec fn overlap(a: Seq<Day>, b: Seq<Day>) -> nat {
    day_set(a).intersect(day_set(b)).len()
}

/// Number of days on which either history has an entry.
pub open spec fn coverage(a: Seq<Day>, b: Seq<Day>) -> nat {
    day_set(a).union(day_set(b)).len()
}

/// A set of representable day numbers is finite and no larger than the calendar.
proof fn lemma_calendar_bound(s: Set<int>)
    requires
        forall|x: int| #[trigger] s.contains(x) ==> in_calendar(x),
    ensures
        s.finite(),
        s.len() <= MAX_DAY - MIN_DAY + 1,
{
    let range = set_int_range(MIN_DAY as int, MAX_DAY + 1);
    lemma_int_range(MIN_DAY as int, MAX_DAY + 1);
    assert(s.subset_of(range));
    lemma_len_subset(s, range);
}

proof fn lemma_valid_days_in_calendar(days: Seq<Day>)
    requires
        all_valid(days),
    ensures
        forall|x: int| #[trigger] day_set(days).contains(x) ==> in_calendar(x),
{
    assert forall|x: int| #[trigger] day_set(days).contains(x) implies in_calendar(x) by {
        let i = choose|i: int| 0 <= i < days.len() && days[i].num == x;
        assert(days[i].valid());
    }
}

/// The Jaccard index of two histories, as (days in common, days in either):
/// the habits go together completely when the two are equal and not at all
/// when the first is 0. With no day in either, both are 0.
pub fn jaccard(a: &[Day], b: &[Day]) -> (r: (usize, usize))
    requires
        all_valid(a@),
        all_valid(b@),
    ensures
        r.0 == overlap(a@, b@),
        r.1 == coverage(a@, b@),
{
    let ta = tally(a);
    let tb = tally(b);
    let ghost sa = day_set(a@);
    let ghost sb = day_set(b@);
    let ghost td = tally_days(ta@);
    let ghost mut common: Set<int> = Set::empty();
    let mut inter: usize = 0;
    let mut k: usize = 0;
    while k < ta.len()
        invariant
            k <= ta@.len(),
            td == tally_days(ta@),
            crate::streak::strictly_increasing(ta@),
            sb == day_set(b@),
            common.finite(),
            common.len() == inter,
            inter <= k,
            forall|x: int| #[trigger] common.contains(x) <==> (exists|m: int|
                0 <= m < k && td[m].num == x) && sb.contains(x),
        decreases ta.len() - k,
    {
        let d = ta[k].0;
        proof {
            assert(td[k as int] == d);
        }
        if contains_day(b, d) {
            proof {
                if common.contains(d.num as int) {
                    let m = choose|m: int| 0 <= m < k && td[m].num == d.num;
                    assert(ta@[m].0.num < ta@[k as int].0.num);
                }
                let old_common = common;
                common = common.insert(d.num as int);
                assert forall|x: int| #[trigger] common.contains(x) <==> (exists|m: int|
                    0 <= m < k + 1 && td[m].num == x) && sb.contains(x) by {
                    if old_common.contains(x) {
                        let m = choose|m: int| 0 <= m < k && td[m].num == x;
                        assert(0 <= m < k + 1 && td[m].num == x);
                    }
                    if x == d.num {
                        assert(td[k as int].num == x);
                    }
                }
            }
            inter = inter + 1;
        } else {
            proof {
                assert forall|x: int| #[trigger] common.contains(x) <==> (exists|m: int|
                    0 <= m < k + 1 && td[m].num == x) && sb.contains(x) by {
                    if (exists|m: int| 0 <= m < k + 1 && td[m].num == x) && sb.contains(x) {
                        let m = choose|m: int| 0 <= m < k + 1 && td[m].num == x;
                        if m == k {
                            assert(x == d.num);
                        } else {
                            assert(0 <= m < k && td[m].num == x);
                        }
                    }
                }
            }
        }
        k = k + 1;
    }
    proof {
        lemma_tally_len(ta@);
        lemma_tally_len(tb@);
        assert forall|x: int| #[trigger] common.contains(x) <==> sa.intersect(sb).contains(x) by {
            if sa.contains(x) {
                assert(day_set(td).contains(x));
                let m = choose|m: int| 0 <= m < td.len() && td[m].num == x;
            }
            if common.contains(x) {
                let m = choose|m: int| 0 <= m < ta@.len() && td[m].num == x;
                assert(day_set(td).contains(x));
            }
        }
        assert(common =~= sa.intersect(sb));
        lemma_set_intersect_union_lens(sa, sb);
        lemma_valid_days_in_calendar(a@);
        lemma_valid_days_in_calendar(b@);
        lemma_calendar_bound(sa.union(sb));
        assert(sa.intersect(sb).subset_of(sb));
        lemma_len_subset(sa.intersect(sb), sb);
    }
    let only_a = ta.len() - inter;
    (inter, only_a + tb.len())
}

/// The index is symmetric: swapping the two habits changes nothing.
pub proof fn lemma_jaccard_symmetric(a: Seq<Day>, b: Seq<Day>)
    ensures
        overlap(a, b) == overlap(b, a),
        coverage(a, b) == coverage(b, a),
{
    assert(day_set(a).intersect(day_set(b)) =~= day_set(b).intersect(day_set(a)));
    assert(day_set(a).union(day_set(b)) =~= day_set(b).union(day_set(a)));
}

/// Two habits done on exactly the same days go together completely: every
/// day of either is a day of both.
pub proof fn lemma_same_days_full_overlap(a: Seq<Day>, b: Seq<Day>)
    requires
        day_set(a) == day_set(b),
    ensures
        overlap(a, b) == coverage(a, b),
{
    assert(day_set(a).intersect(day_set(b)) =~= day_set(a).union(day_set(b)));
}

/// Habits with no day in common do not overlap at all.
pub proof fn lemma_disjoint_days_no_overlap(a: Seq<Day>, b: Seq<Day>)
    requires
        forall|x: int| #[trigger] day_set(a).contains(x) ==> !day_set(b).contains(x),
    ensures
        overlap(a, b) == 0,
{
    assert(day_set(a).intersect(day_set(b)) =~= Set::empty());
}

/// The days in common never outnumber the days of either: the index lies
/// between 0 and 1.
pub proof fn lemma_overlap_within_coverage(a: Seq<Day>, b: Seq<Day>)
    requires
        all_valid(a),
        all_valid(b),
    ensures
        overlap(a, b) <= coverage(a, b),
{
    lemma_valid_days_in_calendar(a);
    lemma_valid_days_in_calendar(b);
    lemma_calendar_bound(day_set(a).union(day_set(b)));
    assert(day_set(a).intersect(day_set(b)).subset_of(day_set(a).union(day_set(b))));
    lemma_len_subset(day_set(a).intersect(day_set(b)), day_set(a).union(day_set(b)));
}

} // verus!
