//! Reminder times written `HH:MM`, and when a reminder is due.
use vstd::prelude::*;

use crate::text::chars_of;

verus! {

/// An ASCII decimal digit.
pub open spec fn is_digit(c: char) -> bool {
    '0' <= c <= '9'
}

/// Every character is an ASCII decimal digit.
pub open spec fn all_digits(s: Seq<char>) -> bool {
    forall|i: int| 0 <= i < s.len() ==> is_digit(#[trigger] s[i])
}

/// The value of a string of decimal digits.
pub open spec fn digits_value(s: Seq<char>) -> int
    decreases s.len(),
{
    if s.len() == 0 {
        0
    } else {
        digits_value(s.drop_last()) * 10 + (s.last() as int - '0' as int)
    }
}

/// The integer that `s` writes: an optional `+` or `-` and at least one digit.
pub open spec fn parse_int(s: Seq<char>) -> Option<int> {
    if s.len() > 0 && (s[0] == '+' || s[0] == '-') {
        let body = s.drop_first();
        if body.len() > 0 && all_digits(body) {
            Some(if s[0] == '-' { -digits_value(body) } else { digits_value(body) })
        } else {
            None
        }
    } else if s.len() > 0 && all_digits(s) {
        Some(digits_value(s))
    } else {
        None
    }
}

/// What `str::parse::<i32>` gives for `s`: the integer it writes, where that
/// fits in an `i32`.
pub open spec fn parse_i32(s: Seq<char>) -> Option<int> {
    match parse_int(s) {
        Some(v) => if i32::MIN <= v <= i32::MAX {
            Some(v)
        } else {
            None
        },
        None => None,
    }
}

/// `s` has exactly one `:`, at index `k`.
pub open spec fn sole_colon_at(s: Seq<char>, k: int) -> bool {
    &&& 0 <= k < s.len()
    &&& s[k] == ':'
    &&& forall|j: int| 0 <= j < s.len() && j != k ==> #[trigger] s[j] != ':'
}

/// Minutes since midnight written by `HH:MM`: exactly one `:`, with an `i32`
/// on each side, as `hours * 60 + minutes`.
pub open spec fn clock_minutes(s: Seq<char>) -> Option<int> {
    if exists|k: int| sole_colon_at(s, k) {
        let k = choose|k: int| sole_colon_at(s, k);
        match (parse_i32(s.take(k)), parse_i32(s.skip(k + 1))) {
            (Some(h), Some(m)) => Some(h * 60 + m),
            _ => None,
        }
    } else {
        None
    }
}

/// Minutes in a day.
pub const MINUTES_PER_DAY: i64 = 1440;

/// Whether `current` lies in the five minutes that start at `target`. Where
/// both are times of a day (00:00 to 23:59) the window runs on past midnight,
/// so 00:01 is within the window of 23:58; other minute counts are compared
/// as they are.
pub open spec fn in_window(target: Seq<char>, current: Seq<char>) -> bool {
    match (clock_minutes(target), clock_minutes(current)) {
        (Some(t), Some(c)) => {
            ||| t <= c < t + 5
            ||| (0 <= t < MINUTES_PER_DAY && 0 <= c < MINUTES_PER_DAY && c + MINUTES_PER_DAY < t + 5)
        },
        _ => false,
    }
}

proof fn lemma_digits_value_prefix(s: Seq<char>, i: int, j: int)
    requires
        all_digits(s),
        0 <= j <= i <= s.len(),
    ensures
        0 <= digits_value(s.take(j)) <= digits_value(s.take(i)),
    decreases i,
{
    if i > j {
        lemma_digits_value_prefix(s, i - 1, j);
        assert(s.take(i).drop_last() =~= s.take(i - 1));
        lemma_digits_value_nonneg(s.take(i - 1));
    } else {
        lemma_digits_value_nonneg(s.take(j));
    }
}

proof fn lemma_digits_value_nonneg(s: Seq<char>)
    requires
        all_digits(s),
    ensures
        digits_value(s) >= 0,
    decreases s.len(),
{
    if s.len() > 0 {
        lemma_digits_value_nonneg(s.drop_last());
    }
}

/// The value of the digits `s[lo..hi]`, or `None` when one is not a digit or
/// the value exceeds 2^31.
fn digits_upto(s: &Vec<char>, lo: usize, hi: usize) -> (r: Option<i64>)
    requires
        lo <= hi <= s@.len(),
    ensures
        r matches Some(v) ==> all_digits(s@.subrange(lo as int, hi as int)) && v == digits_value(
            s@.subrange(lo as int, hi as int),
        ) && 0 <= v <= 0x8000_0000,
        r is None ==> !all_digits(s@.subrange(lo as int, hi as int)) || digits_value(
            s@.subrange(lo as int, hi as int),
        ) > 0x8000_0000,
{
    let ghost body = s@.subrange(lo as int, hi as int);
    let mut acc: i64 = 0;
    let mut i: usize = lo;
    while i < hi
        invariant
            lo <= i <= hi <= s@.len(),
            body == s@.subrange(lo as int, hi as int),
            all_digits(body.take(i - lo)),
            acc == digits_value(body.take(i - lo)),
            0 <= acc <= 0x8000_0000,
        decreases hi - i,
    {
        let c = s[i];
        proof {
            assert(body.take(i - lo + 1).drop_last() =~= body.take(i - lo));
            assert(body.take(i - lo + 1).last() == c);
        }
        if !('0' <= c && c <= '9') {
            proof {
                assert(body[i - lo] == c);
            }
            return None;
        }
        let digit = (c as u32 - '0' as u32) as i64;
        acc = acc * 10 + digit;
        if acc > 0x8000_0000 {
            proof {
                assert(all_digits(body.take(i - lo + 1)));
                if all_digits(body) {
                    lemma_digits_value_prefix(body, body.len() as int, i - lo + 1);
                    assert(body.take(body.len() as int) =~= body);
                }
            }
            return None;
        }
        i = i + 1;
    }
    proof {
        assert(body.take(hi - lo) =~= body);
    }
    Some(acc)
}

/// What `str::parse::<i32>` gives for the characters `s[lo..hi]`.
fn parse_i32_in(s: &Vec<char>, lo: usize, hi: usize) -> (r: Option<i64>)
    requires
        lo <= hi <= s@.len(),
    ensures
        r matches Some(v) ==> parse_i32(s@.subrange(lo as int, hi as int)) == Some(v as int),
        r is None ==> parse_i32(s@.subrange(lo as int, hi as int)) is None,
{
    let ghost t = s@.subrange(lo as int, hi as int);
    if lo == hi {
        return None;
    }
    let first = s[lo];
    if first == '+' || first == '-' {
        proof {
            assert(t.drop_first() =~= s@.subrange(lo + 1, hi as int));
            assert(t[0] == first);
        }
        if lo + 1 == hi {
            return None;
        }
        match digits_upto(s, lo + 1, hi) {
            Some(v) => {
                if first == '-' {
                    Some(-v)
                } else if v <= 0x7fff_ffff {
                    Some(v)
                } else {
                    None
                }
            },
            None => None,
        }
    } else {
        proof {
            assert(t[0] == first);
        }
        match digits_upto(s, lo, hi) {
            Some(v) => {
                if v <= 0x7fff_ffff {
                    Some(v)
                } else {
                    None
                }
            },
            None => None,
        }
    }
}

/// Minutes since midnight written by `hhmm` as `HH:MM`, or `None` where it
/// is not exactly two integers around one `:`.
pub fn to_minutes(hhmm: &str) -> (r: Option<i64>)
    ensures
        r matches Some(v) ==> clock_minutes(hhmm@) == Some(v as int) && -0x40_0000_0000 <= v
            <= 0x40_0000_0000,
        r is None ==> clock_minutes(hhmm@) is None,
{
    let s = chars_of(hhmm);
    let mut colons: usize = 0;
    let mut at: usize = 0;
    let mut i: usize = 0;
    while i < s.len()
        invariant
            i <= s@.len(),
            s@ == hhmm@,
            colons <= i,
            colons == 0 ==> forall|j: int| 0 <= j < i ==> s@[j] != ':',
            colons == 1 ==> at < i && s@[at as int] == ':' && forall|j: int|
                0 <= j < i && j != at ==> s@[j] != ':',
            colons >= 2 ==> exists|a: int, b: int| 0 <= a < b < i && s@[a] == ':' && s@[b] == ':',
        decreases s.len() - i,
    {
        if s[i] == ':' {
            if colons == 0 {
                at = i;
            } else if colons == 1 {
                proof {
                    assert(0 <= at < i && s@[at as int] == ':' && s@[i as int] == ':');
                }
            }
            if colons < 2 {
                colons = colons + 1;
            }
        }
        i = i + 1;
    }
    if colons != 1 {
        proof {
            if exists|k: int| sole_colon_at(s@, k) {
                let k = choose|k: int| sole_colon_at(s@, k);
                if colons >= 2 {
                    let (a, b) = choose|a: int, b: int| 0 <= a < b < s@.len() && s@[a] == ':' && s@[b] == ':';
                    assert(a == k || s@[a] != ':');
                }
            }
        }
        return None;
    }
    proof {
        assert(sole_colon_at(s@, at as int));
        let k = choose|k: int| sole_colon_at(s@, k);
        assert(k == at);
        assert(s@.take(at as int) =~= s@.subrange(0, at as int));
        assert(s@.skip(at + 1) =~= s@.subrange(at + 1, s@.len() as int));
    }
    let h = parse_i32_in(&s, 0, at);
    let m = parse_i32_in(&s, at + 1, s.len());
    match (h, m) {
        (Some(h), Some(m)) => Some(h * 60 + m),
        _ => None,
    }
}

/// Whether `current` (`HH:MM`) falls within the five minutes that start at
/// `target` (`HH:MM`): the scheduler that checks reminders may not run on the
/// exact minute. Between times of a day the window runs on past midnight.
/// Times that do not read as `HH:MM` are never within.
pub fn within_window(target: &str, current: &str) -> (r: bool)
    ensures
        r == in_window(target@, current@),
{
    match (to_minutes(target), to_minutes(current)) {
        (Some(t), Some(c)) => {
            (t <= c && c < t + 5) || (0 <= t && t < MINUTES_PER_DAY && 0 <= c && c < MINUTES_PER_DAY
                && c + MINUTES_PER_DAY < t + 5)
        },
        _ => false,
    }
}

} // verus!
