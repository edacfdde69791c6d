//! Reading text character by character.
use vstd::prelude::*;

verus! {

broadcast use vstd::string::axiom_spec_iter;

/// The characters of `s`, in order.
pub fn chars_of(s: &str) -> (r: Vec<char>)
    ensures
        r@ == s@,
{
    let mut r: Vec<char> = Vec::new();
    for c in it: s.chars()
        invariant
            r@ == it.seq().take(it.index() as int),
    {
        r.push(c);
    }
    r
}

/// `needle` occurs in `hay` at index `i`.
pub open spec fn occurs_at(hay: Seq<char>, needle: Seq<char>, i: int) -> bool {
    0 <= i && i + needle.len() <= hay.len() && hay.subrange(i, i + needle.len()) == needle
}

/// `needle` occurs somewhere in `hay`.
pub open spec fn contains_text(hay: Seq<char>, needle: Seq<char>) -> bool {
    exists|i: int| occurs_at(hay, needle, i)
}

/// Whether `needle` occurs in `hay`.
pub fn find_text(hay: &str, needle: &str) -> (r: bool)
    ensures
        r == contains_text(hay@, needle@),
{
    let h = chars_of(hay);
    let n = chars_of(needle);
    if n.len() > h.len() {
        return false;
    }
    let mut i: usize = 0;
    while i <= h.len() - n.len()
        invariant
            h@ == hay@,
            n@ == needle@,
            n.len() <= h.len(),
            i <= h.len() - n.len() + 1,
            forall|j: int| 0 <= j < i ==> !occurs_at(h@, n@, j),
        decreases h.len() - i,
    {
        let mut k: usize = 0;
        while k < n.len() && h[i + k] == n[k]
            invariant
                i + n.len() <= h.len(),
                k <= n.len(),
                forall|m: int| 0 <= m < k ==> h@[i + m] == n@[m],
            decreases n.len() - k,
        {
            k = k + 1;
        }
        if k == n.len() {
            proof {
                assert(h@.subrange(i as int, i + n.len()) =~= n@);
                assert(occurs_at(hay@, needle@, i as int));
            }
            return true;
        }
        proof {
            assert(h@.subrange(i as int, i + n.len())[k as int] != n@[k as int]);
        }
        i = i + 1;
    }
    false
}

/// The characters that `char::is_whitespace` accepts (Unicode `White_Space`),
/// which `str::trim` strips from both ends.
pub open spec fn is_white_space(c: char) -> bool {
    ||| '\u{9}' <= c <= '\u{d}'
    ||| c == ' '
    ||| c == '\u{85}'
    ||| c == '\u{a0}'
    ||| c == '\u{1680}'
    ||| '\u{2000}' <= c <= '\u{200a}'
    ||| c == '\u{2028}'
    ||| c == '\u{2029}'
    ||| c == '\u{202f}'
    ||| c == '\u{205f}'
    ||| c == '\u{3000}'
}

/// The answer, once trimmed, is `s` or `S`: a yes to a confirmation prompt.
pub open spec fn is_yes(answer: Seq<char>) -> bool {
    exists|k: int|
        0 <= k < answer.len() && (answer[k] == 's' || answer[k] == 'S') && forall|j: int|
            0 <= j < answer.len() && j != k ==> is_white_space(#[trigger] answer[j])
}

fn white_space(c: char) -> (r: bool)
    ensures
        r == is_white_space(c),
{
    ('\u{9}' <= c && c <= '\u{d}') || c == ' ' || c == '\u{85}' || c == '\u{a0}' || c
        == '\u{1680}' || ('\u{2000}' <= c && c <= '\u{200a}') || c == '\u{2028}' || c
        == '\u{2029}' || c == '\u{202f}' || c == '\u{205f}' || c == '\u{3000}'
}

/// Whether the answer to "are you sure? (s/N)" confirms: apart from
/// surrounding white space it is a single `s`, in either case.
pub fn confirms(answer: &str) -> (r: bool)
    ensures
        r == is_yes(answer@),
{
    let a = chars_of(answer);
    let mut found: Option<usize> = None;
    let mut i: usize = 0;
    while i < a.len()
        invariant
            i <= a@.len(),
            a@ == answer@,
            match found {
                None => forall|j: int| 0 <= j < i ==> is_white_space(#[trigger] a@[j]),
                Some(k) => k < i && (a@[k as int] == 's' || a@[k as int] == 'S') && forall|j: int|
                    0 <= j < i && j != k ==> is_white_space(#[trigger] a@[j]),
            },
        decreases a.len() - i,
    {
        let c = a[i];
        if !white_space(c) {
            match found {
                None => {
                    if c == 's' || c == 'S' {
                        found = Some(i);
                    } else {
                        proof {
                            assert(!is_yes(answer@)) by {
                                if is_yes(answer@) {
                                    let k = choose|k: int| 0 <= k < answer@.len() && (answer@[k] == 's'
                                        || answer@[k] == 'S') && forall|j: int|
                                        0 <= j < answer@.len() && j != k ==> is_white_space(
                                            #[trigger] answer@[j],
                                        );
                                    assert(k != i);
                                    assert(is_white_space(a@[i as int]));
                                }
                            }
                        }
                        return false;
                    }
                },
                Some(k) => {
                    proof {
                        assert(!is_yes(answer@)) by {
                            if is_yes(answer@) {
                                let m = choose|m: int| 0 <= m < answer@.len() && (answer@[m] == 's'
                                    || answer@[m] == 'S') && forall|j: int|
                                    0 <= j < answer@.len() && j != m ==> is_white_space(
                                        #[trigger] answer@[j],
                                    );
                                if m == i {
                                    assert(is_white_space(a@[k as int]));
                                } else {
                                    assert(is_white_space(a@[i as int]));
                                }
                            }
                        }
                    }
                    return false;
                },
            }
        }
        i = i + 1;
    }
    match found {
        Some(k) => {
            proof {
                assert(0 <= k < answer@.len() && (answer@[k as int] == 's' || answer@[k as int] == 'S'));
            }
            true
        },
        None => {
            proof {
                assert(!is_yes(answer@)) by {
                    if is_yes(answer@) {
                        let m = choose|m: int| 0 <= m < answer@.len() && (answer@[m] == 's'
                            || answer@[m] == 'S') && forall|j: int|
                            0 <= j < answer@.len() && j != m ==> is_white_space(#[trigger] answer@[j]);
                        assert(is_white_space(a@[m]));
                    }
                }
            }
            false
        },
    }
}

/// A confirming answer holds nothing but white space and one `s` or `S`: in
/// particular an answer with an `n` or `N` in it never confirms.
pub proof fn lemma_yes_is_only_s(answer: Seq<char>)
    requires
        is_yes(answer),
    ensures
        forall|j: int|
            0 <= j < answer.len() ==> #[trigger] answer[j] == 's' || answer[j] == 'S'
                || is_white_space(answer[j]),
        exists|k: int| 0 <= k < answer.len() && (answer[k] == 's' || answer[k] == 'S'),
        !answer.contains('n'),
        !answer.contains('N'),
{
    let k = choose|k: int|
        0 <= k < answer.len() && (answer[k] == 's' || answer[k] == 'S') && forall|j: int|
            0 <= j < answer.len() && j != k ==> is_white_space(#[trigger] answer[j]);
    assert forall|j: int|
        0 <= j < answer.len() implies #[trigger] answer[j] == 's' || answer[j] == 'S'
            || is_white_space(answer[j]) by {
        if j != k {
            assert(is_white_space(answer[j]));
        }
    }
    if answer.contains('n') {
        let j = choose|j: int| 0 <= j < answer.len() && answer[j] == 'n';
        assert(answer[j] == 's' || answer[j] == 'S' || is_white_space(answer[j]));
    }
    if answer.contains('N') {
        let j = choose|j: int| 0 <= j < answer.len() && answer[j] == 'N';
        assert(answer[j] == 's' || answer[j] == 'S' || is_white_space(answer[j]));
    }
}

/// An `s` or `S` with only white space around it confirms, and a second
/// letter after a confirming answer takes the confirmation back.
pub proof fn lemma_s_between_spaces_confirms(before: Seq<char>, c: char, after: Seq<char>, extra: char)
    requires
        c == 's' || c == 'S',
        forall|j: int| 0 <= j < before.len() ==> is_white_space(#[trigger] before[j]),
        forall|j: int| 0 <= j < after.len() ==> is_white_space(#[trigger] after[j]),
        !is_white_space(extra),
    ensures
        is_yes(before + seq![c] + after),
        !is_yes(before + seq![c] + after + seq![extra]),
{
    let a = before + seq![c] + after;
    let k = before.len() as int;
    assert forall|j: int| 0 <= j < a.len() && j != k implies is_white_space(#[trigger] a[j]) by {
        if j < k {
            assert(a[j] == before[j]);
        } else {
            assert(a[j] == after[j - k - 1]);
        }
    }
    assert(a[k] == c);
    let b = a + seq![extra];
    if is_yes(b) {
        let m = choose|m: int|
            0 <= m < b.len() && (b[m] == 's' || b[m] == 'S') && forall|j: int|
                0 <= j < b.len() && j != m ==> is_white_space(#[trigger] b[j]);
        assert(b[a.len() as int] == extra);
        if m == a.len() {
            assert(b[k] == c);
            assert(is_white_space(b[k]));
        }
    }
}

} // verus!
