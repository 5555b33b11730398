//! The verified half of the beatmap-set locator: the rule that reads a
//! set's numeric identifier off the front of a file name.  The filesystem
//! walk and archive listing that produce the names live outside the
//! library; every name they keep must carry a parseable leading number.

use vstd::prelude::*;

verus! {

/// Whether `c` is a decimal digit.
pub open spec fn is_digit(c: char) -> bool {
    '0' as int <= c as int <= '9' as int
}

/// Length of the leading run of decimal digits of `s`.
pub open spec fn digit_run_len(s: Seq<char>) -> nat
    decreases s.len(),
{
    if s.len() == 0 || !is_digit(s[0]) {
        0
    } else {
        1 + digit_run_len(s.subrange(1, s.len() as int))
    }
}

/// The number a digit sequence writes in base ten.
pub open spec fn digits_value(s: Seq<char>) -> int
    decreases s.len(),
{
    if s.len() == 0 {
        0
    } else {
        digits_value(s.drop_last()) * 10 + (s.last() as int - '0' as int)
    }
}

/// The numeric identifier at the start of a name: the value of its leading
/// digit run, absent when the name starts with no digit or the value does
/// not fit in a `u64`.
pub open spec fn spec_leading_number(s: Seq<char>) -> Option<u64> {
    let k = digit_run_len(s) as int;
    if k == 0 || digits_value(s.subrange(0, k)) > u64::MAX {
        None
    } else {
        Some(digits_value(s.subrange(0, k)) as u64)
    }
}

/// `digit_run_len` is the first position without a digit.
proof fn lemma_digit_run_len_at(s: Seq<char>, i: int)
    requires
        0 <= i <= s.len(),
        forall|j: int| 0 <= j < i ==> is_digit(s[j]),
        i < s.len() ==> !is_digit(s[i]),
    ensures
        digit_run_len(s) == i,
    decreases i,
{
    if i > 0 {
        let tail = s.subrange(1, s.len() as int);
        lemma_digit_run_len_at(tail, i - 1);
    } else if s.len() > 0 {
        assert(!is_digit(s[0]));
    }
}

/// Reading more digits never shrinks the value, which stays non-negative.
proof fn lemma_digits_value_grows(s: Seq<char>, b: int)
    requires
        0 <= b <= s.len(),
        forall|j: int| 0 <= j < b ==> is_digit(s[j]),
    ensures
        forall|a: int|
            0 <= a <= b ==> 0 <= #[trigger] digits_value(s.subrange(0, a)) <= digits_value(
                s.subrange(0, b),
            ),
    decreases b,
{
    if b > 0 {
        lemma_digits_value_grows(s, b - 1);
        assert(s.subrange(0, b).drop_last() =~= s.subrange(0, b - 1));
        assert(s.subrange(0, b).last() == s[b - 1]);
        assert(is_digit(s[b - 1]));
        assert(digits_value(s.subrange(0, b)) == digits_value(s.subrange(0, b - 1)) * 10 + (
        s[b - 1] as int - '0' as int));
        assert(0 <= digits_value(s.subrange(0, b - 1)));
        assert(digits_value(s.subrange(0, b - 1)) <= digits_value(s.subrange(0, b)));
        assert forall|a: int| 0 <= a <= b implies 0 <= #[trigger] digits_value(s.subrange(0, a))
            <= digits_value(s.subrange(0, b)) by {
            if a < b {
                assert(digits_value(s.subrange(0, a)) <= digits_value(s.subrange(0, b - 1)));
            }
        }
    }
}

/// Whether `c` is a decimal digit.
fn is_digit_exec(c: char) -> (r: bool)
    ensures
        r == is_digit(c),
{
    (c as u32) >= 48 && (c as u32) <= 57
}

/// The numeric identifier at the start of `stem`: the value of its leading
/// run of decimal digits, or nothing when `stem` starts with no digit or
/// the value overflows a `u64`.
pub fn leading_number(stem: &str) -> (r: Option<u64>)
    ensures
        r == spec_leading_number(stem@),
{
    let n: usize = stem.unicode_len();
    let mut k: usize = 0;
    while k < n && is_digit_exec(stem.get_char(k))
        invariant
            k <= n,
            n == stem@.len(),
            forall|j: int| 0 <= j < k ==> is_digit(stem@[j]),
        decreases n - k,
    {
        k = k + 1;
    }
    proof {
        lemma_digit_run_len_at(stem@, k as int);
    }
    if k == 0 {
        return None;
    }
    let mut value: u64 = 0;
    let mut j: usize = 0;
    proof {
        assert(stem@.subrange(0, 0) =~= Seq::<char>::empty());
    }
    while j < k
        invariant
            j <= k,
            k <= n,
            n == stem@.len(),
            digit_run_len(stem@) == k,
            forall|i: int| 0 <= i < k ==> is_digit(stem@[i]),
            value as int == digits_value(stem@.subrange(0, j as int)),
        decreases k - j,
    {
        let c = stem.get_char(j);
        proof {
            assert(is_digit(stem@[j as int]));
        }
        let d: u64 = ((c as u32) - 48) as u64;
        proof {
            assert(stem@.subrange(0, j as int + 1).drop_last() =~= stem@.subrange(0, j as int));
            assert(stem@.subrange(0, j as int + 1).last() == stem@[j as int]);
        }
        if value > (u64::MAX - d) / 10 {
            proof {
                lemma_digits_value_grows(stem@, k as int);
                assert(value as int * 10 + d as int > u64::MAX) by {
                    assert(value as int >= (u64::MAX - d) as int / 10 + 1);
                }
                assert(digits_value(stem@.subrange(0, j as int + 1)) > u64::MAX);
                assert(digits_value(stem@.subrange(0, k as int)) >= digits_value(
                    stem@.subrange(0, j as int + 1),
                ));
            }
            return None;
        }
        value = value * 10 + d;
        j = j + 1;
    }
    proof {
        lemma_digits_value_grows(stem@, k as int);
    }
    Some(value)
}

} // verus!
