//! The correlation timestamp. A group's `send_time` is a decimal string
//! holding a millisecond epoch value; the cache keys groups by the
//! parsed value together with the sender, and ages them against it.

use vstd::prelude::*;
use vstd::string::StrSliceExecFns;

verus! {

/// Whether `c` is a decimal digit.
pub open spec fn spec_is_digit(c: char) -> bool {
    48 <= c as u32 <= 57
}

/// The numeric value of the digit `c`.
pub open spec fn spec_digit_val(c: char) -> int {
    c as u32 - 48
}

/// The value of `s` read as a decimal numeral (0 for the empty string).
pub open spec fn spec_dec_value(s: Seq<char>) -> int
    decreases s.len(),
{
    if s.len() == 0 {
        0
    } else {
        spec_dec_value(s.drop_last()) * 10 + spec_digit_val(s.last())
    }
}

/// Whether every character of `s` is a decimal digit.
pub open spec fn spec_all_digits(s: Seq<char>) -> bool {
    forall|i: int| 0 <= i < s.len() ==> spec_is_digit(s[i])
}

/// What parsing a `send_time` string yields: its decimal value, if the
/// string is a nonempty run of digits whose value fits in a `u64`.
pub open spec fn spec_parse_millis(s: Seq<char>) -> Option<u64> {
    if s.len() >= 1 && spec_all_digits(s) && spec_dec_value(s) <= u64::MAX {
        Some(spec_dec_value(s) as u64)
    } else {
        None
    }
}

/// A decimal numeral over digits is never negative.
proof fn lemma_dec_value_nonneg(s: Seq<char>)
    requires
        spec_all_digits(s),
    ensures
        spec_dec_value(s) >= 0,
    decreases s.len(),
{
    if s.len() > 0 {
        assert(spec_all_digits(s.drop_last()));
        lemma_dec_value_nonneg(s.drop_last());
    }
}

/// Reading one more digit relates the values of adjacent prefixes.
proof fn lemma_dec_value_step(s: Seq<char>, i: int)
    requires
        0 <= i < s.len(),
    ensures
        spec_dec_value(s.subrange(0, i + 1)) == spec_dec_value(s.subrange(0, i)) * 10
            + spec_digit_val(s[i]),
{
    let t = s.subrange(0, i + 1);
    assert(t.drop_last() =~= s.subrange(0, i));
    assert(t.last() == s[i]);
}

/// A longer all-digit prefix never has a smaller value.
proof fn lemma_dec_value_prefix_le(s: Seq<char>, i: int, j: int)
    requires
        0 <= i <= j <= s.len(),
        spec_all_digits(s),
    ensures
        spec_dec_value(s.subrange(0, i)) <= spec_dec_value(s.subrange(0, j)),
    decreases j - i,
{
    if i < j {
        lemma_dec_value_prefix_le(s, i, j - 1);
        lemma_dec_value_step(s, j - 1);
        assert(spec_all_digits(s.subrange(0, j - 1)));
        lemma_dec_value_nonneg(s.subrange(0, j - 1));
    }
}

/// Parses a `send_time` string as a decimal millisecond epoch value.
/// Returns `None` when the string is empty, holds a non-digit, or names
/// a value too large for a `u64`.
pub fn parse_millis(s: &str) -> (r: Option<u64>)
    ensures
        r == spec_parse_millis(s@),
{
    let n = s.unicode_len();
    if n == 0 {
        return None;
    }
    let mut acc: u64 = 0;
    let mut i: usize = 0;
    while i < n
        invariant
            n == s@.len(),
            0 <= i <= n,
            spec_all_digits(s@.subrange(0, i as int)),
            acc == spec_dec_value(s@.subrange(0, i as int)),
        decreases n - i,
    {
        let c = s.get_char(i);
        let v = c as u32;
        if v < 48 || v > 57 {
            assert(!spec_is_digit(s@[i as int]));
            return None;
        }
        let d = (v - 48) as u64;
        proof {
            lemma_dec_value_step(s@, i as int);
        }
        let shifted = match acc.checked_mul(10) {
            Some(m) => m,
            None => {
                proof {
                    lemma_overflow(s@, i as int);
                }
                return None;
            },
        };
        acc = match shifted.checked_add(d) {
            Some(a) => a,
            None => {
                proof {
                    lemma_overflow(s@, i as int);
                }
                return None;
            },
        };
        proof {
            assert(spec_all_digits(s@.subrange(0, i + 1)));
        }
        i = i + 1;
    }
    proof {
        assert(s@.subrange(0, n as int) =~= s@);
    }
    Some(acc)
}

/// If the value of the prefix of length `i + 1` exceeds `u64::MAX` and
/// the whole string is digits, the whole string's value exceeds it too.
proof fn lemma_overflow(s: Seq<char>, i: int)
    requires
        0 <= i < s.len(),
        spec_all_digits(s.subrange(0, i + 1)),
        spec_dec_value(s.subrange(0, i + 1)) > u64::MAX,
    ensures
        spec_parse_millis(s) == Option::<u64>::None,
{
    if spec_all_digits(s) {
        lemma_dec_value_prefix_le(s, i + 1, s.len() as int);
        assert(s.subrange(0, s.len() as int) =~= s);
    }
}

} // verus!
