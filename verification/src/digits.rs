//! Decimal digit runs: recognising digits, the value of a digit sequence, and
//! parsing a digit range of a string into a `u32` with overflow detection.

use vstd::prelude::*;

verus! {

/// `c` is an ASCII decimal digit.
pub open spec fn is_digit(c: char) -> bool {
    48 <= c as int <= 57
}

/// Numeric value of a single digit character.
pub open spec fn digit_val(c: char) -> int {
    c as int - 48
}

/// `s` consists of digits only.
pub open spec fn all_digits(s: Seq<char>) -> bool {
    forall|k: int| 0 <= k < s.len() ==> is_digit(s[k])
}

/// Value of a digit sequence read most-significant first.
pub open spec fn digits_val(s: Seq<char>) -> int
    decreases s.len(),
{
    if s.len() == 0 {
        0
    } else {
        digits_val(s.drop_last()) * 10 + digit_val(s.last())
    }
}

/// A nonempty all-digit sequence parses to its value when that fits in `u32`;
/// anything else has no `u32` reading.
pub open spec fn spec_parse_u32(s: Seq<char>) -> Option<u32> {
    if s.len() > 0 && all_digits(s) && digits_val(s) <= u32::MAX {
        Some(digits_val(s) as u32)
    } else {
        None
    }
}

pub proof fn lemma_digits_val_nonneg(s: Seq<char>)
    requires
        all_digits(s),
    ensures
        digits_val(s) >= 0,
    decreases s.len(),
{
    if s.len() > 0 {
        assert(all_digits(s.drop_last()));
        lemma_digits_val_nonneg(s.drop_last());
    }
}

/// The value of an all-digit sequence only grows as the sequence is extended
/// on the right.
pub proof fn lemma_digits_val_prefix_le(s: Seq<char>, m: int)
    requires
        all_digits(s),
        0 <= m <= s.len(),
    ensures
        digits_val(s.subrange(0, m)) <= digits_val(s),
    decreases s.len() - m,
{
    if m == s.len() {
        assert(s.subrange(0, m) =~= s);
    } else {
        let t = s.subrange(0, m + 1);
        assert(all_digits(t));
        assert(t.drop_last() =~= s.subrange(0, m));
        lemma_digits_val_nonneg(t.drop_last());
        assert(digits_val(t) == digits_val(s.subrange(0, m)) * 10 + digit_val(t.last()));
        assert(digits_val(s.subrange(0, m)) <= digits_val(t)) by (nonlinear_arith)
            requires
                digits_val(t) == digits_val(s.subrange(0, m)) * 10 + digit_val(t.last()),
                digits_val(s.subrange(0, m)) >= 0,
                digit_val(t.last()) >= 0,
        {
        }
        lemma_digits_val_prefix_le(s, m + 1);
    }
}

/// Parse the digit range `[from, to)` of `s` as a `u32`; `None` when the range
/// is empty or the value exceeds `u32::MAX`.
pub fn parse_digits(s: &str, from: usize, to: usize) -> (r: Option<u32>)
    requires
        from <= to <= s@.len(),
        forall|k: int| from <= k < to ==> is_digit(s@[k]),
    ensures
        r == spec_parse_u32(s@.subrange(from as int, to as int)),
{
    let ghost run = s@.subrange(from as int, to as int);
    if from == to {
        assert(run.len() == 0);
        return None;
    }
    let mut acc: u32 = 0;
    let mut k: usize = from;
    while k < to
        invariant
            from <= k <= to <= s@.len(),
            forall|j: int| from <= j < to ==> is_digit(s@[j]),
            run == s@.subrange(from as int, to as int),
            acc == digits_val(run.subrange(0, k - from)),
        decreases to - k,
    {
        let c = s.get_char(k);
        let d: u32 = (c as u32) - 48;
        assert(is_digit(s@[k as int]));
        assert(d == digit_val(run[k - from]));
        proof {
            let pre = run.subrange(0, k - from);
            let ext = run.subrange(0, k - from + 1);
            assert(ext.drop_last() =~= pre);
            assert(ext.last() == run[k - from]);
            assert(all_digits(run));
            lemma_digits_val_nonneg(pre);
        }
        if acc > (u32::MAX - d) / 10 {
            proof {
                let ext = run.subrange(0, k - from + 1);
                assert(digits_val(ext) == acc * 10 + d);
                assert(acc * 10 + d > u32::MAX) by (nonlinear_arith)
                    requires
                        acc > (u32::MAX - d) / 10,
                        0 <= d <= 9,
                        acc >= 0,
                {
                }
                lemma_digits_val_prefix_le(run, k - from + 1);
            }
            return None;
        }
        proof {
            assert(acc * 10 + d <= u32::MAX) by (nonlinear_arith)
                requires
                    acc <= (u32::MAX - d) / 10,
                    0 <= d <= 9,
                    acc >= 0,
            {
            }
        }
        acc = acc * 10 + d;
        k = k + 1;
    }
    assert(run.subrange(0, to - from) =~= run);
    Some(acc)
}

} // verus!
