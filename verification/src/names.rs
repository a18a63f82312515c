//! File-name analysis: the first decimal digit run of a stem, the
//! stem/extension split of a file name, and ASCII case-insensitive extension
//! comparison.

use vstd::prelude::*;

use crate::digits::{is_digit, parse_digits, spec_parse_u32};

verus! {

/// Longest all-digit prefix of `s`.
pub open spec fn digit_prefix(s: Seq<char>) -> Seq<char>
    decreases s.len(),
{
    if s.len() > 0 && is_digit(s[0]) {
        seq![s[0]] + digit_prefix(s.subrange(1, s.len() as int))
    } else {
        Seq::empty()
    }
}

/// First (leftmost) run of decimal digits in `s`; empty when `s` has no digit.
pub open spec fn first_run(s: Seq<char>) -> Seq<char>
    decreases s.len(),
{
    if s.len() == 0 {
        Seq::empty()
    } else if is_digit(s[0]) {
        digit_prefix(s)
    } else {
        first_run(s.subrange(1, s.len() as int))
    }
}

/// Identifier of a stem: its first digit run read as a `u32`; `None` when the
/// stem has no digit run or the run's value exceeds `u32::MAX`.
pub open spec fn spec_extract_id(stem: Seq<char>) -> Option<u32> {
    spec_parse_u32(first_run(stem))
}

/// If `s[0..m]` are all digits and `m` is the end of the run (end of `s` or a
/// non-digit), the longest digit prefix of `s` is exactly `s[0..m]`.
proof fn lemma_digit_prefix_exact(s: Seq<char>, m: int)
    requires
        0 <= m <= s.len(),
        forall|k: int| 0 <= k < m ==> is_digit(s[k]),
        m == s.len() || !is_digit(s[m]),
    ensures
        digit_prefix(s) =~= s.subrange(0, m),
    decreases s.len(),
{
    if m == 0 {
    } else {
        let t = s.subrange(1, s.len() as int);
        lemma_digit_prefix_exact(t, m - 1);
        assert(t.subrange(0, m - 1) =~= s.subrange(1, m));
        assert(seq![s[0]] + s.subrange(1, m) =~= s.subrange(0, m));
    }
}

/// Extract the identifier of a file-name stem: the first run of decimal
/// digits, parsed as a `u32`. Returns `None` when the stem contains no digit
/// or the run does not fit in a `u32`.
pub fn extract_id(stem: &str) -> (r: Option<u32>)
    ensures
        r == spec_extract_id(stem@),
{
    let n = stem.unicode_len();
    proof {
        assert(stem@.subrange(0, n as int) =~= stem@);
    }
    let mut i: usize = 0;
    while i < n && !digit_at(stem, i)
        invariant
            0 <= i <= n == stem@.len(),
            first_run(stem@) == first_run(stem@.subrange(i as int, n as int)),
            forall|k: int| 0 <= k < i ==> !is_digit(stem@[k]),
        decreases n - i,
    {
        proof {
            let t = stem@.subrange(i as int, n as int);
            assert(t.subrange(1, t.len() as int) =~= stem@.subrange(i + 1, n as int));
        }
        i = i + 1;
    }
    if i == n {
        proof {
            assert(stem@.subrange(i as int, n as int).len() == 0);
        }
        return None;
    }
    let mut j: usize = i;
    while j < n && digit_at(stem, j)
        invariant
            0 <= i <= j <= n == stem@.len(),
            is_digit(stem@[i as int]),
            first_run(stem@) == first_run(stem@.subrange(i as int, n as int)),
            forall|k: int| i <= k < j ==> is_digit(stem@[k]),
        decreases n - j,
    {
        j = j + 1;
    }
    proof {
        let t = stem@.subrange(i as int, n as int);
        assert(first_run(t) == digit_prefix(t));
        lemma_digit_prefix_exact(t, j - i);
        assert(t.subrange(0, j - i) =~= stem@.subrange(i as int, j as int));
        assert(first_run(stem@) =~= stem@.subrange(i as int, j as int));
    }
    parse_digits(stem, i, j)
}

/// Whether the character at index `i` is an ASCII decimal digit.
fn digit_at(s: &str, i: usize) -> (r: bool)
    requires
        i < s@.len(),
    ensures
        r == is_digit(s@[i as int]),
{
    let c = s.get_char(i);
    let u = c as u32;
    48 <= u && u <= 57
}

/// Index of the last `.` of `s` that starts an extension: the greatest index
/// `j >= 1` with `s[j] == '.'`, if any. A name without such a dot (including a
/// leading-dot name with no later dot) has no extension.
pub open spec fn spec_ext_split(s: Seq<char>) -> Option<int>
    decreases s.len(),
{
    if s.len() <= 1 {
        None
    } else if s.last() == '.' {
        Some(s.len() - 1)
    } else {
        spec_ext_split(s.drop_last())
    }
}

/// Find the index of the dot separating stem and extension, if the name has
/// one.
pub fn ext_split_at(name: &str) -> (r: Option<usize>)
    ensures
        match r {
            Some(j) => spec_ext_split(name@) == Some(j as int),
            None => spec_ext_split(name@) is None,
        },
{
    let n = name.unicode_len();
    proof {
        assert(name@.subrange(0, n as int) =~= name@);
    }
    let mut j: usize = n;
    while j > 1
        invariant
            j <= n == name@.len() || (j == 1 && n <= 1),
            j <= n,
            spec_ext_split(name@) == spec_ext_split(name@.subrange(0, j as int)),
        decreases j,
    {
        let c = name.get_char(j - 1);
        proof {
            let t = name@.subrange(0, j as int);
            assert(t.last() == name@[j - 1]);
            assert(t.drop_last() =~= name@.subrange(0, j - 1));
        }
        if c == '.' {
            return Some(j - 1);
        }
        j = j - 1;
    }
    proof {
        if name@.len() == 0 {
            assert(name@.subrange(0, 0) =~= name@);
        }
    }
    None
}

/// ASCII upper-case code of a character: lower-case ASCII letters fold to
/// their upper-case code, everything else is its own code.
pub open spec fn upper_code(c: char) -> int {
    if 97 <= c as int <= 122 {
        c as int - 32
    } else {
        c as int
    }
}

/// The two sequences are equal after ASCII upper-casing.
pub open spec fn ext_eq(a: Seq<char>, b: Seq<char>) -> bool {
    a.len() == b.len() && forall|k: int| 0 <= k < a.len() ==> upper_code(a[k]) == upper_code(b[k])
}

/// ASCII case-insensitive equality of an extension against the target
/// extension.
pub fn ext_matches(ext: &str, target: &str) -> (r: bool)
    ensures
        r == ext_eq(ext@, target@),
{
    let n = ext.unicode_len();
    let m = target.unicode_len();
    if n != m {
        return false;
    }
    let mut k: usize = 0;
    while k < n
        invariant
            0 <= k <= n,
            n == ext@.len() == target@.len(),
            forall|t: int| 0 <= t < k ==> upper_code(ext@[t]) == upper_code(target@[t]),
        decreases n - k,
    {
        let a = upper_of(ext.get_char(k));
        let b = upper_of(target.get_char(k));
        if a != b {
            return false;
        }
        k = k + 1;
    }
    true
}

/// ASCII upper-case code of a character.
fn upper_of(c: char) -> (r: u32)
    ensures
        r == upper_code(c),
{
    let u = c as u32;
    if 97 <= u && u <= 122 {
        u - 32
    } else {
        u
    }
}

/// Identifier of a whole file name under a target extension: the name must
/// split into stem and extension, the extension must match the target ASCII
/// case-insensitively, and the stem must carry an extractable identifier.
pub open spec fn spec_candidate_id(name: Seq<char>, target: Seq<char>) -> Option<u32> {
    match spec_ext_split(name) {
        None => None,
        Some(j) => {
            if ext_eq(name.subrange(j + 1, name.len() as int), target) {
                spec_extract_id(name.subrange(0, j))
            } else {
                None
            }
        },
    }
}

/// The greatest dot index lies inside the name.
pub proof fn lemma_ext_split_in_range(s: Seq<char>)
    requires
        spec_ext_split(s) is Some,
    ensures
        1 <= spec_ext_split(s)->Some_0 < s.len(),
    decreases s.len(),
{
    if s.len() <= 1 {
    } else if s.last() == '.' {
    } else {
        lemma_ext_split_in_range(s.drop_last());
    }
}

/// Identifier of a file name under a target extension, or `None` when the
/// name is no candidate for transfer.
pub fn candidate_id(name: &str, target_ext: &str) -> (r: Option<u32>)
    ensures
        r == spec_candidate_id(name@, target_ext@),
{
    match ext_split_at(name) {
        None => None,
        Some(j) => {
            proof {
                lemma_ext_split_in_range(name@);
            }
            let n = name.unicode_len();
            let ext = name.substring_char(j + 1, n);
            let stem = name.substring_char(0, j);
            if ext_matches(ext, target_ext) {
                extract_id(stem)
            } else {
                None
            }
        },
    }
}

} // verus!
