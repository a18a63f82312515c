//! The persisted watermark codec: reading a watermark out of a file's text
//! (first line, trimmed, parsed as a non-negative decimal, anything else
//! counting as zero) and writing one as a single newline-terminated decimal
//! line.

use vstd::prelude::*;

use crate::digits::{all_digits, digit_val, digits_val, is_digit, parse_digits, spec_parse_u32};
use vstd::arithmetic::div_mod::lemma_fundamental_div_mod;
use vstd::string::StrSliceExecFns;
use vstd::string::StringExecFns;

verus! {

/// ASCII whitespace as it occurs around a watermark line.
pub open spec fn is_space(c: char) -> bool {
    c == ' ' || c == '\t' || c == '\r' || c == '\n'
}

/// Prefix of `s` up to (excluding) the first newline.
pub open spec fn line_prefix(s: Seq<char>) -> Seq<char>
    decreases s.len(),
{
    if s.len() > 0 && s[0] != '\n' {
        seq![s[0]] + line_prefix(s.subrange(1, s.len() as int))
    } else {
        Seq::empty()
    }
}

/// `s` without leading whitespace.
pub open spec fn trim_front(s: Seq<char>) -> Seq<char>
    decreases s.len(),
{
    if s.len() > 0 && is_space(s[0]) {
        trim_front(s.subrange(1, s.len() as int))
    } else {
        s
    }
}

/// `s` without trailing whitespace.
pub open spec fn trim_back(s: Seq<char>) -> Seq<char>
    decreases s.len(),
{
    if s.len() > 0 && is_space(s.last()) {
        trim_back(s.drop_last())
    } else {
        s
    }
}

/// `s` without leading and trailing whitespace.
pub open spec fn trimmed(s: Seq<char>) -> Seq<char> {
    trim_back(trim_front(s))
}

/// Watermark carried by a file's text: the first line, trimmed, read as a
/// decimal `u32`; any text without such a reading counts as watermark `0`.
pub open spec fn spec_load_watermark(s: Seq<char>) -> u32 {
    match spec_parse_u32(trimmed(line_prefix(s))) {
        Some(v) => v,
        None => 0,
    }
}

proof fn lemma_line_prefix_exact(s: Seq<char>, m: int)
    requires
        0 <= m <= s.len(),
        forall|k: int| 0 <= k < m ==> s[k] != '\n',
        m == s.len() || s[m] == '\n',
    ensures
        line_prefix(s) =~= s.subrange(0, m),
    decreases s.len(),
{
    if m == 0 {
    } else {
        let t = s.subrange(1, s.len() as int);
        lemma_line_prefix_exact(t, m - 1);
        assert(t.subrange(0, m - 1) =~= s.subrange(1, m));
        assert(seq![s[0]] + s.subrange(1, m) =~= s.subrange(0, m));
    }
}

proof fn lemma_trim_front_exact(s: Seq<char>, a: int)
    requires
        0 <= a <= s.len(),
        forall|k: int| 0 <= k < a ==> is_space(s[k]),
        a == s.len() || !is_space(s[a]),
    ensures
        trim_front(s) =~= s.subrange(a, s.len() as int),
    decreases s.len(),
{
    if a == 0 {
        assert(s.subrange(0, s.len() as int) =~= s);
    } else {
        let t = s.subrange(1, s.len() as int);
        lemma_trim_front_exact(t, a - 1);
        assert(t.subrange(a - 1, t.len() as int) =~= s.subrange(a, s.len() as int));
    }
}

proof fn lemma_trim_back_exact(s: Seq<char>, b: int)
    requires
        0 <= b <= s.len(),
        forall|k: int| b <= k < s.len() ==> is_space(s[k]),
        b == 0 || !is_space(s[b - 1]),
    ensures
        trim_back(s) =~= s.subrange(0, b),
    decreases s.len(),
{
    if b == s.len() {
        if s.len() > 0 {
            assert(!is_space(s.last()));
        }
        assert(s.subrange(0, s.len() as int) =~= s);
    } else {
        assert(is_space(s.last()));
        lemma_trim_back_exact(s.drop_last(), b);
        assert(s.drop_last().subrange(0, b) =~= s.subrange(0, b));
    }
}

/// Read the watermark out of the text of the watermark file: the first line,
/// trimmed of surrounding whitespace, parsed as a decimal `u32`. Text whose
/// first line has no such reading (empty, stray characters, value past
/// `u32::MAX`) yields `0`; loading never fails.
pub fn load_watermark(content: &str) -> (r: u32)
    ensures
        r == spec_load_watermark(content@),
{
    let n = content.unicode_len();
    // End of the first line.
    let mut e: usize = 0;
    while e < n && content.get_char(e) != '\n'
        invariant
            0 <= e <= n == content@.len(),
            forall|k: int| 0 <= k < e ==> content@[k] != '\n',
        decreases n - e,
    {
        e = e + 1;
    }
    proof {
        lemma_line_prefix_exact(content@, e as int);
    }
    let ghost line = content@.subrange(0, e as int);
    // Start of the trimmed region.
    let mut a: usize = 0;
    while a < e && space_at(content, a)
        invariant
            0 <= a <= e,
            e <= content@.len(),
            forall|k: int| 0 <= k < a ==> is_space(content@[k]),
        decreases e - a,
    {
        a = a + 1;
    }
    proof {
        lemma_trim_front_exact(line, a as int);
    }
    let ghost front = line.subrange(a as int, e as int);
    // End of the trimmed region.
    let mut b: usize = e;
    while b > a && space_at(content, b - 1)
        invariant
            a <= b <= e <= content@.len(),
            forall|k: int| b <= k < e ==> is_space(content@[k]),
        decreases b,
    {
        b = b - 1;
    }
    proof {
        lemma_trim_back_exact(front, b - a);
        assert(front.subrange(0, b - a) =~= content@.subrange(a as int, b as int));
        assert(trimmed(line) =~= content@.subrange(a as int, b as int));
    }
    // The trimmed region must be all digits.
    let mut k: usize = a;
    while k < b && digit_code_at(content, k)
        invariant
            a <= k <= b <= content@.len(),
            forall|t: int| a <= t < k ==> is_digit(content@[t]),
        decreases b - k,
    {
        k = k + 1;
    }
    if k < b {
        proof {
            assert(!is_digit(trimmed(line)[k - a]));
        }
        return 0;
    }
    match parse_digits(content, a, b) {
        Some(v) => v,
        None => 0,
    }
}

/// Whether the character at index `i` is ASCII whitespace.
fn space_at(s: &str, i: usize) -> (r: bool)
    requires
        i < s@.len(),
    ensures
        r == is_space(s@[i as int]),
{
    let c = s.get_char(i);
    c == ' ' || c == '\t' || c == '\r' || c == '\n'
}

/// Whether the character at index `i` is an ASCII decimal digit.
fn digit_code_at(s: &str, i: usize) -> (r: bool)
    requires
        i < s@.len(),
    ensures
        r == is_digit(s@[i as int]),
{
    let c = s.get_char(i);
    let u = c as u32;
    48 <= u && u <= 57
}

/// The digit character of a value below ten.
pub open spec fn digit_char(d: int) -> char {
    if d == 0 {
        '0'
    } else if d == 1 {
        '1'
    } else if d == 2 {
        '2'
    } else if d == 3 {
        '3'
    } else if d == 4 {
        '4'
    } else if d == 5 {
        '5'
    } else if d == 6 {
        '6'
    } else if d == 7 {
        '7'
    } else if d == 8 {
        '8'
    } else {
        '9'
    }
}

/// Decimal digit sequence of a non-negative integer, no leading zero except
/// for `0` itself.
pub open spec fn spec_u32_dec(n: int) -> Seq<char>
    recommends
        n >= 0,
    decreases n,
{
    if n < 10 {
        seq![digit_char(n)]
    } else {
        spec_u32_dec(n / 10).push(digit_char(n % 10))
    }
}

/// The decimal digit sequence of `n` is a nonempty digit run whose value is
/// `n` again.
pub proof fn lemma_dec_digits(n: int)
    requires
        n >= 0,
    ensures
        spec_u32_dec(n).len() >= 1,
        all_digits(spec_u32_dec(n)),
        digits_val(spec_u32_dec(n)) == n,
    decreases n,
{
    if n < 10 {
        let s = spec_u32_dec(n);
        assert(s =~= seq![digit_char(n)]);
        assert(s.drop_last() =~= Seq::<char>::empty());
        assert(digits_val(s) == digits_val(s.drop_last()) * 10 + digit_val(s.last()));
        assert(digit_val(digit_char(n)) == n);
    } else {
        lemma_dec_digits(n / 10);
        lemma_fundamental_div_mod(n, 10);
        let s = spec_u32_dec(n);
        assert(s.drop_last() =~= spec_u32_dec(n / 10));
        assert(digits_val(s) == digits_val(spec_u32_dec(n / 10)) * 10 + digit_val(digit_char(n % 10)));
        assert(forall|k: int| 0 <= k < s.len() ==> is_digit(s[k]));
    }
}

/// Render a watermark as the file's content: its decimal digits followed by a
/// newline.
pub fn format_watermark(id: u32) -> (r: String)
    ensures
        r@ == spec_u32_dec(id as int).push('\n'),
{
    let s = u32_digits(id);
    proof {
        reveal_strlit("\n");
        assert(("\n")@ =~= seq!['\n']);
    }
    let r = s.concat("\n");
    proof {
        assert(r@ =~= spec_u32_dec(id as int).push('\n'));
    }
    r
}

/// Decimal digits of `n`.
fn u32_digits(n: u32) -> (s: String)
    ensures
        s@ == spec_u32_dec(n as int),
    decreases n,
{
    let d: u32 = n % 10;
    let ds = digit_str(d);
    if n < 10 {
        ds.to_owned()
    } else {
        let pre = u32_digits(n / 10);
        let r = pre.concat(ds);
        proof {
            assert(r@ =~= spec_u32_dec(n as int));
        }
        r
    }
}

/// The one-character string of a digit value.
fn digit_str(d: u32) -> (s: &'static str)
    requires
        d < 10,
    ensures
        s@ == seq![digit_char(d as int)],
{
    if d == 0 {
        proof {
            reveal_strlit("0");
            assert(("0")@ =~= seq![digit_char(0)]);
        }
        "0"
    } else if d == 1 {
        proof {
            reveal_strlit("1");
            assert(("1")@ =~= seq![digit_char(1)]);
        }
        "1"
    } else if d == 2 {
        proof {
            reveal_strlit("2");
            assert(("2")@ =~= seq![digit_char(2)]);
        }
        "2"
    } else if d == 3 {
        proof {
            reveal_strlit("3");
            assert(("3")@ =~= seq![digit_char(3)]);
        }
        "3"
    } else if d == 4 {
        proof {
            reveal_strlit("4");
            assert(("4")@ =~= seq![digit_char(4)]);
        }
        "4"
    } else if d == 5 {
        proof {
            reveal_strlit("5");
            assert(("5")@ =~= seq![digit_char(5)]);
        }
        "5"
    } else if d == 6 {
        proof {
            reveal_strlit("6");
            assert(("6")@ =~= seq![digit_char(6)]);
        }
        "6"
    } else if d == 7 {
        proof {
            reveal_strlit("7");
            assert(("7")@ =~= seq![digit_char(7)]);
        }
        "7"
    } else if d == 8 {
        proof {
            reveal_strlit("8");
            assert(("8")@ =~= seq![digit_char(8)]);
        }
        "8"
    } else {
        proof {
            reveal_strlit("9");
            assert(("9")@ =~= seq![digit_char(9)]);
        }
        "9"
    }
}

/// A committed watermark survives the file: loading the exact text that
/// `format_watermark` writes yields the committed value again.
pub proof fn lemma_format_load_round_trip(v: u32)
    ensures
        spec_load_watermark(spec_u32_dec(v as int).push('\n')) == v,
{
    lemma_dec_digits(v as int);
    let dec = spec_u32_dec(v as int);
    let s = dec.push('\n');
    assert(forall|k: int| 0 <= k < dec.len() ==> is_digit(#[trigger] s[k]));
    assert(forall|k: int| 0 <= k < dec.len() ==> s[k] != '\n');
    lemma_line_prefix_exact(s, dec.len() as int);
    assert(line_prefix(s) =~= dec);
    assert(!is_space(dec[0]));
    lemma_trim_front_exact(dec, 0);
    assert(!is_space(dec[dec.len() - 1]));
    lemma_trim_back_exact(dec, dec.len() as int);
    assert(trimmed(line_prefix(s)) =~= dec);
    assert(spec_parse_u32(dec) == Some(v));
}

} // verus!
