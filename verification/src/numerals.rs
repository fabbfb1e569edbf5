//! Decimal numerals over character sequences.
//!
//! Lock tokens and the manifest encoding both carry unsigned integers as
//! decimal text.  This module defines what a decimal numeral denotes, renders
//! a `u64` canonically, parses a digit run back, and proves that the two
//! directions compose to the identity.

use vstd::prelude::*;

verus! {

/// A decimal digit character.
pub open spec fn is_digit(c: char) -> bool {
    '0' as u32 <= c as u32 && c as u32 <= '9' as u32
}

/// The numeric value of a digit character.
pub open spec fn digit_val(c: char) -> nat {
    (c as u32 - '0' as u32) as nat
}

/// The digit character for a value below ten.
pub open spec fn digit_char(d: nat) -> char {
    if d == 0 {
        '0'
    } else if d == 1 {
        '1'
    } else if d == 2 {
        '2'
    } else if d == 3 {
        '3'
    } else if d == 4 {
        '4'
    } else if d == 5 {
        '5'
    } else if d == 6 {
        '6'
    } else if d == 7 {
        '7'
    } else if d == 8 {
        '8'
    } else {
        '9'
    }
}

/// The canonical decimal numeral of `n` (no leading zeros).
pub open spec fn dec_digits(n: nat) -> Seq<char>
    decreases n,
{
    if n < 10 {
        seq![digit_char(n)]
    } else {
        dec_digits(n / 10).push(digit_char(n % 10))
    }
}

/// The value denoted by a sequence of digit characters.
pub open spec fn dec_value(s: Seq<char>) -> nat
    decreases s.len(),
{
    if s.len() == 0 {
        0
    } else {
        dec_value(s.drop_last()) * 10 + digit_val(s.last())
    }
}

/// Every character of `s` is a decimal digit.
pub open spec fn all_digits(s: Seq<char>) -> bool {
    forall|i: int| 0 <= i < s.len() ==> is_digit(#[trigger] s[i])
}

/// The end of the digit run of `s` that starts at `pos`: the first index at
/// or after `pos` holding a non-digit, or the length of `s`.
pub open spec fn digit_run_end(s: Seq<char>, pos: int) -> int
    decreases s.len() - pos,
{
    if pos < 0 || pos >= s.len() {
        pos
    } else if is_digit(s[pos]) {
        digit_run_end(s, pos + 1)
    } else {
        pos
    }
}

proof fn lemma_digit_char_val(d: nat)
    requires
        d < 10,
    ensures
        is_digit(digit_char(d)),
        digit_val(digit_char(d)) == d,
{
}

/// The canonical numeral of `n` consists of digits, is non-empty, denotes
/// `n`, and never starts with a leading zero.
pub proof fn lemma_dec_digits(n: nat)
    ensures
        dec_digits(n).len() >= 1,
        all_digits(dec_digits(n)),
        dec_value(dec_digits(n)) == n,
        n >= 10 ==> dec_digits(n)[0] != '0',
        n < 10 ==> dec_digits(n).len() == 1,
        n == 0 ==> dec_digits(n) == seq!['0'],
    decreases n,
{
    if n < 10 {
        lemma_digit_char_val(n);
        assert(dec_digits(n) == seq![digit_char(n)]);
        assert(dec_digits(n).drop_last() =~= Seq::<char>::empty());
        assert(dec_value(Seq::<char>::empty()) == 0);
        assert(dec_value(dec_digits(n)) == 0 * 10 + digit_val(digit_char(n)));
    } else {
        lemma_dec_digits(n / 10);
        lemma_digit_char_val(n % 10);
        let s = dec_digits(n);
        let p = dec_digits(n / 10);
        assert(s == p.push(digit_char(n % 10)));
        assert(s.drop_last() == p);
        assert(s[0] == p[0]);
        assert(dec_value(s) == dec_value(p) * 10 + (n % 10));
        assert(forall|i: int| 0 <= i < s.len() ==> is_digit(#[trigger] s[i])) by {
            assert(forall|i: int| 0 <= i < p.len() ==> is_digit(#[trigger] p[i]));
        }
        if p[0] == '0' {
            // a numeral of n / 10 >= 1 cannot start with '0'
            if n / 10 >= 10 {
                assert(false);
            } else {
                assert(p == seq![digit_char(n / 10 as nat)]);
                assert(digit_val(p[0]) == n / 10);
                assert(n / 10 >= 1);
                assert(false);
            }
        }
    }
}

/// The one digit character worth nothing is the zero digit.
proof fn lemma_digit_val_zero(c: char)
    requires
        is_digit(c),
        digit_val(c) == 0,
    ensures
        c == '0',
{
    assert(c as u32 == '0' as u32);
}

/// A digit character is the digit character of its value.
proof fn lemma_digit_char_of_val(c: char)
    requires
        is_digit(c),
    ensures
        digit_char(digit_val(c)) == c,
{
    let d = digit_val(c);
    assert(d < 10);
    assert(digit_char(d) as u32 == '0' as u32 + d);
    assert(c as u32 == '0' as u32 + d);
}

/// A digit sequence that does not start with a zero is worth at least one.
proof fn lemma_dec_value_positive(s: Seq<char>)
    requires
        s.len() >= 1,
        all_digits(s),
        s[0] != '0',
    ensures
        dec_value(s) >= 1,
    decreases s.len(),
{
    if s.len() == 1 {
        assert(is_digit(s[0]));
        if digit_val(s[0]) == 0 {
            lemma_digit_val_zero(s[0]);
        }
        assert(dec_value(s.drop_last()) == 0);
    } else {
        let t = s.drop_last();
        assert(t[0] == s[0]);
        assert(all_digits(t)) by {
            assert(forall|i: int| 0 <= i < t.len() ==> t[i] == #[trigger] s[i]);
        }
        lemma_dec_value_positive(t);
        assert(dec_value(s) == dec_value(t) * 10 + digit_val(s.last()));
        assert(dec_value(t) * 10 >= 10);
    }
}

/// A canonical digit sequence — non-empty, digits only, no leading zero —
/// is exactly the numeral of its value.
pub proof fn lemma_canonical_digits(s: Seq<char>)
    requires
        s.len() >= 1,
        all_digits(s),
        s[0] != '0' || s.len() == 1,
    ensures
        s == dec_digits(dec_value(s)),
    decreases s.len(),
{
    if s.len() == 1 {
        let n = dec_value(s);
        assert(s.drop_last() =~= Seq::<char>::empty());
        assert(dec_value(Seq::<char>::empty()) == 0);
        assert(n == digit_val(s[0]));
        assert(n < 10);
        lemma_digit_char_of_val(s[0]);
        assert(dec_digits(n) == seq![digit_char(n)]);
        assert(s =~= dec_digits(n));
    } else {
        let t = s.drop_last();
        let c = s.last();
        assert(t[0] == s[0]);
        assert(all_digits(t)) by {
            assert(forall|i: int| 0 <= i < t.len() ==> t[i] == #[trigger] s[i]);
        }
        lemma_dec_value_positive(t);
        let q = dec_value(t);
        let r = digit_val(c);
        let n = dec_value(s);
        assert(n == q * 10 + r);
        assert(r < 10);
        assert(n / 10 == q && n % 10 == r) by (nonlinear_arith)
            requires
                n == q * 10 + r,
                0 <= r < 10,
                q >= 1,
        ;
        assert(n >= 10) by (nonlinear_arith)
            requires
                n == q * 10 + r,
                r >= 0,
                q >= 1,
        ;
        lemma_canonical_digits(t);
        lemma_digit_char_of_val(c);
        assert(dec_digits(n) == dec_digits(q).push(digit_char(r)));
        assert(s =~= t.push(c));
    }
}

/// Two distinct values never share a canonical numeral.
pub proof fn lemma_dec_digits_injective(a: nat, b: nat)
    requires
        dec_digits(a) == dec_digits(b),
    ensures
        a == b,
{
    lemma_dec_digits(a);
    lemma_dec_digits(b);
}

/// Extending a digit stretch by one character multiplies its value by ten
/// and adds the new digit.
pub proof fn lemma_dec_value_snoc(s: Seq<char>, a: int, i: int)
    requires
        0 <= a <= i < s.len(),
    ensures
        dec_value(s.subrange(a, i + 1)) == dec_value(s.subrange(a, i)) * 10 + digit_val(s[i]),
{
    let t = s.subrange(a, i + 1);
    assert(t.drop_last() =~= s.subrange(a, i));
    assert(t.last() == s[i]);
}

/// A digit stretch's value only grows as the stretch grows to the right.
pub proof fn lemma_dec_value_prefix_le(s: Seq<char>, a: int, i: int, j: int)
    requires
        0 <= a <= i <= j <= s.len(),
    ensures
        dec_value(s.subrange(a, i)) <= dec_value(s.subrange(a, j)),
    decreases j - i,
{
    if i < j {
        lemma_dec_value_prefix_le(s, a, i, j - 1);
        lemma_dec_value_snoc(s, a, j - 1);
        assert(dec_value(s.subrange(a, j - 1)) * 10 >= dec_value(s.subrange(a, j - 1)));
    }
}

/// Where a stretch of digits ends at a non-digit (or at the end of the
/// string), the digit run ends exactly there.
pub proof fn lemma_digit_run_end_is(s: Seq<char>, pos: int, e: int)
    requires
        0 <= pos <= e <= s.len(),
        forall|i: int| pos <= i < e ==> is_digit(#[trigger] s[i]),
        e == s.len() || !is_digit(s[e]),
    ensures
        digit_run_end(s, pos) == e,
    decreases e - pos,
{
    if pos < e {
        lemma_digit_run_end_is(s, pos + 1, e);
    }
}

/// The digit run holds digits only, stays inside the string, and stops at a
/// non-digit.
pub proof fn lemma_digit_run_end_bounds(s: Seq<char>, pos: int)
    requires
        0 <= pos <= s.len(),
    ensures
        pos <= digit_run_end(s, pos) <= s.len(),
        forall|i: int| pos <= i < digit_run_end(s, pos) ==> is_digit(#[trigger] s[i]),
        digit_run_end(s, pos) == s.len() || !is_digit(s[digit_run_end(s, pos)]),
    decreases s.len() - pos,
{
    if pos < s.len() && is_digit(s[pos]) {
        lemma_digit_run_end_bounds(s, pos + 1);
    }
}

/// Render `n` as its canonical decimal numeral.
pub fn u64_to_string(n: u64) -> (r: String)
    ensures
        r@ == dec_digits(n as nat),
    decreases n,
{
    let d = digit_str(n % 10);
    if n < 10 {
        proof {
            reveal_strlit_digits();
        }
        let r = d.to_owned();
        assert(r@ == dec_digits(n as nat));
        r
    } else {
        let mut r = u64_to_string(n / 10);
        r.append(d);
        proof {
            assert(dec_digits(n as nat) == dec_digits((n / 10) as nat).push(
                digit_char((n % 10) as nat),
            ));
            assert(r@ == dec_digits((n / 10) as nat) + d@);
            assert(dec_digits((n / 10) as nat).push(digit_char((n % 10) as nat))
                == dec_digits((n / 10) as nat) + seq![digit_char((n % 10) as nat)]);
        }
        r
    }
}

/// The one-character string for a digit value.
fn digit_str(d: u64) -> (r: &'static str)
    requires
        d < 10,
    ensures
        r@ == seq![digit_char(d as nat)],
{
    proof {
        reveal_strlit_digits();
    }
    match d {
        0 => "0",
        1 => "1",
        2 => "2",
        3 => "3",
        4 => "4",
        5 => "5",
        6 => "6",
        7 => "7",
        8 => "8",
        _ => "9",
    }
}

proof fn reveal_strlit_digits()
    ensures
        "0"@ == seq!['0'],
        "1"@ == seq!['1'],
        "2"@ == seq!['2'],
        "3"@ == seq!['3'],
        "4"@ == seq!['4'],
        "5"@ == seq!['5'],
        "6"@ == seq!['6'],
        "7"@ == seq!['7'],
        "8"@ == seq!['8'],
        "9"@ == seq!['9'],
{
    reveal_strlit("0");
    reveal_strlit("1");
    reveal_strlit("2");
    reveal_strlit("3");
    reveal_strlit("4");
    reveal_strlit("5");
    reveal_strlit("6");
    reveal_strlit("7");
    reveal_strlit("8");
    reveal_strlit("9");
    assert("0"@ =~= seq!['0']);
    assert("1"@ =~= seq!['1']);
    assert("2"@ =~= seq!['2']);
    assert("3"@ =~= seq!['3']);
    assert("4"@ =~= seq!['4']);
    assert("5"@ =~= seq!['5']);
    assert("6"@ =~= seq!['6']);
    assert("7"@ =~= seq!['7']);
    assert("8"@ =~= seq!['8']);
    assert("9"@ =~= seq!['9']);
}

/// Parse the digit run of `s` starting at `pos` as a `u64`.
///
/// Returns the value and the index just past the run; fails exactly when no
/// digit stands at `pos` or the run's value exceeds `u64::MAX`.
pub fn parse_u64(s: &str, pos: usize) -> (r: Option<(u64, usize)>)
    requires
        pos <= s@.len(),
    ensures
        match r {
            Some(p) => {
                &&& pos < s@.len() && is_digit(s@[pos as int])
                &&& p.1 == digit_run_end(s@, pos as int)
                &&& p.0 == dec_value(s@.subrange(pos as int, p.1 as int))
                &&& dec_value(s@.subrange(pos as int, p.1 as int)) <= u64::MAX
            },
            None => pos == s@.len() || !is_digit(s@[pos as int]) || dec_value(
                s@.subrange(pos as int, digit_run_end(s@, pos as int)),
            ) > u64::MAX,
        },
{
    let len = s.unicode_len();
    proof {
        lemma_digit_run_end_bounds(s@, pos as int);
    }
    let ghost end = digit_run_end(s@, pos as int);
    if pos == len {
        return None;
    }
    let c0 = s.get_char(pos) as u32;
    if c0 < '0' as u32 || c0 > '9' as u32 {
        return None;
    }
    let mut i: usize = pos;
    let mut val: u64 = 0;
    proof {
        assert(s@.subrange(pos as int, pos as int) =~= Seq::<char>::empty());
    }
    while i < len
        invariant
            pos <= i <= len,
            len == s@.len(),
            end == digit_run_end(s@, pos as int),
            pos <= end <= len,
            forall|k: int| pos <= k < end ==> is_digit(#[trigger] s@[k]),
            end == s@.len() || !is_digit(s@[end as int]),
            i <= end,
            val == dec_value(s@.subrange(pos as int, i as int)),
        ensures
            i == end,
            val == dec_value(s@.subrange(pos as int, i as int)),
        decreases len - i,
    {
        let c = s.get_char(i) as u32;
        if c < '0' as u32 || c > '9' as u32 {
            proof {
                assert(!is_digit(s@[i as int]));
                if i < end {
                    assert(is_digit(s@[i as int]));
                }
            }
            break;
        }
        let d = (c - '0' as u32) as u64;
        proof {
            assert(is_digit(s@[i as int]));
            assert(digit_val(s@[i as int]) == d);
            lemma_dec_value_snoc(s@, pos as int, i as int);
            if i + 1 > end {
                assert(i == end);
                assert(false);
            }
        }
        if val > (u64::MAX - d) / 10 {
            proof {
                lemma_dec_value_prefix_le(s@, pos as int, i + 1, end as int);
                assert(dec_value(s@.subrange(pos as int, i + 1)) == val * 10 + d);
                assert(dec_value(s@.subrange(pos as int, end as int)) >= val * 10 + d);
                assert(val * 10 + d > u64::MAX) by (nonlinear_arith)
                    requires
                        val > (u64::MAX - d) / 10,
                        d < 10,
                ;
            }
            return None;
        }
        val = val * 10 + d;
        i = i + 1;
    }
    Some((val, i))
}

} // verus!
