//! Decimal digits: fixed-width and plain renderings of numbers, and parsing.

use vstd::prelude::*;

verus! {

/// Whether `c` is one of the ASCII decimal digits.
pub open spec fn is_digit(c: char) -> bool {
    '0' <= c && c <= '9'
}

/// Whether every character of `s` is a decimal digit.
pub open spec fn all_digits(s: Seq<char>) -> bool {
    forall|i: int| 0 <= i < s.len() ==> is_digit(#[trigger] s[i])
}

/// The digit glyph for a value below ten.
pub open spec fn digit_char(d: nat) -> char {
    ((d + 48) as u32) as char
}

/// The value of a digit glyph.
pub open spec fn digit_value(c: char) -> nat {
    ((c as u32) - 48) as nat
}

/// Ten to the power `w`.
pub open spec fn pow10(w: nat) -> nat
    decreases w,
{
    if w == 0 {
        1
    } else {
        10 * pow10((w - 1) as nat)
    }
}

/// The last `w` decimal digits of `n`, most significant first, padded with zeros.
pub open spec fn fixed_digits(n: nat, w: nat) -> Seq<char>
    decreases w,
{
    if w == 0 {
        Seq::empty()
    } else {
        fixed_digits(n / 10, (w - 1) as nat).push(digit_char(n % 10))
    }
}

/// The decimal rendering of `n`, without leading zeros.
pub open spec fn decimal(n: nat) -> Seq<char>
    decreases n,
{
    if n < 10 {
        seq![digit_char(n)]
    } else {
        decimal(n / 10).push(digit_char(n % 10))
    }
}

/// The number that a string of digits denotes.
pub open spec fn digits_value(s: Seq<char>) -> nat
    decreases s.len(),
{
    if s.len() == 0 {
        0
    } else {
        digits_value(s.drop_last()) * 10 + digit_value(s.last())
    }
}

/// What a parse of `s` as a decimal number no larger than `limit` gives.
pub open spec fn parsed_number(s: Seq<char>, limit: nat) -> Option<nat> {
    if s.len() > 0 && all_digits(s) && digits_value(s) <= limit {
        Some(digits_value(s))
    } else {
        None
    }
}

pub proof fn lemma_pow10_positive(w: nat)
    ensures
        pow10(w) >= 1,
    decreases w,
{
    if w > 0 {
        lemma_pow10_positive((w - 1) as nat);
    }
}

pub proof fn lemma_pow10_monotone(a: nat, b: nat)
    requires
        a <= b,
    ensures
        pow10(a) <= pow10(b),
    decreases b,
{
    if a < b {
        lemma_pow10_monotone(a, (b - 1) as nat);
        lemma_pow10_positive((b - 1) as nat);
    }
}

/// A fixed-width rendering has the width asked for, holds only digits, and
/// reads back as the number modulo the width's power of ten.
pub proof fn lemma_fixed_digits(n: nat, w: nat)
    ensures
        fixed_digits(n, w).len() == w,
        all_digits(fixed_digits(n, w)),
        digits_value(fixed_digits(n, w)) == n % pow10(w),
    decreases w,
{
    if w > 0 {
        let w1 = (w - 1) as nat;
        lemma_digit_round_trip(n % 10);
        lemma_fixed_digits(n / 10, w1);
        let s = fixed_digits(n, w);
        assert(s.drop_last() == fixed_digits(n / 10, w1));
        assert(all_digits(s)) by {
            assert forall|i: int| 0 <= i < s.len() implies is_digit(#[trigger] s[i]) by {
                if i < w1 {
                    assert(s[i] == fixed_digits(n / 10, w1)[i]);
                }
            }
        }
        lemma_pow10_positive(w1);
        let p = pow10(w1);
        assert((n / 10) % p * 10 + n % 10 == n % (10 * p)) by (nonlinear_arith)
            requires
                p >= 1,
        {
            assert(n == 10 * (n / 10) + n % 10);
            assert(n / 10 == p * ((n / 10) / p) + (n / 10) % p);
            assert(n == (10 * p) * ((n / 10) / p) + ((n / 10) % p * 10 + n % 10));
            assert(0 <= (n / 10) % p * 10 + n % 10 < 10 * p);
            vstd::arithmetic::div_mod::lemma_fundamental_div_mod_converse(
                n as int,
                (10 * p) as int,
                ((n / 10) / p) as int,
                ((n / 10) % p * 10 + n % 10) as int,
            );
        }
    }
}

pub proof fn lemma_digit_round_trip(d: nat)
    requires
        d < 10,
    ensures
        digit_value(digit_char(d)) == d,
        is_digit(digit_char(d)),
{
}

/// A plain decimal rendering holds only digits and reads back as the number.
pub proof fn lemma_decimal(n: nat)
    ensures
        decimal(n).len() >= 1,
        all_digits(decimal(n)),
        digits_value(decimal(n)) == n,
    decreases n,
{
    lemma_digit_round_trip(n % 10);
    if n >= 10 {
        lemma_decimal(n / 10);
        let s = decimal(n);
        assert(s.drop_last() == decimal(n / 10));
        assert(s.last() == digit_char(n % 10));
        assert(n == (n / 10) * 10 + n % 10);
        assert(all_digits(s)) by {
            assert forall|i: int| 0 <= i < s.len() implies is_digit(#[trigger] s[i]) by {
                if i < s.len() - 1 {
                    assert(s[i] == decimal(n / 10)[i]);
                }
            }
        }
    } else {
        assert(decimal(n).drop_last() =~= Seq::<char>::empty());
        assert(digits_value(decimal(n).drop_last()) == 0);
    }
}

/// Extending a digit string never lowers the number it denotes.
pub proof fn lemma_digits_value_prefix(s: Seq<char>, i: int)
    requires
        0 <= i <= s.len(),
    ensures
        digits_value(s.take(i)) <= digits_value(s),
    decreases s.len() - i,
{
    if i < s.len() {
        lemma_digits_value_prefix(s, i + 1);
        assert(s.take(i + 1).drop_last() == s.take(i));
    } else {
        assert(s.take(i) == s);
    }
}

/// How many digits the decimal rendering of `n` needs; none for zero.
pub open spec fn digit_count(n: nat) -> nat
    decreases n,
{
    if n == 0 {
        0
    } else {
        1 + digit_count(n / 10)
    }
}

/// `n` is below ten to the power of its digit count, and not below the power before.
pub proof fn lemma_digit_count(n: nat)
    ensures
        n < pow10(digit_count(n)),
        digit_count(n) > 0 ==> pow10((digit_count(n) - 1) as nat) <= n,
        digit_count(n) <= n,
    decreases n,
{
    if n > 0 {
        lemma_digit_count(n / 10);
        lemma_pow10_positive(digit_count(n / 10));
    }
}

/// A machine-sized number has at most twenty digits.
pub proof fn lemma_usize_digit_count(n: nat)
    requires
        n <= usize::MAX,
    ensures
        digit_count(n) <= 20,
{
    reveal_with_fuel(pow10, 21);
    assert(pow10(20) == 100000000000000000000nat);
    lemma_below_pow10(n, 20);
}

/// `n` is below ten to the `w` exactly when its digit count is at most `w`.
pub proof fn lemma_below_pow10(n: nat, w: nat)
    ensures
        (n < pow10(w)) == (digit_count(n) <= w),
{
    lemma_digit_count(n);
    if digit_count(n) <= w {
        lemma_pow10_monotone(digit_count(n), w);
    } else {
        lemma_pow10_monotone(w, (digit_count(n) - 1) as nat);
    }
}

/// The glyph for a digit value below ten.
pub fn to_digit_char(d: u8) -> (r: char)
    requires
        d < 10,
    ensures
        r == digit_char(d as nat),
        is_digit(r),
        digit_value(r) == d,
{
    ((d + 48) as u8) as char
}

/// The value of a digit glyph.
pub fn from_digit_char(c: char) -> (r: u8)
    requires
        is_digit(c),
    ensures
        r as nat == digit_value(c),
        r < 10,
        digit_char(r as nat) == c,
{
    ((c as u32) - 48) as u8
}

/// Appends the last `w` decimal digits of `n`, zero-padded.
pub fn push_fixed_digits(n: usize, w: u8, out: &mut Vec<char>)
    ensures
        final(out)@ == old(out)@ + fixed_digits(n as nat, w as nat),
    decreases w,
{
    if w > 0 {
        push_fixed_digits(n / 10, w - 1, out);
        out.push(to_digit_char((n % 10) as u8));
    } else {
        assert(old(out)@ + fixed_digits(n as nat, 0) =~= old(out)@);
    }
}

/// Appends the decimal rendering of `n`.
pub fn push_decimal(n: usize, out: &mut Vec<char>)
    ensures
        final(out)@ == old(out)@ + decimal(n as nat),
    decreases n,
{
    if n >= 10 {
        push_decimal(n / 10, out);
    }
    out.push(to_digit_char((n % 10) as u8));
    proof {
        if n >= 10 {
            assert(old(out)@ + decimal(n as nat) =~= old(out)@ + decimal(n as nat / 10) + seq![
                digit_char(n as nat % 10),
            ]);
        } else {
            assert(old(out)@ + decimal(n as nat) =~= old(out)@.push(digit_char(n as nat)));
        }
    }
}

/// The number of decimal digits of `n`.
pub fn count_digits(n: usize) -> (r: usize)
    ensures
        r as nat == digit_count(n as nat),
    decreases n,
{
    if n == 0 {
        0
    } else {
        proof {
            lemma_digit_count(n as nat);
        }
        1 + count_digits(n / 10)
    }
}

/// Whether `n` is below ten to the `w`.
pub fn below_pow10(n: usize, w: u8) -> (r: bool)
    ensures
        r == (n < pow10(w as nat)),
{
    proof {
        lemma_below_pow10(n as nat, w as nat);
    }
    count_digits(n) <= w as usize
}

/// Reads the characters of `s` from `start` on as a decimal number no larger than `limit`.
pub fn parse_number(s: &[char], start: usize, limit: usize) -> (r: Option<usize>)
    requires
        start <= s@.len(),
    ensures
        r matches Some(v) ==> parsed_number(s@.skip(start as int), limit as nat) == Some(v as nat),
        r is None ==> parsed_number(s@.skip(start as int), limit as nat) is None,
{
    let ghost t = s@.skip(start as int);
    if s.len() == start {
        return None;
    }
    let mut acc: usize = 0;
    let mut i: usize = start;
    while i < s.len()
        invariant
            start <= i <= s@.len(),
            t == s@.skip(start as int),
            acc as nat == digits_value(t.take(i - start)),
            acc <= limit,
            all_digits(t.take(i - start)),
        decreases s@.len() - i,
    {
        let c = s[i];
        let ghost k = i - start;
        proof {
            assert(t[k] == c);
        }
        if !('0' <= c && c <= '9') {
            proof {
                assert(!is_digit(t[k]));
            }
            return None;
        }
        let d = from_digit_char(c) as usize;
        proof {
            assert(t.take(k + 1).drop_last() == t.take(k));
            assert(t.take(k + 1).last() == c);
        }
        if d > limit || acc > (limit - d) / 10 {
            proof {
                assert(acc * 10 + d > limit) by (nonlinear_arith)
                    requires
                        d > limit || acc > (limit - d) / 10,
                        d <= 9,
                        limit >= 0,
                ;
                lemma_digits_value_prefix(t, k + 1);
            }
            return None;
        }
        proof {
            assert(acc * 10 + d <= limit) by (nonlinear_arith)
                requires
                    d <= limit,
                    acc <= (limit - d) / 10,
            ;
            let u = t.take(k + 1);
            assert forall|j: int| 0 <= j < u.len() implies is_digit(#[trigger] u[j]) by {
                if j < k {
                    assert(u[j] == t.take(k)[j]);
                }
            }
        }
        acc = acc * 10 + d;
        i = i + 1;
    }
    proof {
        assert(t.take(i - start) == t);
    }
    Some(acc)
}

} // verus!
