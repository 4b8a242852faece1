//! ASCII decimal numbers as they appear in frame headers.

use vstd::prelude::*;
use crate::text::{crlf, CR, LF};

verus! {

/// Whether `b` is one of the ASCII digits `0` to `9`.
pub open spec fn is_digit(b: u8) -> bool {
    0x30 <= b <= 0x39
}

/// Whether every byte of `s` is an ASCII digit.
pub open spec fn all_digits(s: Seq<u8>) -> bool {
    forall|i: int| 0 <= i < s.len() ==> is_digit(#[trigger] s[i])
}

/// The number that a string of ASCII digits denotes in base ten.
pub open spec fn digits_value(s: Seq<u8>) -> nat
    decreases s.len(),
{
    if s.len() == 0 {
        0
    } else {
        digits_value(s.drop_last()) * 10 + (s.last() - 0x30) as nat
    }
}

/// The value of a decimal field: a non-empty string of digits that denotes
/// a number within `u64`. Leading zeros are accepted.
pub open spec fn decimal_value(s: Seq<u8>) -> Option<u64> {
    if s.len() > 0 && all_digits(s) && digits_value(s) <= u64::MAX {
        Some(digits_value(s) as u64)
    } else {
        None
    }
}

/// The shortest string of ASCII digits that denotes `n`.
pub open spec fn decimal(n: nat) -> Seq<u8>
    decreases n,
{
    if n < 10 {
        seq![(0x30 + n) as u8]
    } else {
        decimal(n / 10).push((0x30 + n % 10) as u8)
    }
}

/// The digits of `decimal(n)` are all ASCII digits, and there is at least one.
pub proof fn lemma_decimal_digits(n: nat)
    ensures
        decimal(n).len() > 0,
        all_digits(decimal(n)),
    decreases n,
{
    if n >= 10 {
        lemma_decimal_digits(n / 10);
    }
}

/// Reading back the digits written for `n` gives `n`.
pub proof fn lemma_decimal_value(n: nat)
    ensures
        digits_value(decimal(n)) == n,
    decreases n,
{
    if n < 10 {
        let s = decimal(n);
        assert(s.drop_last().len() == 0);
        assert(digits_value(s.drop_last()) == 0);
    } else {
        lemma_decimal_value(n / 10);
        let s = decimal(n);
        assert(s.drop_last() =~= decimal(n / 10));
    }
}

/// A string of digits denotes at least as much as any of its prefixes.
pub proof fn lemma_digits_value_grows(s: Seq<u8>, k: int)
    requires
        all_digits(s),
        0 <= k <= s.len(),
    ensures
        digits_value(s.take(k)) <= digits_value(s),
    decreases s.len() - k,
{
    if k == s.len() {
        assert(s.take(k) =~= s);
    } else {
        lemma_digits_value_grows(s, k + 1);
        let t = s.take(k + 1);
        assert(t.drop_last() =~= s.take(k));
        assert(is_digit(s[k]));
        assert(t.last() == s[k]);
    }
}

/// Ten to the power of `k`.
pub open spec fn pow10(k: nat) -> nat
    decreases k,
{
    if k == 0 {
        1
    } else {
        10 * pow10((k - 1) as nat)
    }
}

/// A number below ten to the `k` is written in at most `k` digits.
pub proof fn lemma_decimal_len(n: nat, k: nat)
    requires
        k >= 1,
        n < pow10(k),
    ensures
        decimal(n).len() <= k,
    decreases n,
{
    if n >= 10 {
        if k == 1 {
            assert(pow10(1) == 10) by {
                reveal_with_fuel(pow10, 2);
            }
        } else {
            lemma_decimal_len(n / 10, (k - 1) as nat);
        }
    }
}

/// The shape of what is written for a `u64`: one to twenty digits, with no
/// sign and no leading zero but for the number zero itself, which read
/// back as the number.
pub proof fn law_decimal_shape(val: u64)
    ensures
        1 <= decimal(val as nat).len() <= 20,
        all_digits(decimal(val as nat)),
        val != 0 ==> decimal(val as nat)[0] != 0x30,
        val == 0 ==> decimal(val as nat) == seq![0x30u8],
        decimal_value(decimal(val as nat)) == Some(val),
{
    let n = val as nat;
    lemma_decimal_digits(n);
    lemma_decimal_value(n);
    if n > 0 {
        lemma_decimal_leading(n);
    }
    assert(pow10(20) == 100_000_000_000_000_000_000nat) by {
        reveal_with_fuel(pow10, 21);
    }
    lemma_decimal_len(n, 20);
}

/// The first digit written for a number other than zero is not zero.
pub proof fn lemma_decimal_leading(n: nat)
    requires
        n > 0,
    ensures
        decimal(n)[0] != 0x30,
    decreases n,
{
    if n >= 10 {
        lemma_decimal_leading(n / 10);
        lemma_decimal_digits(n / 10);
    }
}

/// Appends the decimal digits of `val` to `out`, and nothing after them.
pub fn write_digits(out: &mut Vec<u8>, val: u64)
    ensures
        final(out)@ == old(out)@ + decimal(val as nat),
    decreases val,
{
    if val >= 10 {
        write_digits(out, val / 10);
    }
    let digit: u8 = (val % 10) as u8;
    out.push(0x30 + digit);
    proof {
        assert(out@ =~= old(out)@ + decimal(val as nat));
    }
}

/// Writes a decimal field: the digits of `val`, then the line terminator.
pub fn write_decimal(out: &mut Vec<u8>, val: u64)
    ensures
        final(out)@ == old(out)@ + decimal(val as nat) + crlf(),
{
    write_digits(out, val);
    out.push(CR);
    out.push(LF);
    proof {
        assert(out@ =~= old(out)@ + decimal(val as nat) + crlf());
    }
}

/// Reads the decimal field `buf[from..to]`.
pub fn parse_decimal(buf: &[u8], from: usize, to: usize) -> (r: Option<u64>)
    requires
        from <= to <= buf@.len(),
    ensures
        r == decimal_value(buf@.subrange(from as int, to as int)),
{
    let ghost field = buf@.subrange(from as int, to as int);
    if from == to {
        return None;
    }
    let mut acc: u64 = 0;
    let mut i: usize = from;
    while i < to
        invariant
            from <= i <= to <= buf@.len(),
            field == buf@.subrange(from as int, to as int),
            all_digits(field.take(i - from)),
            acc == digits_value(field.take(i - from)),
        decreases to - i,
    {
        let b: u8 = buf[i];
        if b < 0x30 || b > 0x39 {
            proof {
                assert(field[i - from] == b);
            }
            return None;
        }
        let digit: u64 = (b - 0x30) as u64;
        proof {
            let t = field.take(i - from + 1);
            assert(t.drop_last() =~= field.take(i - from));
            assert(t.last() == b);
            assert(digits_value(t) == acc * 10 + digit);
            assert forall|j: int| 0 <= j < t.len() implies is_digit(#[trigger] t[j]) by {
                if j < i - from {
                    assert(t[j] == field.take(i - from)[j]);
                }
            }
        }
        if acc > (u64::MAX - digit) / 10 {
            proof {
                if all_digits(field) {
                    lemma_digits_value_grows(field, i - from + 1);
                }
            }
            return None;
        }
        acc = acc * 10 + digit;
        i = i + 1;
    }
    proof {
        assert(field.take(i - from) =~= field);
    }
    Some(acc)
}

} // verus!
