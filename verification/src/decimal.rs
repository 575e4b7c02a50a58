//! Decimal numerals: what a text reads as a number, and how a number is
//! written.

use crate::text::{chars_of};
use vstd::prelude::*;

verus! {

/// Whether `c` is one of the digits `0` to `9`.
pub open spec fn is_digit(c: char) -> bool {
    48 <= c as u32 <= 57
}

/// The number that the digit `c` stands for.
pub open spec fn digit_value(c: char) -> nat {
    (c as u32 - 48) as nat
}

/// The digit that stands for `d`, a number below ten.
pub open spec fn digit_char(d: nat) -> char {
    (d + 48) as char
}

/// Whether every character of `s` is a digit.
pub open spec fn all_digits(s: Seq<char>) -> bool {
    forall|i: int| 0 <= i < s.len() ==> is_digit(#[trigger] s[i])
}

/// The number that a sequence of digits reads as, most significant first.
pub open spec fn digits_value(s: Seq<char>) -> nat
    decreases s.len(),
{
    if s.len() == 0 {
        0
    } else {
        10 * digits_value(s.drop_last()) + digit_value(s.last())
    }
}

/// The decimal numeral of `n`, without leading zeros.
pub open spec fn decimal(n: nat) -> Seq<char>
    decreases n,
{
    if n < 10 {
        seq![digit_char(n)]
    } else {
        decimal(n / 10).push(digit_char(n % 10))
    }
}

/// What `s` reads as an unsigned 16-bit number: an optional `+`, then at
/// least one digit and only digits, with a value that fits.
pub open spec fn u16_of(s: Seq<char>) -> Option<u16> {
    let digits = if s.len() > 0 && s[0] == '+' {
        s.drop_first()
    } else {
        s
    };
    if digits.len() >= 1 && all_digits(digits) && digits_value(digits) <= u16::MAX {
        Some(digits_value(digits) as u16)
    } else {
        None
    }
}

/// What `s` reads as one octet of a dotted address: one to three digits,
/// no leading zero before another digit, and a value of at most 255.
pub open spec fn octet_of(s: Seq<char>) -> Option<u8> {
    if 1 <= s.len() <= 3 && all_digits(s) && (s.len() == 1 || s[0] != '0') && digits_value(s)
        <= u8::MAX {
        Some(digits_value(s) as u8)
    } else {
        None
    }
}

/// A numeral is made of digits, is not empty, and starts with `0` only when
/// it is the single digit of a number below ten.
pub proof fn lemma_decimal_shape(n: nat)
    ensures
        decimal(n).len() >= 1,
        all_digits(decimal(n)),
        n < 10 ==> decimal(n).len() == 1,
        n >= 10 ==> decimal(n).len() >= 2 && decimal(n)[0] != '0',
        n < 100 ==> decimal(n).len() <= 2,
        n < 1000 ==> decimal(n).len() <= 3,
    decreases n,
{
    if n >= 10 {
        lemma_decimal_shape(n / 10);
        let head = decimal(n / 10);
        let whole = head.push(digit_char(n % 10));
        assert forall|i: int| 0 <= i < whole.len() implies is_digit(#[trigger] whole[i]) by {
            if i < head.len() {
                assert(is_digit(head[i]));
            }
        }
        if n / 10 < 10 {
            assert(head[0] == digit_char(n / 10));
        }
    }
}

/// A numeral reads as the number it was written for.
pub proof fn lemma_decimal_value(n: nat)
    ensures
        digits_value(decimal(n)) == n,
    decreases n,
{
    if n < 10 {
        assert(decimal(n).drop_last() == Seq::<char>::empty());
        assert(digits_value(decimal(n).drop_last()) == 0);
        assert(digit_value(decimal(n).last()) == n);
    } else {
        lemma_decimal_value(n / 10);
        assert(decimal(n).drop_last() == decimal(n / 10));
        assert(digit_value(decimal(n).last()) == n % 10);
    }
}

/// The digits read so far never exceed what the whole reads as.
pub proof fn lemma_digits_value_grows(s: Seq<char>, i: int)
    requires
        0 <= i <= s.len(),
    ensures
        digits_value(s.take(i)) <= digits_value(s),
    decreases s.len() - i,
{
    if i < s.len() {
        lemma_digits_value_grows(s, i + 1);
        assert(s.take(i + 1).drop_last() == s.take(i));
    } else {
        assert(s.take(i) == s);
    }
}

/// The numeral of a 16-bit number reads as that number.
pub proof fn lemma_u16_of_decimal(n: u16)
    ensures
        u16_of(decimal(n as nat)) == Some(n),
{
    lemma_decimal_shape(n as nat);
    lemma_decimal_value(n as nat);
    assert(is_digit(decimal(n as nat)[0]));
}

/// The numeral of an octet reads as that octet.
pub proof fn lemma_octet_of_decimal(n: u8)
    ensures
        octet_of(decimal(n as nat)) == Some(n),
{
    lemma_decimal_shape(n as nat);
    lemma_decimal_value(n as nat);
}

/// The number that `c` stands for, if it is a digit.
pub fn digit_of(c: char) -> (r: Option<u8>)
    ensures
        r == (if is_digit(c) {
            Some(digit_value(c) as u8)
        } else {
            None::<u8>
        }),
{
    let n: u32 = c as u32;
    if 48 <= n && n <= 57 {
        Some((n - 48) as u8)
    } else {
        None
    }
}

/// Reads the digits `v[from..]` as a number of at most `max`.
fn read_digits(v: &Vec<char>, from: usize, max: u32) -> (r: Option<u32>)
    requires
        from <= v.len(),
        max <= 0xffff,
    ensures
        r == (if all_digits(v@.skip(from as int)) && digits_value(v@.skip(from as int)) <= max {
            Some(digits_value(v@.skip(from as int)) as u32)
        } else {
            None::<u32>
        }),
{
    let ghost digits = v@.skip(from as int);
    let mut value: u32 = 0;
    let mut i: usize = from;
    assert(digits.take(0) == Seq::<char>::empty());
    while i < v.len()
        invariant
            from <= i <= v.len(),
            max <= 0xffff,
            digits == v@.skip(from as int),
            all_digits(digits.take(i - from)),
            value == digits_value(digits.take(i - from)),
            value <= max,
        decreases v.len() - i,
    {
        let ghost seen = digits.take(i - from + 1);
        proof {
            assert(seen.drop_last() == digits.take(i - from));
            assert(seen.last() == v@[i as int]);
            lemma_digits_value_grows(digits, i - from + 1);
        }
        match digit_of(v[i]) {
            None => {
                assert(!is_digit(digits[i - from]));
                return None;
            },
            Some(d) => {
                let next: u32 = value * 10 + d as u32;
                if next > max {
                    return None;
                }
                assert forall|j: int| 0 <= j < seen.len() implies is_digit(#[trigger] seen[j]) by {
                    if j < i - from {
                        assert(is_digit(digits.take(i - from)[j]));
                    }
                }
                value = next;
            },
        }
        i += 1;
    }
    assert(digits.take(i - from) == digits);
    Some(value)
}

/// Reads `s` as an unsigned 16-bit number.
pub fn parse_u16(s: &str) -> (r: Option<u16>)
    ensures
        r == u16_of(s@),
{
    let v = chars_of(s);
    let from: usize = if v.len() > 0 && v[0] == '+' {
        1
    } else {
        0
    };
    assert(v@.skip(0) == v@);
    assert(v@.skip(1) == v@.drop_first());
    if from == v.len() {
        return None;
    }
    match read_digits(&v, from, 0xffff) {
        Some(n) => Some(n as u16),
        None => None,
    }
}

/// Reads `s` as one octet of a dotted address.
pub fn parse_octet(s: &str) -> (r: Option<u8>)
    ensures
        r == octet_of(s@),
{
    let v = chars_of(s);
    assert(v@.skip(0) == v@);
    if v.len() < 1 || v.len() > 3 || (v.len() > 1 && v[0] == '0') {
        return None;
    }
    match read_digits(&v, 0, 0xff) {
        Some(n) => Some(n as u8),
        None => None,
    }
}

/// Appends the decimal numeral of `n` to `out`.
pub fn push_decimal(out: &mut String, n: u16)
    ensures
        final(out)@ == old(out)@ + decimal(n as nat),
    decreases n,
{
    if n >= 10 {
        push_decimal(out, n / 10);
    }
    let d: u8 = (n % 10) as u8;
    out.push((d + 48) as char);
    assert(final(out)@ == old(out)@ + decimal(n as nat));
}

/// The decimal numeral of `n`.
pub fn decimal_text(n: u16) -> (s: String)
    ensures
        s@ == decimal(n as nat),
{
    let mut s = String::new();
    push_decimal(&mut s, n);
    s
}

} // verus!
