//! The Luhn checksum over strings of decimal digits.

use vstd::prelude::*;
use crate::text::{chars_of, without_separators};

verus! {

/// Whether `c` is one of the ten decimal digits `0` to `9`.
pub open spec fn is_digit(c: char) -> bool {
    48 <= c as int <= 57
}

/// The number that the decimal digit `c` stands for.
pub open spec fn digit_value(c: char) -> int {
    c as int - 48
}

/// Whether every character of `s` is a decimal digit.
pub open spec fn all_digits(s: Seq<char>) -> bool {
    forall|i: int| 0 <= i < s.len() ==> is_digit(#[trigger] s[i])
}

/// What one digit adds to the checksum: itself, or, where it is doubled,
/// twice itself, less 9 if that exceeds 9.
pub open spec fn luhn_term(d: int, doubled: bool) -> int {
    if !doubled {
        d
    } else if 2 * d > 9 {
        2 * d - 9
    } else {
        2 * d
    }
}

/// The checksum of `s`: the rightmost digit counts as it is, the one to its
/// left is doubled, and so on in turn towards the left.
pub open spec fn luhn_sum(s: Seq<char>) -> int
    decreases s.len(),
{
    if s.len() == 0 {
        0
    } else {
        luhn_term(digit_value(s[0]), (s.len() - 1) % 2 == 1) + luhn_sum(s.skip(1))
    }
}

/// A string passes when it holds digits only and its checksum is a positive
/// multiple of ten.
pub open spec fn luhn_valid(s: Seq<char>) -> bool {
    all_digits(s) && luhn_sum(s) > 0 && luhn_sum(s) % 10 == 0
}

/// Whether `c` is a decimal digit.
pub fn is_ascii_digit(c: char) -> (r: bool)
    ensures
        r == is_digit(c),
{
    '0' <= c && c <= '9'
}

/// Validates `number` by the Luhn checksum.
pub fn is_valid_luhn(number: &str) -> (valid: bool)
    ensures
        valid == luhn_valid(number@),
{
    let digits = chars_of(number);
    let n = digits.len();
    let mut sum: u128 = 0;
    let mut doubled = false;
    let mut i: usize = n;
    while i > 0
        invariant
            i <= n,
            n == digits.len(),
            digits@ == number@,
            doubled == ((n - i) % 2 == 1),
            all_digits(digits@.skip(i as int)),
            sum == luhn_sum(digits@.skip(i as int)),
            0 <= sum <= 9 * (n - i),
        decreases i,
    {
        i -= 1;
        let c = digits[i];
        if !is_ascii_digit(c) {
            return false;
        }
        let ghost tail = digits@.skip(i as int);
        assert(tail.skip(1) =~= digits@.skip(i + 1));
        assert(tail[0] == c);
        assert forall|j: int| 0 <= j < tail.len() implies is_digit(#[trigger] tail[j]) by {
            if j > 0 {
                assert(tail[j] == digits@.skip(i + 1)[j - 1]);
            }
        }
        let d: u128 = (c as u32 - 48) as u128;
        let term: u128 = if !doubled {
            d
        } else if 2 * d > 9 {
            2 * d - 9
        } else {
            2 * d
        };
        sum = sum + term;
        doubled = !doubled;
    }
    assert(digits@.skip(0) =~= digits@);
    sum > 0 && sum % 10 == 0
}

/// The checksum of a string of zeros is zero.
proof fn lemma_zeros_sum(s: Seq<char>)
    requires
        forall|i: int| 0 <= i < s.len() ==> s[i] == '0',
    ensures
        luhn_sum(s) == 0,
    decreases s.len(),
{
    if s.len() > 0 {
        lemma_zeros_sum(s.skip(1));
    }
}

/// A string made of zeros only, of any length, does not pass.
pub proof fn lemma_all_zeros_rejected(s: Seq<char>)
    requires
        forall|i: int| 0 <= i < s.len() ==> s[i] == '0',
    ensures
        !luhn_valid(s),
{
    lemma_zeros_sum(s);
}

/// A string that holds a character other than a decimal digit does not pass.
pub proof fn lemma_non_digit_rejected(s: Seq<char>, i: int)
    requires
        0 <= i < s.len(),
        !is_digit(s[i]),
    ensures
        !luhn_valid(s),
{
}

/// A string of digits holds no separator: dropping separators leaves it as
/// it is.
pub proof fn lemma_digits_hold_no_separator(s: Seq<char>)
    requires
        all_digits(s),
    ensures
        without_separators(s) == s,
    decreases s.len(),
{
    reveal(Seq::filter);
    if s.len() > 0 {
        assert forall|i: int| 0 <= i < s.drop_last().len() implies is_digit(
            #[trigger] s.drop_last()[i],
        ) by {
            assert(s.drop_last()[i] == s[i]);
        }
        lemma_digits_hold_no_separator(s.drop_last());
        assert(is_digit(s[s.len() - 1]));
        assert(s.drop_last().push(s.last()) =~= s);
    }
}

} // verus!
