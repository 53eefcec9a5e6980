//! Decimal numbers and comparisons of text.
use crate::hex::digit_text;
use vstd::prelude::*;
use vstd::string::StringExecFns;
use vstd::utf8::{encode_utf8_decode_utf8, is_ascii_chars_encode_utf8};

verus! {

use crate::hex::digit_char;
use vstd::string::StringSliceAdditionalSpecFns;

/// Whether two texts are the same.
pub fn same_text(a: &str, b: &str) -> (r: bool)
    ensures
        r == (a@ == b@),
{
    let left: &[u8] = a.as_bytes();
    let right: &[u8] = b.as_bytes();
    proof {
        encode_utf8_decode_utf8(a@);
        encode_utf8_decode_utf8(b@);
    }
    if left.len() != right.len() {
        return false;
    }
    let mut i: usize = 0;
    while i < left.len()
        invariant
            i <= left@.len(),
            left@.len() == right@.len(),
            left@ == a.spec_bytes(),
            right@ == b.spec_bytes(),
            forall|k: int| 0 <= k < i ==> left@[k] == right@[k],
        decreases left@.len() - i,
    {
        if left[i] != right[i] {
            return false;
        }
        i += 1;
    }
    assert(left@ =~= right@);
    true
}

/// The decimal digits of a number.
pub open spec fn decimal_chars(number: nat) -> Seq<char>
    decreases number,
{
    if number < 10 {
        seq![digit_char(number as u8)]
    } else {
        decimal_chars(number / 10).push(digit_char((number % 10) as u8))
    }
}

/// A number in decimal.
pub fn decimal_text(number: u64) -> (r: String)
    ensures
        r@ == decimal_chars(number as nat),
    decreases number,
{
    if number < 10 {
        String::from_str(digit_text(number as u8))
    } else {
        let mut text: String = decimal_text(number / 10);
        text.append(digit_text((number % 10) as u8));
        text
    }
}

/// The value of a decimal digit.
pub open spec fn decimal_digit(c: char) -> Option<nat> {
    if '0' <= c <= '9' {
        Some((c as int - '0' as int) as nat)
    } else {
        None
    }
}

/// Whether every character is a decimal digit.
pub open spec fn all_digits(text: Seq<char>) -> bool {
    forall|i: int| 0 <= i < text.len() ==> decimal_digit(#[trigger] text[i]) is Some
}

/// The number that decimal digits spell.
pub open spec fn decimal_value(text: Seq<char>) -> nat
    decreases text.len(),
{
    if text.len() == 0 {
        0
    } else {
        decimal_value(text.drop_last()) * 10 + decimal_digit(text.last())->0
    }
}

/// The text behind a leading plus sign, where there is one.
pub open spec fn without_plus(text: Seq<char>) -> Seq<char> {
    if text.len() > 0 && text[0] == '+' {
        text.skip(1)
    } else {
        text
    }
}

/// The number that a text spells: digits, with a plus sign before them at
/// most, and no more than `max`.
pub open spec fn number_of(text: Seq<char>, max: nat) -> Option<nat> {
    let digits = without_plus(text);
    if digits.len() > 0 && all_digits(digits) && decimal_value(digits) <= max {
        Some(decimal_value(digits))
    } else {
        None
    }
}

/// Leading digits are worth no more than all of them.
proof fn lemma_decimal_prefix(text: Seq<char>, len: int)
    requires
        0 <= len <= text.len(),
    ensures
        decimal_value(text.take(len)) <= decimal_value(text),
    decreases text.len(),
{
    if len == text.len() {
        assert(text.take(len) =~= text);
    } else {
        lemma_decimal_prefix(text.drop_last(), len);
        assert(text.take(len) =~= text.drop_last().take(len));
    }
}

/// The number that a text spells, as unsigned numbers are read.
pub fn parse_number(text: &str, max: u64) -> (r: Option<u64>)
    ensures
        (match r {
            Some(number) => Some(number as nat),
            None => None,
        }) == number_of(text@, max as nat),
{
    let ghost digits = without_plus(text@);
    if !text.is_ascii() {
        proof {
            if all_digits(digits) {
                assert forall|i: int| 0 <= i < text@.len() implies '\0' <= #[trigger] text@[i]
                    <= '\u{7f}' by {
                    if text@[0] == '+' {
                        if i > 0 {
                            assert(decimal_digit(digits[i - 1]) is Some);
                        }
                    } else {
                        assert(decimal_digit(digits[i]) is Some);
                    }
                }
            }
        }
        return None;
    }
    let bytes: &[u8] = text.as_bytes();
    proof {
        is_ascii_chars_encode_utf8(text@);
    }
    let first: usize = if bytes.len() > 0 && bytes[0] == 43 { 1 } else { 0 };
    assert(bytes@.len() > 0 ==> text@[0] as u8 == bytes@[0]);
    if bytes.len() == first {
        return None;
    }
    let mut value: u64 = 0;
    let mut i: usize = first;
    assert(digits.take(0) =~= Seq::<char>::empty());
    while i < bytes.len()
        invariant
            text.is_ascii(),
            bytes@.len() == text@.len(),
            forall|k: int| 0 <= k < text@.len() ==> #[trigger] bytes@[k] == text@[k] as u8,
            digits == without_plus(text@),
            first <= i <= bytes@.len(),
            first <= 1,
            digits.len() == text@.len() - first,
            forall|k: int| 0 <= k < digits.len() ==> #[trigger] digits[k] == text@[first + k],
            forall|k: int|
                0 <= k < i - first ==> decimal_digit(#[trigger] digits[k]) is Some,
            value == decimal_value(digits.take(i - first)),
            value <= max,
        decreases bytes@.len() - i,
    {
        let byte: u8 = bytes[i];
        let ghost at = i - first;
        assert(digits[at] == text@[i as int]);
        if byte < 48 || byte > 57 {
            assert(decimal_digit(digits[at]) is None);
            return None;
        }
        let digit: u64 = (byte - 48) as u64;
        proof {
            assert(decimal_digit(digits[at]) == Some(digit as nat));
            assert(digits.take(at + 1).drop_last() =~= digits.take(at));
            assert(decimal_value(digits.take(at + 1)) == value * 10 + digit);
            lemma_decimal_prefix(digits, at + 1);
        }
        let next: u128 = value as u128 * 10 + digit as u128;
        if next > max as u128 {
            return None;
        }
        value = next as u64;
        i += 1;
    }
    assert(digits.take(digits.len() as int) =~= digits);
    Some(value)
}

/// Reading a number back from its decimal digits gives the number.
pub proof fn law_decimal_round_trip(number: nat, max: nat)
    requires
        number <= max,
    ensures
        number_of(decimal_chars(number), max) == Some(number),
{
    lemma_decimal_digits(number);
    let text = decimal_chars(number);
    assert(decimal_digit(text[0]) is Some);
    assert(without_plus(text) == text);
}

/// The decimal digits of a number are digits and spell it.
proof fn lemma_decimal_digits(number: nat)
    ensures
        decimal_chars(number).len() > 0,
        all_digits(decimal_chars(number)),
        decimal_value(decimal_chars(number)) == number,
    decreases number,
{
    let text = decimal_chars(number);
    if number < 10 {
        assert(text.drop_last() =~= Seq::<char>::empty());
        assert(decimal_digit(text[0]) == Some(number));
        assert(decimal_value(text.drop_last()) == 0);
        assert(text.last() == text[0]);
    } else {
        lemma_decimal_digits(number / 10);
        assert(text.drop_last() =~= decimal_chars(number / 10));
        assert(decimal_digit(text.last()) == Some(number % 10));
        assert forall|i: int| 0 <= i < text.len() implies decimal_digit(
            #[trigger] text[i],
        ) is Some by {
            if i < text.len() - 1 {
                assert(text[i] == decimal_chars(number / 10)[i]);
            }
        }
    }
}

}
