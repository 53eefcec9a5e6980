//! Hex digits: what a text says, whatever its case, and what is written.
use crate::address::Address;
use crate::hex::{address_nibbles, hex_to_nibbles, is_hex, nibbles_to_hex, sk_to_hex};
use crate::scalar::SecretKey;
use vstd::prelude::*;

verus! {

use crate::hex::{all_nibbles, byte_nibbles, digit_char, digit_value, hex_chars, hex_text};
use crate::scalar::{
    be_bytes, be_value, is_scalar, lemma_be_bytes_of_value, lemma_curve_order_room,
    lemma_value_of_be_bytes,
};

/// The sixteen digits in lower case, each at its value.
pub open spec fn lower_digits() -> Seq<char> {
    seq!['0', '1', '2', '3', '4', '5', '6', '7', '8', '9', 'a', 'b', 'c', 'd', 'e', 'f']
}

/// The sixteen digits in upper case, each at its value.
pub open spec fn upper_digits() -> Seq<char> {
    seq!['0', '1', '2', '3', '4', '5', '6', '7', '8', '9', 'A', 'B', 'C', 'D', 'E', 'F']
}

/// Whether `c` writes `value` as one digit, in either case.
pub open spec fn writes(c: char, value: u8) -> bool {
    value < 16 && (c == lower_digits()[value as int] || c == upper_digits()[value as int])
}

/// Whether a character writes any digit.
pub open spec fn is_digit(c: char) -> bool {
    exists|value: u8| writes(c, value)
}

/// Whether two characters are the same but for the case of a digit.
pub open spec fn same_digit(a: char, b: char) -> bool {
    a == b || exists|value: u8| writes(a, value) && #[trigger] writes(b, value)
}

/// Whether `text` writes these digits, one character each.
pub open spec fn written_as(text: Seq<char>, digits: Seq<u8>) -> bool {
    text.len() == digits.len() && forall|i: int|
        0 <= i < digits.len() ==> writes(text[i], #[trigger] digits[i])
}

/// Whether the `k`-th pair of digits is the byte, the high digit first.
pub open spec fn spells_byte(digits: Seq<u8>, k: int, byte: u8) -> bool {
    digits[2 * k] < 16 && digits[2 * k + 1] < 16 && byte == 16 * digits[2 * k] + digits[2 * k + 1]
}

/// Whether these are the digits of a byte string, two for each byte.
pub open spec fn spells(digits: Seq<u8>, bytes: Seq<u8>) -> bool {
    digits.len() == 2 * bytes.len() && forall|k: int|
        0 <= k < bytes.len() ==> spells_byte(digits, k, #[trigger] bytes[k])
}

/// The number that digits spell in the given base, the first weighing most.
pub open spec fn number_in(base: nat, digits: Seq<u8>) -> nat
    decreases digits.len(),
{
    if digits.len() == 0 {
        0
    } else {
        number_in(base, digits.drop_last()) * base + digits.last() as nat
    }
}

/// A character stands for a value exactly when it writes it.
proof fn lemma_writes(c: char, value: u8)
    ensures
        digit_value(c) == Some(value) <==> writes(c, value),
        value < 16 ==> digit_char(value) == lower_digits()[value as int],
        writes(c, value) ==> (c as int) < 128,
{
    let low = lower_digits();
    let high = upper_digits();
    assert(low.len() == 16 && high.len() == 16);
    assert(digit_value(c) == Some(value) ==> value < 16);
    if value < 16 {
        assert(value == 0 || value == 1 || value == 2 || value == 3 || value == 4 || value == 5
            || value == 6 || value == 7 || value == 8 || value == 9 || value == 10 || value == 11
            || value == 12 || value == 13 || value == 14 || value == 15);
    }
}

/// A character writes a digit exactly when it stands for a value.
proof fn lemma_no_digit(c: char)
    ensures
        is_digit(c) <==> digit_value(c) is Some,
{
    if is_digit(c) {
        lemma_writes(c, choose|value: u8| writes(c, value));
    }
    if digit_value(c) is Some {
        lemma_writes(c, digit_value(c)->0);
        assert(writes(c, digit_value(c)->0));
    }
}

/// A digit means the same in either case.
pub proof fn law_case_does_not_matter(value: u8)
    requires
        value < 16,
    ensures
        digit_value(lower_digits()[value as int]) == digit_value(upper_digits()[value as int]),
        digit_value(lower_digits()[value as int]) == Some(value),
        digit_value(upper_digits()[value as int]) == Some(value),
{
    lemma_writes(lower_digits()[value as int], value);
    lemma_writes(upper_digits()[value as int], value);
}

/// Reading a text gives a digit for each character, the one that the character
/// writes; a text with any other character is not read.
pub proof fn law_digits_are_read(text: &str, r: Option<Vec<u8>>)
    requires
        call_ensures(hex_to_nibbles, (text,), r),
    ensures
        match r {
            Some(digits) => written_as(text@, digits@),
            None => exists|i: int|
                0 <= i < text@.len() && !is_digit(#[trigger] text@[i]),
        },
{
    match r {
        Some(digits) => {
            assert forall|i: int| 0 <= i < digits@.len() implies writes(
                text@[i],
                #[trigger] digits@[i],
            ) by {
                lemma_writes(text@[i], digits@[i]);
            }
        },
        None => {
            let i = choose|i: int| 0 <= i < text@.len() && digit_value(#[trigger] text@[i]) is None;
            lemma_no_digit(text@[i]);
        },
    }
}

/// Two texts that differ in the case of their digits alone are both read, as
/// the same digits, or both refused.
pub proof fn law_texts_of_either_case_read_alike(
    a: &str,
    b: &str,
    ra: Option<Vec<u8>>,
    rb: Option<Vec<u8>>,
)
    requires
        call_ensures(hex_to_nibbles, (a,), ra),
        call_ensures(hex_to_nibbles, (b,), rb),
        a@.len() == b@.len(),
        forall|i: int| 0 <= i < a@.len() ==> same_digit(#[trigger] a@[i], b@[i]),
    ensures
        match (ra, rb) {
            (Some(x), Some(y)) => x@ == y@,
            (None, None) => true,
            _ => false,
        },
{
    assert forall|i: int| 0 <= i < a@.len() implies digit_value(#[trigger] a@[i]) == digit_value(
        b@[i],
    ) by {
        assert(same_digit(a@[i], b@[i]));
        if a@[i] != b@[i] {
            let value = choose|value: u8| writes(a@[i], value) && #[trigger] writes(b@[i], value);
            lemma_writes(a@[i], value);
            lemma_writes(b@[i], value);
        }
    }
    assert(hex_text(a@) == hex_text(b@)) by {
        if hex_text(a@) {
            assert forall|i: int| 0 <= i < b@.len() implies digit_value(
                #[trigger] b@[i],
            ) is Some by {
                assert(digit_value(a@[i]) is Some);
            }
        }
        if hex_text(b@) {
            assert forall|i: int| 0 <= i < a@.len() implies digit_value(
                #[trigger] a@[i],
            ) is Some by {
                assert(digit_value(b@[i]) is Some);
            }
        }
    }
    if ra is Some && rb is Some {
        assert(ra->0@ =~= rb->0@);
    }
}

/// A text is hex exactly when each of its characters writes a digit.
pub proof fn law_hex_is_digits_only(text: &str, r: bool)
    requires
        call_ensures(is_hex, (text,), r),
    ensures
        r <==> forall|i: int| 0 <= i < text@.len() ==> is_digit(#[trigger] text@[i]),
{
    assert forall|i: int| 0 <= i < text@.len() implies is_digit(#[trigger] text@[i]) == (
    digit_value(text@[i]) is Some) by {
        lemma_no_digit(text@[i]);
    }
    if forall|i: int| 0 <= i < text@.len() ==> is_digit(#[trigger] text@[i]) {
        assert forall|i: int| 0 <= i < text@.len() implies digit_value(
            #[trigger] text@[i],
        ) is Some by {
            assert(is_digit(text@[i]));
        }
    }
}

/// The nibbles of a byte string spell it, and nothing else does.
pub proof fn lemma_spelled(digits: Seq<u8>, bytes: Seq<u8>)
    ensures
        spells(digits, bytes) <==> digits == byte_nibbles(bytes),
        all_nibbles(byte_nibbles(bytes)),
{
    let nibbles = byte_nibbles(bytes);
    assert(spells(nibbles, bytes)) by {
        assert forall|k: int| 0 <= k < bytes.len() implies spells_byte(
            nibbles,
            k,
            #[trigger] bytes[k],
        ) by {}
    }
    if spells(digits, bytes) {
        assert forall|i: int| 0 <= i < digits.len() implies digits[i] == nibbles[i] by {
            let k = i / 2;
            let byte = bytes[k];
            assert(byte == 16 * digits[2 * k] + digits[2 * k + 1]);
            assert(i == 2 * k || i == 2 * k + 1);
        }
        assert(digits =~= nibbles);
    }
}

/// An address is split into the forty digits that spell it.
pub proof fn law_address_digits(address: &Address, r: [u8; 40])
    requires
        call_ensures(address_nibbles, (address,), r),
    ensures
        spells(r@, address@),
{
    lemma_spelled(r@, address@);
}

/// Digits are written as `0x` and their lower-case characters.
pub proof fn law_digits_are_written(digits: &[u8; 40], r: String)
    requires
        all_nibbles(digits@),
        call_ensures(nibbles_to_hex, (digits,), r),
    ensures
        r@.len() == 42,
        r@[0] == '0',
        r@[1] == 'x',
        forall|i: int|
            0 <= i < 40 ==> r@[2 + i] == lower_digits()[#[trigger] digits@[i] as int],
{
    lemma_prefixed(digits@, r@);
}

/// `0x` and the characters of digits, one by one.
pub proof fn lemma_prefixed(digits: Seq<u8>, text: Seq<char>)
    requires
        all_nibbles(digits),
        text == "0x"@ + hex_chars(digits),
    ensures
        text.len() == 2 + digits.len(),
        text[0] == '0',
        text[1] == 'x',
        forall|i: int|
            0 <= i < digits.len() ==> text[2 + i] == lower_digits()[#[trigger] digits[i] as int],
{
    reveal_strlit("0x");
    assert forall|i: int| 0 <= i < digits.len() implies text[2 + i]
        == lower_digits()[#[trigger] digits[i] as int] by {
        assert(digits[i] < 16);
        lemma_writes(text[2 + i], digits[i]);
        assert(text[2 + i] == hex_chars(digits)[i]);
    }
}

/// A byte string and its digits are the same number.
proof fn lemma_same_number(digits: Seq<u8>, bytes: Seq<u8>)
    requires
        spells(digits, bytes),
    ensures
        number_in(16, digits) == number_in(256, bytes),
    decreases bytes.len(),
{
    if bytes.len() > 0 {
        let fewer = digits.drop_last().drop_last();
        let shorter = bytes.drop_last();
        let last = bytes.len() - 1;
        assert forall|k: int| 0 <= k < shorter.len() implies spells_byte(
            fewer,
            k,
            #[trigger] shorter[k],
        ) by {
            assert(spells_byte(digits, k, bytes[k]));
        }
        assert(spells(fewer, shorter));
        lemma_same_number(fewer, shorter);
        assert(bytes[last] == 16 * digits[2 * last] + digits[2 * last + 1]);
        assert(digits.last() == digits[2 * last + 1]);
        assert(digits.drop_last().last() == digits[2 * last]);
        reveal_with_fuel(number_in, 3);
    }
}

/// A big-endian value is the number that the bytes spell.
pub proof fn lemma_number_of_bytes(bytes: Seq<u8>)
    ensures
        be_value(bytes) == number_in(256, bytes),
    decreases bytes.len(),
{
    if bytes.len() > 0 {
        lemma_number_of_bytes(bytes.drop_last());
    }
}

/// The sixty-four digits of a key, and the number that they spell.
pub proof fn lemma_key_digits(scalar: nat) -> (digits: Seq<u8>)
    requires
        is_scalar(scalar),
    ensures
        digits == byte_nibbles(be_bytes(scalar, 32)),
        digits.len() == 64,
        all_nibbles(digits),
        number_in(16, digits) == scalar,
{
    let bytes = be_bytes(scalar, 32);
    let digits = byte_nibbles(bytes);
    lemma_curve_order_room();
    lemma_value_of_be_bytes(scalar, 32);
    lemma_spelled(digits, bytes);
    lemma_same_number(digits, bytes);
    lemma_number_of_bytes(bytes);
    digits
}

/// A key is written as `0x` and sixty-four lower-case digits, which spell its
/// number.
pub proof fn law_key_is_written(key: &SecretKey, r: String, digits: Seq<u8>)
    requires
        call_ensures(sk_to_hex, (key,), r),
        digits.len() == 64,
        all_nibbles(digits),
        number_in(16, digits) == key@,
    ensures
        r@.len() == 66,
        r@[0] == '0',
        r@[1] == 'x',
        forall|i: int|
            0 <= i < 64 ==> r@[2 + i] == lower_digits()[#[trigger] digits[i] as int],
{
    lemma_digits_of_key(key@, digits);
    lemma_prefixed(digits, r@);
}

/// The sixty-four digits that spell a number are those of its 32 bytes.
pub proof fn lemma_digits_of_key(scalar: nat, digits: Seq<u8>)
    requires
        digits.len() == 64,
        all_nibbles(digits),
        number_in(16, digits) == scalar,
    ensures
        digits == byte_nibbles(be_bytes(scalar, 32)),
{
    let bytes = Seq::new(32, |k: int| (16 * digits[2 * k] + digits[2 * k + 1]) as u8);
    assert(spells(digits, bytes)) by {
        assert forall|k: int| 0 <= k < 32 implies spells_byte(digits, k, #[trigger] bytes[k]) by {
            assert(digits[2 * k] < 16 && digits[2 * k + 1] < 16);
        }
    }
    lemma_same_number(digits, bytes);
    lemma_number_of_bytes(bytes);
    lemma_be_bytes_of_value(bytes);
    assert(be_bytes(scalar, 32) == bytes);
    lemma_spelled(digits, bytes);
}

}
