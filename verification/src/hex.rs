//! Hexadecimal text: nibbles, addresses and keys.
use crate::address::Address;
use crate::scalar::SecretKey;
use vstd::prelude::*;
use vstd::string::StringExecFns;
use vstd::utf8::is_ascii_chars_encode_utf8;

verus! {

use crate::scalar::{be_bytes, is_scalar, lemma_curve_order_room, lemma_value_of_be_bytes};

/// The nibble that a hex digit of either case stands for.
pub open spec fn digit_value(c: char) -> Option<u8> {
    if '0' <= c <= '9' {
        Some((c as int - '0' as int) as u8)
    } else if 'a' <= c <= 'f' {
        Some((c as int - 'a' as int + 10) as u8)
    } else if 'A' <= c <= 'F' {
        Some((c as int - 'A' as int + 10) as u8)
    } else {
        None
    }
}

/// Whether every character is a hex digit.
pub open spec fn hex_text(text: Seq<char>) -> bool {
    forall|i: int| 0 <= i < text.len() ==> digit_value(#[trigger] text[i]) is Some
}

/// The nibbles that a hex text spells.
pub open spec fn text_nibbles(text: Seq<char>) -> Seq<u8> {
    text.map_values(|c: char| digit_value(c)->0)
}

/// The lower-case hex digit of a nibble.
pub open spec fn digit_char(nibble: u8) -> char {
    if nibble < 10 {
        ('0' as int + nibble) as char
    } else {
        ('a' as int + nibble - 10) as char
    }
}

/// The lower-case hex text of a nibble string.
pub open spec fn hex_chars(nibbles: Seq<u8>) -> Seq<char> {
    nibbles.map_values(|nibble: u8| digit_char(nibble))
}

/// The nibbles of a byte string, high nibble first.
pub open spec fn byte_nibbles(bytes: Seq<u8>) -> Seq<u8> {
    Seq::new(
        2 * bytes.len(),
        |i: int|
            if i % 2 == 0 {
                bytes[i / 2] / 16
            } else {
                bytes[i / 2] % 16
            },
    )
}

/// `0x` and the lower-case hex text of a nibble string.
pub open spec fn prefixed_hex(nibbles: Seq<u8>) -> Seq<char> {
    "0x"@ + hex_chars(nibbles)
}

/// `0x` and the 64 lower-case hex digits of a scalar.
pub open spec fn key_text(scalar: nat) -> Seq<char> {
    prefixed_hex(byte_nibbles(be_bytes(scalar, 32)))
}

/// `0x` and the 40 lower-case hex digits of an address.
pub open spec fn address_text(address: Seq<u8>) -> Seq<char> {
    prefixed_hex(byte_nibbles(address))
}

/// Whether every entry is a nibble.
pub open spec fn all_nibbles(nibbles: Seq<u8>) -> bool {
    forall|i: int| 0 <= i < nibbles.len() ==> #[trigger] nibbles[i] < 16
}

/// The nibble of an ASCII byte.
fn byte_digit(byte: u8) -> (r: Option<u8>)
    ensures
        r == digit_value(byte as char),
{
    if byte >= 48 && byte <= 57 {
        Some(byte - 48)
    } else if byte >= 97 && byte <= 102 {
        Some(byte - 97 + 10)
    } else if byte >= 65 && byte <= 70 {
        Some(byte - 65 + 10)
    } else {
        None
    }
}

/// The nibbles of a hex string of either case, or `None` where a character is
/// no hex digit.
pub fn hex_to_nibbles(s: &str) -> (r: Option<Vec<u8>>)
    ensures
        r is Some <==> hex_text(s@),
        r matches Some(nibbles) ==> nibbles@ == text_nibbles(s@) && all_nibbles(nibbles@),
{
    if !s.is_ascii() {
        return None;
    }
    let bytes: &[u8] = s.as_bytes();
    proof {
        is_ascii_chars_encode_utf8(s@);
    }
    let mut nibbles: Vec<u8> = Vec::new();
    let mut i: usize = 0;
    while i < bytes.len()
        invariant
            s.is_ascii(),
            bytes@.len() == s@.len(),
            forall|k: int| 0 <= k < s@.len() ==> #[trigger] bytes@[k] == s@[k] as u8,
            i <= bytes@.len(),
            nibbles@.len() == i,
            forall|k: int|
                0 <= k < i ==> digit_value(s@[k]) == Some(#[trigger] nibbles@[k]) && nibbles@[k]
                    < 16,
        decreases bytes@.len() - i,
    {
        let byte: u8 = bytes[i];
        assert(s@[i as int] == byte as char);
        match byte_digit(byte) {
            Some(nibble) => {
                nibbles.push(nibble);
            },
            None => {
                return None;
            },
        }
        i += 1;
    }
    assert forall|k: int| 0 <= k < s@.len() implies digit_value(#[trigger] s@[k]) == Some(
        nibbles@[k],
    ) by {}
    assert(nibbles@ =~= text_nibbles(s@));
    Some(nibbles)
}

/// Whether every character is a hex digit.
pub fn is_hex(s: &str) -> (r: bool)
    ensures
        r == hex_text(s@),
{
    hex_to_nibbles(s).is_some()
}

/// The 40 nibbles of an address, from the first digit to the last.
pub fn address_nibbles(address: &Address) -> (r: [u8; 40])
    ensures
        r@ == byte_nibbles(address@),
        all_nibbles(r@),
{
    let mut nibbles: [u8; 40] = [0; 40];
    let mut i: usize = 0;
    while i < 20
        invariant
            i <= 20,
            forall|k: int|
                0 <= k < 2 * i ==> #[trigger] nibbles@[k] == byte_nibbles(address@)[k]
                    && nibbles@[k] < 16,
        decreases 20 - i,
    {
        nibbles[2 * i] = address[i] / 16;
        nibbles[2 * i + 1] = address[i] % 16;
        i += 1;
    }
    assert(nibbles@ =~= byte_nibbles(address@));
    nibbles
}

/// The lower-case hex digit of a nibble, as text.
pub(crate) fn digit_text(nibble: u8) -> (r: &'static str)
    requires
        nibble < 16,
    ensures
        r@ == seq![digit_char(nibble)],
{
    proof {
        reveal_strlit("0");
        reveal_strlit("1");
        reveal_strlit("2");
        reveal_strlit("3");
        reveal_strlit("4");
        reveal_strlit("5");
        reveal_strlit("6");
        reveal_strlit("7");
        reveal_strlit("8");
        reveal_strlit("9");
        reveal_strlit("a");
        reveal_strlit("b");
        reveal_strlit("c");
        reveal_strlit("d");
        reveal_strlit("e");
        reveal_strlit("f");
    }
    match nibble {
        0 => "0",
        1 => "1",
        2 => "2",
        3 => "3",
        4 => "4",
        5 => "5",
        6 => "6",
        7 => "7",
        8 => "8",
        9 => "9",
        10 => "a",
        11 => "b",
        12 => "c",
        13 => "d",
        14 => "e",
        _ => "f",
    }
}

/// `0x` and the hex digits of a nibble string.
fn prefixed_text(nibbles: &[u8]) -> (r: String)
    requires
        all_nibbles(nibbles@),
    ensures
        r@ == prefixed_hex(nibbles@),
{
    let mut text: String = String::from_str("0x");
    let mut i: usize = 0;
    assert(hex_chars(nibbles@.take(0)) =~= Seq::<char>::empty());
    while i < nibbles.len()
        invariant
            all_nibbles(nibbles@),
            i <= nibbles@.len(),
            text@ == "0x"@ + hex_chars(nibbles@.take(i as int)),
        decreases nibbles@.len() - i,
    {
        text.append(digit_text(nibbles[i]));
        i += 1;
        assert(hex_chars(nibbles@.take(i as int)) =~= hex_chars(nibbles@.take(i - 1)).push(
            digit_char(nibbles@[i - 1]),
        ));
    }
    assert(nibbles@.take(nibbles@.len() as int) =~= nibbles@);
    text
}

/// `0x` and the lower-case hex digits of 40 nibbles.
pub fn nibbles_to_hex(nibs: &[u8; 40]) -> (r: String)
    requires
        all_nibbles(nibs@),
    ensures
        r@ == prefixed_hex(nibs@),
{
    prefixed_text(nibs.as_slice())
}

/// `0x` and the 64 lower-case hex digits of the scalar.
pub fn sk_to_hex(sk: &SecretKey) -> (r: String)
    ensures
        r@ == key_text(sk@),
{
    let bytes: [u8; 32] = sk.secret_bytes();
    let mut nibbles: Vec<u8> = Vec::new();
    let mut i: usize = 0;
    while i < 32
        invariant
            i <= 32,
            nibbles@.len() == 2 * i,
            forall|k: int|
                0 <= k < 2 * i ==> #[trigger] nibbles@[k] == byte_nibbles(bytes@)[k] && nibbles@[k]
                    < 16,
        decreases 32 - i,
    {
        nibbles.push(bytes[i] / 16);
        nibbles.push(bytes[i] % 16);
        i += 1;
    }
    assert(nibbles@ =~= byte_nibbles(bytes@));
    prefixed_text(nibbles.as_slice())
}

/// Reading back the hex text of a nibble string gives the nibbles.
pub proof fn law_hex_round_trip(nibbles: Seq<u8>)
    requires
        all_nibbles(nibbles),
    ensures
        hex_text(hex_chars(nibbles)),
        text_nibbles(hex_chars(nibbles)) == nibbles,
{
    let text = hex_chars(nibbles);
    assert forall|i: int| 0 <= i < text.len() implies digit_value(#[trigger] text[i]) == Some(
        nibbles[i],
    ) by {
        assert(nibbles[i] < 16);
    }
    assert(text_nibbles(text) =~= nibbles);
}

/// The text of a key tells its scalar: no two scalars share one.
pub proof fn law_key_text_is_injective(a: nat, b: nat)
    requires
        is_scalar(a),
        is_scalar(b),
        key_text(a) == key_text(b),
    ensures
        a == b,
{
    lemma_curve_order_room();
    lemma_value_of_be_bytes(a, 32);
    lemma_value_of_be_bytes(b, 32);
    lemma_prefixed_hex_injective(be_bytes(a, 32), be_bytes(b, 32));
}

/// The text of an address tells its bytes: no two addresses share one.
pub proof fn law_address_text_is_injective(a: Seq<u8>, b: Seq<u8>)
    requires
        address_text(a) == address_text(b),
    ensures
        a == b,
{
    lemma_prefixed_hex_injective(a, b);
}

/// Byte strings with the same prefixed hex text are equal.
proof fn lemma_prefixed_hex_injective(a: Seq<u8>, b: Seq<u8>)
    requires
        prefixed_hex(byte_nibbles(a)) == prefixed_hex(byte_nibbles(b)),
    ensures
        a == b,
{
    let na = byte_nibbles(a);
    let nb = byte_nibbles(b);
    let skip = "0x"@.len() as int;
    assert(prefixed_hex(na).skip(skip) =~= hex_chars(na));
    assert(prefixed_hex(nb).skip(skip) =~= hex_chars(nb));
    assert(all_nibbles(na) && all_nibbles(nb));
    law_hex_round_trip(na);
    law_hex_round_trip(nb);
    assert(na == nb);
    assert(a.len() == b.len());
    assert forall|i: int| 0 <= i < a.len() implies a[i] == b[i] by {
        assert(na[2 * i] == a[i] / 16 && nb[2 * i] == b[i] / 16);
        assert(na[2 * i + 1] == a[i] % 16 && nb[2 * i + 1] == b[i] % 16);
    }
    assert(a =~= b);
}

}
