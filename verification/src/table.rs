//! The fixed-base table that GPU kernels read: multiples of the generator,
//! window by window.
use crate::address::public_key;
use crate::error::Error;
use vstd::arithmetic::power2::{
    lemma2_to64, lemma_pow2_adds, lemma_pow2_pos, lemma_pow2_strictly_increases, lemma_pow2_unfold,
};
use vstd::prelude::*;

verus! {

use crate::address::public_key_bytes;
use crate::scalar::{
    be_value, curve_order, is_scalar, lemma_be_value_update, lemma_be_value_zeros, pow256,
};
use vstd::arithmetic::power2::pow2;

/// The windows of a 256-bit scalar.
pub open spec fn window_count(window_bits: nat) -> nat {
    256nat / window_bits
}

/// The bytes of a whole table: 64 for each digit of each window.
pub open spec fn table_size(window_bits: nat) -> nat {
    window_count(window_bits) * pow2(window_bits) * 64
}

/// Whether a table of this window size can be held in memory.
pub open spec fn table_fits(window_bits: nat) -> bool {
    0 < window_bits && table_size(window_bits) <= usize::MAX
}

/// The number of digits in a window.
fn window_radix(window_bits: u8) -> (r: usize)
    requires
        pow2(window_bits as nat) <= usize::MAX,
    ensures
        r == pow2(window_bits as nat),
{
    let mut radix: usize = 1;
    let mut i: u8 = 0;
    proof {
        lemma2_to64();
    }
    while i < window_bits
        invariant
            i <= window_bits,
            radix == pow2(i as nat),
            pow2(window_bits as nat) <= usize::MAX,
        decreases window_bits - i,
    {
        proof {
            lemma_pow2_unfold((i + 1) as nat);
            if i + 1 < window_bits {
                lemma_pow2_strictly_increases((i + 1) as nat, window_bits as nat);
            }
        }
        radix = radix * 2;
        i += 1;
    }
    radix
}

/// What fits in memory has few enough bits per window.
proof fn lemma_window_bits(window_bits: nat)
    requires
        table_fits(window_bits),
        window_bits < 256,
    ensures
        window_bits <= 64,
        pow2(window_bits) * 64 <= usize::MAX,
        window_count(window_bits) >= 4,
        window_count(window_bits) * pow2(window_bits) <= usize::MAX,
{
    let windows = window_count(window_bits);
    let radix = pow2(window_bits);
    lemma_pow2_pos(window_bits);
    assert(windows >= 1) by (nonlinear_arith)
        requires
            windows == 256nat / window_bits,
            0 < window_bits < 256,
    ;
    assert(windows * radix * 64 >= radix * 64) by (nonlinear_arith)
        requires
            windows >= 1,
            radix > 0,
    ;
    assert(windows * radix * 64 >= windows * radix) by (nonlinear_arith)
        requires
            windows >= 1,
            radix > 0,
    ;
    if window_bits > 64 {
        lemma_pow2_strictly_increases(64, window_bits);
        lemma2_to64();
        assert(false);
    }
    assert(windows >= 4) by (nonlinear_arith)
        requires
            windows == 256nat / window_bits,
            0 < window_bits <= 64,
    ;
}

/// The bytes that a table takes.
pub fn table_bytes(window_bits: u8) -> (r: usize)
    requires
        table_fits(window_bits as nat),
    ensures
        r == table_size(window_bits as nat),
{
    proof {
        lemma_window_bits(window_bits as nat);
    }
    let windows: usize = 256 / window_bits as usize;
    windows * window_radix(window_bits) * 64
}

/// A point as kernels load it: both coordinates, least significant byte first.
pub open spec fn entry_bytes(public: Seq<u8>) -> Seq<u8> {
    Seq::new(
        64,
        |k: int|
            if k < 32 {
                public[32 - k]
            } else {
                public[96 - k]
            },
    )
}

/// Writes an uncompressed point as kernels load it. These are public constants,
/// not wallet keys.
pub fn write_table_entry(slot: &mut [u8], public: &[u8; 65])
    requires
        old(slot)@.len() >= 64,
    ensures
        final(slot)@ == entry_bytes(public@) + old(slot)@.skip(64),
{
    let mut k: usize = 0;
    while k < 64
        invariant
            k <= 64,
            old(slot)@.len() >= 64,
            slot@.len() == old(slot)@.len(),
            forall|i: int| 0 <= i < k ==> slot@[i] == entry_bytes(public@)[i],
            forall|i: int| k <= i < slot@.len() ==> slot@[i] == old(slot)@[i],
        decreases 64 - k,
    {
        let from: usize = if k < 32 { 32 - k } else { 96 - k };
        slot[k] = public[from];
        k += 1;
    }
    assert(slot@ =~= entry_bytes(public@) + old(slot)@.skip(64));
}

/// The scalar whose multiple of the generator stands at `digit` of `window`.
pub open spec fn entry_scalar(window_bits: nat, window: nat, digit: nat) -> nat {
    digit * pow2(window_bits * window)
}

/// What the table holds at `digit` of `window`. Digit zero stays zero.
pub open spec fn table_entry(window_bits: nat, window: nat, digit: nat) -> Seq<u8> {
    if digit == 0 {
        Seq::new(64, |k: int| 0u8)
    } else {
        entry_bytes(public_key_bytes(entry_scalar(window_bits, window, digit)))
    }
}

/// The first `digits` entries of a window.
pub open spec fn table_row(window_bits: nat, window: nat, digits: nat) -> Seq<u8>
    decreases digits,
{
    if digits == 0 {
        Seq::empty()
    } else {
        table_row(window_bits, window, (digits - 1) as nat) + table_entry(
            window_bits,
            window,
            (digits - 1) as nat,
        )
    }
}

/// The first `windows` windows of a table.
pub open spec fn table_rows(window_bits: nat, windows: nat) -> Seq<u8>
    decreases windows,
{
    if windows == 0 {
        Seq::empty()
    } else {
        table_rows(window_bits, (windows - 1) as nat) + table_row(
            window_bits,
            (windows - 1) as nat,
            pow2(window_bits),
        )
    }
}

/// `secp256k1::PublicKey::combine` on two uncompressed points, each read with
/// `PublicKey::from_slice`. The sum of the multiples `i` and `j` of the
/// generator is the multiple `i + j` modulo the group order; where that is
/// zero there is no such point, and the crate reports an error. Of bytes that
/// are no such multiples nothing is claimed.
#[verifier::external_body]
fn add_points(a: &[u8; 65], b: &[u8; 65]) -> (r: Option<[u8; 65]>)
    ensures
        forall|i: nat, j: nat|
            is_scalar(i) && is_scalar(j) && a@ == #[trigger] public_key_bytes(i) && b@
                == #[trigger] public_key_bytes(j) ==> if (i + j) % curve_order() == 0 {
                r is None
            } else {
                r matches Some(sum) && sum@ == public_key_bytes((i + j) % curve_order())
            },
{
    let left = secp256k1::PublicKey::from_slice(a).ok()?;
    let right = secp256k1::PublicKey::from_slice(b).ok()?;
    Some(left.combine(&right).ok()?.serialize_uncompressed())
}

/// 256 to a power as a power of two.
proof fn lemma_pow256_is_pow2(exponent: nat)
    ensures
        pow256(exponent) == pow2(8 * exponent),
    decreases exponent,
{
    lemma2_to64();
    if exponent > 0 {
        lemma_pow256_is_pow2((exponent - 1) as nat);
        lemma_pow2_adds(8, (8 * (exponent - 1)) as nat);
        assert(8 + 8 * (exponent - 1) == 8 * exponent);
    }
}

/// The first scalar of a window: a single bit.
fn window_base(bit: usize) -> (r: [u8; 32])
    requires
        bit < 256,
    ensures
        be_value(r@) == pow2(bit as nat),
{
    let low: usize = bit % 8;
    let place: usize = bit / 8;
    let mut power: u8 = 1;
    let mut i: usize = 0;
    proof {
        lemma2_to64();
    }
    while i < low
        invariant
            i <= low < 8,
            power == pow2(i as nat),
            pow2(7) == 128,
        decreases low - i,
    {
        proof {
            lemma_pow2_unfold((i + 1) as nat);
            if i + 1 < 7 {
                lemma_pow2_strictly_increases((i + 1) as nat, 7);
            }
        }
        power = power * 2;
        i += 1;
    }
    let mut bytes: [u8; 32] = [0; 32];
    proof {
        lemma_be_value_zeros(bytes@);
        lemma_be_value_update(bytes@, 31 - place, power);
        lemma_pow256_is_pow2(place as nat);
        lemma_pow2_adds(low as nat, (8 * place) as nat);
        assert(power * pow256(place as nat) == pow2(bit as nat));
    }
    bytes[31 - place] = power;
    bytes
}

/// Every entry of a window is a scalar.
proof fn lemma_entry_scalar(window_bits: nat, window: nat, digit: nat)
    requires
        0 < window_bits <= 64,
        window < window_count(window_bits),
        0 < digit < pow2(window_bits),
    ensures
        is_scalar(entry_scalar(window_bits, window, digit)),
        window_bits * window + window_bits <= 256,
{
    let exponent = window_bits * window;
    let unit = pow2(exponent);
    assert(exponent + window_bits <= 256) by (nonlinear_arith)
        requires
            exponent == window_bits * window,
            window + 1 <= 256nat / window_bits,
            window_bits > 0,
    ;
    lemma_pow2_pos(exponent);
    lemma_pow2_adds(window_bits, exponent);
    assert(digit * unit > 0) by (nonlinear_arith)
        requires
            digit > 0,
            unit > 0,
    ;
    assert(digit * unit <= pow2(window_bits) * unit - unit) by (nonlinear_arith)
        requires
            digit + 1 <= pow2(window_bits),
            unit > 0,
    ;
    lemma_pow256_is_pow2(32);
    reveal_with_fuel(pow256, 33);
    if exponent + window_bits < 256 {
        lemma_pow2_unfold(256);
        if exponent + window_bits < 255 {
            lemma_pow2_strictly_increases(exponent + window_bits, 255);
        }
    } else {
        lemma_pow256_is_pow2(17);
        if exponent > 136 {
            lemma_pow2_strictly_increases(136, exponent);
        }
    }
}

/// One window of the table. Entries are built one point addition at a time.
pub fn build_window(window_bits: u8, window: usize) -> (r: Result<Vec<u8>, Error>)
    requires
        table_fits(window_bits as nat),
        window < window_count(window_bits as nat),
    ensures
        r matches Ok(bytes) && bytes@ == table_row(
            window_bits as nat,
            window as nat,
            pow2(window_bits as nat),
        ),
{
    proof {
        lemma_window_bits(window_bits as nat);
        lemma_pow2_pos(window_bits as nat);
        lemma2_to64();
        if window_bits > 1 {
            lemma_pow2_strictly_increases(1, window_bits as nat);
        }
        lemma_entry_scalar(window_bits as nat, window as nat, 1);
    }
    let radix: usize = window_radix(window_bits);
    let bit: usize = window_bits as usize * window;
    let ghost unit = pow2(bit as nat);
    assert(entry_scalar(window_bits as nat, window as nat, 1) == unit) by (nonlinear_arith)
        requires
            entry_scalar(window_bits as nat, window as nat, 1) == 1 * unit,
    ;
    let base: [u8; 65] = public_key(&window_base(bit));
    let mut entry: [u8; 65] = base;
    let mut bytes: Vec<u8> = vec![0u8; 64];
    let mut digit: usize = 1;
    assert(bytes@ =~= table_row(window_bits as nat, window as nat, 1)) by {
        reveal_with_fuel(table_row, 2);
    }
    while digit < radix
        invariant
            0 < window_bits <= 64,
            window < window_count(window_bits as nat),
            radix == pow2(window_bits as nat),
            1 <= digit <= radix,
            unit == pow2(window_bits as nat * window as nat),
            is_scalar(unit),
            base@ == public_key_bytes(unit),
            digit < radix ==> entry@ == public_key_bytes(
                entry_scalar(window_bits as nat, window as nat, digit as nat),
            ),
            bytes@ == table_row(window_bits as nat, window as nat, digit as nat),
        decreases radix - digit,
    {
        let mut slot: [u8; 64] = [0; 64];
        write_table_entry(&mut slot, &entry);
        let ghost row = bytes@;
        bytes.extend_from_slice(&slot);
        assert(slot@ =~= table_entry(window_bits as nat, window as nat, digit as nat));
        assert(bytes@ =~= row + slot@);
        if digit + 1 < radix {
            proof {
                let here = entry_scalar(window_bits as nat, window as nat, digit as nat);
                let next = entry_scalar(window_bits as nat, window as nat, (digit + 1) as nat);
                lemma_entry_scalar(window_bits as nat, window as nat, digit as nat);
                lemma_entry_scalar(window_bits as nat, window as nat, (digit + 1) as nat);
                assert(next == here + unit) by (nonlinear_arith)
                    requires
                        next == (digit + 1) * unit,
                        here == digit * unit,
                ;
                vstd::arithmetic::div_mod::lemma_small_mod(next, curve_order());
            }
            entry = match add_points(&entry, &base) {
                Some(sum) => sum,
                None => {
                    return Err(Error::TablePointAddition);
                },
            };
        }
        digit += 1;
    }
    Ok(bytes)
}

/// The whole table: entry `(window, digit)` holds the multiple
/// `digit * 2^(window_bits * window)` of the generator.
pub fn build_table(window_bits: u8) -> (r: Result<Vec<u8>, Error>)
    requires
        table_fits(window_bits as nat),
    ensures
        r matches Ok(bytes) && bytes@ == table_rows(
            window_bits as nat,
            window_count(window_bits as nat),
        ),
{
    let windows: usize = 256 / window_bits as usize;
    let mut bytes: Vec<u8> = Vec::new();
    let mut window: usize = 0;
    while window < windows
        invariant
            table_fits(window_bits as nat),
            windows == window_count(window_bits as nat),
            window <= windows,
            bytes@ == table_rows(window_bits as nat, window as nat),
        decreases windows - window,
    {
        let mut row: Vec<u8> = build_window(window_bits, window)?;
        bytes.append(&mut row);
        window += 1;
    }
    Ok(bytes)
}

/// The 64 bytes of the entry at `index`.
pub open spec fn entry_at(bytes: Seq<u8>, index: nat) -> Seq<u8> {
    bytes.subrange(64 * index as int, 64 * index as int + 64)
}

/// A window's entries stand one after the other, 64 bytes each.
pub proof fn lemma_row(window_bits: nat, window: nat, digits: nat, digit: nat)
    ensures
        table_row(window_bits, window, digits).len() == 64 * digits,
        digit < digits ==> entry_at(
            table_row(window_bits, window, digits),
            digit,
        ) == table_entry(window_bits, window, digit),
    decreases digits,
{
    if digits > 0 {
        let last = (digits - 1) as nat;
        lemma_row(window_bits, window, last, digit);
        let row = table_row(window_bits, window, digits);
        let before = table_row(window_bits, window, last);
        if digit < last {
            assert(entry_at(row, digit) =~= entry_at(before, digit));
        } else if digit == last {
            assert(entry_at(row, digit) =~= table_entry(window_bits, window, digit));
        }
    }
}

/// The first `windows` windows take so many bytes, and every entry among them
/// stands at its place.
pub proof fn lemma_rows(window_bits: nat, windows: nat, window: nat, digit: nat)
    ensures
        table_rows(window_bits, windows).len() == 64 * (windows * pow2(window_bits)),
        window < windows && digit < pow2(window_bits) ==> entry_at(
            table_rows(window_bits, windows),
            window * pow2(window_bits) + digit,
        ) == table_entry(window_bits, window, digit),
    decreases windows,
{
    let radix = pow2(window_bits);
    if windows == 0 {
        assert(windows * radix == 0) by (nonlinear_arith)
            requires
                windows == 0,
        ;
    } else {
        let last = (windows - 1) as nat;
        lemma_rows(window_bits, last, window, digit);
        lemma_row(window_bits, last, radix, digit);
        assert(windows * radix == last * radix + radix) by (nonlinear_arith)
            requires
                windows == last + 1,
        ;
        let at = window * radix + digit;
        let rows = table_rows(window_bits, windows);
        let before = table_rows(window_bits, last);
        let row = table_row(window_bits, last, radix);
        if window < last && digit < radix {
            assert(window * radix + digit + 1 <= last * radix) by (nonlinear_arith)
                requires
                    window + 1 <= last,
                    digit < radix,
            ;
            assert(window * radix >= 0) by (nonlinear_arith);
            assert(entry_at(rows, at) =~= entry_at(before, at));
        } else if window == last && digit < radix {
            assert(entry_at(rows, at) =~= entry_at(row, digit));
        }
    }
}

/// The table holds `digit * 2^(window_bits * window)` times the generator at
/// digit `digit` of window `window`, zero at digit zero, and nothing else.
pub proof fn law_table_entries(window_bits: nat, window: nat, digit: nat)
    requires
        0 < window_bits,
        window < window_count(window_bits),
        digit < pow2(window_bits),
    ensures
        table_rows(window_bits, window_count(window_bits)).len() == table_size(window_bits),
        entry_at(
            table_rows(window_bits, window_count(window_bits)),
            window * pow2(window_bits) + digit,
        ) == table_entry(window_bits, window, digit),
{
    lemma_rows(window_bits, window_count(window_bits), window, digit);
}

}
