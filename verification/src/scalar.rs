//! Secret scalars of secp256k1 and big-endian byte arithmetic on them.
use crate::error::Error;
use vstd::prelude::*;

verus! {

/// The number that `bytes` spells, most significant byte first.
pub open spec fn be_value(bytes: Seq<u8>) -> nat
    decreases bytes.len(),
{
    if bytes.len() == 0 {
        0
    } else {
        be_value(bytes.drop_last()) * 256 + bytes.last() as nat
    }
}

/// The `len` low bytes of `value`, most significant byte first.
pub open spec fn be_bytes(value: nat, len: nat) -> Seq<u8>
    decreases len,
{
    if len == 0 {
        Seq::empty()
    } else {
        be_bytes(value / 256, (len - 1) as nat).push((value % 256) as u8)
    }
}

/// 256 to the power `exponent`.
pub open spec fn pow256(exponent: nat) -> nat
    decreases exponent,
{
    if exponent == 0 {
        1
    } else {
        256 * pow256((exponent - 1) as nat)
    }
}

/// The order of the secp256k1 group.
pub open spec fn curve_order() -> nat {
    0xffffffff_ffffffff_ffffffff_fffffffe_baaedce6_af48a03b_bfd25e8c_d0364141nat
}

/// Whether `value` is a secret scalar: not zero and below the curve order.
pub open spec fn is_scalar(value: nat) -> bool {
    0 < value < curve_order()
}

/// A secret scalar, held as 32 big-endian bytes. Its view is the number.
#[derive(Clone, Copy, PartialEq, Eq)]
pub struct SecretKey {
    bytes: [u8; 32],
}

impl View for SecretKey {
    type V = nat;

    closed spec fn view(&self) -> nat {
        be_value(self.bytes@)
    }
}

impl SecretKey {
    /// The bytes spell a scalar.
    #[verifier::type_invariant]
    pub closed spec fn in_range(self) -> bool {
        is_scalar(be_value(self.bytes@))
    }

    /// What the invariant says of the key's number.
    pub proof fn lemma_in_range(self)
        requires
            self.in_range(),
        ensures
            is_scalar(self@),
    {
    }

    /// The key whose big-endian encoding is `bytes`.
    pub fn from_byte_array(bytes: [u8; 32]) -> (r: Result<SecretKey, Error>)
        ensures
            r is Ok <==> is_scalar(be_value(bytes@)),
            r matches Ok(key) ==> key@ == be_value(bytes@),
            r matches Err(e) ==> e == Error::InvalidScalar,
    {
        if scalar_in_range(&bytes) {
            Ok(SecretKey { bytes })
        } else {
            Err(Error::InvalidScalar)
        }
    }

    /// The 32 big-endian bytes of the scalar.
    pub fn secret_bytes(&self) -> (r: [u8; 32])
        ensures
            be_value(r@) == self@,
            r@ == be_bytes(self@, 32),
            is_scalar(self@),
    {
        proof {
            use_type_invariant(self);
            lemma_be_bytes_of_value(self.bytes@);
        }
        self.bytes
    }

    /// Overwrites the scalar, as far as that can be done: the number becomes
    /// that of 32 bytes of one, and the compiler is asked to keep the write.
    pub fn non_secure_erase(&mut self)
        ensures
            final(self)@ == erased_scalar(),
    {
        proof {
            lemma_erased_scalar();
        }
        let mut ones: [u8; 32] = [0; 32];
        let mut i: usize = 0;
        while i < 32
            invariant
                i <= 32,
                forall|k: int| 0 <= k < i ==> ones@[k] == 1,
            decreases 32 - i,
        {
            ones[i] = 1;
            i += 1;
        }
        proof {
            assert(ones@ =~= erased_bytes());
            assert(is_scalar(be_value(ones@)));
        }
        *self = SecretKey { bytes: ones };
        keep_write(&self.bytes);
    }
}

/// The bytes of an erased key.
pub open spec fn erased_bytes() -> Seq<u8> {
    Seq::new(32, |i: int| 1u8)
}

/// The number that an erased key holds.
pub open spec fn erased_scalar() -> nat {
    be_value(erased_bytes())
}

/// A key is its number: two keys with the same number are the same.
pub proof fn law_key_is_its_number(a: SecretKey, b: SecretKey)
    requires
        a@ == b@,
    ensures
        a == b,
{
    lemma_be_bytes_of_value(a.bytes@);
    lemma_be_bytes_of_value(b.bytes@);
    assert(a.bytes =~= b.bytes);
}

/// The number that an erased key holds is a scalar.
proof fn lemma_erased_scalar()
    ensures
        is_scalar(erased_scalar()),
{
    let ones = erased_bytes();
    let rest = ones.subrange(1, 32);
    assert(ones.len() == 32 && ones[0] == 1 && rest.len() == 31);
    lemma_be_value_lead(ones);
    lemma_be_value_bound(rest);
    assert(0 < 2 * pow256(31) < curve_order()) by {
        reveal_with_fuel(pow256, 32);
    }
}

/// `std::hint::black_box` on the bytes, so that writing them is not taken for
/// dead. It gives nothing back that is used.
#[verifier::external_body]
fn keep_write(bytes: &[u8; 32]) {
    std::hint::black_box(bytes);
}

/// `secp256k1::SecretKey::from_byte_array`, asked only whether it accepts the
/// bytes. It does exactly when they spell a number that is neither zero nor
/// as large as the curve order.
#[verifier::external_body]
fn scalar_in_range(bytes: &[u8; 32]) -> (r: bool)
    ensures
        r == is_scalar(be_value(bytes@)),
{
    secp256k1::SecretKey::from_byte_array(*bytes).is_ok()
}

/// `secp256k1::constants::CURVE_ORDER`: the group order as 32 big-endian bytes.
#[verifier::external_body]
pub(crate) fn curve_order_bytes() -> (r: [u8; 32])
    ensures
        be_value(r@) == curve_order(),
{
    secp256k1::constants::CURVE_ORDER
}

/// Overwrites 32 bytes with zeros.
pub fn wipe(bytes: &mut [u8; 32])
    ensures
        final(bytes)@ == Seq::new(32, |i: int| 0u8),
{
    wipe_slice(bytes)
}

/// `zeroize::Zeroize::zeroize` on a slice of bytes: every byte becomes zero.
#[verifier::external_body]
pub(crate) fn wipe_slice(bytes: &mut [u8])
    ensures
        final(bytes)@ == Seq::new(old(bytes)@.len(), |i: int| 0u8),
{
    zeroize::Zeroize::zeroize(bytes)
}

/// Encoding the value of a byte string at its own length gives it back.
pub proof fn lemma_be_bytes_of_value(bytes: Seq<u8>)
    ensures
        be_bytes(be_value(bytes), bytes.len()) == bytes,
    decreases bytes.len(),
{
    if bytes.len() > 0 {
        let head = bytes.drop_last();
        lemma_be_bytes_of_value(head);
        let low = bytes.last() as nat;
        let value = be_value(head) * 256 + low;
        assert(value / 256 == be_value(head) && value % 256 == low);
        assert(be_bytes(value, bytes.len()) =~= head.push(bytes.last()));
        assert(head.push(bytes.last()) =~= bytes);
    } else {
        assert(be_bytes(0, 0) =~= bytes);
    }
}

/// A number below `256^len` is the value of its `len`-byte encoding.
pub proof fn lemma_value_of_be_bytes(value: nat, len: nat)
    requires
        value < pow256(len),
    ensures
        be_bytes(value, len).len() == len,
        be_value(be_bytes(value, len)) == value,
    decreases len,
{
    if len > 0 {
        let shorter = (len - 1) as nat;
        assert(value / 256 < pow256(shorter));
        lemma_value_of_be_bytes(value / 256, shorter);
        let bytes = be_bytes(value, len);
        assert(bytes.drop_last() =~= be_bytes(value / 256, shorter));
        assert(bytes.last() == (value % 256) as u8);
    }
}

/// Replacing byte `i` moves the value by the byte's change at its place.
pub proof fn lemma_be_value_update(bytes: Seq<u8>, i: int, byte: u8)
    requires
        0 <= i < bytes.len(),
    ensures
        be_value(bytes.update(i, byte)) == be_value(bytes) + (byte - bytes[i]) * pow256(
            (bytes.len() - 1 - i) as nat,
        ),
    decreases bytes.len(),
{
    let last = bytes.len() - 1;
    let changed = bytes.update(i, byte);
    if i == last {
        assert(changed.drop_last() =~= bytes.drop_last());
        assert(pow256(0) == 1);
        let delta = byte - bytes[i];
        assert(delta * 1 == delta);
    } else {
        lemma_be_value_update(bytes.drop_last(), i, byte);
        assert(changed.drop_last() =~= bytes.drop_last().update(i, byte));
        assert(changed.last() == bytes.last());
        let place = pow256((last - 1 - i) as nat) as int;
        let delta = byte - bytes[i];
        assert((delta * place) * 256 == delta * (256 * place)) by (nonlinear_arith);
        assert(pow256((last - i) as nat) == 256 * place);
    }
}

/// A byte string is worth less than 256 to its length.
pub proof fn lemma_be_value_bound(bytes: Seq<u8>)
    ensures
        be_value(bytes) < pow256(bytes.len()),
    decreases bytes.len(),
{
    if bytes.len() > 0 {
        lemma_be_value_bound(bytes.drop_last());
    }
}

/// A leading part of a byte string is worth no more than the whole.
pub proof fn lemma_be_value_prefix(bytes: Seq<u8>, len: int)
    requires
        0 <= len <= bytes.len(),
    ensures
        be_value(bytes.take(len)) <= be_value(bytes),
    decreases bytes.len(),
{
    if len == bytes.len() {
        assert(bytes.take(len) =~= bytes);
    } else {
        lemma_be_value_prefix(bytes.drop_last(), len);
        assert(bytes.take(len) =~= bytes.drop_last().take(len));
    }
}

/// The first byte of a byte string counts at the highest place.
pub proof fn lemma_be_value_lead(bytes: Seq<u8>)
    requires
        bytes.len() > 0,
    ensures
        be_value(bytes) == bytes[0] * pow256((bytes.len() - 1) as nat) + be_value(
            bytes.subrange(1, bytes.len() as int),
        ),
    decreases bytes.len(),
{
    let len = bytes.len() as int;
    let rest = bytes.subrange(1, len);
    if len == 1 {
        assert(bytes.drop_last() =~= Seq::<u8>::empty());
        assert(rest =~= Seq::<u8>::empty());
        assert(pow256(0) == 1);
        assert(bytes[0] * 1 == bytes[0] as int);
    } else {
        let head = bytes.drop_last();
        lemma_be_value_lead(head);
        assert(head.subrange(1, len - 1) =~= rest.drop_last());
        let place = pow256((len - 2) as nat) as int;
        assert(pow256((len - 1) as nat) == 256 * place);
        assert(bytes[0] * place * 256 == bytes[0] * (256 * place)) by (nonlinear_arith);
    }
}

/// A byte string of zeros is worth nothing.
pub proof fn lemma_be_value_zeros(bytes: Seq<u8>)
    requires
        forall|i: int| 0 <= i < bytes.len() ==> bytes[i] == 0,
    ensures
        be_value(bytes) == 0,
    decreases bytes.len(),
{
    if bytes.len() > 0 {
        lemma_be_value_zeros(bytes.drop_last());
    }
}

/// The curve order fits in 32 bytes, with room for any machine-word offset.
pub proof fn lemma_curve_order_room()
    ensures
        curve_order() + 0xffff_ffff_ffff_ffff < pow256(32),
{
    reveal_with_fuel(pow256, 33);
}

/// `start + offset` as a scalar, or `None` when the sum leaves the range.
pub fn offset_secret_key(start: &SecretKey, offset: usize) -> (r: Option<SecretKey>)
    ensures
        r is Some <==> start@ + offset < curve_order(),
        r matches Some(key) ==> key@ == start@ + offset,
{
    let mut bytes: [u8; 32] = start.secret_bytes();
    let mut carry: u64 = offset as u64;
    let mut place: usize = 32;
    assert(carry * pow256(0) == carry) by {
        assert(pow256(0) == 1);
        assert(carry * 1 == carry);
    }
    while place > 0 && carry != 0
        invariant
            place <= 32,
            be_value(bytes@) + carry * pow256((32 - place) as nat) == start@ + offset,
        decreases place,
    {
        let i: usize = place - 1;
        let byte: u8 = bytes[i];
        let sum: u64 = byte as u64 + carry % 256;
        let low: u8 = (sum % 256) as u8;
        let next: u64 = carry / 256 + sum / 256;
        proof {
            let unit = pow256((32 - place) as nat) as int;
            lemma_be_value_update(bytes@, i as int, low);
            assert(pow256((32 - i) as nat) == 256 * unit);
            assert(byte + carry == low + 256 * next);
            assert((low - byte) * unit + next * (256 * unit) == carry * unit) by (nonlinear_arith)
                requires
                    byte + carry == low + 256 * next,
            ;
        }
        bytes[i] = low;
        carry = next;
        place = i;
    }
    if carry != 0 {
        proof {
            lemma_curve_order_room();
            assert(carry * pow256(32) >= pow256(32)) by (nonlinear_arith)
                requires
                    carry >= 1,
            ;
        }
        return None;
    }
    match SecretKey::from_byte_array(bytes) {
        Ok(key) => Some(key),
        Err(_) => None,
    }
}

/// The next scalar, or `None` when adding one leaves the range.
pub fn increment_secret_key(key: &SecretKey) -> (r: Option<SecretKey>)
    ensures
        r is Some <==> key@ + 1 < curve_order(),
        r matches Some(next) ==> next@ == key@ + 1,
{
    offset_secret_key(key, 1)
}

/// A key read back from its own bytes is the same number, and is accepted.
pub proof fn law_key_bytes_round_trip(scalar: nat)
    requires
        is_scalar(scalar),
    ensures
        be_bytes(scalar, 32).len() == 32,
        be_value(be_bytes(scalar, 32)) == scalar,
        is_scalar(be_value(be_bytes(scalar, 32))),
{
    lemma_curve_order_room();
    lemma_value_of_be_bytes(scalar, 32);
}

}
