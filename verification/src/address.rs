//! Ethereum addresses: the CPU reference derivation that everything else is
//! checked against.
use crate::error::Error;
use crate::scalar::SecretKey;
use vstd::prelude::*;

verus! {

use crate::scalar::{be_value, is_scalar};

/// The 20 bytes of an Ethereum address.
pub type Address = [u8; 20];

/// The uncompressed public key of a scalar: `0x04`, then both coordinates of
/// the scalar's multiple of the generator, as libsecp256k1 serializes it.
pub uninterp spec fn public_key_bytes(scalar: nat) -> Seq<u8>;

/// The Keccak-256 digest of a byte string.
pub uninterp spec fn keccak256(input: Seq<u8>) -> Seq<u8>;

/// The address of the 64 coordinate bytes of a public key.
pub open spec fn address_of_public(public: Seq<u8>) -> Seq<u8> {
    keccak256(public).subrange(12, 32)
}

/// The address that a scalar controls.
pub open spec fn address_of(scalar: nat) -> Seq<u8> {
    address_of_public(public_key_bytes(scalar).subrange(1, 65))
}

/// `secp256k1::PublicKey::from_secret_key_global` followed by
/// `PublicKey::serialize_uncompressed`. The result is a function of the scalar
/// alone, and is named `public_key_bytes`. Only scalars in range are passed,
/// which the crate accepts.
#[verifier::external_body]
pub(crate) fn public_key(scalar: &[u8; 32]) -> (r: [u8; 65])
    requires
        is_scalar(be_value(scalar@)),
    ensures
        r@ == public_key_bytes(be_value(scalar@)),
{
    let key = secp256k1::SecretKey::from_byte_array(*scalar).expect("scalar in range");
    secp256k1::PublicKey::from_secret_key_global(&key).serialize_uncompressed()
}

/// `tiny_keccak::Keccak::v256`, fed the whole input and finalized into 32
/// bytes. The digest is a function of the input alone, and is named
/// `keccak256`.
#[verifier::external_body]
fn keccak_digest(input: &[u8]) -> (r: [u8; 32])
    ensures
        r@ == keccak256(input@),
{
    let mut digest = [0u8; 32];
    let mut hasher = tiny_keccak::Keccak::v256();
    tiny_keccak::Hasher::update(&mut hasher, input);
    tiny_keccak::Hasher::finalize(hasher, &mut digest);
    digest
}

/// The last 20 bytes of the digest of a public key's coordinates.
pub fn address_from_public_key(public: &[u8]) -> (r: Address)
    ensures
        r@ == address_of_public(public@),
{
    let digest: [u8; 32] = keccak_digest(public);
    let mut address: Address = [0; 20];
    let mut i: usize = 0;
    while i < 20
        invariant
            i <= 20,
            forall|k: int| 0 <= k < i ==> address@[k] == digest@[12 + k],
        decreases 20 - i,
    {
        address[i] = digest[12 + i];
        i += 1;
    }
    assert(address@ =~= digest@.subrange(12, 32));
    address
}

/// The address that `key` controls.
pub fn derive_address(key: &SecretKey) -> (r: Address)
    ensures
        r@ == address_of(key@),
{
    let public: [u8; 65] = public_key(&key.secret_bytes());
    address_from_public_key(vstd::slice::slice_subrange(&public, 1, 65))
}

/// Whether `address` is the one that `key` controls. Never mentions the key
/// in what it returns.
pub fn verify_address(key: &SecretKey, address: &Address) -> (r: Result<(), Error>)
    ensures
        r is Ok <==> address@ == address_of(key@),
        r matches Err(e) ==> e == Error::AddressMismatch,
{
    let expected: Address = derive_address(key);
    let mut i: usize = 0;
    while i < 20
        invariant
            i <= 20,
            expected@ == address_of(key@),
            forall|k: int| 0 <= k < i ==> expected@[k] == address@[k],
        decreases 20 - i,
    {
        if expected[i] != address[i] {
            return Err(Error::AddressMismatch);
        }
        i += 1;
    }
    assert(expected@ =~= address@);
    Ok(())
}

}
