//! Keys as numbers, the chains they form and the addresses they control.
use crate::address::{address_from_public_key, derive_address, verify_address, Address};
use crate::chain::{
    chain_count, chain_key, chain_start_accepted, chain_starts, check_chain_batch,
    expand_chain_keys,
};
use crate::error::Error;
use crate::scalar::{increment_secret_key, offset_secret_key, SecretKey};
use vstd::arithmetic::div_mod::lemma_fundamental_div_mod_converse;
use vstd::prelude::*;

verus! {

use crate::address::{keccak256, public_key_bytes};
use crate::chain::{
    chain_len, chain_scalar, chains_for, expanded_keys, law_expanded_key_at, lemma_index_in_chain,
};
use crate::laws::digits::{lemma_number_of_bytes, number_in};
use crate::launch::law_chains_cover;
use crate::scalar::{
    erased_bytes, is_scalar, lemma_curve_order_room, lemma_value_of_be_bytes, pow256,
};

/// The number of points of the secp256k1 group.
pub open spec fn group_order() -> nat {
    0xffffffff_ffffffff_ffffffff_fffffffe_baaedce6_af48a03b_bfd25e8c_d0364141nat
}

/// The scalars of a chain: as many as the stride says, and at least one.
pub open spec fn scalars_per_chain(stride: usize) -> nat {
    if stride > 1 {
        stride as nat
    } else {
        1
    }
}

/// Bytes make a key exactly when they spell a number that is neither zero nor
/// as large as the group order, and the key is that number.
pub proof fn law_bytes_make_a_key(bytes: [u8; 32], r: Result<SecretKey, Error>)
    requires
        call_ensures(SecretKey::from_byte_array, (bytes,), r),
    ensures
        r is Ok <==> 0 < number_in(256, bytes@) < group_order(),
        r matches Ok(key) ==> key@ == number_in(256, bytes@),
{
    lemma_number_of_bytes(bytes@);
}

/// A key gives the bytes that spell it, and they make the same key.
pub proof fn law_key_gives_its_bytes(key: &SecretKey, bytes: [u8; 32], r: Result<SecretKey, Error>)
    requires
        call_ensures(SecretKey::secret_bytes, (key,), bytes),
        call_ensures(SecretKey::from_byte_array, (bytes,), r),
    ensures
        number_in(256, bytes@) == key@,
        r matches Ok(again) && again@ == key@,
{
    lemma_number_of_bytes(bytes@);
}

/// An erased key holds nothing of what it was: 32 bytes of one.
pub proof fn law_erased_key_tells_nothing(ones: Seq<u8>)
    requires
        ones.len() == 32,
        forall|i: int| 0 <= i < 32 ==> ones[i] == 1,
    ensures
        forall|key: &mut SecretKey| #[trigger]
            call_ensures(SecretKey::non_secure_erase, (key,), ()) ==> final(key)@ == number_in(
                256,
                ones,
            ),
{
    lemma_number_of_bytes(ones);
    assert(ones =~= erased_bytes());
}

/// An offset is added to the number of a key, where the sum is below the group
/// order.
pub proof fn law_offset_is_added(start: &SecretKey, offset: usize, r: Option<SecretKey>)
    requires
        call_ensures(offset_secret_key, (start, offset), r),
    ensures
        r is Some <==> start@ + offset < group_order(),
        r matches Some(key) ==> key@ == start@ + offset,
{
}

/// Two offsets one after the other are their sum.
pub proof fn law_offsets_add_up(
    start: &SecretKey,
    a: usize,
    b: usize,
    first: SecretKey,
    second: Option<SecretKey>,
    at_once: Option<SecretKey>,
)
    requires
        a + b <= usize::MAX,
        call_ensures(offset_secret_key, (start, a), Some(first)),
        call_ensures(offset_secret_key, (&first, b), second),
        call_ensures(offset_secret_key, (start, (a + b) as usize), at_once),
    ensures
        match (second, at_once) {
            (Some(x), Some(y)) => x@ == y@,
            (None, None) => true,
            _ => false,
        },
{
}

/// The next key is one more.
pub proof fn law_increment_adds_one(key: &SecretKey, r: Option<SecretKey>)
    requires
        call_ensures(increment_secret_key, (key,), r),
    ensures
        match r {
            Some(next) => next@ == key@ + 1 && next@ < group_order(),
            None => key@ + 1 >= group_order(),
        },
{
}

/// So many chains cover the addresses, and no smaller number does.
pub proof fn law_chain_count_is_least(count: usize, stride: usize, r: usize, enough: nat)
    requires
        call_ensures(chain_count, (count, stride), r),
    ensures
        r * scalars_per_chain(stride) >= count,
        enough * scalars_per_chain(stride) >= count ==> enough >= r,
{
    law_chains_cover(count as nat, stride as nat);
    let len = scalars_per_chain(stride);
    assert(len == chain_len(stride as nat));
    if enough * len >= count && enough < r {
        if count > 0 {
            assert(enough * len <= (r - 1) * len) by (nonlinear_arith)
                requires
                    enough <= r - 1,
                    len > 0,
            ;
        } else {
            assert(chains_for(0, stride as nat) == 0) by {
                vstd::arithmetic::div_mod::lemma_basic_div(len - 1, len as int);
            }
        }
    }
}

/// A batch is complete exactly when its starts are as many as there are chains.
pub proof fn law_batch_has_its_starts(
    keys: &[SecretKey],
    count: usize,
    stride: usize,
    r: Result<(), Error>,
    chains: usize,
)
    requires
        call_ensures(check_chain_batch, (keys, count, stride), r),
        call_ensures(chain_count, (count, stride), chains),
    ensures
        r is Ok <==> keys@.len() == chains,
{
}

/// The key of an address is the start of its chain and its place in it.
pub proof fn law_chain_key_counts_from_its_start(
    starts: &[SecretKey],
    stride: usize,
    index: usize,
    r: Result<SecretKey, Error>,
    chain: nat,
    step: nat,
)
    requires
        call_ensures(chain_key, (starts, stride, index), r),
        index == chain * scalars_per_chain(stride) + step,
        step < scalars_per_chain(stride),
    ensures
        chain >= starts@.len() ==> r == Err::<SecretKey, Error>(Error::IndexOutsideBatch),
        chain < starts@.len() ==> match r {
            Ok(key) => key@ == starts@[chain as int]@ + step && key@ < group_order(),
            Err(e) => e == Error::ChainLeavesRange && starts@[chain as int]@ + step
                >= group_order(),
        },
{
    lemma_place(index as nat, stride, chain, step);
}

/// Where an address stands in its chain.
pub proof fn lemma_place(index: nat, stride: usize, chain: nat, step: nat)
    requires
        index == chain * scalars_per_chain(stride) + step,
        step < scalars_per_chain(stride),
    ensures
        scalars_per_chain(stride) == chain_len(stride as nat),
        index / chain_len(stride as nat) == chain,
        index % chain_len(stride as nat) == step,
{
    let len = scalars_per_chain(stride) as int;
    lemma_fundamental_div_mod_converse(index as int, len, chain as int, step as int);
}

/// A start is accepted exactly when no addition along the chain is a doubling
/// or comes to infinity.
pub proof fn law_accepted_start(start: &SecretKey, len: usize, r: bool)
    requires
        is_scalar(start@),
        call_ensures(chain_start_accepted, (start, len), r),
    ensures
        r <==> forall|i: nat|
            0 < i < len ==> start@ != i && #[trigger] (start@ + i) != group_order(),
{
    if len > 1 && !r {
        if start@ < len {
            let i = start@;
            assert(0 < i < len && start@ + i == start@ + start@);
        } else {
            let i = (group_order() - start@) as nat;
            assert(0 < i < len && start@ + i == group_order());
        }
    }
}

/// The starts of a list are every so many keys of it, from the first on, as long
/// as there are any.
pub proof fn law_starts_are_taken_from_the_list(
    keys: &[SecretKey],
    stride: usize,
    r: Vec<SecretKey>,
    chain: nat,
)
    requires
        call_ensures(chain_starts, (keys, stride), r),
    ensures
        chain < r@.len() <==> chain * scalars_per_chain(stride) < keys@.len(),
        chain < r@.len() ==> r@[chain as int] == keys@[(chain * scalars_per_chain(stride)) as int],
{
    let len = scalars_per_chain(stride);
    let count = keys@.len();
    law_chains_cover(count, stride as nat);
    assert(len == chain_len(stride as nat));
    let chains = r@.len();
    assert(chains == chains_for(count, stride as nat));
    if chain < chains {
        crate::chain::lemma_chain_begins_inside(count, len, chain);
    } else {
        assert(chain * len >= count) by (nonlinear_arith)
            requires
                chain >= chains,
                chains * len >= count,
                len > 0,
        ;
    }
}

/// Expanding writes, at the 32 bytes of each address, the start of its chain and
/// its place in it; the bytes behind stay as they were.
pub proof fn law_expanded_keys_stand_in_order(
    starts: &[SecretKey],
    stride: usize,
    count: usize,
    chain: nat,
    step: nat,
)
    requires
        chain * scalars_per_chain(stride) + step < count,
        step < scalars_per_chain(stride),
        forall|i: int| 0 <= i < starts@.len() ==> is_scalar((#[trigger] starts@[i])@),
    ensures
        forall|destination: &mut [u8], r: Result<(), Error>| #[trigger]
            call_ensures(
                expand_chain_keys,
                (starts, stride, count, destination),
                r,
            ) && r is Ok ==> {
                let at = 32 * (chain * scalars_per_chain(stride) + step) as int;
                &&& final(destination)@.len() == destination@.len()
                &&& destination@.len() >= 32 * count
                &&& number_in(256, final(destination)@.subrange(at, at + 32))
                    == starts@[chain as int]@ + step
                &&& forall|k: int|
                    32 * count <= k < destination@.len() ==> final(destination)@[k]
                        == #[trigger] destination@[k]
            },
{
    let index = (chain * scalars_per_chain(stride) + step) as nat;
    let at = 32 * index as int;
    let s = stride as nat;
    let n = count as nat;
    lemma_place(index, stride, chain, step);
    lemma_curve_order_room();
    if starts@.len() == chains_for(n, s) {
        assert forall|j: nat| j < count implies chain_scalar(starts@, s, j) < pow256(32) by {
            lemma_index_in_chain(n, chain_len(s), j);
            vstd::arithmetic::div_mod::lemma_mod_bound(j as int, chain_len(s) as int);
            let chain = (j / chain_len(s)) as int;
            vstd::arithmetic::div_mod::lemma_div_pos_is_pos(j as int, chain_len(s) as int);
            assert(is_scalar(starts@[chain]@));
        }
        law_expanded_key_at(starts@, s, n, index);
        let bytes = expanded_keys(starts@, s, n);
        lemma_value_of_be_bytes(chain_scalar(starts@, s, index), 32);
        lemma_number_of_bytes(bytes.subrange(at, at + 32));
        assert forall|destination: &mut [u8], r: Result<(), Error>| #[trigger]
            call_ensures(
                expand_chain_keys,
                (starts, stride, count, destination),
                r,
            ) && r is Ok implies ({
            &&& final(destination)@.len() == destination@.len()
            &&& destination@.len() >= 32 * count
            &&& number_in(256, final(destination)@.subrange(at, at + 32))
                == starts@[chain as int]@ + step
            &&& forall|k: int|
                32 * count <= k < destination@.len() ==> final(destination)@[k]
                    == #[trigger] destination@[k]
        }) by {
            assert(final(destination)@.subrange(at, at + 32) =~= bytes.subrange(at, at + 32));
        }
    }
}

/// An address is the last twenty bytes of the digest of a public key.
pub proof fn law_address_ends_the_digest(public: &[u8], r: Address, k: int)
    requires
        call_ensures(address_from_public_key, (public,), r),
        0 <= k < 20,
        keccak256(public@).len() == 32,
    ensures
        r@[r@.len() - 1 - k] == keccak256(public@)[31 - k],
{
}

/// The address of a key comes from the two coordinates of its public key,
/// without the byte before them.
pub proof fn law_address_comes_from_the_coordinates(
    key: &SecretKey,
    public: &[u8],
    derived: Address,
    hashed: Address,
)
    requires
        call_ensures(derive_address, (key,), derived),
        call_ensures(address_from_public_key, (public,), hashed),
        public_key_bytes(key@).len() == 65,
        public@.len() == 64,
        forall|i: int| 0 <= i < 64 ==> public@[i] == public_key_bytes(key@)[i + 1],
    ensures
        derived@ == hashed@,
{
    assert(public@ =~= public_key_bytes(key@).subrange(1, 65));
}

/// An address is confirmed exactly when it is the one that the key gives.
pub proof fn law_only_the_derived_address_is_confirmed(
    key: &SecretKey,
    derived: Address,
    address: &Address,
    r: Result<(), Error>,
)
    requires
        call_ensures(derive_address, (key,), derived),
        call_ensures(verify_address, (key, address), r),
    ensures
        r is Ok <==> forall|i: int| 0 <= i < 20 ==> address@[i] == derived@[i],
{
    if forall|i: int| 0 <= i < 20 ==> address@[i] == derived@[i] {
        assert(address@ =~= derived@);
    }
}

}
