//! Chains of consecutive scalars. A batch holds one start per chain; address
//! `j` of the batch belongs to `starts[j / stride] + j % stride`.
use crate::error::Error;
use crate::scalar::{offset_secret_key, wipe, SecretKey};
use vstd::arithmetic::div_mod::{lemma_fundamental_div_mod, lemma_fundamental_div_mod_converse};
use vstd::arithmetic::mul::lemma_mul_is_commutative;
use vstd::prelude::*;

verus! {

use crate::scalar::{
    be_bytes, be_value, curve_order, is_scalar, lemma_be_bytes_of_value, lemma_be_value_bound,
    lemma_be_value_prefix, lemma_be_value_update, lemma_curve_order_room, lemma_value_of_be_bytes,
    pow256,
};

/// The chain length that `stride` stands for: at least one.
pub open spec fn chain_len(stride: nat) -> nat {
    if stride == 0 {
        1
    } else {
        stride
    }
}

/// The chains that cover `count` addresses, the last one possibly shorter.
pub open spec fn chains_for(count: nat, stride: nat) -> nat {
    (count + chain_len(stride) - 1) as nat / chain_len(stride)
}

/// The scalar of address `index` in a batch of chain starts.
pub open spec fn chain_scalar(starts: Seq<SecretKey>, stride: nat, index: nat) -> nat {
    starts[(index / chain_len(stride)) as int]@ + index % chain_len(stride)
}

/// Chain starts needed for `count` addresses when every chain covers `stride`
/// consecutive scalars.
pub fn chain_count(count: usize, stride: usize) -> (r: usize)
    ensures
        r == chains_for(count as nat, stride as nat),
{
    let len: usize = if stride == 0 { 1 } else { stride };
    let whole: usize = count / len;
    let rest: usize = count % len;
    proof {
        lemma_fundamental_div_mod(count as int, len as int);
        lemma_mul_is_commutative(len as int, whole as int);
        let padded = count + len - 1;
        if rest == 0 {
            lemma_fundamental_div_mod_converse(padded, len as int, whole as int, len - 1);
        } else {
            assert((whole + 1) * len == whole * len + len) by (nonlinear_arith);
            lemma_fundamental_div_mod_converse(padded, len as int, whole + 1, rest - 1);
            assert(whole + 1 <= count) by (nonlinear_arith)
                requires
                    count == whole * len + rest,
                    rest >= 1,
                    len >= 1,
            ;
        }
    }
    if rest == 0 {
        whole
    } else {
        whole + 1
    }
}

/// Scalar of address `index`: chain `index / stride` start plus `index % stride`.
pub fn chain_key(starts: &[SecretKey], stride: usize, index: usize) -> (r: Result<SecretKey, Error>)
    ensures
        r matches Ok(key) ==> key@ == chain_scalar(starts@, stride as nat, index as nat),
        r is Ok <==> index as nat / chain_len(stride as nat) < starts@.len()
            && chain_scalar(starts@, stride as nat, index as nat) < curve_order(),
        r == Err::<SecretKey, Error>(Error::IndexOutsideBatch) <==> index as nat / chain_len(
            stride as nat,
        ) >= starts@.len(),
        r matches Err(e) ==> e == Error::IndexOutsideBatch || e == Error::ChainLeavesRange,
{
    let len: usize = if stride == 0 { 1 } else { stride };
    let chain: usize = index / len;
    if chain >= starts.len() {
        return Err(Error::IndexOutsideBatch);
    }
    match offset_secret_key(&starts[chain], index % len) {
        Some(key) => Ok(key),
        None => Err(Error::ChainLeavesRange),
    }
}

/// `keys` must hold exactly one start per chain for `count` addresses.
pub fn check_chain_batch(keys: &[SecretKey], count: usize, stride: usize) -> (r: Result<(), Error>)
    ensures
        r is Ok <==> keys@.len() == chains_for(count as nat, stride as nat),
        r matches Err(e) ==> e == Error::BatchKeyCount,
{
    if keys.len() == chain_count(count, stride) {
        Ok(())
    } else {
        Err(Error::BatchKeyCount)
    }
}

/// Whether a chain of `len` scalars may start at `start`.
pub open spec fn start_accepted(start: nat, len: nat) -> bool {
    len <= 1 || (start >= len && start + len - 1 < curve_order())
}

/// Whether the chain `k, k+1, ..., k+len-1` may start at `start`. Kernels add
/// multiples of the generator with incomplete formulas that fail on doubling
/// (`k = i` for some `0 < i < len`) and on infinity (`k + i = n`). Requiring
/// `k >= len` and `k + len - 1 < n` rules out both. A chain of one scalar adds
/// nothing and may start anywhere.
pub fn chain_start_accepted(start: &SecretKey, len: usize) -> (r: bool)
    ensures
        r == start_accepted(start@, len as nat),
{
    if len <= 1 {
        return true;
    }
    match offset_secret_key(start, len - 1) {
        Some(_) => !scalar_below(start, len),
        None => false,
    }
}

/// Whether the scalar is smaller than `bound`.
fn scalar_below(key: &SecretKey, bound: usize) -> (r: bool)
    ensures
        r == (key@ < bound),
{
    if bound == 0 {
        return false;
    }
    let bytes: [u8; 32] = key.secret_bytes();
    let mut value: u128 = 0;
    let mut i: usize = 0;
    while i < 32
        invariant
            i <= 32,
            value == be_value(bytes@.take(i as int)),
            value < bound,
            be_value(bytes@) == key@,
        decreases 32 - i,
    {
        value = value * 256 + bytes[i] as u128;
        i += 1;
        proof {
            assert(bytes@.take(i as int).drop_last() =~= bytes@.take(i - 1));
            lemma_be_value_prefix(bytes@, i as int);
        }
        if value >= bound as u128 {
            return false;
        }
    }
    assert(bytes@.take(32) =~= bytes@);
    true
}

/// Every start of consecutive `stride`-long chains in a full scalar list.
pub fn chain_starts(keys: &[SecretKey], stride: usize) -> (r: Vec<SecretKey>)
    ensures
        r@.len() == chains_for(keys@.len(), stride as nat),
        forall|i: int| 0 <= i < r@.len() ==> r@[i] == keys@[i * chain_len(stride as nat)],
{
    let len: usize = if stride == 0 { 1 } else { stride };
    let total: usize = chain_count(keys.len(), stride);
    let mut starts: Vec<SecretKey> = Vec::new();
    let mut chain: usize = 0;
    while chain < total
        invariant
            len == chain_len(stride as nat),
            total == chains_for(keys@.len(), stride as nat),
            chain <= total,
            keys@.len() <= usize::MAX,
            starts@.len() == chain,
            forall|i: int| 0 <= i < chain ==> starts@[i] == keys@[i * len],
        decreases total - chain,
    {
        proof {
            lemma_chain_begins_inside(keys@.len(), len as nat, chain as nat);
        }
        starts.push(keys[chain * len]);
        chain += 1;
    }
    starts
}

/// Every chain of a batch begins inside it.
pub proof fn lemma_chain_begins_inside(count: nat, stride: nat, chain: nat)
    requires
        stride > 0,
        chain < chains_for(count, stride),
    ensures
        chain * stride < count,
        chain * stride >= 0,
{
    let padded = (count + stride - 1) as int;
    lemma_fundamental_div_mod(padded, stride as int);
    let chains = padded / stride as int;
    assert(chain * stride + stride <= chains * stride) by (nonlinear_arith)
        requires
            chain + 1 <= chains,
            stride > 0,
    ;
    lemma_mul_is_commutative(stride as int, chains);
    assert(chain * stride >= 0) by (nonlinear_arith);
}

/// One 32-byte scalar per address, for the first `count` addresses.
pub open spec fn expanded_keys(starts: Seq<SecretKey>, stride: nat, count: nat) -> Seq<u8>
    decreases count,
{
    if count == 0 {
        Seq::empty()
    } else {
        expanded_keys(starts, stride, (count - 1) as nat) + be_bytes(
            chain_scalar(starts, stride, (count - 1) as nat),
            32,
        )
    }
}

/// Adds one to a big-endian number in place; `true` when it wrapped to zero.
fn increment_bytes(bytes: &mut [u8; 32]) -> (wrapped: bool)
    ensures
        wrapped == (be_value(old(bytes)@) + 1 == pow256(32)),
        !wrapped ==> be_value(final(bytes)@) == be_value(old(bytes)@) + 1,
{
    let mut place: usize = 32;
    while place > 0
        invariant
            place <= 32,
            be_value(bytes@) + pow256((32 - place) as nat) == be_value(old(bytes)@) + 1,
        decreases place,
    {
        let i: usize = place - 1;
        let byte: u8 = bytes[i];
        let next: u8 = byte.wrapping_add(1);
        let ghost before = bytes@;
        bytes[i] = next;
        proof {
            let unit = pow256((32 - place) as nat) as int;
            lemma_be_value_update(before, i as int, next);
            assert(pow256((32 - i) as nat) == 256 * unit);
            let delta = next - byte;
            assert(delta == if next == 0 { -255int } else { 1int });
            assert(delta * unit == if next == 0 { -255 * unit } else { unit }) by (nonlinear_arith)
                requires
                    delta == if next == 0 { -255int } else { 1int },
            ;
            assert(be_value(bytes@) == be_value(before) + delta * unit);
            lemma_be_value_bound(bytes@);
        }
        if next != 0 {
            return false;
        }
        place = i;
    }
    proof {
        lemma_be_value_bound(old(bytes)@);
    }
    true
}

/// Overwrites 32 bytes of `destination` from `at` on.
fn write_scalar(destination: &mut [u8], at: usize, bytes: &[u8; 32])
    requires
        at + 32 <= old(destination)@.len(),
    ensures
        final(destination)@ == old(destination)@.take(at as int) + bytes@ + old(destination)@.skip(
            at + 32,
        ),
{
    let total: usize = destination.len();
    let mut i: usize = 0;
    while i < 32
        invariant
            i <= 32,
            total == old(destination)@.len(),
            at + 32 <= total,
            destination@ == old(destination)@.take(at as int) + bytes@.take(i as int) + old(
                destination,
            )@.skip(at + i),
        decreases 32 - i,
    {
        destination[at + i] = bytes[i];
        i += 1;
    }
    assert(bytes@.take(32) =~= bytes@);
}

/// The expansion of `count` addresses is `32 * count` bytes long.
pub proof fn lemma_expanded_len(starts: Seq<SecretKey>, stride: nat, count: nat)
    requires
        forall|j: nat| j < count ==> chain_scalar(starts, stride, j) < pow256(32),
    ensures
        expanded_keys(starts, stride, count).len() == 32 * count,
    decreases count,
{
    if count > 0 {
        let last = (count - 1) as nat;
        lemma_expanded_len(starts, stride, last);
        assert(chain_scalar(starts, stride, last) < pow256(32));
        lemma_value_of_be_bytes(chain_scalar(starts, stride, last), 32);
    }
}

/// Every address of a batch lies in one of its chains.
pub proof fn lemma_index_in_chain(count: nat, stride: nat, index: nat)
    requires
        stride > 0,
        index < count,
    ensures
        index / stride < chains_for(count, stride),
{
    let padded = (count + stride - 1) as int;
    let chain = index as int / stride as int;
    let chains = padded / stride as int;
    lemma_fundamental_div_mod(index as int, stride as int);
    lemma_fundamental_div_mod(padded, stride as int);
    if chain >= chains {
        assert(stride * chain >= stride * chains) by (nonlinear_arith)
            requires
                chain >= chains,
                stride > 0,
        ;
    }
}

/// Writes one big-endian 32-byte scalar per address (`count * 32` bytes) from
/// chain starts, for kernels that read a full per-address key layout. Bytes
/// past the scalars stay as they are. A scalar below the curve order leaves
/// room for any chain, so no increment wraps.
pub fn expand_chain_keys(
    starts: &[SecretKey],
    stride: usize,
    count: usize,
    destination: &mut [u8],
) -> (r: Result<(), Error>)
    requires
        count * 32 <= usize::MAX,
    ensures
        final(destination)@.len() == old(destination)@.len(),
        r == Err::<(), Error>(Error::BatchKeyCount) <==> starts@.len() != chains_for(
            count as nat,
            stride as nat,
        ),
        r == Err::<(), Error>(Error::ExpandedBufferTooSmall) <==> starts@.len() == chains_for(
            count as nat,
            stride as nat,
        ) && old(destination)@.len() < count * 32,
        r matches Err(e) ==> (e == Error::BatchKeyCount || e == Error::ExpandedBufferTooSmall)
            && final(destination)@ == old(destination)@,
        r is Ok ==> final(destination)@ == expanded_keys(starts@, stride as nat, count as nat)
            + old(destination)@.skip(count * 32),
        r is Ok && count > 0 ==> exists|spent: &mut [u8; 32]|
            be_value(spent@) == chain_scalar(starts@, stride as nat, (count - 1) as nat)
                && #[trigger] call_ensures(wipe, (spent,), ()),
{
    let len: usize = if stride == 0 { 1 } else { stride };
    check_chain_batch(starts, count, len)?;
    if destination.len() < count * 32 {
        return Err(Error::ExpandedBufferTooSmall);
    }
    let mut current: [u8; 32] = [0; 32];
    let mut chain: usize = 0;
    let mut offset: usize = 0;
    let mut index: usize = 0;
    let ghost initial = destination@;
    assert(initial =~= expanded_keys(starts@, stride as nat, 0) + initial.skip(0));
    assert(chain * len == 0) by (nonlinear_arith)
        requires
            chain == 0,
    ;
    while index < count
        invariant
            len == chain_len(stride as nat),
            starts@.len() == chains_for(count as nat, stride as nat),
            count * 32 <= initial.len(),
            count * 32 <= usize::MAX,
            initial == old(destination)@,
            index <= count,
            chain * len + offset == index,
            offset < len,
            index > 0 ==> be_value(current@) == chain_scalar(
                starts@,
                stride as nat,
                (index - 1) as nat,
            ),
            offset > 0 ==> chain < starts@.len() && be_value(current@) == starts@[chain as int]@
                + offset - 1 && starts@[chain as int]@ < curve_order(),
            expanded_keys(starts@, stride as nat, index as nat).len() == 32 * index,
            destination@ == expanded_keys(starts@, stride as nat, index as nat) + initial.skip(
                index * 32,
            ),
        decreases count - index,
    {
        proof {
            lemma_fundamental_div_mod_converse(
                index as int,
                len as int,
                chain as int,
                offset as int,
            );
            lemma_index_in_chain(count as nat, len as nat, index as nat);
            lemma_curve_order_room();
        }
        if offset == 0 {
            current = starts[chain].secret_bytes();
        } else if increment_bytes(&mut current) {
            return Err(Error::ChainWrapped);
        }
        let ghost scalar = chain_scalar(starts@, stride as nat, index as nat);
        let ghost before = destination@;
        proof {
            assert(be_value(current@) == scalar);
            lemma_be_bytes_of_value(current@);
        }
        write_scalar(destination, index * 32, &current);
        proof {
            let done = expanded_keys(starts@, stride as nat, index as nat);
            assert(before.take(index * 32) =~= done);
            assert(before.skip(index * 32 + 32) =~= initial.skip((index + 1) * 32));
            assert(expanded_keys(starts@, stride as nat, (index + 1) as nat) == done + current@);
            assert(destination@ =~= expanded_keys(starts@, stride as nat, (index + 1) as nat)
                + initial.skip((index + 1) * 32));
            assert((chain + 1) * len == chain * len + len) by (nonlinear_arith);
        }
        index += 1;
        offset += 1;
        if offset == len {
            offset = 0;
            chain += 1;
        }
    }
    wipe(&mut current);
    Ok(())
}

/// The starts of a list whose chains are consecutive give back every scalar of
/// the list.
pub proof fn law_starts_recover_keys(
    keys: Seq<SecretKey>,
    starts: Seq<SecretKey>,
    stride: nat,
    index: nat,
)
    requires
        starts.len() == chains_for(keys.len(), stride),
        forall|i: int| 0 <= i < starts.len() ==> starts[i] == keys[i * chain_len(stride)],
        index < keys.len(),
        keys[index as int]@ == keys[(index / chain_len(stride)) * chain_len(stride) as int]@ + index
            % chain_len(stride),
    ensures
        index / chain_len(stride) < starts.len(),
        chain_scalar(starts, stride, index) == keys[index as int]@,
{
    lemma_index_in_chain(keys.len(), chain_len(stride), index);
    let chain = (index / chain_len(stride)) as int;
    assert(starts[chain] == keys[chain * chain_len(stride)]);
}

/// A start is accepted for a chain exactly when no addition along the chain
/// meets an exception of the incomplete formulas: neither doubling, where the
/// start equals the multiple that is added, nor infinity, where the sum is the
/// group order.
pub proof fn law_accepted_start_avoids_exceptions(start: nat, len: nat)
    requires
        is_scalar(start),
    ensures
        start_accepted(start, len) <==> forall|i: nat|
            0 < i < len ==> #[trigger] avoids_exceptions(start, i),
{
    if len > 1 {
        if start < len {
            assert(!avoids_exceptions(start, start));
        } else if start + len - 1 >= curve_order() {
            let i = (curve_order() - start) as nat;
            assert(!avoids_exceptions(start, i));
        } else {
            assert forall|i: nat| 0 < i < len implies #[trigger] avoids_exceptions(start, i) by {}
        }
    }
}

/// Whether adding the multiple `i` of the generator to the multiple `start`
/// is neither a doubling nor infinity.
pub open spec fn avoids_exceptions(start: nat, i: nat) -> bool {
    start != i && start + i != curve_order()
}

/// Every scalar of an accepted chain is a scalar.
pub proof fn law_accepted_chain_stays_in_range(start: nat, len: nat, offset: nat)
    requires
        is_scalar(start),
        start_accepted(start, len),
        offset < chain_len(len),
    ensures
        is_scalar(start + offset),
{
}

/// Each address of an expanded batch has its scalar at its own 32 bytes.
pub proof fn law_expanded_key_at(starts: Seq<SecretKey>, stride: nat, count: nat, index: nat)
    requires
        index < count,
        forall|j: nat| j < count ==> chain_scalar(starts, stride, j) < pow256(32),
    ensures
        expanded_keys(starts, stride, count).len() == 32 * count,
        expanded_keys(starts, stride, count).subrange(32 * index as int, 32 * index as int + 32)
            == be_bytes(chain_scalar(starts, stride, index), 32),
    decreases count,
{
    let last = (count - 1) as nat;
    let bytes = expanded_keys(starts, stride, count);
    let before = expanded_keys(starts, stride, last);
    lemma_expanded_len(starts, stride, last);
    assert(chain_scalar(starts, stride, last) < pow256(32));
    lemma_value_of_be_bytes(chain_scalar(starts, stride, last), 32);
    if index < last {
        law_expanded_key_at(starts, stride, last, index);
        assert(bytes.subrange(32 * index as int, 32 * index as int + 32) =~= before.subrange(
            32 * index as int,
            32 * index as int + 32,
        ));
    } else {
        assert(bytes.subrange(32 * index as int, 32 * index as int + 32) =~= be_bytes(
            chain_scalar(starts, stride, index),
            32,
        ));
    }
}

}
