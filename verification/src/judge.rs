//! What a batch of addresses is worth: its first full match and its best
//! candidate, confirmed and offered to the shared state.
use crate::address::{verify_address, Address};
use crate::backend::AddressBackend;
use crate::chain::chain_key;
use crate::error::Error;
use crate::hex::address_nibbles;
use crate::matching::{evaluate_batch, BatchCandidate};
use crate::scalar::SecretKey;
use crate::target::Targets;
use crate::worker::WorkerContext;
use vstd::prelude::*;

verus! {

use crate::address::address_of;
use crate::backend::addresses_of_keys;
use crate::best::BestState;
use crate::chain::{chain_len, chain_scalar, chains_for, lemma_index_in_chain};
use crate::hex::byte_nibbles;
use crate::matching::{
    is_best, is_first_hit, law_common_len, law_common_tail, law_evaluation_is_unique,
};
use crate::scalar::curve_order;
use crate::trace::{best_of, confirmation, due_of, hit_of, Batch, Due};
use crate::worker::{taken, Offer};

/// A hit inside a batch.
pub struct BatchHit {
    pub index: usize,
    pub key: SecretKey,
}

/// Whether the addresses are those of the chains that start at `keys`.
pub open spec fn chain_addresses(
    keys: Seq<SecretKey>,
    stride: nat,
    addresses: Seq<Address>,
) -> bool {
    forall|j: int|
        0 <= j < addresses.len() ==> chain_scalar(keys, stride, j as nat) < curve_order() && (
        #[trigger] addresses[j])@ == address_of(chain_scalar(keys, stride, j as nat))
}

/// Where a chain is one scalar, the chains are the keys.
proof fn lemma_one_to_one(keys: Seq<SecretKey>, stride: nat, index: nat)
    requires
        stride <= 1,
    ensures
        chain_scalar(keys, stride, index) == keys[index as int]@,
{
    assert(index / 1 == index && index % 1 == 0);
}

/// Confirms on the CPU that an address belongs to its key, where the backend
/// asks for that or has chains.
fn confirm<B: AddressBackend>(key: &SecretKey, stride: usize, address: &Address) -> (r: Result<
    (),
    Error,
>)
    requires
        !B::VERIFY_CANDIDATES && stride <= 1 ==> address@ == address_of(key@),
    ensures
        r is Ok <==> address@ == address_of(key@),
        r matches Err(e) ==> e == Error::AddressMismatch,
{
    if B::VERIFY_CANDIDATES || stride > 1 {
        verify_address(key, address)
    } else {
        Ok(())
    }
}

/// The best candidate of a batch, with the key that its address belongs to.
pub struct Proposal {
    pub candidate: BatchCandidate,
    pub key: SecretKey,
}

/// What a batch has to offer.
pub struct Assessment {
    pub hit: Option<BatchHit>,
    pub best: Option<Proposal>,
}

impl Assessment {
    /// The candidate that is proposed.
    pub open spec fn candidate(self) -> Option<BatchCandidate> {
        match self.best {
            None => None,
            Some(proposal) => Some(proposal.candidate),
        }
    }

    /// The index of the hit.
    pub open spec fn hit_index(self) -> Option<usize> {
        match self.hit {
            None => None,
            Some(hit) => Some(hit.index),
        }
    }
}

/// Why address `index` has no key, if it has none: there is no start for its
/// chain, or the chain leaves the range before it.
pub open spec fn key_fault(keys: Seq<SecretKey>, stride: nat, index: usize) -> Option<Error> {
    if index as nat / chain_len(stride) >= keys.len() {
        Some(Error::IndexOutsideBatch)
    } else if chain_scalar(keys, stride, index as nat) >= curve_order() {
        Some(Error::ChainLeavesRange)
    } else {
        None
    }
}

/// Whether the address at `index` is that of its scalar.
pub open spec fn belongs(
    keys: Seq<SecretKey>,
    stride: nat,
    addresses: Seq<Address>,
    index: usize,
) -> bool {
    addresses[index as int]@ == address_of(chain_scalar(keys, stride, index as nat))
}

/// What is wrong with a batch whose first full match and best candidate are
/// these, if anything: one of them has no key, or the CPU does not confirm the
/// full match.
pub open spec fn batch_fault(
    keys: Seq<SecretKey>,
    stride: nat,
    addresses: Seq<Address>,
    best: Option<BatchCandidate>,
    hit: Option<usize>,
) -> Option<Error> {
    if hit is Some && key_fault(keys, stride, hit->0) is Some {
        key_fault(keys, stride, hit->0)
    } else if hit is Some && !belongs(keys, stride, addresses, hit->0) {
        Some(Error::AddressMismatch)
    } else if best is Some {
        key_fault(keys, stride, best->0.index)
    } else {
        None
    }
}

/// Looks through a whole batch. The first full match must be confirmed on the
/// CPU, where the backend asks for that; the best candidate gets its key.
pub fn assess_batch<B: AddressBackend>(
    keys: &[SecretKey],
    stride: usize,
    addresses: &[Address],
    targets: &Targets,
) -> (r: Result<Assessment, Error>)
    requires
        !B::VERIFY_CANDIDATES ==> addresses_of_keys(keys@, addresses@),
    ensures
        is_best(
            best_of(addresses@, *targets),
            addresses@,
            *targets,
            addresses@.len() as int,
        ),
        is_first_hit(
            hit_of(addresses@, *targets),
            addresses@,
            *targets,
            addresses@.len() as int,
        ),
        match batch_fault(
            keys@,
            stride as nat,
            addresses@,
            best_of(addresses@, *targets),
            hit_of(addresses@, *targets),
        ) {
            Some(e) => r == Err::<Assessment, Error>(e),
            None => r matches Ok(found) && found.candidate() == best_of(addresses@, *targets)
                && found.hit_index() == hit_of(addresses@, *targets),
        },
        r matches Ok(found) ==> (found.hit matches Some(hit) ==> hit.key@ == chain_scalar(
            keys@,
            stride as nat,
            hit.index as nat,
        ) && addresses@[hit.index as int]@ == address_of(hit.key@)),
        r matches Ok(found) ==> (found.best matches Some(proposal) ==> proposal.key@
            == chain_scalar(keys@, stride as nat, proposal.candidate.index as nat)),
        r matches Err(e) ==> e == Error::AddressMismatch || e == Error::ChainLeavesRange || e
            == Error::IndexOutsideBatch,
        keys@.len() == chains_for(addresses@.len(), stride as nat) && chain_addresses(
            keys@,
            stride as nat,
            addresses@,
        ) ==> r is Ok,
{
    let (best, found): (Option<BatchCandidate>, Option<usize>) = evaluate_batch(addresses, targets);
    let count: usize = addresses.len();
    proof {
        assert(addresses@.len() == count);
        lemma_found(addresses@, *targets, best, found);
    }
    let hit: Option<BatchHit> = match found {
        None => None,
        Some(index) => {
            let key: SecretKey = address_key::<B>(keys, stride, addresses, index)?;
            confirm::<B>(&key, stride, &addresses[index])?;
            Some(BatchHit { index, key })
        },
    };
    let best: Option<Proposal> = match best {
        None => None,
        Some(candidate) => {
            let key: SecretKey = address_key::<B>(keys, stride, addresses, candidate.index)?;
            Some(Proposal { candidate, key })
        },
    };
    Ok(Assessment { hit, best })
}

/// The key of address `index`. Where the backend vouches for its addresses,
/// this one belongs to it.
fn address_key<B: AddressBackend>(
    keys: &[SecretKey],
    stride: usize,
    addresses: &[Address],
    index: usize,
) -> (r: Result<SecretKey, Error>)
    requires
        !B::VERIFY_CANDIDATES ==> addresses_of_keys(keys@, addresses@),
        index < addresses@.len(),
    ensures
        match key_fault(keys@, stride as nat, index) {
            Some(e) => r == Err::<SecretKey, Error>(e),
            None => r matches Ok(key) && key@ == chain_scalar(
                keys@,
                stride as nat,
                index as nat,
            ),
        },
        keys@.len() == chains_for(addresses@.len(), stride as nat) ==> (r is Err ==> r == Err::<
            SecretKey,
            Error,
        >(Error::ChainLeavesRange)),
        !B::VERIFY_CANDIDATES && stride <= 1 ==> belongs(keys@, stride as nat, addresses@, index),
{
    proof {
        lemma_index_in_chain(addresses@.len(), chain_len(stride as nat), index as nat);
        if !B::VERIFY_CANDIDATES && stride <= 1 {
            lemma_one_to_one(keys@, stride as nat, index as nat);
        }
    }
    chain_key(keys, stride, index)
}

/// The best candidate and the first full match of a batch are those that were
/// found.
proof fn lemma_found(
    addresses: Seq<Address>,
    targets: Targets,
    best: Option<BatchCandidate>,
    hit: Option<usize>,
)
    requires
        addresses.len() <= usize::MAX,
        is_best(best, addresses, targets, addresses.len() as int),
        is_first_hit(hit, addresses, targets, addresses.len() as int),
    ensures
        best_of(addresses, targets) == best,
        hit_of(addresses, targets) == hit,
{
    law_evaluation_is_unique(
        addresses,
        targets,
        (best_of(addresses, targets), hit_of(addresses, targets)),
        (best, hit),
    );
}

/// Whether an offer ended as the shared state and the CPU's answer have it.
pub open spec fn offer_ended(
    board: &BestState,
    offer: Offer,
    answer: Result<(), Error>,
) -> bool {
    ||| offer.outcome == Ok::<bool, Error>(false) && board.turned_away(offer.new)
    ||| board.settled(offer.new, answer, offer.outcome)
}

/// Whether judging a batch, before which there were `base` attempts, can give
/// `r` and lead from one row of offers to the other. A fault is found before
/// anything is offered; then the best candidate is offered, and confirmed
/// before it is taken.
pub open spec fn judged(
    targets: Targets,
    board: &BestState,
    before: Seq<Offer>,
    after: Seq<Offer>,
    batch: Batch,
    stride: nat,
    base: nat,
    r: Result<Option<usize>, Error>,
) -> bool {
    let best = best_of(batch.addresses, targets);
    let hit = hit_of(batch.addresses, targets);
    match batch_fault(batch.keys, stride, batch.addresses, best, hit) {
        Some(e) => r == Err::<Option<usize>, Error>(e) && after == before,
        None => match best {
            None => r == Ok::<Option<usize>, Error>(hit) && after == before,
            Some(candidate) => {
                let made = after.last();
                &&& after.len() == before.len() + 1
                &&& after.drop_last() == before
                &&& offer_fits(board, made, due_of(batch, stride, base, candidate))
                &&& r == (match made.outcome {
                    Ok(_) => Ok::<Option<usize>, Error>(hit),
                    Err(e) => Err(e),
                })
            },
        },
    }
}

/// The index of a hit, if there is one.
pub open spec fn hit_index(r: Result<Option<BatchHit>, Error>) -> Result<Option<usize>, Error> {
    match r {
        Ok(Some(hit)) => Ok(Some(hit.index)),
        Ok(None) => Ok(None),
        Err(e) => Err(e),
    }
}

/// Whether nothing but offers and wakes can have changed, and a wake was sent
/// for each offer that was taken.
pub open spec fn only_offered<'a>(before: WorkerContext<'a>, after: WorkerContext<'a>) -> bool {
    &&& after.same_worker(&before)
    &&& after.reads() == before.reads()
    &&& after.exchanges() == before.exchanges()
    &&& after.total.recorded() == before.total.recorded()
    &&& after.wakes() + taken(before.offers()) == before.wakes() + taken(after.offers())
}

/// Judges a whole batch before anything of it is published. The first full
/// match must be confirmed; then the best candidate is offered to the shared
/// state, which confirms it before taking it. `base` attempts came before this
/// batch.
pub fn judge_batch<B: AddressBackend>(
    keys: &[SecretKey],
    stride: usize,
    addresses: &[Address],
    base: u64,
    context: &mut WorkerContext<'_>,
) -> (r: Result<Option<BatchHit>, Error>)
    requires
        !B::VERIFY_CANDIDATES ==> addresses_of_keys(keys@, addresses@),
        base + addresses@.len() <= u64::MAX,
    ensures
        is_best(
            best_of(addresses@, *old(context).targets),
            addresses@,
            *old(context).targets,
            addresses@.len() as int,
        ),
        only_offered(*old(context), *final(context)),
        final(context).times() == old(context).times(),
        judged(
            *old(context).targets,
            old(context).board(),
            old(context).offers(),
            final(context).offers(),
            (Batch { keys: keys@, addresses: addresses@ }),
            stride as nat,
            base as nat,
            hit_index(r),
        ),
        keys@.len() == chains_for(addresses@.len(), stride as nat) && chain_addresses(
            keys@,
            stride as nat,
            addresses@,
        ) ==> r is Ok,
        r matches Ok(Some(hit)) ==> is_first_hit(
            Some(hit.index),
            addresses@,
            *old(context).targets,
            addresses@.len() as int,
        ) && hit.key@ == chain_scalar(keys@, stride as nat, hit.index as nat)
            && addresses@[hit.index as int]@ == address_of(hit.key@),
        r matches Ok(None) ==> is_first_hit(
            None,
            addresses@,
            *old(context).targets,
            addresses@.len() as int,
        ),
        r matches Err(e) ==> e == Error::AddressMismatch || e == Error::ChainLeavesRange || e
            == Error::IndexOutsideBatch,
{
    let found: Assessment = assess_batch::<B>(keys, stride, addresses, context.targets)?;
    if let Some(proposal) = &found.best {
        proof {
            let nibbles = byte_nibbles(addresses@[proposal.candidate.index as int]@);
            law_common_len(context.targets.prefix@, nibbles);
            law_common_tail(context.targets.suffix@, nibbles);
            if !B::VERIFY_CANDIDATES && stride <= 1 {
                lemma_one_to_one(keys@, stride as nat, proposal.candidate.index as nat);
            }
        }
        offer::<B>(proposal, stride, &addresses[proposal.candidate.index], base, context)?;
    }
    Ok(found.hit)
}

/// Offers the best candidate of a batch to the shared state, and wakes the
/// main thread if it was taken.
fn offer<B: AddressBackend>(
    proposal: &Proposal,
    stride: usize,
    address: &Address,
    base: u64,
    context: &mut WorkerContext<'_>,
) -> (r: Result<(), Error>)
    requires
        !B::VERIFY_CANDIDATES && stride <= 1 ==> address@ == address_of(proposal.key@),
        base + proposal.candidate.index < u64::MAX,
        proposal.candidate.prefix <= 40,
        proposal.candidate.suffix <= 40,
    ensures
        only_offered(*old(context), *final(context)),
        final(context).times() == old(context).times(),
        final(context).offers().len() == old(context).offers().len() + 1,
        final(context).offers().drop_last() == old(context).offers(),
        final(context).offers().last().new == crate::best::proposal(
            byte_nibbles(address@),
            proposal.key@,
            (base + proposal.candidate.index + 1) as u64,
            proposal.candidate.prefix,
            proposal.candidate.suffix,
        ),
        offer_ended(
            old(context).board(),
            final(context).offers().last(),
            confirmation(proposal.key@, *address),
        ),
        r == (match final(context).offers().last().outcome {
            Ok(_) => Ok::<(), Error>(()),
            Err(e) => Err(e),
        }),
        address@ == address_of(proposal.key@) ==> r is Ok,
        r matches Err(e) ==> e == Error::AddressMismatch,
{
    let key: SecretKey = proposal.key;
    let shown: Address = *address;
    let nibbles: [u8; 40] = address_nibbles(&shown);
    let verify = || -> (answer: Result<(), Error>)
        requires
            !B::VERIFY_CANDIDATES && stride <= 1 ==> shown@ == address_of(key@),
        ensures
            answer is Ok <==> shown@ == address_of(key@),
            answer matches Err(e) ==> e == Error::AddressMismatch,
        { confirm::<B>(&key, stride, &shown) };
    let tries: u64 = base + proposal.candidate.index as u64 + 1;
    context.ties.offer(
        &nibbles,
        &key,
        tries,
        proposal.candidate.prefix,
        proposal.candidate.suffix,
        verify,
    )
}

/// Whether an offer is the one that was due, and ended as the shared state and
/// the CPU have it.
pub open spec fn offer_fits(board: &BestState, offer: Offer, due: Due) -> bool {
    offer.new == due.new && offer_ended(board, offer, due.answer)
}

}
