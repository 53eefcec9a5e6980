//! A GPU backend: slots that are filled, launched and collected in turn, with
//! one address of every batch checked on the CPU.
use crate::address::{verify_address, Address};
use crate::backend::{run_self_test, AddressBackend, NamedDevice, MAX_GPU_BATCH_SIZE};
use crate::chain::{chain_key, check_chain_batch, expand_chain_keys};
use crate::error::Error;
use crate::ring::{GpuApi, SlotRing, MAX_SLOTS};
use crate::scalar::{wipe_slice, SecretKey};
use std::collections::VecDeque;
use vstd::prelude::*;

verus! {

use crate::address::address_of;
use crate::backend::{
    all_confirmed, is_self_test, scalars, self_test_chain, self_test_first, self_test_run,
    starts_of,
};
use crate::chain::{chain_len, chain_scalar, chains_for, expanded_keys, lemma_index_in_chain};
use crate::scalar::curve_order;
use crate::search::batch_size_allowed;

/// What a device does with one of its slots. Each method works on the slot
/// alone; which slot, in which order and with what is decided by the backend.
/// Nothing is taken on trust of a device: one that says nothing of itself may do
/// anything.
pub trait GpuDriver: Sized {
    /// Whether submitting can lead from `before` to `after` and give `r`.
    open spec fn submits(
        before: Self,
        slot: usize,
        keys: Seq<u8>,
        count: usize,
        after: Self,
        r: Result<(), Error>,
    ) -> bool {
        true
    }

    /// Whether waiting can lead from `before` to `after` and give `r`.
    open spec fn waits(before: Self, slot: usize, after: Self, r: Result<(), Error>) -> bool {
        true
    }

    /// Whether copying out behind `held` can lead from `before` to `after`, leave
    /// `bytes`, and give `r`.
    open spec fn reads(
        before: Self,
        slot: usize,
        held: Seq<u8>,
        after: Self,
        bytes: Seq<u8>,
        r: Result<(), Error>,
    ) -> bool {
        true
    }

    /// Whether overwriting the keys can lead from `before` to `after` and give `r`.
    open spec fn clears(before: Self, slot: usize, after: Self, r: Result<(), Error>) -> bool {
        true
    }

    /// Copies the keys into the slot and starts `count` addresses.
    fn submit(&mut self, slot: usize, keys: &[u8], count: usize) -> (r: Result<(), Error>)
        ensures
            Self::submits(*old(self), slot, keys@, count, *final(self), r),
    ;

    /// Waits until the slot's work is done.
    fn wait(&mut self, slot: usize) -> (r: Result<(), Error>)
        ensures
            Self::waits(*old(self), slot, *final(self), r),
    ;

    /// Copies the slot's addresses out, 20 bytes each.
    fn read(&mut self, slot: usize, bytes: &mut Vec<u8>) -> (r: Result<(), Error>)
        ensures
            Self::reads(*old(self), slot, old(bytes)@, *final(self), final(bytes)@, r),
    ;

    /// Overwrites the slot's keys.
    fn clear(&mut self, slot: usize) -> (r: Result<(), Error>)
        ensures
            Self::clears(*old(self), slot, *final(self), r),
    ;
}

/// How a device takes its keys.
#[derive(Clone, Copy, Debug, PartialEq, Eq, Structural)]
pub enum KeyLayout {
    /// One scalar per chain.
    Starts,
    /// One scalar per address.
    Expanded,
}

/// A backend over a device with a ring of slots.
pub struct SlottedBackend<D> {
    driver: D,
    api: GpuApi,
    layout: KeyLayout,
    stride: usize,
    capacity: usize,
    ring: SlotRing,
    counts: VecDeque<usize>,
    sample_index: usize,
}

/// The bytes that a device is handed for a batch.
pub open spec fn upload_bytes(
    layout: KeyLayout,
    keys: Seq<SecretKey>,
    stride: nat,
    count: nat,
) -> Seq<u8> {
    match layout {
        KeyLayout::Starts => expanded_keys(keys, 1, keys.len()),
        KeyLayout::Expanded => expanded_keys(keys, stride, count),
    }
}

/// The bytes to hand to a device for `count` addresses from `keys`.
pub fn prepare_upload(
    layout: KeyLayout,
    keys: &[SecretKey],
    stride: usize,
    count: usize,
) -> (r: Result<Vec<u8>, Error>)
    requires
        count <= MAX_GPU_BATCH_SIZE,
    ensures
        r is Ok <==> keys@.len() == chains_for(count as nat, stride as nat),
        r matches Err(e) ==> e == Error::BatchKeyCount,
        r matches Ok(bytes) ==> bytes@ == upload_bytes(layout, keys@, stride as nat, count as nat),
{
    check_chain_batch(keys, count, stride)?;
    proof {
        lemma_no_more_chains_than_addresses(count as nat, stride as nat);
        lemma_no_more_chains_than_addresses(keys@.len(), 1);
        let starts = keys@.len();
        assert(starts / 1 == starts) by (nonlinear_arith);
    }
    match layout {
        KeyLayout::Starts => {
            let mut bytes: Vec<u8> = vec![0u8; keys.len() * 32];
            expand_chain_keys(keys, 1, keys.len(), bytes.as_mut_slice())?;
            assert(bytes@ =~= expanded_keys(keys@, 1, keys@.len()));
            Ok(bytes)
        },
        KeyLayout::Expanded => {
            let mut bytes: Vec<u8> = vec![0u8; count * 32];
            expand_chain_keys(keys, stride, count, bytes.as_mut_slice())?;
            assert(bytes@ =~= expanded_keys(keys@, stride as nat, count as nat));
            Ok(bytes)
        },
    }
}

/// Overwrites the bytes that were handed to a device with zeros.
pub fn erase_upload(bytes: &mut Vec<u8>)
    ensures
        final(bytes)@ == Seq::new(old(bytes)@.len(), |i: int| 0u8),
{
    wipe_slice(bytes.as_mut_slice())
}

/// A batch has no more chains than addresses.
pub proof fn lemma_no_more_chains_than_addresses(count: nat, stride: nat)
    ensures
        chains_for(count, stride) <= count,
{
    let len = chain_len(stride);
    let padded = (count + len - 1) as int;
    let chains = padded / len as int;
    vstd::arithmetic::div_mod::lemma_fundamental_div_mod(padded, len as int);
    if chains > count {
        assert(len * chains >= len * (count + 1)) by (nonlinear_arith)
            requires
                chains >= count + 1,
                len > 0,
        ;
        assert(len * (count + 1) >= count + len) by (nonlinear_arith)
            requires
                len >= 1,
        ;
    }
}

/// Whether address `j` has the 20 bytes from `20 * j` on.
pub open spec fn unpacked(bytes: Seq<u8>, addresses: Seq<Address>) -> bool {
    forall|j: int, b: int|
        0 <= j < addresses.len() && 0 <= b < 20 ==> #[trigger] addresses[j]@[b] == bytes[20 * j
            + b]
}

/// The 20 bytes of address `index` in what a device copied out.
pub fn unpack_addresses(bytes: &[u8], addresses: &mut [Address]) -> (r: Result<(), Error>)
    ensures
        final(addresses)@.len() == old(addresses)@.len(),
        r is Ok <==> bytes@.len() == 20 * old(addresses)@.len(),
        r matches Err(e) ==> e == Error::AddressBytes && final(addresses)@ == old(addresses)@,
        r is Ok ==> unpacked(bytes@, final(addresses)@),
{
    let count: usize = addresses.len();
    if bytes.len() / 20 != count || bytes.len() % 20 != 0 {
        return Err(Error::AddressBytes);
    }
    let mut j: usize = 0;
    while j < count
        invariant
            j <= count,
            count == addresses@.len(),
            bytes@.len() == 20 * count,
            bytes@.len() <= usize::MAX,
            forall|k: int, b: int|
                0 <= k < j && 0 <= b < 20 ==> #[trigger] addresses@[k]@[b] == bytes@[20 * k + b],
        decreases count - j,
    {
        let mut address: Address = [0; 20];
        let mut b: usize = 0;
        while b < 20
            invariant
                b <= 20,
                j < count,
                bytes@.len() == 20 * count,
                bytes@.len() <= usize::MAX,
                forall|k: int| 0 <= k < b ==> address@[k] == bytes@[20 * j + k],
            decreases 20 - b,
        {
            address[b] = bytes[20 * j + b];
            b += 1;
        }
        addresses[j] = address;
        j += 1;
    }
    Ok(())
}

impl<D> SlottedBackend<D> {
    /// The address counts of the batches in flight, oldest first.
    pub closed spec fn in_flight(&self) -> Seq<usize> {
        self.counts@
    }

    /// The number of slots.
    pub closed spec fn slots(&self) -> nat {
        self.ring.slots()
    }

    /// The largest batch.
    pub closed spec fn capacity(&self) -> nat {
        self.capacity as nat
    }

    /// The scalars in a chain.
    pub closed spec fn stride(&self) -> nat {
        self.stride as nat
    }

    /// The address of the next batch that the CPU checks.
    pub closed spec fn sample_index(&self) -> nat {
        self.sample_index as nat
    }

    /// The interface of the device.
    pub closed spec fn api(&self) -> GpuApi {
        self.api
    }

    /// The device.
    pub closed spec fn driver(&self) -> D {
        self.driver
    }

    /// How the device takes its keys.
    pub closed spec fn layout(&self) -> KeyLayout {
        self.layout
    }

    /// The slots, and which of them are in flight.
    pub closed spec fn ring(&self) -> SlotRing {
        self.ring
    }

    /// The slot for the next batch.
    pub open spec fn free_slot(&self) -> int {
        self.ring().slot_at(self.ring()@.len() as int)
    }

    /// The slot of the oldest batch in flight.
    pub open spec fn oldest_slot(&self) -> int {
        self.ring()@[0]
    }

    /// What is wrong with starting `count` addresses from `keys` before the
    /// device is asked, if anything.
    pub open spec fn start_fault(&self, keys: Seq<SecretKey>, count: nat) -> Option<Error> {
        if count > self.capacity() {
            Some(Error::BatchExceedsCapacity(self.api()))
        } else if self.in_flight().len() == self.slots() {
            Some(Error::SlotsExhausted(self.api()))
        } else if keys.len() != chains_for(count, self.stride()) {
            Some(Error::BatchKeyCount)
        } else {
            None
        }
    }

    /// What is wrong with collecting `count` addresses of `keys` before the
    /// device is asked, if anything.
    pub open spec fn collect_fault(&self, keys: Seq<SecretKey>, count: nat) -> Option<Error> {
        if keys.len() != chains_for(count, self.stride()) {
            Some(Error::BatchKeyCount)
        } else if count == 0 {
            None
        } else if self.in_flight().len() == 0 {
            Some(Error::NothingInFlight(self.api()))
        } else if self.in_flight()[0] != count {
            Some(Error::InFlightCountMismatch(self.api()))
        } else {
            None
        }
    }

    /// Every slot in flight has a count, and batches fit the device.
    pub closed spec fn wf(&self) -> bool {
        &&& self.ring@.len() == self.counts@.len()
        &&& batch_size_allowed(self.capacity as nat)
    }

    /// Whether nothing but the work in flight can have changed.
    pub open spec fn same_device(&self, other: &Self) -> bool {
        &&& self.slots() == other.slots()
        &&& self.capacity() == other.capacity()
        &&& self.stride() == other.stride()
        &&& self.api() == other.api()
        &&& self.layout() == other.layout()
    }

    /// Whether nothing but the device can have changed.
    pub open spec fn same_work(&self, other: &Self) -> bool {
        &&& self.same_device(other)
        &&& self.ring() == other.ring()
        &&& self.in_flight() == other.in_flight()
        &&& self.sample_index() == other.sample_index()
    }

    /// Whether this is `other` with the next check at the first address again.
    pub open spec fn reset_of(&self, other: &Self) -> bool {
        &&& self.same_device(other)
        &&& self.driver() == other.driver()
        &&& self.ring() == other.ring()
        &&& self.in_flight() == other.in_flight()
        &&& self.sample_index() == 0
    }

    /// A backend over `driver`, which has `slots` slots for up to `capacity`
    /// addresses each.
    pub fn new(
        driver: D,
        api: GpuApi,
        layout: KeyLayout,
        stride: usize,
        capacity: usize,
        slots: usize,
    ) -> (r: Result<SlottedBackend<D>, Error>)
        requires
            0 < slots <= MAX_SLOTS,
        ensures
            r is Ok <==> batch_size_allowed(capacity as nat),
            r matches Err(e) ==> e == Error::InvalidCapacity(api),
            r matches Ok(backend) ==> backend.wf() && backend.in_flight().len() == 0
                && backend.slots() == slots && backend.capacity() == capacity && backend.stride()
                == stride && backend.api() == api && backend.sample_index() == 0
                && backend.driver() == driver && backend.layout() == layout,
    {
        check_capacity(api, capacity)?;
        Ok(
            SlottedBackend {
                driver,
                api,
                layout,
                stride,
                capacity,
                ring: SlotRing::new(slots),
                counts: VecDeque::new(),
                sample_index: 0,
            },
        )
    }
}

/// What is wrong with the bytes that a device copied out for a batch, if
/// anything: not 20 for each address, a chain that leaves the range, or an
/// address at `sample` that is not that of its scalar.
pub open spec fn answer_fault(
    bytes: Seq<u8>,
    keys: Seq<SecretKey>,
    stride: nat,
    count: nat,
    sample: nat,
) -> Option<Error> {
    if bytes.len() != 20 * count {
        Some(Error::AddressBytes)
    } else if chain_scalar(keys, stride, sample) >= curve_order() {
        Some(Error::ChainLeavesRange)
    } else if bytes.subrange(20 * sample as int, 20 * sample as int + 20) != address_of(
        chain_scalar(keys, stride, sample),
    ) {
        Some(Error::AddressMismatch)
    } else {
        None
    }
}

/// Whether a device may be opened for batches of `capacity` addresses.
pub fn check_capacity(api: GpuApi, capacity: usize) -> (r: Result<(), Error>)
    ensures
        r is Ok <==> batch_size_allowed(capacity as nat),
        r matches Err(e) ==> e == Error::InvalidCapacity(api),
{
    if capacity < 1 || capacity > MAX_GPU_BATCH_SIZE as usize {
        Err(Error::InvalidCapacity(api))
    } else {
        Ok(())
    }
}

impl<D: GpuDriver> SlottedBackend<D> {
    /// Whether refusing a batch with `e` can lead from `before` to `after` and give
    /// `r`, where the device is at `device`: the slot's keys are overwritten, and
    /// the work in flight stays as it is.
    pub open spec fn refuses(
        before: Self,
        device: D,
        slot: usize,
        e: Error,
        after: Self,
        r: Result<(), Error>,
    ) -> bool {
        &&& r == Err::<(), Error>(e)
        &&& after.same_work(&before)
        &&& exists|cleared: Result<(), Error>| #[trigger]
            D::clears(device, slot, after.driver(), cleared)
    }

    /// Whether handing a batch to the device can lead from `before` to `after` and
    /// give `r`.
    pub open spec fn hands_over(
        before: Self,
        keys: Seq<SecretKey>,
        count: nat,
        after: Self,
        r: Result<(), Error>,
    ) -> bool {
        exists|slot: usize, handed: usize, device: D, started: Result<(), Error>|
            slot == before.free_slot() && handed == count && #[trigger] D::submits(
                before.driver(),
                slot,
                upload_bytes(before.layout(), keys, before.stride(), count),
                handed,
                device,
                started,
            ) && match started {
                Err(e) => Self::refuses(before, device, slot, e, after, r),
                Ok(_) => r is Ok && after.driver() == device && after.same_device(&before)
                    && before.ring().fills(after.ring()) && after.in_flight()
                    == before.in_flight().push(handed) && after.sample_index()
                    == before.sample_index(),
            }
    }

    /// Whether taking over what a device copied out can lead from `before` to
    /// `after`, turn `held` into `addresses`, and give `r`. The device is at
    /// `device` and answered `copied` with `bytes`. In every case the slot's keys
    /// are overwritten.
    pub open spec fn takes_over(
        before: Self,
        keys: Seq<SecretKey>,
        held: Seq<Address>,
        slot: usize,
        device: D,
        bytes: Seq<u8>,
        copied: Result<(), Error>,
        after: Self,
        addresses: Seq<Address>,
        r: Result<(), Error>,
    ) -> bool {
        match copied {
            Err(e) => Self::refuses(before, device, slot, e, after, r) && addresses == held,
            Ok(_) => {
                &&& if bytes.len() == 20 * held.len() {
                    unpacked(bytes, addresses)
                } else {
                    addresses == held
                }
                &&& match answer_fault(
                    bytes,
                    keys,
                    before.stride(),
                    held.len(),
                    before.sample_index() % held.len(),
                ) {
                    Some(e) => Self::refuses(before, device, slot, e, after, r),
                    None => D::clears(device, slot, after.driver(), r) && after.same_device(
                        &before,
                    ) && after.sample_index() == (if before.sample_index() == usize::MAX {
                        0
                    } else {
                        before.sample_index() + 1
                    }) && if r is Ok {
                        before.ring().frees(after.ring()) && after.in_flight()
                            == before.in_flight().drop_first()
                    } else {
                        after.ring() == before.ring() && after.in_flight() == before.in_flight()
                    },
                }
            },
        }
    }

    /// Whether collecting the oldest batch from the device can lead from `before`
    /// to `after`, turn `held` into `addresses`, and give `r`.
    pub open spec fn collects(
        before: Self,
        keys: Seq<SecretKey>,
        held: Seq<Address>,
        after: Self,
        addresses: Seq<Address>,
        r: Result<(), Error>,
    ) -> bool {
        exists|slot: usize, idle: D, waited: Result<(), Error>|
            slot == before.oldest_slot() && #[trigger] D::waits(
                before.driver(),
                slot,
                idle,
                waited,
            ) && match waited {
                Err(e) => Self::refuses(before, idle, slot, e, after, r) && addresses == held,
                Ok(_) => exists|device: D, bytes: Seq<u8>, copied: Result<(), Error>| #[trigger]
                    D::reads(idle, slot, Seq::empty(), device, bytes, copied) && Self::takes_over(
                        before,
                        keys,
                        held,
                        slot,
                        device,
                        bytes,
                        copied,
                        after,
                        addresses,
                        r,
                    ),
            }
    }

    /// Whether ending a batch of `keys` can lead from `before` to `after`, turn
    /// `held` into `addresses`, and give `r`.
    pub open spec fn ended(
        before: Self,
        keys: Seq<SecretKey>,
        held: Seq<Address>,
        after: Self,
        addresses: Seq<Address>,
        r: Result<(), Error>,
    ) -> bool {
        &&& after.wf()
        &&& match before.collect_fault(keys, held.len()) {
            Some(e) => r == Err::<(), Error>(e) && after == before && addresses == held,
            None => if held.len() == 0 {
                r is Ok && after == before && addresses == held
            } else {
                Self::collects(before, keys, held, after, addresses, r)
            },
        }
    }

    /// Whether beginning and ending a batch of `keys` can lead from `before` to
    /// `after`, turn `held` into `addresses`, and give `r`.
    pub open spec fn derived(
        before: Self,
        keys: Seq<SecretKey>,
        held: Seq<Address>,
        after: Self,
        addresses: Seq<Address>,
        r: Result<(), Error>,
    ) -> bool {
        exists|mid: Self, begun: Result<(), Error>| #[trigger]
            Self::begins(before, keys, held.len(), mid, begun) && match begun {
                Err(e) => r == Err::<(), Error>(e) && after == mid && addresses == held,
                Ok(_) => Self::ended(mid, keys, held, after, addresses, r),
            }
    }

    /// Overwrites the slot's keys and gives the reason for it. Whether that
    /// worked is not asked: the reason is what the caller is told.
    fn refuse(&mut self, slot: usize, e: Error) -> (r: Result<(), Error>)
        ensures
            Self::refuses(*old(self), old(self).driver(), slot, e, *final(self), r),
            old(self).wf() ==> final(self).wf(),
    {
        let cleared = self.driver.clear(slot);
        assert(D::clears(old(self).driver(), slot, self.driver(), cleared));
        Err(e)
    }

    /// Waits for the oldest batch, takes its addresses over, and checks one of
    /// them on the CPU. The slot's keys are overwritten whatever comes of it.
    fn collect(&mut self, keys: &[SecretKey], addresses: &mut [Address]) -> (r: Result<
        (),
        Error,
    >)
        ensures
            final(addresses)@.len() == old(addresses)@.len(),
            final(self).same_device(&*old(self)),
            old(self).wf() ==> final(self).wf() && Self::ended(
                *old(self),
                keys@,
                old(addresses)@,
                *final(self),
                final(addresses)@,
                r,
            ),
            r is Ok ==> keys@.len() == chains_for(old(addresses)@.len(), old(self).stride()),
            r is Ok && old(addresses)@.len() > 0 ==> old(self).in_flight().len() > 0 && old(
                self,
            ).in_flight()[0] == old(addresses)@.len() && final(self).in_flight() == old(
                self,
            ).in_flight().drop_first(),
            r is Ok && old(addresses)@.len() > 0 ==> ({
                let sample = old(self).sample_index() % old(addresses)@.len();
                final(addresses)@[sample as int]@ == address_of(
                    chain_scalar(keys@, old(self).stride(), sample),
                )
            }),
            r is Err || old(addresses)@.len() == 0 ==> final(self).in_flight() == old(
                self,
            ).in_flight(),
    {
        let count: usize = addresses.len();
        match check_chain_batch(keys, count, self.stride) {
            Ok(()) => {},
            Err(e) => {
                return Err(e);
            },
        }
        if count == 0 {
            return Ok(());
        }
        let slot: usize = match self.ring.oldest(self.api) {
            Ok(slot) => slot,
            Err(e) => {
                return Err(e);
            },
        };
        if self.counts.len() == 0 || self.counts[0] != count {
            return Err(Error::InFlightCountMismatch(self.api));
        }
        let waited = self.driver.wait(slot);
        let ghost idle = self.driver();
        proof {
            assert(D::waits(old(self).driver(), slot, idle, waited));
        }
        match waited {
            Ok(()) => {},
            Err(e) => {
                return self.refuse(slot, e);
            },
        }
        let mut bytes: Vec<u8> = Vec::new();
        let ghost nothing = bytes@;
        let copied = self.driver.read(slot, &mut bytes);
        let ghost device = self.driver();
        proof {
            assert(nothing =~= Seq::<u8>::empty());
            assert(D::reads(idle, slot, Seq::empty(), device, bytes@, copied));
        }
        match copied {
            Ok(()) => {},
            Err(e) => {
                return self.refuse(slot, e);
            },
        }
        match unpack_addresses(bytes.as_slice(), addresses) {
            Ok(()) => {},
            Err(e) => {
                return self.refuse(slot, e);
            },
        }
        let sample: usize = self.sample_index % count;
        proof {
            lemma_index_in_chain(count as nat, chain_len(self.stride as nat), sample as nat);
            let at = 20 * sample as int;
            assert(bytes@.subrange(at, at + 20) =~= addresses@[sample as int]@);
        }
        let key: SecretKey = match chain_key(keys, self.stride, sample) {
            Ok(key) => key,
            Err(e) => {
                return self.refuse(slot, e);
            },
        };
        match verify_address(&key, &addresses[sample]) {
            Ok(()) => {},
            Err(e) => {
                return self.refuse(slot, e);
            },
        }
        self.sample_index = self.sample_index.wrapping_add(1);
        let cleared = self.driver.clear(slot);
        proof {
            assert(D::clears(device, slot, self.driver(), cleared));
        }
        if cleared.is_ok() {
            self.ring = self.ring.collected();
            self.counts.pop_front();
        }
        cleared
    }
}

impl<D: GpuDriver> AddressBackend for SlottedBackend<D> {
    const VERIFY_CANDIDATES: bool = true;

    /// Begins and ends the batch.
    open spec fn derives(
        before: SlottedBackend<D>,
        keys: Seq<SecretKey>,
        count: nat,
        after: SlottedBackend<D>,
        addresses: Seq<Address>,
        r: Result<(), Error>,
    ) -> bool {
        before.wf() ==> exists|held: Seq<Address>|
            held.len() == count && #[trigger] Self::derived(before, keys, held, after, addresses, r)
    }

    /// Refuses what cannot be started, and hands the rest to the device.
    open spec fn begins(
        before: SlottedBackend<D>,
        keys: Seq<SecretKey>,
        count: nat,
        after: SlottedBackend<D>,
        r: Result<(), Error>,
    ) -> bool {
        before.wf() ==> after.wf() && match before.start_fault(keys, count) {
            Some(e) => r == Err::<(), Error>(e) && after == before,
            None => if count == 0 {
                r is Ok && after == before
            } else {
                Self::hands_over(before, keys, count, after, r)
            },
        }
    }

    /// Refuses what is not in flight, and collects the rest from the device.
    open spec fn ends(
        before: SlottedBackend<D>,
        keys: Seq<SecretKey>,
        count: nat,
        after: SlottedBackend<D>,
        addresses: Seq<Address>,
        r: Result<(), Error>,
    ) -> bool {
        before.wf() ==> exists|held: Seq<Address>|
            held.len() == count && #[trigger] Self::ended(before, keys, held, after, addresses, r)
    }

    fn inflight_capacity(&self) -> (r: usize)
        ensures
            r == self.slots(),
    {
        self.ring.slot_count()
    }

    fn increment_stride(&self) -> (r: usize)
        ensures
            r == self.stride(),
    {
        self.stride
    }

    fn derive_batch(&mut self, keys: &[SecretKey], addresses: &mut [Address]) -> (r: Result<
        (),
        Error,
    >)
        ensures
            final(self).same_device(&*old(self)),
            old(self).wf() ==> final(self).wf() && Self::derived(
                *old(self),
                keys@,
                old(addresses)@,
                *final(self),
                final(addresses)@,
                r,
            ),
            r is Ok ==> keys@.len() == chains_for(old(addresses)@.len(), old(self).stride()),
            r is Ok && old(self).wf() && old(self).in_flight().len() == 0
                ==> final(self).in_flight().len() == 0,
            r is Ok && old(addresses)@.len() > 0 ==> ({
                let sample = old(self).sample_index() % old(addresses)@.len();
                final(addresses)@[sample as int]@ == address_of(
                    chain_scalar(keys@, old(self).stride(), sample),
                )
            }),
    {
        let begun = self.begin_batch(keys, addresses.len());
        let ghost mid = *self;
        let ghost first = begun;
        proof {
            assert(old(self).wf() ==> Self::begins(
                *old(self),
                keys@,
                old(addresses)@.len(),
                mid,
                first,
            ));
        }
        let r = match begun {
            Err(e) => Err(e),
            Ok(()) => self.end_batch(keys, addresses),
        };
        proof {
            if old(self).wf() {
                assert(Self::derived(*old(self), keys@, old(addresses)@, *self, addresses@, r));
            }
        }
        r
    }

    fn begin_batch(&mut self, keys: &[SecretKey], count: usize) -> (r: Result<(), Error>)
        ensures
            final(self).same_device(&*old(self)),
            final(self).sample_index() == old(self).sample_index(),
            Self::begins(*old(self), keys@, count as nat, *final(self), r),
            r is Ok ==> keys@.len() == chains_for(count as nat, old(self).stride()),
            r is Ok && old(self).wf() ==> final(self).in_flight() == (if count == 0 {
                old(self).in_flight()
            } else {
                old(self).in_flight().push(count)
            }),
            r is Err ==> final(self).in_flight() == old(self).in_flight(),
            old(self).wf() && count > 0 && old(self).start_fault(keys@, count as nat) is None
                ==> exists|staged: &mut Vec<u8>|
                staged@ == upload_bytes(
                    old(self).layout(),
                    keys@,
                    old(self).stride(),
                    count as nat,
                ) && #[trigger] call_ensures(erase_upload, (staged,), ()),
    {
        if self.capacity > MAX_GPU_BATCH_SIZE as usize {
            return Err(Error::InvalidCapacity(self.api));
        }
        let free: Option<usize> = match self.ring.next_free(self.api, count, self.capacity) {
            Ok(free) => free,
            Err(e) => {
                return Err(e);
            },
        };
        match check_chain_batch(keys, count, self.stride) {
            Ok(()) => {},
            Err(e) => {
                return Err(e);
            },
        }
        let slot: usize = match free {
            Some(slot) => slot,
            None => {
                return Ok(());
            },
        };
        let mut bytes: Vec<u8> = prepare_upload(self.layout, keys, self.stride, count)?;
        let ghost upload = bytes@;
        let started = self.driver.submit(slot, bytes.as_slice(), count);
        erase_upload(&mut bytes);
        proof {
            assert(D::submits(old(self).driver(), slot, upload, count, self.driver(), started));
        }
        match started {
            Err(e) => self.refuse(slot, e),
            Ok(()) => {
                self.ring = self.ring.submitted();
                self.counts.push_back(count);
                Ok(())
            },
        }
    }

    fn end_batch(&mut self, keys: &[SecretKey], addresses: &mut [Address]) -> (r: Result<
        (),
        Error,
    >)
        ensures
            final(self).same_device(&*old(self)),
            old(self).wf() ==> final(self).wf() && Self::ended(
                *old(self),
                keys@,
                old(addresses)@,
                *final(self),
                final(addresses)@,
                r,
            ),
            r is Ok ==> keys@.len() == chains_for(old(addresses)@.len(), old(self).stride()),
            r is Ok && old(addresses)@.len() > 0 ==> old(self).in_flight().len() > 0 && old(
                self,
            ).in_flight()[0] == old(addresses)@.len() && final(self).in_flight() == old(
                self,
            ).in_flight().drop_first(),
            r is Ok && old(addresses)@.len() > 0 ==> ({
                let sample = old(self).sample_index() % old(addresses)@.len();
                final(addresses)@[sample as int]@ == address_of(
                    chain_scalar(keys@, old(self).stride(), sample),
                )
            }),
            r is Err || old(addresses)@.len() == 0 ==> final(self).in_flight() == old(
                self,
            ).in_flight(),
    {
        let r = self.collect(keys, addresses);
        proof {
            if old(self).wf() {
                assert(Self::ended(*old(self), keys@, old(addresses)@, *self, addresses@, r));
            }
        }
        r
    }
}

impl<D: NamedDevice> NamedDevice for SlottedBackend<D> {
    fn device_name(&self) -> (r: String)
        ensures
            call_ensures(D::device_name, (&self.driver(),), r),
    {
        self.driver.device_name()
    }
}

/// Whatever a backend answers to the startup vectors, it keeps its device, and
/// answering all of them leaves nothing behind.
proof fn lemma_self_test_keeps_device<D: GpuDriver>(
    before: SlottedBackend<D>,
    after: SlottedBackend<D>,
    batches: Seq<Seq<SecretKey>>,
    stride: nat,
    r: Result<(), Error>,
)
    requires
        before.wf(),
        self_test_run(before, after, batches, stride, r),
    ensures
        after.wf(),
        after.same_device(&before),
        r is Ok && before.in_flight().len() == 0 ==> after.in_flight().len() == 0,
    decreases batches.len(),
{
    if batches.len() > 0 {
        let keys = batches[0];
        let (next, addresses, derived) = choose|
            next: SlottedBackend<D>,
            addresses: Seq<Address>,
            derived: Result<(), Error>,
        | #[trigger]
            SlottedBackend::<D>::derives(
                before,
                starts_of(keys, stride),
                keys.len(),
                next,
                addresses,
                derived,
            ) && addresses.len() == keys.len() && match derived {
                Err(e) => r == Err::<(), Error>(e) && after == next,
                Ok(_) => if all_confirmed(keys, addresses) {
                    self_test_run(next, after, batches.drop_first(), stride, r)
                } else {
                    r == Err::<(), Error>(Error::AddressMismatch) && after == next
                },
            };
        if derived is Ok && all_confirmed(keys, addresses) {
            lemma_self_test_keeps_device(next, after, batches.drop_first(), stride, r);
        }
    }
}

impl<D: GpuDriver> SlottedBackend<D> {
    /// Runs the startup vectors and checks every address on the CPU. What it
    /// checked does not count towards which address of the next batch is
    /// checked.
    pub fn self_test(&mut self) -> (r: Result<(), Error>)
        ensures
            old(self).wf() ==> final(self).wf() && final(self).same_device(&*old(self)),
            old(self).wf() && r is Ok && old(self).in_flight().len() == 0
                ==> final(self).in_flight().len() == 0,
            if self_test_first(old(self).stride()) == 0 {
                r == Err::<(), Error>(Error::InvalidScalar) && *final(self) == *old(self)
            } else {
                exists|batches: Seq<Seq<SecretKey>>, last: SlottedBackend<D>|
                    is_self_test(
                        batches.map_values(|batch: Seq<SecretKey>| scalars(batch)),
                        self_test_first(old(self).stride()),
                        self_test_chain(old(self).stride(), old(self).capacity()),
                    ) && #[trigger] self_test_run(
                        *old(self),
                        last,
                        batches,
                        old(self).stride(),
                        r,
                    ) && match r {
                        Err(_) => *final(self) == last,
                        Ok(_) => final(self).reset_of(&last),
                    }
            },
    {
        let capacity: usize = self.capacity;
        let tested = run_self_test(self, capacity);
        let ghost last = *self;
        proof {
            if self_test_first(old(self).stride()) != 0 && old(self).wf() {
                let batches = choose|batches: Seq<Seq<SecretKey>>|
                    is_self_test(
                        batches.map_values(|batch: Seq<SecretKey>| scalars(batch)),
                        self_test_first(old(self).stride()),
                        self_test_chain(old(self).stride(), old(self).capacity()),
                    ) && #[trigger] self_test_run(
                        *old(self),
                        last,
                        batches,
                        old(self).stride(),
                        tested,
                    );
                lemma_self_test_keeps_device(
                    *old(self),
                    last,
                    batches,
                    old(self).stride(),
                    tested,
                );
            }
        }
        match tested {
            Err(e) => Err(e),
            Ok(()) => {
                self.sample_index = 0;
                tested
            },
        }
    }
}

}
