//! What goes to a device, what comes back, and how it is tried first.
use crate::address::{derive_address, Address};
use crate::backend::{
    check_self_test_batch, gpu_self_test_batches, run_self_test, AddressBackend, CpuBackend,
};
use crate::error::Error;
use crate::gpu::{
    check_capacity, erase_upload, prepare_upload, unpack_addresses, GpuDriver, KeyLayout,
    SlottedBackend,
};
use crate::ring::GpuApi;
use crate::scalar::{wipe, SecretKey};
use crate::table::{build_table, build_window, table_bytes, write_table_entry};
use vstd::arithmetic::div_mod::{lemma_fundamental_div_mod, lemma_fundamental_div_mod_converse};
use vstd::prelude::*;

verus! {

use crate::address::{address_of, public_key_bytes};
use crate::backend::{
    addresses_of_keys, all_confirmed, is_self_test, scalars, self_test_chain, self_test_first,
    self_test_run, starts_of,
};
use crate::chain::{
    chain_len, chain_scalar, chains_for, law_expanded_key_at, lemma_index_in_chain,
};
use crate::gpu::upload_bytes;
use crate::launch::law_chains_cover;
use crate::laws::digits::{lemma_number_of_bytes, number_in};
use crate::laws::keys::{group_order, scalars_per_chain};
use crate::scalar::{
    is_scalar, lemma_curve_order_room, lemma_value_of_be_bytes, pow256,
};
use crate::table::{entry_at, lemma_row, lemma_rows, table_entry, table_fits, window_count};
use vstd::arithmetic::power2::pow2;

/// The three startup batches are the scalar one, the largest scalar, and a chain
/// in which each scalar is one more than the one before.
pub proof fn law_startup_batches(
    stride: usize,
    capacity: usize,
    r: Result<Vec<Vec<SecretKey>>, Error>,
    i: int,
)
    requires
        call_ensures(gpu_self_test_batches, (stride, capacity), r),
    ensures
        match r {
            Ok(batches) => {
                let chain = batches@[2]@;
                &&& batches@.len() == 3
                &&& batches@[0]@.len() == 1
                &&& batches@[0]@[0]@ == 1
                &&& batches@[1]@.len() == 1
                &&& batches@[1]@[0]@ + 1 == group_order()
                &&& chain.len() >= 1
                &&& chain.len() == 1 || chain.len() <= capacity
                &&& chain.len() == stride || chain.len() == 3 || chain.len() == 1 || chain.len()
                    == capacity
                &&& 3 <= stride <= capacity ==> chain.len() == stride
                &&& stride < 3 <= capacity ==> chain.len() == 3
                &&& 1 <= capacity < stride ==> chain.len() == capacity
                &&& 0 < i < chain.len() ==> chain[i]@ == chain[i - 1]@ + 1
                &&& stride < 2 ==> chain[0]@ == 2
                &&& 2 <= stride < 256 ==> chain[0]@ == stride
                &&& 0 < chain[0]@ < 256
            },
            Err(e) => stride >= 256 && e == Error::InvalidScalar,
        },
{
    if let Ok(batches) = r {
        let views = batches@.map_values(|batch: Vec<SecretKey>| scalars(batch@));
        assert(views[0] == scalars(batches@[0]@));
        assert(views[1] == scalars(batches@[1]@));
        assert(views[2] == scalars(batches@[2]@));
        assert(views[0].len() == 1 && views[0][0] == 1);
        assert(views[1].len() == 1 && views[1][0] + 1 == group_order());
        assert(scalars(batches@[0]@)[0] == batches@[0]@[0]@);
        assert(scalars(batches@[1]@)[0] == batches@[1]@[0]@);
        let chain = batches@[2]@;
        assert(chain.len() == views[2].len());
        assert(views[2][0] == chain[0]@);
        if 0 < i < chain.len() {
            assert(views[2][i] == chain[i]@ && views[2][i - 1] == chain[i - 1]@);
        }
    }
}

/// A startup batch is confirmed exactly when every address is the one that its
/// key gives.
pub proof fn law_startup_batch_is_confirmed(
    keys: &[SecretKey],
    addresses: &[Address],
    r: Result<(), Error>,
    i: int,
    derived: Address,
)
    requires
        call_ensures(check_self_test_batch, (keys, addresses), r),
        0 <= i < keys@.len(),
        i < addresses@.len(),
        call_ensures(derive_address, (&keys@[i],), derived),
    ensures
        r is Ok ==> addresses@[i]@ == derived@,
        addresses@[i]@ != derived@ ==> r == Err::<(), Error>(Error::AddressMismatch),
        r is Err ==> exists|k: int|
            0 <= k < keys@.len() && k < addresses@.len() && (#[trigger] addresses@[k])@
                != address_of(keys@[k]@),
{
    assert(addresses@[i]@ == addresses@[i]@);
}

/// The CPU gives each key its own address, in order, where there is one address
/// for each key, and refuses anything else.
pub proof fn law_cpu_derives_each_key(
    keys: &[SecretKey],
    i: int,
    derived: Address,
)
    requires
        0 <= i < keys@.len(),
        call_ensures(derive_address, (&keys@[i],), derived),
    ensures
        forall|backend: &mut CpuBackend, addresses: &mut [Address], r: Result<(), Error>| #[trigger]
            call_ensures(CpuBackend::derive_batch, (backend, keys, addresses), r) ==> {
                &&& r is Ok <==> keys@.len() == addresses@.len()
                &&& r is Ok ==> final(addresses)@[i]@ == derived@
                &&& r matches Err(e) ==> e == Error::BatchLengths
            },
        forall|backend: &mut CpuBackend, addresses: &mut [Address], r: Result<(), Error>| #[trigger]
            call_ensures(CpuBackend::end_batch, (backend, keys, addresses), r) ==> {
                &&& r is Ok <==> keys@.len() == addresses@.len()
                &&& r is Ok ==> final(addresses)@[i]@ == derived@
            },
{
    assert forall|
        backend: &mut CpuBackend,
        addresses: &mut [Address],
        r: Result<(), Error>,
    | #[trigger]
        call_ensures(
            CpuBackend::derive_batch,
            (backend, keys, addresses),
            r,
        ) && r is Ok implies final(addresses)@[i]@ == derived@ by {
        let given = final(addresses)@;
        assert(addresses_of_keys(keys@, given));
        assert(given[i]@ == derived@);
    }
    assert forall|
        backend: &mut CpuBackend,
        addresses: &mut [Address],
        r: Result<(), Error>,
    | #[trigger]
        call_ensures(
            CpuBackend::end_batch,
            (backend, keys, addresses),
            r,
        ) && r is Ok implies final(addresses)@[i]@ == derived@ by {
        let given = final(addresses)@;
        assert(addresses_of_keys(keys@, given));
        assert(given[i]@ == derived@);
    }
}

/// Where a device takes one scalar per chain, it is handed the starts, 32 bytes
/// each and in their order.
pub proof fn law_starts_are_uploaded(
    keys: &[SecretKey],
    stride: usize,
    count: usize,
    bytes: Vec<u8>,
    i: nat,
)
    requires
        call_ensures(
            prepare_upload,
            (KeyLayout::Starts, keys, stride, count),
            Ok::<Vec<u8>, Error>(bytes),
        ),
        i < keys@.len(),
        forall|k: int| 0 <= k < keys@.len() ==> is_scalar((#[trigger] keys@[k])@),
    ensures
        bytes@.len() == 32 * keys@.len(),
        number_in(256, bytes@.subrange(32 * i as int, 32 * i as int + 32)) == keys@[i as int]@,
{
    lemma_curve_order_room();
    assert forall|j: nat| j < keys@.len() implies chain_scalar(keys@, 1, j) == keys@[j as int]@
        && chain_scalar(keys@, 1, j) < pow256(32) by {
        lemma_fundamental_div_mod_converse(j as int, 1, j as int, 0);
        assert(is_scalar(keys@[j as int]@));
    }
    law_expanded_key_at(keys@, 1, keys@.len(), i);
    lemma_value_of_be_bytes(chain_scalar(keys@, 1, i), 32);
    lemma_number_of_bytes(bytes@.subrange(32 * i as int, 32 * i as int + 32));
}

/// Where a device takes one scalar per address, it is handed those of every
/// chain, 32 bytes each and in the order of the addresses.
pub proof fn law_scalars_are_uploaded(
    keys: &[SecretKey],
    stride: usize,
    count: usize,
    bytes: Vec<u8>,
    chain: nat,
    step: nat,
)
    requires
        call_ensures(
            prepare_upload,
            (KeyLayout::Expanded, keys, stride, count),
            Ok::<Vec<u8>, Error>(bytes),
        ),
        step < scalars_per_chain(stride),
        chain * scalars_per_chain(stride) + step < count,
        forall|k: int| 0 <= k < keys@.len() ==> is_scalar((#[trigger] keys@[k])@),
    ensures
        bytes@.len() == 32 * count,
        ({
            let at = 32 * (chain * scalars_per_chain(stride) + step) as int;
            number_in(256, bytes@.subrange(at, at + 32)) == keys@[chain as int]@ + step
        }),
{
    let index = (chain * scalars_per_chain(stride) + step) as nat;
    let at = 32 * index as int;
    let s = stride as nat;
    let n = count as nat;
    let len = chain_len(s);
    assert(len == scalars_per_chain(stride));
    lemma_fundamental_div_mod_converse(index as int, len as int, chain as int, step as int);
    lemma_curve_order_room();
    assert forall|j: nat| j < count implies chain_scalar(keys@, s, j) < pow256(32) by {
        lemma_index_in_chain(n, len, j);
        vstd::arithmetic::div_mod::lemma_mod_bound(j as int, len as int);
        vstd::arithmetic::div_mod::lemma_div_pos_is_pos(j as int, len as int);
        assert(is_scalar(keys@[(j / len) as int]@));
    }
    law_expanded_key_at(keys@, s, n, index);
    lemma_value_of_be_bytes(chain_scalar(keys@, s, index), 32);
    lemma_number_of_bytes(bytes@.subrange(at, at + 32));
}

/// An upload is refused exactly when the starts are not as many as the chains.
pub proof fn law_upload_needs_its_starts(
    layout: KeyLayout,
    keys: &[SecretKey],
    stride: usize,
    count: usize,
    r: Result<Vec<u8>, Error>,
    chains: usize,
)
    requires
        call_ensures(prepare_upload, (layout, keys, stride, count), r),
        call_ensures(crate::chain::chain_count, (count, stride), chains),
    ensures
        r is Ok <==> keys@.len() == chains,
        r matches Err(e) ==> e == Error::BatchKeyCount,
{
}

/// What was uploaded, and the scalar that was worked on, are overwritten: not
/// one byte is left.
pub proof fn law_nothing_is_left_of_an_upload(k: int)
    ensures
        forall|bytes: &mut Vec<u8>| #[trigger]
            call_ensures(erase_upload, (bytes,), ()) ==> final(bytes)@.len() == bytes@.len() && (0
                <= k < bytes@.len() ==> final(bytes)@[k] == 0),
        forall|bytes: &mut [u8; 32]| #[trigger]
            call_ensures(wipe, (bytes,), ()) ==> (0 <= k < 32 ==> final(bytes)@[k] == 0),
{
}

/// The answer of a device is cut into addresses of twenty bytes, in order, and is
/// refused where it has not twenty for each.
pub proof fn law_answer_is_cut_into_addresses(bytes: &[u8], j: int, b: int)
    requires
        0 <= b < 20,
    ensures
        forall|addresses: &mut [Address], r: Result<(), Error>| #[trigger]
            call_ensures(unpack_addresses, (bytes, addresses), r) ==> {
                &&& final(addresses)@.len() == addresses@.len()
                &&& r is Ok <==> bytes@.len() == 20 * addresses@.len()
                &&& r is Ok && 0 <= j < addresses@.len() ==> final(addresses)@[j]@[b] == bytes@[20
                    * j + b]
                &&& r is Err ==> final(addresses)@ == addresses@
            },
{
    assert forall|addresses: &mut [Address], r: Result<(), Error>| #[trigger]
        call_ensures(unpack_addresses, (bytes, addresses), r) && r is Ok && 0 <= j
            < addresses@.len() implies final(addresses)@[j]@[b] == bytes@[20 * j + b] by {
        let cut = final(addresses)@;
        assert(cut[j]@[b] == bytes@[20 * j + b]);
    }
}

/// A device may be opened for one address at least and 262144 at most.
pub proof fn law_capacity_is_limited(api: GpuApi, capacity: usize, r: Result<(), Error>)
    requires
        call_ensures(check_capacity, (api, capacity), r),
    ensures
        r is Ok <==> 0 < capacity <= 262_144,
        r matches Err(e) ==> e == Error::InvalidCapacity(api),
{
}

/// A batch that was started is in flight behind the others, and one that was
/// refused is not. Only one that fits the device, has its starts and finds a free
/// slot is started.
pub proof fn law_started_batch_is_in_flight<D: GpuDriver>(
    before: SlottedBackend<D>,
    keys: Seq<SecretKey>,
    count: nat,
    after: SlottedBackend<D>,
    r: Result<(), Error>,
)
    requires
        before.wf(),
        SlottedBackend::<D>::begins(before, keys, count, after, r),
        count > 0,
    ensures
        r is Ok ==> {
            &&& count <= before.capacity()
            &&& before.in_flight().len() != before.slots()
            &&& keys.len() == chains_for(count, before.stride())
            &&& after.in_flight().len() == before.in_flight().len() + 1
            &&& after.in_flight().last() == count
            &&& after.in_flight().drop_last() == before.in_flight()
        },
        r is Err ==> after.in_flight() == before.in_flight() && after.ring() == before.ring(),
        after.sample_index() == before.sample_index(),
        after.capacity() == before.capacity() && after.stride() == before.stride(),
{
    if r is Ok {
        assert(after.in_flight().drop_last() =~= before.in_flight());
    }
}

/// What a device is handed is the upload of the batch, in a slot that is not in
/// flight, with as many addresses as were asked for.
pub proof fn law_device_is_handed_the_upload<D: GpuDriver>(
    before: SlottedBackend<D>,
    keys: &[SecretKey],
    stride: usize,
    count: usize,
    after: SlottedBackend<D>,
    r: Result<(), Error>,
    upload: Vec<u8>,
)
    requires
        before.wf(),
        before.ring().wf(),
        SlottedBackend::<D>::begins(before, keys@, count as nat, after, r),
        r is Ok,
        count > 0,
        before.stride() == stride,
        before.in_flight().len() == before.ring()@.len(),
        before.slots() == before.ring().slots(),
        call_ensures(
            prepare_upload,
            (before.layout(), keys, stride, count),
            Ok::<Vec<u8>, Error>(upload),
        ),
    ensures
        exists|slot: usize, started: Result<(), Error>| #[trigger]
            D::submits(before.driver(), slot, upload@, count, after.driver(), started)
                && started is Ok && slot < before.slots() && !before.ring()@.contains(slot as int)
                && after.ring()@ == before.ring()@.push(slot as int),
{
    let (slot, handed, device, started) = choose|
        slot: usize,
        handed: usize,
        device: D,
        started: Result<(), Error>,
    |
        slot == before.free_slot() && handed == count as nat && #[trigger] D::submits(
            before.driver(),
            slot,
            upload_bytes(before.layout(), keys@, before.stride(), count as nat),
            handed,
            device,
            started,
        ) && started is Ok && after.driver() == device && before.ring().fills(after.ring());
    let ring = before.ring();
    ring.law_slots_are_distinct();
    ring.law_free_slot_is_one_of_the_slots();
    assert(D::submits(before.driver(), slot, upload@, count, after.driver(), started));
}

/// A batch is refused before the device is asked where it is too large, where every
/// slot is in flight, or where its starts are not as many as its chains, and is
/// told in this order.
pub proof fn law_refused_start_is_told<D: GpuDriver>(
    before: SlottedBackend<D>,
    keys: Seq<SecretKey>,
    count: nat,
    after: SlottedBackend<D>,
    r: Result<(), Error>,
)
    requires
        before.wf(),
        SlottedBackend::<D>::begins(before, keys, count, after, r),
    ensures
        count > before.capacity() ==> r == Err::<(), Error>(
            Error::BatchExceedsCapacity(before.api()),
        ) && after == before,
        count <= before.capacity() && before.in_flight().len() == before.slots() ==> r == Err::<
            (),
            Error,
        >(Error::SlotsExhausted(before.api())) && after == before,
        count == 0 && r is Ok ==> after == before,
        count == 0 && keys.len() > 0 && before.in_flight().len() != before.slots() ==> r == Err::<
            (),
            Error,
        >(Error::BatchKeyCount),
{
    if count == 0 {
        law_chains_cover(0, before.stride());
        vstd::arithmetic::div_mod::lemma_basic_div(
            chain_len(before.stride()) - 1,
            chain_len(before.stride()) as int,
        );
    }
}

/// However collecting a batch ends, once the device was asked the slot's keys are
/// overwritten, and what was in flight stays so unless the batch was collected.
pub proof fn law_slot_is_cleared<D: GpuDriver>(
    before: SlottedBackend<D>,
    keys: Seq<SecretKey>,
    held: Seq<Address>,
    after: SlottedBackend<D>,
    addresses: Seq<Address>,
    r: Result<(), Error>,
)
    requires
        SlottedBackend::<D>::collects(before, keys, held, after, addresses, r),
    ensures
        exists|device: D, slot: usize, cleared: Result<(), Error>| #[trigger]
            D::clears(device, slot, after.driver(), cleared) && slot == before.oldest_slot(),
        r is Err ==> after.in_flight() == before.in_flight() && after.ring() == before.ring(),
        after.slots() == before.slots() && after.capacity() == before.capacity(),
{
}

/// A batch that was collected was the oldest in flight and is no longer. One of
/// its addresses, another for each batch in turn, is the one that its scalar
/// gives; so a device that gets it wrong is found out.
pub proof fn law_collected_batch_was_sampled<D: GpuDriver>(
    before: SlottedBackend<D>,
    keys: Seq<SecretKey>,
    held: Seq<Address>,
    after: SlottedBackend<D>,
    addresses: Seq<Address>,
    r: Result<(), Error>,
)
    requires
        SlottedBackend::<D>::ended(before, keys, held, after, addresses, r),
        held.len() > 0,
        addresses.len() == held.len(),
    ensures
        r is Ok ==> {
            let sample = (before.sample_index() % held.len()) as int;
            let len = if before.stride() > 1 {
                before.stride() as int
            } else {
                1
            };
            &&& before.in_flight().len() > 0
            &&& before.in_flight()[0] == held.len()
            &&& after.in_flight() == before.in_flight().drop_first()
            &&& addresses[sample]@ == address_of((keys[sample / len]@ + sample % len) as nat)
            &&& after.sample_index() == before.sample_index() + 1 || (after.sample_index() == 0
                && before.sample_index() == usize::MAX)
        },
        before.in_flight().len() == 0 ==> r is Err,
{
    if r is Ok {
        let sample = before.sample_index() % held.len();
        vstd::arithmetic::div_mod::lemma_mod_bound(
            before.sample_index() as int,
            held.len() as int,
        );
        let (slot, idle, waited) = choose|slot: usize, idle: D, waited: Result<(), Error>|
            slot == before.oldest_slot() && #[trigger] D::waits(
                before.driver(),
                slot,
                idle,
                waited,
            ) && match waited {
                Err(e) => SlottedBackend::<D>::refuses(before, idle, slot, e, after, r) && addresses
                    == held,
                Ok(_) => exists|device: D, bytes: Seq<u8>, copied: Result<(), Error>| #[trigger]
                    D::reads(
                        idle,
                        slot,
                        Seq::empty(),
                        device,
                        bytes,
                        copied,
                    ) && SlottedBackend::<D>::takes_over(
                        before,
                        keys,
                        held,
                        slot,
                        device,
                        bytes,
                        copied,
                        after,
                        addresses,
                        r,
                    ),
            };
        let (device, bytes, copied) = choose|
            device: D,
            bytes: Seq<u8>,
            copied: Result<(), Error>,
        | #[trigger]
            D::reads(
                idle,
                slot,
                Seq::empty(),
                device,
                bytes,
                copied,
            ) && SlottedBackend::<D>::takes_over(
                before,
                keys,
                held,
                slot,
                device,
                bytes,
                copied,
                after,
                addresses,
                r,
            );
        let at = 20 * sample as int;
        assert(addresses[sample as int]@ =~= bytes.subrange(at, at + 20));
    }
}

/// The table has 64 bytes for each digit of each window, and as many windows as
/// fit in 256 bits.
pub proof fn law_table_size(window_bits: u8, r: usize, windows: nat)
    requires
        table_fits(window_bits as nat),
        call_ensures(table_bytes, (window_bits,), r),
        windows * window_bits <= 256 < (windows + 1) * window_bits,
    ensures
        r == 64 * (windows * pow2(window_bits as nat)),
{
    let bits = window_bits as int;
    let rest = 256 - windows * bits;
    assert(0 <= rest < bits) by (nonlinear_arith)
        requires
            rest == 256 - windows * bits,
            windows * bits <= 256 < (windows + 1) * bits,
    ;
    lemma_fundamental_div_mod_converse(256, bits, windows as int, rest);
    assert(windows == window_count(window_bits as nat));
    let radix = pow2(window_bits as nat);
    assert(windows * radix * 64 == 64 * (windows * radix)) by (nonlinear_arith);
}

/// An entry holds both coordinates of a point, each with its least significant
/// byte first, and what follows it in the slot stays.
pub proof fn law_entry_reverses_the_coordinates(public: &[u8; 65], k: int)
    requires
        0 <= k < 32,
    ensures
        forall|slot: &mut [u8]| #[trigger]
            call_ensures(write_table_entry, (slot, public), ()) && slot@.len() >= 64 ==> {
                &&& final(slot)@.len() == slot@.len()
                &&& final(slot)@[31 - k] == public@[1 + k]
                &&& final(slot)@[63 - k] == public@[33 + k]
                &&& forall|j: int|
                    64 <= j < slot@.len() ==> final(slot)@[j] == #[trigger] slot@[j]
            },
{
}

/// At digit `digit` of a window stands the multiple `digit * 2^(bits * window)` of
/// the generator, both coordinates with the least significant byte first; at
/// digit zero stand zeros.
pub proof fn law_window_entries(
    window_bits: u8,
    window: usize,
    r: Result<Vec<u8>, Error>,
    digit: nat,
    k: int,
)
    requires
        call_ensures(build_window, (window_bits, window), r),
        digit < pow2(window_bits as nat),
        0 <= k < 32,
    ensures
        r is Ok,
        r->Ok_0@.len() == 64 * pow2(window_bits as nat),
        ({
            let scalar = digit * pow2(window_bits as nat * window as nat);
            let at = 64 * digit;
            let bytes = r->Ok_0@;
            &&& digit == 0 ==> bytes[k] == 0 && bytes[32 + k] == 0
            &&& digit > 0 ==> bytes[at + 31 - k] == public_key_bytes(scalar)[1 + k] && bytes[at + 63
                - k] == public_key_bytes(scalar)[33 + k]
        }),
{
    let bits = window_bits as nat;
    let bytes = r->Ok_0@;
    lemma_row(bits, window as nat, pow2(bits), digit);
    let entry = table_entry(bits, window as nat, digit);
    assert(entry_at(bytes, digit) == entry);
    assert(entry_at(bytes, digit)[31 - k] == bytes[64 * digit + 31 - k]);
    assert(entry_at(bytes, digit)[63 - k] == bytes[64 * digit + 63 - k]);
    assert(entry_at(bytes, digit)[k] == bytes[64 * digit + k]);
    assert(entry_at(bytes, digit)[32 + k] == bytes[64 * digit + 32 + k]);
}

/// The table is its windows one after the other.
pub proof fn law_table_is_its_windows(
    window_bits: u8,
    window: usize,
    table: Result<Vec<u8>, Error>,
    row: Result<Vec<u8>, Error>,
    digit: nat,
)
    requires
        call_ensures(build_table, (window_bits,), table),
        call_ensures(build_window, (window_bits, window), row),
        window_bits > 0,
        (window + 1) * window_bits <= 256,
        digit < pow2(window_bits as nat),
    ensures
        table is Ok && row is Ok,
        entry_at(table->Ok_0@, window as nat * pow2(window_bits as nat) + digit) == entry_at(
            row->Ok_0@,
            digit,
        ),
{
    let bits = window_bits as nat;
    let windows = window_count(bits);
    lemma_fundamental_div_mod(256, bits as int);
    assert(window < windows) by (nonlinear_arith)
        requires
            (window + 1) * bits <= 256,
            256 == bits as int * windows + 256int % (bits as int),
            256int % (bits as int) < bits,
            bits > 0,
    ;
    lemma_rows(bits, windows, window as nat, digit);
    lemma_row(bits, window as nat, pow2(bits), digit);
}

/// A backend holds as many batches as it was given slots, and walks chains of the
/// stride that it was given.
pub proof fn law_backend_is_as_it_was_made<D: GpuDriver>(
    driver: D,
    api: GpuApi,
    layout: KeyLayout,
    stride: usize,
    capacity: usize,
    slots: usize,
    made: SlottedBackend<D>,
    holds: usize,
    walks: usize,
)
    requires
        call_ensures(
            SlottedBackend::<D>::new,
            (driver, api, layout, stride, capacity, slots),
            Ok::<SlottedBackend<D>, Error>(made),
        ),
        call_ensures(SlottedBackend::<D>::inflight_capacity, (&made,), holds),
        call_ensures(SlottedBackend::<D>::increment_stride, (&made,), walks),
    ensures
        holds == slots,
        walks == stride,
        made.in_flight().len() == 0,
        0 < capacity <= 262_144,
{
}

/// Whether a backend can go from `before` to `after` by deriving a batch of keys,
/// and gives every key its address.
pub open spec fn answers_well<B: AddressBackend>(
    before: B,
    keys: Seq<SecretKey>,
    stride: nat,
    addresses: Seq<Address>,
    after: B,
) -> bool {
    &&& exists|r: Result<(), Error>| #[trigger]
        B::derives(before, starts_of(keys, stride), keys.len(), after, addresses, r) && r is Ok
    &&& addresses.len() == keys.len()
    &&& forall|j: int| 0 <= j < keys.len() ==> (#[trigger] addresses[j])@ == address_of(keys[j]@)
}

/// Whether a backend can be tried with these batches, one after the other, and
/// gives every key its address.
pub open spec fn tried<B: AddressBackend>(
    states: Seq<B>,
    answers: Seq<Seq<Address>>,
    batches: Seq<Seq<SecretKey>>,
    stride: nat,
) -> bool {
    &&& states.len() == batches.len() + 1
    &&& answers.len() == batches.len()
    &&& forall|i: int|
        0 <= i < batches.len() ==> answers_well(
            states[i],
            #[trigger] batches[i],
            stride,
            answers[i],
            states[i + 1],
        )
}

/// A backend passes the startup test only where it gave every key of every batch
/// its address.
pub proof fn law_passed_test_tried_every_batch<B: AddressBackend>(
    before: B,
    after: B,
    batches: Seq<Seq<SecretKey>>,
    stride: nat,
    passed: Result<(), Error>,
) -> (r: (Seq<B>, Seq<Seq<Address>>))
    requires
        self_test_run(before, after, batches, stride, passed),
        passed is Ok,
    ensures
        tried(r.0, r.1, batches, stride),
        r.0[0] == before,
        r.0.last() == after,
    decreases batches.len(),
{
    if batches.len() == 0 {
        (seq![before], Seq::empty())
    } else {
        let keys = batches[0];
        let rest = batches.drop_first();
        let (next, addresses, derived) = choose|
            next: B,
            addresses: Seq<Address>,
            derived: Result<(), Error>,
        | #[trigger]
            B::derives(before, starts_of(keys, stride), keys.len(), next, addresses, derived)
                && addresses.len() == keys.len() && derived is Ok && all_confirmed(keys, addresses)
                && self_test_run(next, after, rest, stride, passed);
        let (states, answers) = law_passed_test_tried_every_batch(
            next,
            after,
            rest,
            stride,
            passed,
        );
        let all_states = seq![before] + states;
        let all_answers = seq![addresses] + answers;
        assert(answers_well(before, keys, stride, addresses, next));
        assert forall|i: int| 0 <= i < batches.len() implies answers_well(
            all_states[i],
            #[trigger] batches[i],
            stride,
            all_answers[i],
            all_states[i + 1],
        ) by {
            if i > 0 {
                assert(rest[i - 1] == batches[i]);
                assert(all_states[i] == states[i - 1] && all_states[i + 1] == states[i]);
                assert(all_answers[i] == answers[i - 1]);
            }
        }
        (all_states, all_answers)
    }
}

/// Whether these are the startup batches: the scalar one, the largest scalar, and a
/// chain in which each scalar is one more than the one before.
pub open spec fn startup(batches: Seq<Seq<SecretKey>>) -> bool {
    &&& batches.len() == 3
    &&& batches[0].len() == 1 && batches[0][0]@ == 1
    &&& batches[1].len() == 1 && batches[1][0]@ + 1 == group_order()
    &&& batches[2].len() >= 1
    &&& forall|i: int|
        0 < i < batches[2].len() ==> (#[trigger] batches[2][i])@ == batches[2][0]@ + i
}

/// A backend that passes was given the three startup batches, one after the other,
/// and gave every key its address.
pub proof fn law_passing_backend_is_right<B: AddressBackend>(capacity: usize)
    ensures
        forall|backend: &mut B, r: Result<(), Error>| #[trigger]
            call_ensures(run_self_test::<B>, (backend, capacity), r) && r is Ok ==> exists|
                stride: usize,
                batches: Seq<Seq<SecretKey>>,
                states: Seq<B>,
                answers: Seq<Seq<Address>>,
            | #[trigger]
                tried(states, answers, batches, stride as nat) && startup(batches) && states[0]
                    == *backend && states.last() == *final(backend) && call_ensures(
                    B::increment_stride,
                    (&*backend,),
                    stride,
                ),
{
    assert forall|backend: &mut B, r: Result<(), Error>| #[trigger]
        call_ensures(run_self_test::<B>, (backend, capacity), r) && r is Ok implies exists|
        stride: usize,
        batches: Seq<Seq<SecretKey>>,
        states: Seq<B>,
        answers: Seq<Seq<Address>>,
    | #[trigger]
        tried(states, answers, batches, stride as nat) && startup(batches) && states[0] == *backend
            && states.last() == *final(backend) && call_ensures(
            B::increment_stride,
            (&*backend,),
            stride,
        ) by {
        let stride = choose|stride: usize| #[trigger]
            call_ensures(B::increment_stride, (&*backend,), stride) && self_test_first(
                stride as nat,
            ) != 0 && exists|batches: Seq<Seq<SecretKey>>|
                is_self_test(
                    batches.map_values(|batch: Seq<SecretKey>| scalars(batch)),
                    self_test_first(stride as nat),
                    self_test_chain(stride as nat, capacity as nat),
                ) && #[trigger] self_test_run(
                    *backend,
                    *final(backend),
                    batches,
                    stride as nat,
                    r,
                );
        let first = self_test_first(stride as nat);
        let chain = self_test_chain(stride as nat, capacity as nat);
        let batches = choose|batches: Seq<Seq<SecretKey>>|
            is_self_test(
                batches.map_values(|batch: Seq<SecretKey>| scalars(batch)),
                first,
                chain,
            ) && #[trigger] self_test_run(*backend, *final(backend), batches, stride as nat, r);
        lemma_startup(batches, first, chain);
        let (states, answers) = law_passed_test_tried_every_batch(
            *backend,
            *final(backend),
            batches,
            stride as nat,
            r,
        );
        assert(tried(states, answers, batches, stride as nat));
    }
}

/// The startup batches by their scalars.
proof fn lemma_startup(batches: Seq<Seq<SecretKey>>, first: nat, chain: nat)
    requires
        is_self_test(
            batches.map_values(|batch: Seq<SecretKey>| scalars(batch)),
            first,
            chain,
        ),
        chain >= 1,
    ensures
        startup(batches),
{
    let views = batches.map_values(|batch: Seq<SecretKey>| scalars(batch));
    assert(views[0] == scalars(batches[0]));
    assert(views[1] == scalars(batches[1]));
    assert(views[2] == scalars(batches[2]));
    assert(views[0].len() == 1 && views[0][0] == 1);
    assert(views[1].len() == 1 && views[1][0] + 1 == group_order());
    assert(scalars(batches[0])[0] == batches[0][0]@);
    assert(scalars(batches[1])[0] == batches[1][0]@);
    assert(views[2].len() == batches[2].len());
    assert forall|i: int| 0 < i < batches[2].len() implies (#[trigger] batches[2][i])@
        == batches[2][0]@ + i by {
        assert(views[2][i] == batches[2][i]@ && views[2][0] == batches[2][0]@);
    }
}

}
