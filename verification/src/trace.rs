//! What a search did, as plain lists: the calls of the backend and of the key
//! source, the reports, and what follows from them.
use vstd::prelude::*;

verus! {

use crate::address::{address_of, Address};
use crate::backend::AddressBackend;
use crate::best::{proposal, CandidateModel};
use crate::chain::chain_scalar;
use crate::error::Error;
use crate::hex::byte_nibbles;
use crate::matching::{full_match, is_best, is_first_hit, BatchCandidate};
use crate::scalar::SecretKey;
use crate::search::{Progress, ProgressSink};
use crate::source::{retired, KeyBatch, KeySource};
use crate::target::Targets;
use std::sync::atomic::AtomicBool;

/// A batch that the backend finished: the chain starts and the addresses.
pub struct Batch {
    pub keys: Seq<SecretKey>,
    pub addresses: Seq<Address>,
}

/// One call of a backend, with what it was handed and what it gave.
pub enum BackendCall {
    Derive { keys: Seq<SecretKey>, addresses: Seq<Address>, r: Result<(), Error> },
    Begin { keys: Seq<SecretKey>, count: nat, r: Result<(), Error> },
    End { keys: Seq<SecretKey>, addresses: Seq<Address>, r: Result<(), Error> },
}

impl BackendCall {
    /// What the call returned.
    pub open spec fn result(self) -> Result<(), Error> {
        match self {
            BackendCall::Derive { r, .. } => r,
            BackendCall::Begin { r, .. } => r,
            BackendCall::End { r, .. } => r,
        }
    }
}

/// Whether a backend can go from `before` to `after` by this call.
pub open spec fn backend_step<B: AddressBackend>(before: B, call: BackendCall, after: B) -> bool {
    match call {
        BackendCall::Derive { keys, addresses, r } => B::derives(
            before,
            keys,
            addresses.len(),
            after,
            addresses,
            r,
        ),
        BackendCall::Begin { keys, count, r } => B::begins(before, keys, count, after, r),
        BackendCall::End { keys, addresses, r } => B::ends(
            before,
            keys,
            addresses.len(),
            after,
            addresses,
            r,
        ),
    }
}

/// Whether a backend can go from `before` to `after` by exactly these calls.
pub open spec fn backend_ran<B: AddressBackend>(
    before: B,
    calls: Seq<BackendCall>,
    after: B,
) -> bool
    decreases calls.len(),
{
    if calls.len() == 0 {
        before == after
    } else {
        exists|mid: B|
            backend_ran(before, calls.drop_last(), mid) && #[trigger] backend_step(
                mid,
                calls.last(),
                after,
            )
    }
}

/// One more call makes the row of calls longer.
pub proof fn lemma_backend_push<B: AddressBackend>(
    before: B,
    calls: Seq<BackendCall>,
    mid: B,
    call: BackendCall,
    after: B,
)
    requires
        backend_ran(before, calls, mid),
        backend_step(mid, call, after),
    ensures
        backend_ran(before, calls.push(call), after),
{
    assert(calls.push(call).drop_last() =~= calls);
    assert(backend_step(mid, calls.push(call).last(), after));
}

/// The chain starts that the backend was handed to start, batch by batch.
pub open spec fn started(calls: Seq<BackendCall>) -> Seq<Seq<SecretKey>>
    decreases calls.len(),
{
    if calls.len() == 0 {
        Seq::empty()
    } else {
        let earlier = started(calls.drop_last());
        match calls.last() {
            BackendCall::Derive { keys, .. } => earlier.push(keys),
            BackendCall::Begin { keys, .. } => earlier.push(keys),
            BackendCall::End { .. } => earlier,
        }
    }
}

/// The batches that the backend finished, in order.
pub open spec fn ended(calls: Seq<BackendCall>) -> Seq<Batch>
    decreases calls.len(),
{
    if calls.len() == 0 {
        Seq::empty()
    } else {
        let earlier = ended(calls.drop_last());
        match calls.last() {
            BackendCall::Derive { keys, addresses, r } => if r is Ok {
                earlier.push(Batch { keys, addresses })
            } else {
                earlier
            },
            BackendCall::Begin { .. } => earlier,
            BackendCall::End { keys, addresses, r } => if r is Ok {
                earlier.push(Batch { keys, addresses })
            } else {
                earlier
            },
        }
    }
}

/// Whether every call derives a batch.
pub open spec fn all_derived(calls: Seq<BackendCall>) -> bool {
    forall|i: int| 0 <= i < calls.len() ==> (#[trigger] calls[i]) is Derive
}

/// Whether every call begins or ends a batch.
pub open spec fn none_derived(calls: Seq<BackendCall>) -> bool {
    forall|i: int| 0 <= i < calls.len() ==> !((#[trigger] calls[i]) is Derive)
}

/// What one more call adds to the batches started and finished.
pub proof fn lemma_calls_push(calls: Seq<BackendCall>, call: BackendCall)
    ensures
        started(calls.push(call)) == (match call {
            BackendCall::Derive { keys, .. } => started(calls).push(keys),
            BackendCall::Begin { keys, .. } => started(calls).push(keys),
            BackendCall::End { .. } => started(calls),
        }),
        ended(calls.push(call)) == (match call {
            BackendCall::Derive { keys, addresses, r } => if r is Ok {
                ended(calls).push(Batch { keys, addresses })
            } else {
                ended(calls)
            },
            BackendCall::Begin { .. } => ended(calls),
            BackendCall::End { keys, addresses, r } => if r is Ok {
                ended(calls).push(Batch { keys, addresses })
            } else {
                ended(calls)
            },
        }),
{
    assert(calls.push(call).drop_last() =~= calls);
}

/// Whether the batch that was kept of everything that began was retired.
pub open spec fn copies_retired(calls: Seq<BackendCall>) -> bool {
    forall|i: int|
        0 <= i < calls.len() ==> ((#[trigger] calls[i]) matches BackendCall::Begin { keys, r, .. }
            ==> r is Ok ==> retired(keys))
}

/// Whether the batch that was kept of everything that began was retired or is
/// held.
#[verifier::opaque]
pub open spec fn copies_kept(calls: Seq<BackendCall>, held: Seq<KeyBatch>) -> bool {
    forall|i: int|
        0 <= i < calls.len() ==> ((#[trigger] calls[i]) matches BackendCall::Begin { keys, r, .. }
            ==> r is Ok ==> retired(keys) || holds(held, keys))
}

/// Whether one of these batches has these keys.
pub open spec fn holds(held: Seq<KeyBatch>, keys: Seq<SecretKey>) -> bool {
    exists|h: int| 0 <= h < held.len() && (#[trigger] held[h]).0@ == keys
}

/// A batch that begins is held.
pub proof fn lemma_copy_held(
    calls: Seq<BackendCall>,
    keys: Seq<SecretKey>,
    count: nat,
    r: Result<(), Error>,
    before: Seq<KeyBatch>,
    after: Seq<KeyBatch>,
)
    requires
        copies_kept(calls, before),
        r is Err ==> after == before,
        r is Ok ==> after.len() == before.len() + 1 && after.drop_last() == before
            && after.last().0@ == keys,
    ensures
        copies_kept(calls.push(BackendCall::Begin { keys, count, r }), after),
{
    reveal(copies_kept);
    let more = calls.push(BackendCall::Begin { keys, count, r });
    if r is Ok {
        assert(after[after.len() - 1].0@ == keys);
        assert(holds(after, keys));
    }
    assert forall|i: int| 0 <= i < more.len() implies ((#[trigger] more[i]) matches
        BackendCall::Begin { keys, r, .. } ==> r is Ok ==> retired(keys) || holds(after, keys)) by {
        if i < calls.len() {
            assert(more[i] == calls[i]);
            if let BackendCall::Begin { keys, r, .. } = calls[i] {
                if r is Ok && !retired(keys) {
                    let h = choose|h: int| 0 <= h < before.len() && (#[trigger] before[h]).0@
                        == keys;
                    assert(after[h] == before[h]) by {
                        if after.len() > before.len() {
                            assert(after.drop_last()[h] == after[h]);
                        }
                    }
                }
            }
        }
    }
}

/// Ending a batch leaves what is held as it is.
pub proof fn lemma_copy_ended(calls: Seq<BackendCall>, call: BackendCall, held: Seq<KeyBatch>)
    requires
        copies_kept(calls, held),
        call is End,
    ensures
        copies_kept(calls.push(call), held),
{
    reveal(copies_kept);
    let more = calls.push(call);
    assert forall|i: int| 0 <= i < more.len() implies ((#[trigger] more[i]) matches
        BackendCall::Begin { keys, r, .. } ==> r is Ok ==> retired(keys) || holds(held, keys)) by {
        if i < calls.len() {
            assert(more[i] == calls[i]);
        }
    }
}

/// A batch that was retired need not be held.
pub proof fn lemma_copy_retired(
    calls: Seq<BackendCall>,
    before: Seq<KeyBatch>,
    after: Seq<KeyBatch>,
)
    requires
        copies_kept(calls, before),
        before.len() > 0,
        retired(before[0].0@),
        after == before.subrange(1, before.len() as int),
    ensures
        copies_kept(calls, after),
{
    reveal(copies_kept);
    assert forall|i: int| 0 <= i < calls.len() implies ((#[trigger] calls[i]) matches
        BackendCall::Begin { keys, r, .. } ==> r is Ok ==> retired(keys) || holds(after, keys)) by {
        if let BackendCall::Begin { keys, r, .. } = calls[i] {
            if r is Ok && !retired(keys) {
                let h = choose|h: int| 0 <= h < before.len() && (#[trigger] before[h]).0@ == keys;
                assert(after[h - 1] == before[h]);
            }
        }
    }
}

/// Whether a call is in its place behind others: no call follows one that
/// failed, a batch asks for `batch_size` addresses, no more than `capacity`
/// batches are out at once, and the oldest one that is out is the one that is
/// ended.
pub open spec fn in_place(
    earlier: Seq<BackendCall>,
    call: BackendCall,
    batch_size: nat,
    capacity: nat,
) -> bool {
    &&& earlier.len() > 0 ==> earlier.last().result() is Ok
    &&& match call {
        BackendCall::Derive { addresses, .. } => addresses.len() == batch_size && started(
            earlier,
        ).len() == ended(earlier).len(),
        BackendCall::Begin { count, .. } => count == batch_size && started(earlier).len() - ended(
            earlier,
        ).len() < capacity,
        BackendCall::End { keys, addresses, .. } => ended(earlier).len() < started(earlier).len()
            && keys == started(earlier)[ended(earlier).len() as int] && addresses.len()
            == batch_size,
    }
}

/// Whether every call of a row is in its place behind those before it.
pub open spec fn orderly(
    calls: Seq<BackendCall>,
    batch_size: nat,
    capacity: nat,
) -> bool
    decreases calls.len(),
{
    calls.len() > 0 ==> orderly(calls.drop_last(), batch_size, capacity) && in_place(
        calls.drop_last(),
        calls.last(),
        batch_size,
        capacity,
    )
}

/// One more call in its place keeps the row orderly.
pub proof fn lemma_orderly_push(
    calls: Seq<BackendCall>,
    call: BackendCall,
    batch_size: nat,
    capacity: nat,
)
    requires
        orderly(calls, batch_size, capacity),
        in_place(calls, call, batch_size, capacity),
    ensures
        orderly(calls.push(call), batch_size, capacity),
{
    assert(calls.push(call).drop_last() =~= calls);
}

/// In an orderly row of calls the batches ended are those started, in order,
/// each with `batch_size` addresses, and never more than `capacity` of them, or
/// one, are out at once.
pub proof fn law_batches_end_in_order(
    calls: Seq<BackendCall>,
    batch_size: nat,
    capacity: nat,
)
    requires
        orderly(calls, batch_size, capacity),
    ensures
        ended(calls).len() <= started(calls).len(),
        started(calls).len() - ended(calls).len() <= (if capacity < 1 {
            1
        } else {
            capacity
        }),
        forall|i: int|
            0 <= i < ended(calls).len() ==> (#[trigger] ended(calls)[i]).keys == started(calls)[i]
                && ended(calls)[i].addresses.len() == batch_size,
    decreases calls.len(),
{
    if calls.len() > 0 {
        let earlier = calls.drop_last();
        law_batches_end_in_order(earlier, batch_size, capacity);
        assert(earlier.push(calls.last()) =~= calls);
        lemma_calls_push(earlier, calls.last());
    }
}

/// One call of a key source, with what it gave.
pub enum SourceCall {
    Next(Result<Option<Seq<SecretKey>>, Error>),
    Recycle(Result<(), Error>),
}

impl SourceCall {
    /// Whether the call failed with this error.
    pub open spec fn failed(self, e: Error) -> bool {
        self == SourceCall::Next(Err(e)) || self == SourceCall::Recycle(Err(e))
    }

    /// Whether the call handed out a batch.
    pub open spec fn hands_out(self) -> bool {
        self matches SourceCall::Next(Ok(Some(_)))
    }
}

/// Whether a batch is given back exactly where the call before handed one out.
pub open spec fn given_back(calls: Seq<SourceCall>) -> bool {
    forall|i: int|
        0 <= i < calls.len() ==> ((#[trigger] calls[i]) is Recycle <==> i > 0 && calls[i
            - 1].hands_out())
}

/// Whether a source can go from `before` to `after` by this call.
pub open spec fn source_step<S: KeySource>(
    before: S,
    stop: &AtomicBool,
    call: SourceCall,
    after: S,
) -> bool {
    match call {
        SourceCall::Next(r) => S::gives(before, stop, after, r),
        SourceCall::Recycle(r) => S::takes_back(before, stop, after, r),
    }
}

/// Whether a source can go from `before` to `after` by exactly these calls.
pub open spec fn source_ran<S: KeySource>(
    before: S,
    stop: &AtomicBool,
    calls: Seq<SourceCall>,
    after: S,
) -> bool
    decreases calls.len(),
{
    if calls.len() == 0 {
        before == after
    } else {
        exists|mid: S|
            source_ran(before, stop, calls.drop_last(), mid) && #[trigger] source_step(
                mid,
                stop,
                calls.last(),
                after,
            )
    }
}

/// The batches of starts that a source handed out.
pub open spec fn handed_keys(calls: Seq<SourceCall>) -> Seq<Seq<SecretKey>>
    decreases calls.len(),
{
    if calls.len() == 0 {
        Seq::empty()
    } else {
        let earlier = handed_keys(calls.drop_last());
        match calls.last() {
            SourceCall::Next(Ok(Some(keys))) => earlier.push(keys),
            _ => earlier,
        }
    }
}

/// How often a source was asked for a batch.
pub open spec fn asked(calls: Seq<SourceCall>) -> nat
    decreases calls.len(),
{
    if calls.len() == 0 {
        0
    } else {
        asked(calls.drop_last()) + if calls.last() is Next {
            1nat
        } else {
            0nat
        }
    }
}

/// How often a flag was read as not raised.
pub open spec fn unraised(reads: Seq<bool>) -> nat
    decreases reads.len(),
{
    if reads.len() == 0 {
        0
    } else {
        unraised(reads.drop_last()) + if reads.last() {
            0nat
        } else {
            1nat
        }
    }
}

/// Whether no more batches were to begin at some time when `begun` had begun: the
/// flag was last read as raised then, or the source last had no batch. The
/// source is asked after each read of the flag as not raised, so both rows
/// together say what time that was.
pub open spec fn nothing_to_begin(
    reads: Seq<bool>,
    source: Seq<SourceCall>,
    begun: nat,
) -> bool {
    exists|m: int, k: int|
        0 <= m <= reads.len() && 0 <= k <= source.len() && unraised(#[trigger] reads.take(m))
            == asked(#[trigger] source.take(k)) && handed_keys(source.take(k)).len() == begun && ((
        m > 0 && reads[m - 1]) || (k > 0 && source[k - 1] == SourceCall::Next(Ok(None))))
}

/// Whether one of the calls was made in its time: a batch is ended only where
/// `capacity` batches are out, or no more were to begin.
pub open spec fn ended_in_time(
    earlier: Seq<BackendCall>,
    reads: Seq<bool>,
    source: Seq<SourceCall>,
    capacity: nat,
) -> bool {
    ||| started(earlier).len() - ended(earlier).len() == capacity
    ||| nothing_to_begin(reads, source, started(earlier).len())
}

/// Whether the backend was kept full until `ends` batches were ended: each of
/// them was ended only where `capacity` batches were out or no more were to
/// begin.
#[verifier::opaque]
pub open spec fn kept_full(
    calls: Seq<BackendCall>,
    reads: Seq<bool>,
    source: Seq<SourceCall>,
    capacity: nat,
    ends: nat,
) -> bool {
    forall|p: int|
        0 <= p < calls.len() && (#[trigger] calls[p]) is End && ended(calls.take(p)).len() < ends
            ==> ended_in_time(calls.take(p), reads, source, capacity)
}

/// Nothing that happens later changes whether no more batches were to begin.
pub proof fn lemma_nothing_to_begin_later(
    reads: Seq<bool>,
    later_reads: Seq<bool>,
    source: Seq<SourceCall>,
    later_source: Seq<SourceCall>,
    begun: nat,
)
    requires
        reads.is_prefix_of(later_reads),
        source.is_prefix_of(later_source),
        nothing_to_begin(reads, source, begun),
    ensures
        nothing_to_begin(later_reads, later_source, begun),
{
    let (m, k) = choose|m: int, k: int|
        0 <= m <= reads.len() && 0 <= k <= source.len() && unraised(#[trigger] reads.take(m))
            == asked(#[trigger] source.take(k)) && handed_keys(source.take(k)).len() == begun && ((
        m > 0 && reads[m - 1]) || (k > 0 && source[k - 1] == SourceCall::Next(Ok(None))));
    assert(later_reads.take(m) =~= reads.take(m));
    assert(later_source.take(k) =~= source.take(k));
}

/// Nothing that happens later changes whether the backend was kept full.
pub proof fn lemma_kept_full_later(
    calls: Seq<BackendCall>,
    reads: Seq<bool>,
    later_reads: Seq<bool>,
    source: Seq<SourceCall>,
    later_source: Seq<SourceCall>,
    capacity: nat,
    ends: nat,
)
    requires
        reads.is_prefix_of(later_reads),
        source.is_prefix_of(later_source),
        kept_full(calls, reads, source, capacity, ends),
    ensures
        kept_full(calls, later_reads, later_source, capacity, ends),
{
    reveal(kept_full);
    assert forall|p: int|
        0 <= p < calls.len() && (#[trigger] calls[p]) is End && ended(calls.take(p)).len()
            < ends implies ended_in_time(calls.take(p), later_reads, later_source, capacity) by {
        let begun = started(calls.take(p)).len();
        if nothing_to_begin(reads, source, begun) {
            lemma_nothing_to_begin_later(reads, later_reads, source, later_source, begun);
        }
    }
}

/// No call takes back that a batch was ended.
proof fn lemma_ended_grows(calls: Seq<BackendCall>, p: int)
    requires
        0 <= p <= calls.len(),
    ensures
        ended(calls.take(p)).len() <= ended(calls).len(),
    decreases calls.len(),
{
    if p < calls.len() {
        assert(calls.drop_last().take(p) =~= calls.take(p));
        lemma_ended_grows(calls.drop_last(), p);
    } else {
        assert(calls.take(p) =~= calls);
    }
}

/// A backend that was kept full until now was kept full until any time.
pub proof fn lemma_kept_full_so_far(
    calls: Seq<BackendCall>,
    reads: Seq<bool>,
    source: Seq<SourceCall>,
    capacity: nat,
    ends: nat,
    other: nat,
)
    requires
        ended(calls).len() < ends,
        kept_full(calls, reads, source, capacity, ends),
    ensures
        kept_full(calls, reads, source, capacity, other),
{
    reveal(kept_full);
    assert forall|p: int|
        0 <= p < calls.len() && (#[trigger] calls[p]) is End && ended(calls.take(p)).len()
            < other implies ended_in_time(calls.take(p), reads, source, capacity) by {
        lemma_ended_grows(calls, p);
    }
}

/// Before any call the backend was kept full and nothing is held.
pub proof fn lemma_nothing_called(reads: Seq<bool>, source: Seq<SourceCall>, capacity: nat)
    ensures
        forall|ends: nat| #[trigger]
            kept_full(Seq::empty(), reads, source, capacity, ends),
        copies_kept(Seq::empty(), Seq::empty()),
{
    reveal(kept_full);
    reveal(copies_kept);
}

/// A backend that was kept full until some time was kept full until any earlier
/// one.
pub proof fn lemma_kept_full_before(
    calls: Seq<BackendCall>,
    reads: Seq<bool>,
    source: Seq<SourceCall>,
    capacity: nat,
    ends: nat,
)
    requires
        kept_full(calls, reads, source, capacity, ends + 1),
    ensures
        kept_full(calls, reads, source, capacity, ends),
{
    reveal(kept_full);
}

/// One more call keeps the backend full, if it ends no batch, ends one in time,
/// or ends a later one than those that are asked about.
pub proof fn lemma_kept_full_push(
    calls: Seq<BackendCall>,
    call: BackendCall,
    reads: Seq<bool>,
    source: Seq<SourceCall>,
    capacity: nat,
    ends: nat,
)
    requires
        kept_full(calls, reads, source, capacity, ends),
        call is End && ended(calls).len() < ends ==> ended_in_time(calls, reads, source, capacity),
    ensures
        kept_full(calls.push(call), reads, source, capacity, ends),
{
    reveal(kept_full);
    let all = calls.push(call);
    assert forall|p: int|
        0 <= p < all.len() && (#[trigger] all[p]) is End && ended(all.take(p)).len()
            < ends implies ended_in_time(all.take(p), reads, source, capacity) by {
        if p < calls.len() {
            assert(all[p] == calls[p]);
            assert(all.take(p) =~= calls.take(p));
        } else {
            assert(all.take(p) =~= calls);
        }
    }
}

/// One more read counts if the flag was not raised.
pub proof fn lemma_read_push(reads: Seq<bool>, read: bool)
    ensures
        unraised(reads.push(read)) == unraised(reads) + if read {
            0nat
        } else {
            1nat
        },
{
    assert(reads.push(read).drop_last() =~= reads);
}

/// One more call makes the row of calls longer.
pub proof fn lemma_source_push<S: KeySource>(
    before: S,
    stop: &AtomicBool,
    calls: Seq<SourceCall>,
    mid: S,
    call: SourceCall,
    after: S,
)
    requires
        source_ran(before, stop, calls, mid),
        source_step(mid, stop, call, after),
    ensures
        source_ran(before, stop, calls.push(call), after),
        handed_keys(calls.push(call)) == (match call {
            SourceCall::Next(Ok(Some(keys))) => handed_keys(calls).push(keys),
            _ => handed_keys(calls),
        }),
        asked(calls.push(call)) == asked(calls) + if call is Next {
            1nat
        } else {
            0nat
        },
        given_back(calls) && (call is Recycle <==> calls.len() > 0 && calls.last().hands_out())
            ==> given_back(calls.push(call)),
{
    assert(calls.push(call).drop_last() =~= calls);
    assert(source_step(mid, stop, calls.push(call).last(), after));
    if given_back(calls) && (call is Recycle <==> calls.len() > 0 && calls.last().hands_out()) {
        let all = calls.push(call);
        assert forall|i: int| 0 <= i < all.len() implies ((#[trigger] all[i]) is Recycle <==> i > 0
            && all[i - 1].hands_out()) by {
            if i < calls.len() {
                assert(all[i] == calls[i]);
            }
        }
    }
}

/// Whether a sink can go from `before` to `after` by exactly these reports.
pub open spec fn reported<P: ProgressSink>(before: P, reports: Seq<Progress>, after: P) -> bool
    decreases reports.len(),
{
    if reports.len() == 0 {
        before == after
    } else {
        exists|mid: P|
            reported(before, reports.drop_last(), mid) && #[trigger] P::reports(
                mid,
                reports.last(),
                after,
            )
    }
}

/// The batches, counted from one, after which a report is made when a multiple
/// of `every` attempts was passed since the last report.
pub open spec fn report_points(judged: nat, batch_size: nat, every: nat) -> Seq<nat>
    decreases judged,
{
    if judged == 0 {
        Seq::empty()
    } else {
        let earlier = report_points((judged - 1) as nat, batch_size, every);
        if every != 0 && (last_point(earlier) * batch_size) / every < (judged * batch_size)
            / every {
            earlier.push(judged)
        } else {
            earlier
        }
    }
}

/// The last of the points, or zero.
pub open spec fn last_point(points: Seq<nat>) -> nat {
    if points.len() == 0 {
        0
    } else {
        points.last()
    }
}

/// Whether the report after batch number `point` says what it should, where the
/// last one was made after batch number `previous`.
pub open spec fn report_fits(
    report: Progress,
    previous: nat,
    point: nat,
    batches: Seq<Batch>,
    batch_size: nat,
) -> bool {
    &&& 1 <= point <= batches.len()
    &&& report.completed == point * batch_size
    &&& report.since_report == (point - previous) * batch_size
    &&& report.sample == batches[point - 1].addresses[batch_size - 1]
}

/// Whether these are the reports due after the first `judged` batches.
pub open spec fn reports_fit(
    reports: Seq<Progress>,
    batches: Seq<Batch>,
    judged: nat,
    batch_size: nat,
    every: nat,
) -> bool {
    let points = report_points(judged, batch_size, every);
    &&& reports.len() == points.len()
    &&& forall|i: int|
        0 <= i < reports.len() ==> report_fits(
            #[trigger] reports[i],
            last_point(points.take(i)),
            points[i],
            batches,
            batch_size,
        )
}

/// Reports on the first batches do not depend on later ones.
pub proof fn lemma_reports_longer(
    reports: Seq<Progress>,
    batches: Seq<Batch>,
    longer: Seq<Batch>,
    judged: nat,
    batch_size: nat,
    every: nat,
)
    requires
        reports_fit(reports, batches, judged, batch_size, every),
        batches.is_prefix_of(longer),
    ensures
        reports_fit(reports, longer, judged, batch_size, every),
{
    let points = report_points(judged, batch_size, every);
    assert forall|i: int| 0 <= i < reports.len() implies report_fits(
        #[trigger] reports[i],
        last_point(points.take(i)),
        points[i],
        longer,
        batch_size,
    ) by {
        assert(report_fits(
            reports[i],
            last_point(points.take(i)),
            points[i],
            batches,
            batch_size,
        ));
        assert(batches[points[i] - 1] == longer[points[i] - 1]);
    }
}

/// The reports after one more batch, where one was due.
pub proof fn lemma_report_pushed(
    reports: Seq<Progress>,
    report: Progress,
    batches: Seq<Batch>,
    judged: nat,
    batch_size: nat,
    every: nat,
)
    requires
        reports_fit(reports, batches, judged, batch_size, every),
        every != 0,
        (last_point(report_points(judged, batch_size, every)) * batch_size) / every < ((judged + 1)
            * batch_size) / every,
        report_fits(
            report,
            last_point(report_points(judged, batch_size, every)),
            judged + 1,
            batches,
            batch_size,
        ),
    ensures
        reports_fit(reports.push(report), batches, judged + 1, batch_size, every),
        last_point(report_points(judged + 1, batch_size, every)) == judged + 1,
{
    let points = report_points(judged, batch_size, every);
    let longer = report_points(judged + 1, batch_size, every);
    assert(longer == points.push(judged + 1));
    let all = reports.push(report);
    assert forall|i: int| 0 <= i < all.len() implies report_fits(
        #[trigger] all[i],
        last_point(longer.take(i)),
        longer[i],
        batches,
        batch_size,
    ) by {
        if i < reports.len() {
            assert(longer.take(i) =~= points.take(i));
            assert(all[i] == reports[i]);
        } else {
            assert(longer.take(i) =~= points);
        }
    }
}

/// One more report makes the row of reports longer.
pub proof fn lemma_reported_push<P: ProgressSink>(
    before: P,
    reports: Seq<Progress>,
    mid: P,
    report: Progress,
    after: P,
)
    requires
        reported(before, reports, mid),
        P::reports(mid, report, after),
    ensures
        reported(before, reports.push(report), after),
{
    assert(reports.push(report).drop_last() =~= reports);
    assert(P::reports(mid, reports.push(report).last(), after));
}

/// The best candidate of a batch.
pub open spec fn best_of(addresses: Seq<Address>, targets: Targets) -> Option<BatchCandidate> {
    choose|best: Option<BatchCandidate>|
        is_best(best, addresses, targets, addresses.len() as int)
}

/// The first address of a batch that matches in full.
pub open spec fn hit_of(addresses: Seq<Address>, targets: Targets) -> Option<usize> {
    choose|hit: Option<usize>| is_first_hit(hit, addresses, targets, addresses.len() as int)
}

/// What the shared state would hold of a candidate of a batch before which
/// there were `base` attempts.
pub open spec fn offered(
    keys: Seq<SecretKey>,
    stride: nat,
    addresses: Seq<Address>,
    base: nat,
    candidate: BatchCandidate,
) -> CandidateModel {
    proposal(
        byte_nibbles(addresses[candidate.index as int]@),
        chain_scalar(keys, stride, candidate.index as nat),
        (base + candidate.index + 1) as u64,
        candidate.prefix,
        candidate.suffix,
    )
}

/// What the CPU says of an address and the scalar that it should belong to.
pub open spec fn confirmation(scalar: nat, address: Address) -> Result<(), Error> {
    if address@ == address_of(scalar) {
        Ok(())
    } else {
        Err(Error::AddressMismatch)
    }
}

/// An offer that is due: what is offered, and what the CPU says of it.
pub struct Due {
    pub new: CandidateModel,
    pub answer: Result<(), Error>,
}

/// The offer of a candidate of a batch before which there were `base` attempts.
pub open spec fn due_of(batch: Batch, stride: nat, base: nat, candidate: BatchCandidate) -> Due {
    Due {
        new: offered(batch.keys, stride, batch.addresses, base, candidate),
        answer: confirmation(
            chain_scalar(batch.keys, stride, candidate.index as nat),
            batch.addresses[candidate.index as int],
        ),
    }
}

/// The offers that are due of the first `judged` batches, in order.
pub open spec fn offers_due(
    batches: Seq<Batch>,
    judged: nat,
    stride: nat,
    batch_size: nat,
    targets: Targets,
) -> Seq<Due>
    decreases judged,
{
    if judged == 0 {
        Seq::empty()
    } else {
        let earlier = offers_due(batches, (judged - 1) as nat, stride, batch_size, targets);
        let batch = batches[judged - 1];
        match best_of(batch.addresses, targets) {
            None => earlier,
            Some(candidate) => earlier.push(
                due_of(batch, stride, ((judged - 1) * batch_size) as nat, candidate),
            ),
        }
    }
}

/// What the first batches offer does not depend on later ones.
pub proof fn lemma_offers_longer(
    batches: Seq<Batch>,
    longer: Seq<Batch>,
    judged: nat,
    stride: nat,
    batch_size: nat,
    targets: Targets,
)
    requires
        batches.is_prefix_of(longer),
        judged <= batches.len(),
    ensures
        offers_due(batches, judged, stride, batch_size, targets) == offers_due(
            longer,
            judged,
            stride,
            batch_size,
            targets,
        ),
    decreases judged,
{
    if judged > 0 {
        lemma_offers_longer(batches, longer, (judged - 1) as nat, stride, batch_size, targets);
        assert(batches[judged - 1] == longer[judged - 1]);
    }
}

/// Whether no address of the first batches matches in full.
pub open spec fn none_matches(batches: Seq<Batch>, clear: nat, targets: Targets) -> bool {
    forall|b: int, j: int|
        0 <= b < clear && 0 <= j < batches[b].addresses.len() ==> !full_match(
            byte_nibbles((#[trigger] batches[b].addresses[j])@),
            targets,
        )
}

}
