//! What a search did and how it ended, stated over its trace.
use std::sync::atomic::AtomicU64;
use vstd::prelude::*;

verus! {

use crate::backend::AddressBackend;
use crate::chain::chain_scalar;
use crate::clock::measured;
use crate::error::Error;
use crate::hex::{address_text, key_text};
use crate::judge::{batch_fault, offer_fits};
use crate::matching::is_first_hit;
use crate::search::{report_read, HitRecord, Progress, ProgressSink};
use crate::source::KeySource;
use crate::target::Targets;
use crate::trace::{
    all_derived, asked, backend_ran, best_of, copies_retired, ended, given_back, handed_keys,
    hit_of, kept_full, none_derived, none_matches, offers_due, orderly, reported, reports_fit,
    source_ran, started, unraised, BackendCall, Batch, SourceCall,
};
use crate::worker::{taken, WorkerContext};

/// What a search did.
pub struct SearchTrace {
    /// The calls of the backend.
    pub calls: Seq<BackendCall>,
    /// The calls of the key source.
    pub source: Seq<SourceCall>,
    /// The reports.
    pub reports: Seq<Progress>,
    /// How many of the finished batches were counted.
    pub counted: nat,
    /// How many of them were judged and found in order.
    pub judged: nat,
    /// How many of them had their best candidate offered.
    pub offered: nat,
}

/// Whether the offers made between two states of a worker are those due after
/// the first `offered` batches, and a wake was sent for each that was taken.
pub open spec fn offers_fit<'a>(
    before: WorkerContext<'a>,
    after: WorkerContext<'a>,
    batches: Seq<Batch>,
    offered: nat,
    stride: nat,
    batch_size: nat,
) -> bool {
    let made = after.offers().skip(before.offers().len() as int);
    let due = offers_due(batches, offered, stride, batch_size, *before.targets);
    &&& before.offers().is_prefix_of(after.offers())
    &&& made.len() == due.len()
    &&& forall|i: int|
        0 <= i < made.len() ==> offer_fits(before.board(), #[trigger] made[i], due[i])
    &&& after.wakes() + taken(before.offers()) == before.wakes() + taken(after.offers())
}

/// What is wrong with a batch, if anything, given what is searched for.
pub open spec fn fault_of(batch: Batch, stride: nat, targets: Targets) -> Option<Error> {
    batch_fault(
        batch.keys,
        stride,
        batch.addresses,
        best_of(batch.addresses, targets),
        hit_of(batch.addresses, targets),
    )
}

/// Whether nothing was wrong with the first `judged` batches, and none of their
/// offers failed.
pub open spec fn judged_well<'a>(
    before: WorkerContext<'a>,
    after: WorkerContext<'a>,
    batches: Seq<Batch>,
    judged: nat,
    stride: nat,
    batch_size: nat,
) -> bool {
    let made = after.offers().skip(before.offers().len() as int);
    let due = offers_due(batches, judged, stride, batch_size, *before.targets);
    &&& due.len() <= made.len()
    &&& forall|i: int| 0 <= i < due.len() ==> (#[trigger] made[i]).outcome is Ok
    &&& forall|i: int|
        0 <= i < judged ==> fault_of(#[trigger] batches[i], stride, *before.targets) is None
}

/// Whether every report shows the shared counter as it was given.
pub open spec fn reports_read(global: &AtomicU64, reports: Seq<Progress>) -> bool {
    forall|i: int| 0 <= i < reports.len() ==> report_read(global, #[trigger] reports[i])
}

/// What a worker's readings of the clock gave between two of its states, each with
/// how often it had read the stop flag before it.
pub open spec fn new_times<'a>(worker: (WorkerContext<'a>, WorkerContext<'a>)) -> Seq<
    (std::time::Instant, nat),
> {
    worker.1.times().skip(worker.0.times().len() as int)
}

/// Whether the clock was read before the stop flag was, and again at each report,
/// and every report says how long ago the reading before it was.
pub open spec fn clocked<'a>(
    worker: (WorkerContext<'a>, WorkerContext<'a>),
    reports: Seq<Progress>,
) -> bool {
    &&& worker.0.times().is_prefix_of(worker.1.times())
    &&& new_times(worker).len() == reports.len() + 1
    &&& new_times(worker)[0].1 == worker.0.reads().len()
    &&& forall|i: int|
        0 <= i < reports.len() ==> measured(
            &new_times(worker)[i].0,
            (#[trigger] reports[i]).elapsed,
        )
}

/// Whether a search can go from one state of backend, source, sink and worker
/// to the other by what the trace says. The backend is handed the starts that
/// the source gave, in order, `batch_size` addresses at a time; each is given
/// back before the source is asked again; every batch that
/// is counted is recorded in full; reports and offers are those due after the
/// batches that were judged.
pub open spec fn ran<'a, B: AddressBackend, S: KeySource, P: ProgressSink>(
    backend: (B, B),
    source: (S, S),
    progress: (P, P),
    worker: (WorkerContext<'a>, WorkerContext<'a>),
    batch_size: nat,
    stride: nat,
    capacity: nat,
    t: SearchTrace,
) -> bool {
    let batches = ended(t.calls);
    &&& backend_ran(backend.0, t.calls, backend.1)
    &&& orderly(t.calls, batch_size, capacity)
    &&& source_ran(source.0, worker.0.flag(), t.source, source.1)
    &&& given_back(t.source)
    &&& started(t.calls).is_prefix_of(handed_keys(t.source))
    &&& handed_keys(t.source).len() <= started(t.calls).len() + 1
    &&& reported(progress.0, t.reports, progress.1)
    &&& reports_fit(t.reports, batches, t.judged, batch_size, worker.0.report_every as nat)
    &&& reports_read(worker.0.total.global(), t.reports)
    &&& clocked(worker, t.reports)
    &&& t.judged <= t.offered <= t.counted <= batches.len() <= t.counted + 1
    &&& t.offered <= t.judged + 1
    &&& worker.1.same_worker(&worker.0)
    &&& worker.1.total.recorded() == worker.0.total.recorded() + t.counted * batch_size
    &&& worker.0.reads().is_prefix_of(worker.1.reads())
    &&& worker.0.exchanges().is_prefix_of(worker.1.exchanges())
    &&& offers_fit(worker.0, worker.1, batches, t.offered, stride, batch_size)
    &&& judged_well(worker.0, worker.1, batches, t.judged, stride, batch_size)
}

/// Whether a hit is the first address of batch `b` that matches in full, and
/// says which attempt that was.
pub open spec fn hit_at<'a>(
    hit: HitRecord,
    batches: Seq<Batch>,
    b: nat,
    stride: nat,
    batch_size: nat,
    worker: WorkerContext<'a>,
) -> bool {
    &&& b < batches.len()
    &&& hit_of(batches[b as int].addresses, *worker.targets) matches Some(index)
    &&& is_first_hit(
        Some(index),
        batches[b as int].addresses,
        *worker.targets,
        batches[b as int].addresses.len() as int,
    )
    &&& hit.tries == b * batch_size + index + 1
    &&& hit.private_key@ == key_text(chain_scalar(batches[b as int].keys, stride, index as nat))
    &&& hit.address@ == address_text(batches[b as int].addresses[index as int]@)
    &&& hit.worker_id == worker.worker_id
    &&& hit.genuine(*worker.targets)
    &&& hit.stamped()
}

/// Why a search failed: a call of the source or of the backend did, there were too
/// many attempts to count, or the batch after those that were judged was refused,
/// at most after its best candidate was offered and not confirmed.
pub open spec fn search_failed<'a>(
    t: SearchTrace,
    worker: (WorkerContext<'a>, WorkerContext<'a>),
    batch_size: nat,
    stride: nat,
    e: Error,
) -> bool {
    let batches = ended(t.calls);
    ||| t.source.len() > 0 && t.source.last().failed(e)
    ||| t.calls.len() > 0 && t.calls.last().result() == Err::<(), Error>(e)
    ||| e == Error::AttemptOverflow && batches.len() == t.counted + 1 && batches.len() * batch_size
        > u64::MAX
    ||| batches.len() == t.judged + 1 && t.counted == batches.len() && t.offered == t.judged
        && fault_of(batches[t.judged as int], stride, *worker.0.targets) == Some(e)
    ||| batches.len() == t.judged + 1 && t.counted == batches.len() && t.offered == t.judged + 1
        && worker.1.offers().len() > worker.0.offers().len()
        && worker.1.offers().last().outcome == Err::<bool, Error>(e)
}

/// What a worker's reads of the stop flag gave between two of its states.
pub open spec fn new_reads<'a>(worker: (WorkerContext<'a>, WorkerContext<'a>)) -> Seq<bool> {
    worker.1.reads().skip(worker.0.reads().len() as int)
}

/// Whether the stop flag was last read as raised.
pub open spec fn stop_seen(reads: Seq<bool>) -> bool {
    reads.len() > 0 && reads.last()
}

/// How a search ends that derives one batch at a time. The stop flag is read
/// before a batch is asked for, before it is derived and before it is judged;
/// once it is read as raised nothing more is derived, judged, offered or
/// reported. A search ends well only where every batch that was started was
/// finished, and with nothing found only where, but for the stop, all were
/// judged.
pub open spec fn plain_outcome<'a>(
    worker: (WorkerContext<'a>, WorkerContext<'a>),
    batch_size: nat,
    stride: nat,
    t: SearchTrace,
    r: Result<Option<HitRecord>, Error>,
) -> bool {
    let batches = ended(t.calls);
    let n = t.judged;
    let reads = new_reads(worker);
    let exchanges = (worker.0.exchanges(), worker.1.exchanges());
    &&& all_derived(t.calls)
    &&& started(t.calls).len() <= n + 1
    &&& t.counted * batch_size <= u64::MAX
    &&& 3 * n <= reads.len() <= 3 * n + 3
    &&& forall|i: int| 0 <= i < reads.len() - 1 ==> !#[trigger] reads[i]
    &&& started(t.calls).len() > n ==> reads.len() >= 3 * n + 2
    &&& reads.len() == 3 * n + 3 ==> batches.len() == n + 1
    &&& stop_seen(reads) && reads.len() < 3 * n + 3 ==> started(t.calls).len() == n
    &&& stop_seen(reads) ==> r == Ok::<Option<HitRecord>, Error>(None) && reads.len() > 3 * n
    &&& r is Ok ==> t.offered == n && t.counted == batches.len() && started(t.calls).len()
        == batches.len()
    &&& match r {
        Ok(Some(hit)) => n >= 1 && batches.len() == n && reads.len() == 3 * n && exchanges.1
            == exchanges.0.push(false) && none_matches(batches, (n - 1) as nat, *worker.0.targets)
            && hit_at(hit, batches, (n - 1) as nat, stride, batch_size, worker.0) && measured(
            &new_times(worker)[0].0,
            hit.elapsed,
        ),
        Ok(None) => {
            ||| stop_seen(reads) && exchanges.1 == exchanges.0 && none_matches(
                batches,
                n,
                *worker.0.targets,
            )
            ||| t.source.len() > 0 && t.source.last() == SourceCall::Next(Ok(None))
                && batches.len() == n && exchanges.1 == exchanges.0 && none_matches(
                batches,
                n,
                *worker.0.targets,
            )
            ||| n >= 1 && batches.len() == n && reads.len() == 3 * n && exchanges.1
                == exchanges.0.push(true) && none_matches(
                batches,
                (n - 1) as nat,
                *worker.0.targets,
            )
        },
        Err(e) => exchanges.1 == exchanges.0 && none_matches(batches, n, *worker.0.targets)
            && search_failed(t, worker, batch_size, stride, e),
    }
}

/// The trace of a search that has done nothing yet.
pub open spec fn nothing_done() -> SearchTrace {
    SearchTrace {
        calls: Seq::empty(),
        source: Seq::empty(),
        reports: Seq::empty(),
        counted: 0,
        judged: 0,
        offered: 0,
    }
}

/// How a search ends that keeps several batches out. The oldest is ended and
/// judged first; until there is a hit, that happens only where as many are out
/// as the backend can hold, or no more are to begin. The source is asked once for
/// each time that the stop flag was read as not raised. After a hit the batches
/// still out are ended and counted, and none is left out unless something failed.
pub open spec fn inflight_outcome<'a>(
    worker: (WorkerContext<'a>, WorkerContext<'a>),
    batch_size: nat,
    stride: nat,
    capacity: nat,
    t: SearchTrace,
    r: Result<Option<HitRecord>, Error>,
) -> bool {
    let batches = ended(t.calls);
    let n = t.judged;
    let exchanges = (worker.0.exchanges(), worker.1.exchanges());
    let before_hit = if exchanges.1 == exchanges.0 {
        n + 1
    } else {
        n
    };
    &&& none_derived(t.calls)
    &&& kept_full(t.calls, new_reads(worker), t.source, capacity, before_hit)
    &&& unraised(new_reads(worker)) == asked(t.source)
    &&& r is Ok ==> started(t.calls).len() == batches.len() && t.counted == batches.len()
        && t.offered == n
    &&& match r {
        Ok(Some(hit)) => n >= 1 && exchanges.1.len() == exchanges.0.len() + 1 && none_matches(
            batches,
            (n - 1) as nat,
            *worker.0.targets,
        ) && hit_at(hit, batches, (n - 1) as nat, stride, batch_size, worker.0) && measured(
            &new_times(worker)[0].0,
            hit.elapsed,
        ),
        Ok(None) => batches.len() == n && exchanges.1 == exchanges.0 && none_matches(
            batches,
            n,
            *worker.0.targets,
        ) && (stop_seen(new_reads(worker)) || (t.source.len() > 0 && t.source.last()
            == SourceCall::Next(Ok(None)))),
        Err(e) => search_failed(t, worker, batch_size, stride, e) && exchanges.1.len()
            <= exchanges.0.len() + 1,
    }
}

/// How a search with the batches of `source` ends, given how many batches the
/// backend can hold and how long its chains are. Of batches that are out the
/// search keeps the keys, and retires them.
pub open spec fn search_outcome<'a>(
    worker: (WorkerContext<'a>, WorkerContext<'a>),
    batch_size: nat,
    stride: nat,
    capacity: nat,
    t: SearchTrace,
    r: Result<Option<HitRecord>, Error>,
) -> bool {
    if capacity > 1 {
        inflight_outcome(worker, batch_size, stride, capacity, t, r) && copies_retired(t.calls)
    } else {
        plain_outcome(worker, batch_size, stride, t, r)
    }
}

}
