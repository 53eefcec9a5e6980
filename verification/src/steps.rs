//! How the trace of a search grows, batch by batch.
use vstd::prelude::*;

verus! {

use crate::backend::AddressBackend;
use crate::clock::measured;
use crate::error::Error;
use crate::judge::{judged, offer_fits};
use crate::outcome::{
    clocked, fault_of, judged_well, new_reads, new_times, nothing_done, offers_fit, ran,
    reports_read, SearchTrace,
};
use crate::scalar::SecretKey;
use crate::search::{report_read, ticked, Progress, ProgressSink};
use crate::source::{KeyBatch, KeySource};
use crate::target::Targets;
use crate::trace::{
    all_derived, backend_step, best_of, due_of, ended, handed_keys, last_point, lemma_backend_push,
    lemma_calls_push, lemma_offers_longer, lemma_orderly_push, lemma_report_pushed,
    lemma_reported_push, lemma_reports_longer, none_derived, none_matches, offers_due,
    report_points, reported, reports_fit, started, BackendCall, Batch,
};
use crate::worker::{taken, WorkerContext};

/// Whether everything that the source handed out was derived, counted, judged
/// and found without a full match.
pub open spec fn settled_so_far(t: SearchTrace, targets: Targets) -> bool {
    &&& t.judged == t.offered == t.counted
    &&& ended(t.calls).len() == t.judged
    &&& started(t.calls).len() == t.judged
    &&& t.calls.len() > 0 ==> t.calls.last().result() is Ok
    &&& all_derived(t.calls)
    &&& none_matches(ended(t.calls), t.judged, targets)
}

/// One more batch that was judged, with or without a report.
pub proof fn lemma_batch_judged<'a, P: ProgressSink>(
    progress: (P, P, P),
    worker: (WorkerContext<'a>, WorkerContext<'a>, WorkerContext<'a>),
    clock: (u64, u64),
    reports: Seq<Progress>,
    batches: Seq<Batch>,
    judged_before: nat,
    batch_size: nat,
    base: u64,
) -> (after: Seq<Progress>)
    requires
        batch_size > 0,
        judged_before < batches.len(),
        reported(progress.0, reports, progress.1),
        reports_fit(reports, batches, judged_before, batch_size, worker.0.report_every as nat),
        reports_read(worker.0.total.global(), reports),
        clocked((worker.0, worker.1), reports),
        clock.0 == last_point(
            report_points(judged_before, batch_size, worker.0.report_every as nat),
        ) * batch_size,
        base == judged_before * batch_size,
        base + batch_size <= u64::MAX,
        clock.0 <= base,
        worker.1.same_worker(&worker.0),
        ticked(
            progress.1,
            progress.2,
            clock.0,
            clock.1,
            (base + batch_size) as u64,
            batches[judged_before as int].addresses[batch_size - 1],
            worker.1.report_every,
            worker.1.total.global(),
            (worker.1.times(), worker.2.times()),
        ),
    ensures
        reported(progress.0, after, progress.2),
        reports_fit(after, batches, judged_before + 1, batch_size, worker.0.report_every as nat),
        reports_read(worker.0.total.global(), after),
        clocked((worker.0, worker.2), after),
        clock.1 == last_point(
            report_points(judged_before + 1, batch_size, worker.0.report_every as nat),
        ) * batch_size,
        clock.1 <= base + batch_size,
{
    let every = worker.0.report_every;
    let points = report_points(judged_before, batch_size, every as nat);
    let last = last_point(points);
    let completed = (base + batch_size) as u64;
    assert((judged_before + 1) * batch_size == judged_before * batch_size + batch_size)
        by (nonlinear_arith);
    assert(completed as nat == (judged_before + 1) * batch_size);
    if every != 0 && clock.0 / every < completed / every {
        let report = choose|report: Progress| #[trigger]
            P::reports(progress.1, report, progress.2) && report.completed == completed
                && report.since_report == completed - clock.0 && report.sample
                == batches[judged_before as int].addresses[batch_size - 1] && report_read(
                worker.1.total.global(),
                report,
            ) && measured(&worker.1.times().last().0, report.elapsed);
        let longer = reports.push(report);
        let times = new_times((worker.0, worker.1));
        let more = new_times((worker.0, worker.2));
        assert(worker.0.times().is_prefix_of(worker.2.times()));
        assert(more =~= times.push(worker.2.times().last()));
        assert(worker.1.times().last() == times.last());
        assert forall|i: int| 0 <= i < longer.len() implies measured(
            &more[i].0,
            (#[trigger] longer[i]).elapsed,
        ) by {
            if i < reports.len() {
                assert(measured(&times[i].0, reports[i].elapsed));
            }
        }
        lemma_reported_push(progress.0, reports, progress.1, report, progress.2);
        assert((judged_before + 1 - last) * batch_size == (judged_before + 1) * batch_size - last
            * batch_size) by (nonlinear_arith);
        lemma_report_pushed(reports, report, batches, judged_before, batch_size, every as nat);
        reports.push(report)
    } else {
        reports
    }
}

/// One more offer among those that were made.
pub proof fn lemma_offer_made<'a>(
    worker: (WorkerContext<'a>, WorkerContext<'a>, WorkerContext<'a>),
    batches: Seq<Batch>,
    n: nat,
    stride: nat,
    batch_size: nat,
    base: u64,
    found: Result<Option<usize>, Error>,
)
    requires
        n < batches.len(),
        base == n * batch_size,
        offers_fit(worker.0, worker.1, batches, n, stride, batch_size),
        judged_well(worker.0, worker.1, batches, n, stride, batch_size),
        worker.1.same_worker(&worker.0),
        worker.2.same_worker(&worker.1),
        worker.2.wakes() + taken(worker.1.offers()) == worker.1.wakes() + taken(
            worker.2.offers(),
        ),
        judged(
            *worker.1.targets,
            worker.1.board(),
            worker.1.offers(),
            worker.2.offers(),
            batches[n as int],
            stride,
            base as nat,
            found,
        ),
    ensures
        found is Ok ==> offers_fit(worker.0, worker.2, batches, n + 1, stride, batch_size)
            && judged_well(worker.0, worker.2, batches, n + 1, stride, batch_size),
        judged_well(worker.0, worker.2, batches, n, stride, batch_size),
        found matches Err(e) ==> {
            ||| offers_fit(worker.0, worker.2, batches, n, stride, batch_size) && fault_of(
                batches[n as int],
                stride,
                *worker.0.targets,
            ) == Some(e)
            ||| offers_fit(worker.0, worker.2, batches, n + 1, stride, batch_size)
                && worker.2.offers().len() > worker.0.offers().len()
                && worker.2.offers().last().outcome == Err::<bool, Error>(e)
        },
{
    let batch = batches[n as int];
    let targets = *worker.0.targets;
    let len = worker.0.offers().len() as int;
    let made = worker.1.offers().skip(len);
    let all = worker.2.offers().skip(len);
    let best = best_of(batch.addresses, targets);
    let due = offers_due(batches, n, stride, batch_size, targets);
    assert(((n + 1) as nat - 1) as nat == n);
    assert(offers_due(batches, n + 1, stride, batch_size, targets) == (match best {
        None => due,
        Some(candidate) => due.push(due_of(batch, stride, base as nat, candidate)),
    }));
    let longer = offers_due(batches, n + 1, stride, batch_size, targets);
    if best is Some && worker.2.offers().len() == worker.1.offers().len() + 1 {
        let last = worker.2.offers().last();
        assert(worker.2.offers() =~= worker.1.offers().push(last));
        assert(all =~= made.push(last));
        assert(worker.0.offers().is_prefix_of(worker.2.offers()));
        assert forall|i: int| 0 <= i < all.len() implies offer_fits(
            worker.0.board(),
            #[trigger] all[i],
            longer[i],
        ) by {
            if i < made.len() {
                assert(all[i] == made[i]);
                assert(offer_fits(worker.0.board(), made[i], due[i]));
            }
        }
        assert(offers_fit(worker.0, worker.2, batches, n + 1, stride, batch_size));
        assert forall|i: int| 0 <= i < due.len() implies (#[trigger] all[i]).outcome is Ok by {
            assert(all[i] == made[i]);
        }
    }
}

/// The trace of a search after one more batch, where the backend was asked.
pub proof fn lemma_batch_derived<'a, B: AddressBackend, S: KeySource, P: ProgressSink>(
    backend: (B, B, B),
    source: (S, S),
    progress: (P, P),
    worker: (WorkerContext<'a>, WorkerContext<'a>),
    batch_size: nat,
    stride: nat,
    capacity: nat,
    t: SearchTrace,
    batch: Batch,
    derived: Result<(), Error>,
) -> (after: SearchTrace)
    requires
        ran(
            (backend.0, backend.1),
            source,
            progress,
            worker,
            batch_size,
            stride,
            capacity,
            t,
        ),
        settled_so_far(t, *worker.0.targets),
        handed_keys(t.source).len() == t.judged + 1,
        handed_keys(t.source).last() == batch.keys,
        batch.addresses.len() == batch_size,
        backend_step(
            backend.1,
            (BackendCall::Derive { keys: batch.keys, addresses: batch.addresses, r: derived }),
            backend.2,
        ),
    ensures
        ran(
            (backend.0, backend.2),
            source,
            progress,
            worker,
            batch_size,
            stride,
            capacity,
            after,
        ),
        after.source == t.source,
        after.reports == t.reports,
        after.judged == t.judged,
        after.offered == t.offered,
        after.counted == t.counted,
        started(after.calls).len() == t.judged + 1,
        after.calls.len() > 0,
        after.calls.last().result() == derived,
        derived is Ok ==> ended(after.calls) == ended(t.calls).push(batch),
        derived is Err ==> ended(after.calls) == ended(t.calls),
        all_derived(after.calls),
        none_matches(ended(after.calls), t.judged, *worker.0.targets),
{
    let call = BackendCall::Derive { keys: batch.keys, addresses: batch.addresses, r: derived };
    let after = SearchTrace { calls: t.calls.push(call), ..t };
    let every = worker.0.report_every as nat;
    lemma_backend_push(backend.0, t.calls, backend.1, call, backend.2);
    lemma_calls_push(t.calls, call);
    lemma_orderly_push(t.calls, call, batch_size, capacity);
    let handed = handed_keys(t.source);
    assert(started(after.calls) =~= handed.take(started(after.calls).len() as int)) by {
        assert(started(t.calls) =~= handed.take(started(t.calls).len() as int));
    }
    if derived is Ok {
        let batches = ended(t.calls);
        let longer = ended(after.calls);
        assert(batches =~= longer.take(batches.len() as int));
        lemma_reports_longer(t.reports, batches, longer, t.judged, batch_size, every);
        lemma_offers_longer(
            batches,
            longer,
            t.offered,
            stride,
            batch_size,
            *worker.0.targets,
        );
        lemma_offers_longer(batches, longer, t.judged, stride, batch_size, *worker.0.targets);
        assert forall|i: int| 0 <= i < t.judged implies fault_of(
            #[trigger] longer[i],
            stride,
            *worker.0.targets,
        ) is None by {
            assert(longer[i] == batches[i]);
        }
    }
    after
}

/// Whether a search that derives one batch at a time stands where it did before
/// it asked for the next one.
pub open spec fn plain_ready<'a>(
    worker: (WorkerContext<'a>, WorkerContext<'a>),
    batch_size: nat,
    t: SearchTrace,
    completed: u64,
    count: u64,
) -> bool {
    &&& settled_so_far(t, *worker.0.targets)
    &&& handed_keys(t.source).len() == t.judged
    &&& new_reads(worker).len() == 3 * t.judged
    &&& forall|i: int| 0 <= i < 3 * t.judged ==> !#[trigger] new_reads(worker)[i]
    &&& worker.1.exchanges() == worker.0.exchanges()
    &&& completed == t.judged * batch_size
    &&& count == last_point(
        report_points(t.judged, batch_size, worker.0.report_every as nat),
    ) * batch_size
    &&& count <= completed
}

/// A search that has only read the clock has left everything else as it was.
pub proof fn lemma_nothing_done<'a, B: AddressBackend, S: KeySource, P: ProgressSink>(
    backend: B,
    source: S,
    progress: P,
    worker: (WorkerContext<'a>, WorkerContext<'a>),
    start: std::time::Instant,
    batch_size: nat,
    stride: nat,
    capacity: nat,
)
    requires
        worker.1.same_worker(&worker.0),
        worker.1.reads() == worker.0.reads(),
        worker.1.exchanges() == worker.0.exchanges(),
        worker.1.offers() == worker.0.offers(),
        worker.1.wakes() == worker.0.wakes(),
        worker.1.total.recorded() == worker.0.total.recorded(),
        worker.1.times() == worker.0.times().push((start, worker.0.reads().len())),
    ensures
        ran(
            (backend, backend),
            (source, source),
            (progress, progress),
            worker,
            batch_size,
            stride,
            capacity,
            nothing_done(),
        ),
        new_reads(worker).len() == 0,
        new_times(worker) == seq![(start, worker.0.reads().len())],
{
    let t = nothing_done();
    assert(worker.0.reads().is_prefix_of(worker.0.reads()));
    assert(worker.0.exchanges().is_prefix_of(worker.0.exchanges()));
    assert(worker.0.offers().is_prefix_of(worker.0.offers()));
    assert(worker.0.times().is_prefix_of(worker.1.times()));
    assert(new_times(worker) =~= seq![(start, worker.0.reads().len())]);
    assert(0 * batch_size == 0) by (nonlinear_arith);
    assert(started(t.calls).is_prefix_of(handed_keys(t.source)));
    assert(reports_fit(t.reports, ended(t.calls), 0, batch_size, worker.0.report_every as nat));
}

/// Whether every batch that was ended was counted, judged and found without a
/// full match, and those that are out are held.
pub open spec fn inflight_ready<'a>(
    worker: (WorkerContext<'a>, WorkerContext<'a>),
    batch_size: nat,
    t: SearchTrace,
    completed: u64,
    count: u64,
    held: Seq<KeyBatch>,
) -> bool {
    &&& t.judged == t.offered == t.counted
    &&& ended(t.calls).len() == t.judged
    &&& t.calls.len() > 0 ==> t.calls.last().result() is Ok
    &&& none_derived(t.calls)
    &&& t.source.len() > 0 ==> !t.source.last().hands_out()
    &&& none_matches(ended(t.calls), t.judged, *worker.0.targets)
    &&& worker.1.exchanges() == worker.0.exchanges()
    &&& completed == t.judged * batch_size
    &&& count == last_point(
        report_points(t.judged, batch_size, worker.0.report_every as nat),
    ) * batch_size
    &&& count <= completed
    &&& all_out(t.calls, held)
}

/// Whether these are the batches that were started and not ended, in order.
pub open spec fn all_out(calls: Seq<BackendCall>, held: Seq<KeyBatch>) -> bool {
    &&& started(calls).len() == ended(calls).len() + held.len()
    &&& forall|i: int|
        0 <= i < held.len() ==> (#[trigger] held[i]).0@ == started(calls)[ended(calls).len() + i]
}

/// The trace of a search after one more batch was begun.
pub proof fn lemma_batch_begun<'a, B: AddressBackend, S: KeySource, P: ProgressSink>(
    backend: (B, B, B),
    source: (S, S),
    progress: (P, P),
    worker: (WorkerContext<'a>, WorkerContext<'a>),
    batch_size: nat,
    stride: nat,
    capacity: nat,
    t: SearchTrace,
    keys: Seq<SecretKey>,
    r: Result<(), Error>,
) -> (after: SearchTrace)
    requires
        ran(
            (backend.0, backend.1),
            source,
            progress,
            worker,
            batch_size,
            stride,
            capacity,
            t,
        ),
        t.calls.len() > 0 ==> t.calls.last().result() is Ok,
        handed_keys(t.source).len() == started(t.calls).len() + 1,
        handed_keys(t.source).last() == keys,
        started(t.calls).len() - ended(t.calls).len() < capacity,
        backend_step(backend.1, (BackendCall::Begin { keys, count: batch_size, r }), backend.2),
    ensures
        ran(
            (backend.0, backend.2),
            source,
            progress,
            worker,
            batch_size,
            stride,
            capacity,
            after,
        ),
        after == (SearchTrace {
            calls: t.calls.push(BackendCall::Begin { keys, count: batch_size, r }),
            ..t
        }),
        started(after.calls) == started(t.calls).push(keys),
        ended(after.calls) == ended(t.calls),
{
    let call = BackendCall::Begin { keys, count: batch_size, r };
    let after = SearchTrace { calls: t.calls.push(call), ..t };
    lemma_backend_push(backend.0, t.calls, backend.1, call, backend.2);
    lemma_calls_push(t.calls, call);
    lemma_orderly_push(t.calls, call, batch_size, capacity);
    let handed = handed_keys(t.source);
    assert(started(after.calls) =~= handed.take(started(after.calls).len() as int)) by {
        assert(started(t.calls) =~= handed.take(started(t.calls).len() as int));
    }
    after
}

/// The trace of a search after the oldest batch was ended.
pub proof fn lemma_batch_ended<'a, B: AddressBackend, S: KeySource, P: ProgressSink>(
    backend: (B, B, B),
    source: (S, S),
    progress: (P, P),
    worker: (WorkerContext<'a>, WorkerContext<'a>),
    batch_size: nat,
    stride: nat,
    capacity: nat,
    t: SearchTrace,
    batch: Batch,
    r: Result<(), Error>,
) -> (after: SearchTrace)
    requires
        ran(
            (backend.0, backend.1),
            source,
            progress,
            worker,
            batch_size,
            stride,
            capacity,
            t,
        ),
        t.calls.len() > 0 ==> t.calls.last().result() is Ok,
        t.counted == ended(t.calls).len(),
        ended(t.calls).len() < started(t.calls).len(),
        batch.keys == started(t.calls)[ended(t.calls).len() as int],
        batch.addresses.len() == batch_size,
        backend_step(
            backend.1,
            (BackendCall::End { keys: batch.keys, addresses: batch.addresses, r }),
            backend.2,
        ),
    ensures
        ran(
            (backend.0, backend.2),
            source,
            progress,
            worker,
            batch_size,
            stride,
            capacity,
            after,
        ),
        after == (SearchTrace {
            calls: t.calls.push(
                BackendCall::End { keys: batch.keys, addresses: batch.addresses, r },
            ),
            ..t
        }),
        started(after.calls) == started(t.calls),
        r is Ok ==> ended(after.calls) == ended(t.calls).push(batch),
        r is Err ==> ended(after.calls) == ended(t.calls),
{
    let call = BackendCall::End { keys: batch.keys, addresses: batch.addresses, r };
    let after = SearchTrace { calls: t.calls.push(call), ..t };
    let every = worker.0.report_every as nat;
    lemma_backend_push(backend.0, t.calls, backend.1, call, backend.2);
    lemma_calls_push(t.calls, call);
    lemma_orderly_push(t.calls, call, batch_size, capacity);
    if r is Ok {
        let batches = ended(t.calls);
        let longer = ended(after.calls);
        assert(batches =~= longer.take(batches.len() as int));
        lemma_reports_longer(t.reports, batches, longer, t.judged, batch_size, every);
        lemma_offers_longer(
            batches,
            longer,
            t.offered,
            stride,
            batch_size,
            *worker.0.targets,
        );
        lemma_offers_longer(batches, longer, t.judged, stride, batch_size, *worker.0.targets);
        assert forall|i: int| 0 <= i < t.judged implies fault_of(
            #[trigger] longer[i],
            stride,
            *worker.0.targets,
        ) is None by {
            assert(longer[i] == batches[i]);
        }
    }
    after
}

}
