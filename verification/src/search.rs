//! The search itself: draw chain starts, derive a batch, judge it, and publish
//! what was confirmed.
use crate::address::Address;
use crate::backend::{AddressBackend, MAX_GPU_BATCH_SIZE};
use crate::clock::{elapsed_since, utc_timestamp, Elapsed};
use crate::counter::crossed_report_threshold;
use crate::entropy::{seed_rng, KeyRng, SeededRng};
use crate::error::Error;
use crate::hex::{address_nibbles, nibbles_to_hex, sk_to_hex};
use crate::judge::{judge_batch, BatchHit};
use crate::scalar::SecretKey;
use crate::source::{clone_key_batch, KeyBatch, KeySource, SequentialSource};
use crate::target::Targets;
use crate::worker::{stop_all, WorkerContext};
use std::collections::VecDeque;
use std::sync::atomic::{AtomicBool, AtomicU64};
use vstd::prelude::*;

verus! {

use crate::address::address_of;
use crate::backend::scalars;
use crate::chain::{chain_len, chain_scalar, chains_for};
use crate::clock::{clock_gave, measured};
use crate::counter::{all_added, handed_over};
use crate::entropy::{
    descends, is_draw, lemma_descends_self, lemma_descends_twice, lemma_draw_of_ancestor,
    lemma_drew_all,
};
use crate::hex::{address_text, byte_nibbles, key_text};
use crate::judge::{hit_index, judged, only_offered};
use crate::matching::{full_match, is_first_hit};
use crate::outcome::{
    fault_of, hit_at, inflight_outcome, new_reads, new_times, nothing_done, offers_fit,
    plain_outcome, ran, search_outcome, stop_seen, SearchTrace,
};
use crate::scalar::is_scalar;
use crate::source::retired;
use crate::steps::{
    all_out, inflight_ready, lemma_batch_begun, lemma_batch_derived, lemma_batch_ended,
    lemma_batch_judged, lemma_nothing_done, lemma_offer_made, plain_ready, settled_so_far,
};
use crate::trace::{
    asked, backend_step, copies_kept, copies_retired, ended, handed_keys, hit_of, kept_full,
    last_point, law_batches_end_in_order, lemma_copy_ended, lemma_copy_held, lemma_copy_retired,
    lemma_kept_full_before, lemma_kept_full_later, lemma_kept_full_push, lemma_kept_full_so_far,
    lemma_nothing_called, lemma_read_push, lemma_source_push, none_derived, none_matches,
    nothing_to_begin, orderly, report_points, source_ran, source_step, started, unraised,
    BackendCall, Batch, SourceCall,
};
use crate::worker::{flag_raised, taken};

/// How far a worker has come.
#[derive(Clone, Copy)]
pub struct Progress {
    pub completed: u64,
    pub total: u64,
    pub since_report: u64,
    pub elapsed: Elapsed,
    pub sample: Address,
}

/// Who is told how far a worker has come. Nothing is taken on trust of a sink: a
/// search is bound by what a sink states of itself, and most state nothing.
pub trait ProgressSink: Sized {
    /// Whether a report can lead from `before` to `after`. A sink that says
    /// nothing of itself may do anything.
    open spec fn reports(before: Self, progress: Progress, after: Self) -> bool {
        true
    }

    /// Takes a report.
    fn report(&mut self, progress: Progress)
        ensures
            Self::reports(*old(self), progress, *final(self)),
    ;
}

/// A key whose address is what was searched for.
pub struct HitRecord {
    pub address: String,
    pub private_key: String,
    pub tries: u64,
    pub elapsed: Elapsed,
    pub worker_id: usize,
    pub ts_utc: String,
}

impl HitRecord {
    /// Whether the key controls the address and the address meets the targets.
    pub open spec fn genuine(&self, targets: Targets) -> bool {
        exists|scalar: nat| #[trigger]
            is_scalar(scalar) && self.private_key@ == key_text(scalar) && self.address@
                == address_text(address_of(scalar)) && full_match(
                byte_nibbles(address_of(scalar)),
                targets,
            )
    }

    /// Whether the record says how long the search took and when it ended, as
    /// the clock gave them.
    pub open spec fn stamped(&self) -> bool {
        &&& exists|start: std::time::Instant| #[trigger]
            call_ensures(std::time::Instant::now, (), start) && measured(&start, self.elapsed)
        &&& exists|formatted: Option<String>| #[trigger]
            clock_gave(formatted) && self.ts_utc@ == (match formatted {
                Some(text) => text@,
                None => "NA"@,
            })
    }

    /// Whether the hit's key is a draw of `rng` that may start a chain of
    /// `drawn` scalars, or less than a chain of `stride` behind one.
    pub open spec fn drawn_from<R: KeyRng>(&self, rng: R, drawn: nat, stride: nat) -> bool {
        exists|start: nat, offset: nat|
            is_draw(rng, drawn, start) && offset < chain_len(stride) && self.private_key@
                == #[trigger] key_text(start + offset)
    }
}

/// Whether a batch may have this many addresses.
pub open spec fn batch_size_allowed(batch_size: nat) -> bool {
    1 <= batch_size <= MAX_GPU_BATCH_SIZE
}

/// The record of a hit that was confirmed.
fn hit_record(
    hit: &BatchHit,
    address: &Address,
    tries: u64,
    start: &std::time::Instant,
    context: &WorkerContext<'_>,
) -> (r: HitRecord)
    requires
        address@ == address_of(hit.key@),
        full_match(byte_nibbles(address@), *context.targets),
        call_ensures(std::time::Instant::now, (), *start),
    ensures
        measured(start, r.elapsed),
        r.genuine(*context.targets),
        r.private_key@ == key_text(hit.key@),
        r.address@ == address_text(address@),
        r.tries == tries,
        r.worker_id == context.worker_id,
        r.elapsed.nanos < 1_000_000_000,
        r.stamped(),
{
    let record = HitRecord {
        address: nibbles_to_hex(&address_nibbles(address)),
        private_key: sk_to_hex(&hit.key),
        tries,
        elapsed: elapsed_since(start),
        worker_id: context.worker_id,
        ts_utc: utc_timestamp(),
    };
    let key: &SecretKey = &hit.key;
    proof {
        use_type_invariant(key);
        key.lemma_in_range();
        assert(is_scalar(key@));
    }
    record
}

/// When the last report was, and after how many attempts.
struct ReportClock {
    at: std::time::Instant,
    count: u64,
}

/// Whether a report shows the shared counter as it was given after attempts
/// were handed over, and a span that the clock gave.
pub open spec fn report_read(global: &AtomicU64, report: Progress) -> bool {
    &&& exists|pending: u64| #[trigger] handed_over(global, pending, report.total)
    &&& exists|at: std::time::Instant| #[trigger] measured(&at, report.elapsed)
}

/// Whether a sink was told of `completed` attempts, if the attempts have passed
/// a multiple of the interval since the last report, which was after `count`.
/// `now` is when the last report was after that. A report says how long ago the
/// clock was last read, and the clock is read again behind it.
pub open spec fn ticked<P: ProgressSink>(
    before: P,
    after: P,
    count: u64,
    now: u64,
    completed: u64,
    sample: Address,
    every: u64,
    global: &AtomicU64,
    times: (Seq<(std::time::Instant, nat)>, Seq<(std::time::Instant, nat)>),
) -> bool {
    if every != 0 && count / every < completed / every {
        &&& now == completed
        &&& times.1.len() == times.0.len() + 1
        &&& times.1.drop_last() == times.0
        &&& exists|report: Progress| #[trigger]
            P::reports(before, report, after) && report.completed == completed
                && report.since_report == completed - count && report.sample == sample
                && report_read(global, report) && measured(&times.0.last().0, report.elapsed)
    } else {
        now == count && after == before && times.1 == times.0
    }
}

impl ReportClock {
    /// Reports if the attempts have passed a multiple of the interval.
    fn tick<P: ProgressSink>(
        &mut self,
        completed: u64,
        sample: &Address,
        context: &mut WorkerContext<'_>,
        progress: &mut P,
    )
        requires
            old(self).count <= completed,
            old(context).times().len() > 0,
            old(self).at == old(context).times().last().0,
        ensures
            final(self).count <= completed,
            final(context).times().len() > 0,
            final(self).at == final(context).times().last().0,
            only_offered(*old(context), *final(context)),
            final(context).offers() == old(context).offers(),
            ticked(
                *old(progress),
                *final(progress),
                old(self).count,
                final(self).count,
                completed,
                *sample,
                old(context).report_every,
                old(context).total.global(),
                (old(context).times(), final(context).times()),
            ),
            if old(context).report_every != 0 && old(self).count / old(context).report_every
                < completed / old(context).report_every {
                &&& call_ensures(std::time::Instant::now, (), final(self).at)
                &&& final(context).total.pending() == 0
            } else {
                *final(self) == *old(self) && *final(context) == *old(context)
            },
    {
        if crossed_report_threshold(self.count, completed, context.report_every) {
            let elapsed: Elapsed = elapsed_since(&self.at);
            let ghost pending = context.total.pending() as u64;
            let total: u64 = context.total.flush();
            let report = Progress {
                completed,
                total,
                since_report: completed - self.count,
                elapsed,
                sample: *sample,
            };
            assert(report_read(context.total.global(), report)) by {
                assert(measured(&self.at, report.elapsed));
                assert(handed_over(context.total.global(), pending, report.total));
            }
            progress.report(report);
            self.at = context.ties.now();
            assert(context.times().drop_last() =~= old(context).times());
            self.count = completed;
        }
    }
}

/// What came of one batch.
enum Step {
    /// The search was told to stop.
    Stopped,
    /// No address matches in full.
    Next,
    /// An address matches in full.
    Found(HitRecord),
}

/// Whether the worker offered nothing, counted nothing and raised no flag.
spec fn idle<'a>(before: WorkerContext<'a>, after: WorkerContext<'a>) -> bool {
    &&& after.offers() == before.offers()
    &&& after.wakes() == before.wakes()
    &&& after.exchanges() == before.exchanges()
    &&& after.total.recorded() == before.total.recorded()
    &&& after.times() == before.times()
}

/// Whether what follows the judgement `found` of a batch can lead from the one
/// state to the other and give `r`.
spec fn closed_batch<'a, P: ProgressSink>(
    progress: (P, P),
    worker: (WorkerContext<'a>, WorkerContext<'a>),
    clock: (u64, u64),
    batch: Batch,
    start: std::time::Instant,
    batch_size: nat,
    stride: nat,
    base: u64,
    found: Result<Option<usize>, Error>,
    r: Result<Step, Error>,
) -> bool {
    let targets = *worker.0.targets;
    match found {
        Err(e) => r == Err::<Step, Error>(e) && worker.1.exchanges()
            == worker.0.exchanges() && progress.1 == progress.0 && clock.1 == clock.0
            && worker.1.times() == worker.0.times(),
        Ok(hit) => ticked(
            progress.0,
            progress.1,
            clock.0,
            clock.1,
            (base + batch_size) as u64,
            batch.addresses[batch_size - 1],
            worker.0.report_every,
            worker.0.total.global(),
            (worker.0.times(), worker.1.times()),
        ) && is_first_hit(hit, batch.addresses, targets, batch.addresses.len() as int)
            && match hit {
            None => r == Ok::<Step, Error>(Step::Next) && worker.1.exchanges()
                == worker.0.exchanges(),
            Some(index) => match r {
                Ok(Step::Stopped) => worker.1.exchanges()
                    == worker.0.exchanges().push(true),
                Ok(Step::Found(record)) => worker.1.exchanges()
                    == worker.0.exchanges().push(false) && record.tries == base + index
                    + 1 && record.private_key@ == key_text(
                    chain_scalar(batch.keys, stride, index as nat),
                ) && record.address@ == address_text(batch.addresses[index as int]@)
                    && batch.addresses[index as int]@ == address_of(
                    chain_scalar(batch.keys, stride, index as nat),
                ) && record.worker_id == worker.0.worker_id && record.genuine(targets)
                    && record.stamped() && measured(&start, record.elapsed),
                _ => false,
            },
        },
    }
}

/// Whether judging a batch, and what follows that, can lead from the one state to
/// the other and give `r`.
spec fn judged_and_closed<'a, P: ProgressSink>(
    progress: (P, P),
    worker: (WorkerContext<'a>, WorkerContext<'a>),
    clock: (u64, u64),
    batch: Batch,
    start: std::time::Instant,
    batch_size: nat,
    stride: nat,
    base: u64,
    r: Result<Step, Error>,
) -> bool {
    exists|found: Result<Option<usize>, Error>| #[trigger]
        judged(
            *worker.0.targets,
            worker.0.board(),
            worker.0.offers(),
            worker.1.offers(),
            batch,
            stride,
            base as nat,
            found,
        ) && closed_batch(progress, worker, clock, batch, start, batch_size, stride, base, found, r)
}

/// Whether deriving and judging one batch can lead from the one state to the
/// other and give `r`, where the backend gave `derived`.
spec fn stepped<'a, B: AddressBackend, P: ProgressSink>(
    backend: (B, B),
    progress: (P, P),
    worker: (WorkerContext<'a>, WorkerContext<'a>),
    clock: (u64, u64),
    batch: Batch,
    derived: Result<(), Error>,
    start: std::time::Instant,
    batch_size: nat,
    stride: nat,
    base: u64,
    r: Result<Step, Error>,
) -> bool {
    let reads = new_reads(worker);
    let call = BackendCall::Derive { keys: batch.keys, addresses: batch.addresses, r: derived };
    let offers = (worker.0.offers(), worker.1.offers());
    &&& worker.1.same_worker(&worker.0)
    &&& worker.0.reads().is_prefix_of(worker.1.reads())
    &&& batch.addresses.len() == batch_size
    &&& worker.1.wakes() + taken(offers.0) == worker.0.wakes() + taken(offers.1)
    &&& {
        ||| reads == seq![true] && r == Ok::<Step, Error>(Step::Stopped) && idle(
            worker.0,
            worker.1,
        ) && backend.1 == backend.0 && progress.1 == progress.0 && clock.1 == clock.0
        ||| reads == seq![false] && backend_step(backend.0, call, backend.1)
            && derived is Err && r == Err::<Step, Error>(derived->Err_0) && idle(worker.0, worker.1)
            && progress.1 == progress.0 && clock.1 == clock.0
        ||| reads == seq![false] && backend_step(backend.0, call, backend.1)
            && derived is Ok && base + batch_size > u64::MAX && r == Err::<Step, Error>(
            Error::AttemptOverflow,
        ) && idle(worker.0, worker.1) && progress.1 == progress.0 && clock.1 == clock.0
        ||| reads.len() == 2 && !reads[0] && backend_step(backend.0, call, backend.1)
            && derived is Ok && base + batch_size <= u64::MAX && worker.1.total.recorded()
            == worker.0.total.recorded() + batch_size && if reads[1] {
            &&& r == Ok::<Step, Error>(Step::Stopped)
            &&& offers.1 == offers.0
            &&& worker.1.exchanges() == worker.0.exchanges()
            &&& progress.1 == progress.0
            &&& clock.1 == clock.0
            &&& worker.1.times() == worker.0.times()
        } else {
            judged_and_closed(progress, worker, clock, batch, start, batch_size, stride, base, r)
        }
    }
}

/// A batch that was derived, counted and judged was stepped through.
proof fn lemma_judged_step<'a, B: AddressBackend, P: ProgressSink>(
    backend: (B, B),
    progress: (P, P),
    worker: (WorkerContext<'a>, WorkerContext<'a>),
    clock: (u64, u64),
    batch: Batch,
    derived: Result<(), Error>,
    start: std::time::Instant,
    batch_size: nat,
    stride: nat,
    base: u64,
    found: Result<Option<usize>, Error>,
    r: Result<Step, Error>,
)
    requires
        new_reads(worker) == seq![false, false],
        batch.addresses.len() == batch_size,
        worker.1.same_worker(&worker.0),
        worker.0.reads().is_prefix_of(worker.1.reads()),
        worker.1.wakes() + taken(worker.0.offers()) == worker.0.wakes() + taken(
            worker.1.offers(),
        ),
        worker.1.total.recorded() == worker.0.total.recorded() + batch_size,
        backend_step(
            backend.0,
            (BackendCall::Derive { keys: batch.keys, addresses: batch.addresses, r: derived }),
            backend.1,
        ),
        derived is Ok,
        base + batch_size <= u64::MAX,
        judged(
            *worker.0.targets,
            worker.0.board(),
            worker.0.offers(),
            worker.1.offers(),
            batch,
            stride,
            base as nat,
            found,
        ),
        closed_batch(progress, worker, clock, batch, start, batch_size, stride, base, found, r),
    ensures
        stepped(
            backend,
            progress,
            worker,
            clock,
            batch,
            derived,
            start,
            batch_size,
            stride,
            base,
            r,
        ),
{
    let reads = new_reads(worker);
    assert(reads.len() == 2 && !reads[0] && !reads[1]);
    assert(judged_and_closed(progress, worker, clock, batch, start, batch_size, stride, base, r));
}

/// Derives and judges one batch. Nothing is derived once the search was told to
/// stop, and what was derived meanwhile is counted and not judged.
fn search_step<B: AddressBackend, P: ProgressSink>(
    backend: &mut B,
    batch_size: usize,
    stride: usize,
    keys: &[SecretKey],
    base: u64,
    addresses: &mut Vec<Address>,
    start: &std::time::Instant,
    clock: &mut ReportClock,
    context: &mut WorkerContext<'_>,
    progress: &mut P,
) -> (r: Result<Step, Error>)
    requires
        batch_size_allowed(batch_size as nat),
        old(addresses)@.len() == batch_size,
        old(clock).count <= base,
        call_ensures(std::time::Instant::now, (), *start),
        old(context).times().len() > 0,
        old(clock).at == old(context).times().last().0,
    ensures
        final(addresses)@.len() == batch_size,
        final(context).times().len() > 0,
        final(clock).at == final(context).times().last().0,
        final(clock).count <= base + batch_size,
        exists|derived: Result<(), Error>| #[trigger]
            stepped(
                (*old(backend), *final(backend)),
                (*old(progress), *final(progress)),
                (*old(context), *final(context)),
                (old(clock).count, final(clock).count),
                (Batch { keys: keys@, addresses: final(addresses)@ }),
                derived,
                *start,
                batch_size as nat,
                stride as nat,
                base,
                r,
            ),
{
    let ghost reads = context.reads();
    if context.ties.stopped() {
        proof {
            assert(context.reads().skip(reads.len() as int) =~= seq![true]);
            assert(stepped(
                (*old(backend), *backend),
                (*old(progress), *progress),
                (*old(context), *context),
                (old(clock).count, clock.count),
                Batch { keys: keys@, addresses: addresses@ },
                Ok(()),
                *start,
                batch_size as nat,
                stride as nat,
                base,
                Ok(Step::Stopped),
            ));
        }
        return Ok(Step::Stopped);
    }
    assert(context.reads().skip(reads.len() as int) =~= seq![false]);
    let derived = backend.derive_batch(keys, addresses.as_mut_slice());
    let ghost given = derived;
    let ghost batch = Batch { keys: keys@, addresses: addresses@ };
    let ghost call = BackendCall::Derive { keys: keys@, addresses: addresses@, r: derived };
    assert(backend_step(*old(backend), call, *backend));
    match derived {
        Ok(()) => {},
        Err(e) => {
            proof {
                assert(stepped(
                    (*old(backend), *backend),
                    (*old(progress), *progress),
                    (*old(context), *context),
                    (old(clock).count, clock.count),
                    batch,
                    given,
                    *start,
                    batch_size as nat,
                    stride as nat,
                    base,
                    Err(e),
                ));
            }
            return Err(e);
        },
    }
    let completed: u64 = match base.checked_add(batch_size as u64) {
        Some(sum) => sum,
        None => {
            proof {
                assert(stepped(
                    (*old(backend), *backend),
                    (*old(progress), *progress),
                    (*old(context), *context),
                    (old(clock).count, clock.count),
                    batch,
                    given,
                    *start,
                    batch_size as nat,
                    stride as nat,
                    base,
                    Err(Error::AttemptOverflow),
                ));
            }
            return Err(Error::AttemptOverflow);
        },
    };
    context.total.record(batch_size as u64);
    let told: bool = context.ties.stopped();
    proof {
        assert(context.reads().skip(reads.len() as int) =~= seq![false, told]);
        assert(reads.is_prefix_of(context.reads()));
    }
    if told {
        proof {
            assert(stepped(
                (*old(backend), *backend),
                (*old(progress), *progress),
                (*old(context), *context),
                (old(clock).count, clock.count),
                batch,
                given,
                *start,
                batch_size as nat,
                stride as nat,
                base,
                Ok(Step::Stopped),
            ));
        }
        return Ok(Step::Stopped);
    }
    let ghost asked = *context;
    let judgement = judge_batch::<B>(keys, stride, addresses.as_slice(), base, context);
    let ghost found = hit_index(judgement);
    assert(judged(
        *asked.targets,
        asked.board(),
        asked.offers(),
        context.offers(),
        batch,
        stride as nat,
        base as nat,
        found,
    ));
    let hit: Option<BatchHit> = match judgement {
        Ok(hit) => hit,
        Err(e) => {
            proof {
                assert(new_reads((*old(context), *context)) =~= seq![false, false]);
                lemma_judged_step(
                    (*old(backend), *backend),
                    (*old(progress), *progress),
                    (*old(context), *context),
                    (old(clock).count, clock.count),
                    batch,
                    given,
                    *start,
                    batch_size as nat,
                    stride as nat,
                    base,
                    found,
                    Err(e),
                );
            }
            return Err(e);
        },
    };
    clock.tick(completed, &addresses[batch_size - 1], context, progress);
    let step: Step = match hit {
        None => Step::Next,
        Some(hit) => {
            let tries: u64 = base + hit.index as u64 + 1;
            if context.ties.stop_first() {
                Step::Stopped
            } else {
                Step::Found(hit_record(&hit, &addresses[hit.index], tries, start, &*context))
            }
        },
    };
    proof {
        assert(new_reads((*old(context), *context)) =~= seq![false, false]);
        lemma_judged_step(
            (*old(backend), *backend),
            (*old(progress), *progress),
            (*old(context), *context),
            (old(clock).count, clock.count),
            batch,
            given,
            *start,
            batch_size as nat,
            stride as nat,
            base,
            found,
            Ok(step),
        );
    }
    Ok(step)
}

/// The trace of a search after one batch was stepped through, and how the
/// search ends if that ended it.
proof fn lemma_step<'a, B: AddressBackend, S: KeySource, P: ProgressSink>(
    backend: (B, B, B),
    source: (S, S),
    progress: (P, P, P),
    worker: (WorkerContext<'a>, WorkerContext<'a>, WorkerContext<'a>),
    clock: (u64, u64),
    start: std::time::Instant,
    batch_size: nat,
    stride: nat,
    capacity: nat,
    t: SearchTrace,
    batch: Batch,
    derived: Result<(), Error>,
    base: u64,
    r: Result<Step, Error>,
) -> (after: SearchTrace)
    requires
        batch_size > 0,
        ran(
            (backend.0, backend.1),
            source,
            (progress.0, progress.1),
            (worker.0, worker.1),
            batch_size,
            stride,
            capacity,
            t,
        ),
        settled_so_far(t, *worker.0.targets),
        handed_keys(t.source).len() == t.judged + 1,
        handed_keys(t.source).last() == batch.keys,
        t.source.len() > 0,
        base == t.judged * batch_size,
        clock.0 == last_point(
            report_points(t.judged, batch_size, worker.0.report_every as nat),
        ) * batch_size,
        clock.0 <= base,
        new_reads((worker.0, worker.1)).len() == 3 * t.judged + 1,
        forall|i: int|
            0 <= i < 3 * t.judged + 1 ==> !#[trigger] new_reads((worker.0, worker.1))[i],
        worker.1.exchanges() == worker.0.exchanges(),
        new_times((worker.0, worker.1))[0].0 == start,
        stepped(
            (backend.1, backend.2),
            (progress.1, progress.2),
            (worker.1, worker.2),
            clock,
            batch,
            derived,
            start,
            batch_size,
            stride,
            base,
            r,
        ),
    ensures
        ran(
            (backend.0, backend.2),
            source,
            (progress.0, progress.2),
            (worker.0, worker.2),
            batch_size,
            stride,
            capacity,
            after,
        ),
        after.source == t.source,
        new_times((worker.0, worker.2))[0].0 == start,
        match r {
            Ok(Step::Next) => plain_ready(
                (worker.0, worker.2),
                batch_size,
                after,
                (base + batch_size) as u64,
                clock.1,
            ) && base + batch_size <= u64::MAX,
            Ok(Step::Stopped) => plain_outcome(
                (worker.0, worker.2),
                batch_size,
                stride,
                after,
                Ok(None),
            ),
            Ok(Step::Found(hit)) => plain_outcome(
                (worker.0, worker.2),
                batch_size,
                stride,
                after,
                Ok(Some(hit)),
            ),
            Err(e) => plain_outcome((worker.0, worker.2), batch_size, stride, after, Err(e)),
        },
{
    let w = (worker.0, worker.2);
    let new = new_reads((worker.1, worker.2));
    let earlier = new_reads((worker.0, worker.1));
    let reads = new_reads(w);
    assert(worker.2.reads() =~= worker.1.reads() + new);
    assert(reads =~= earlier + new);
    assert(worker.0.reads().is_prefix_of(worker.2.reads()));
    assert forall|i: int| 0 <= i < reads.len() - 1 implies !#[trigger] reads[i] by {
        if i < earlier.len() {
            assert(reads[i] == earlier[i]);
        } else {
            assert(reads[i] == new[i - earlier.len()]);
        }
    }
    assert((t.judged + 1) * batch_size == t.judged * batch_size + batch_size)
        by (nonlinear_arith);
    assert(worker.2.times().len() >= worker.1.times().len());
    assert(new_times((worker.0, worker.2))[0] == new_times((worker.0, worker.1))[0]) by {
        if worker.2.times() != worker.1.times() {
            assert(worker.2.times().drop_last() == worker.1.times());
        }
    }
    if new == seq![true] {
        assert(reads.last() == new.last());
        t
    } else {
        let mid = lemma_batch_derived(
            backend,
            source,
            (progress.0, progress.1),
            (worker.0, worker.1),
            batch_size,
            stride,
            capacity,
            t,
            batch,
            derived,
        );
        let batches = ended(mid.calls);
        let targets = *worker.0.targets;
        assert(reads.last() == new.last());
        if new == seq![false] {
            mid
        } else {
            let counted = SearchTrace { counted: t.counted + 1, ..mid };
            assert(batches[t.judged as int] == batch);
            if new[1] {
                counted
            } else {
                let found = choose|found: Result<Option<usize>, Error>| #[trigger]
                    judged(
                        *worker.1.targets,
                        worker.1.board(),
                        worker.1.offers(),
                        worker.2.offers(),
                        batch,
                        stride,
                        base as nat,
                        found,
                    ) && closed_batch(
                        (progress.1, progress.2),
                        (worker.1, worker.2),
                        clock,
                        batch,
                        start,
                        batch_size,
                        stride,
                        base,
                        found,
                        r,
                    );
                lemma_offer_made(worker, batches, t.judged, stride, batch_size, base, found);
                if found is Err {
                    let e = found->Err_0;
                    if offers_fit(worker.0, worker.2, batches, t.judged, stride, batch_size)
                        && fault_of(batch, stride, targets) == Some(e) {
                        counted
                    } else {
                        SearchTrace { offered: t.offered + 1, ..counted }
                    }
                } else {
                    let reports = lemma_batch_judged(
                        progress,
                        worker,
                        clock,
                        t.reports,
                        batches,
                        t.judged,
                        batch_size,
                        base,
                    );
                    let after = SearchTrace {
                        offered: t.offered + 1,
                        judged: t.judged + 1,
                        reports,
                        ..counted
                    };
                    let hit = found->Ok_0;
                    assert(hit == hit_of(batch.addresses, targets));
                    if hit is None {
                        assert(none_matches(batches, t.judged + 1, targets));
                    }
                    after
                }
            }
        }
    }
}

/// Derives and judges one batch after another until a hit, a stop or an error.
fn search_batches<B: AddressBackend, S: KeySource, P: ProgressSink>(
    backend: &mut B,
    batch_size: usize,
    stride: usize,
    capacity: usize,
    context: &mut WorkerContext<'_>,
    progress: &mut P,
    source: &mut S,
) -> (r: Result<Option<HitRecord>, Error>)
    requires
        batch_size_allowed(batch_size as nat),
    ensures
        exists|t: SearchTrace| #[trigger]
            ran(
                (*old(backend), *final(backend)),
                (*old(source), *final(source)),
                (*old(progress), *final(progress)),
                (*old(context), *final(context)),
                batch_size as nat,
                stride as nat,
                capacity as nat,
                t,
            ) && plain_outcome(
                (*old(context), *final(context)),
                batch_size as nat,
                stride as nat,
                t,
                r,
            ),
{
    let mut addresses: Vec<Address> = vec![[0u8; 20]; batch_size];
    let batch: u64 = batch_size as u64;
    let mut completed: u64 = 0;
    let start = context.ties.now();
    let mut clock = ReportClock { at: start, count: 0 };
    let flag: &AtomicBool = context.ties.stop_flag();
    let ghost mut t = nothing_done();
    proof {
        lemma_nothing_done(
            *backend,
            *source,
            *progress,
            (*old(context), *context),
            start,
            batch_size as nat,
            stride as nat,
            capacity as nat,
        );
    }
    loop
        invariant
            batch_size_allowed(batch_size as nat),
            batch == batch_size,
            addresses@.len() == batch_size,
            flag == old(context).flag(),
            call_ensures(std::time::Instant::now, (), start),
            context.times().len() > 0,
            clock.at == context.times().last().0,
            new_times((*old(context), *context))[0].0 == start,
            ran(
                (*old(backend), *backend),
                (*old(source), *source),
                (*old(progress), *progress),
                (*old(context), *context),
                batch_size as nat,
                stride as nat,
                capacity as nat,
                t,
            ),
            plain_ready(
                (*old(context), *context),
                batch_size as nat,
                t,
                completed,
                clock.count,
            ),
            t.source.len() > 0 ==> !t.source.last().hands_out(),
        decreases u64::MAX - completed,
    {
        let ghost before = *context;
        let told: bool = context.ties.stopped();
        proof {
            assert(new_reads((*old(context), *context)) =~= new_reads(
                (*old(context), before),
            ).push(told));
            assert(old(context).reads().is_prefix_of(context.reads()));
            assert(ran(
                (*old(backend), *backend),
                (*old(source), *source),
                (*old(progress), *progress),
                (*old(context), *context),
                batch_size as nat,
                stride as nat,
                capacity as nat,
                t,
            ));
        }
        if told {
            return Ok(None);
        }
        let ghost asked = *source;
        let ghost waiting = *context;
        let ghost device = *backend;
        let ghost told_of = *progress;
        let ghost count = clock.count;
        let ghost mut got: Result<Option<Seq<SecretKey>>, Error> = Ok(None);
        let ghost mut came: Result<Step, Error> = Ok(Step::Next);
        let next: Result<Option<Step>, Error> = match source.next(flag) {
            Err(e) => {
                proof {
                    got = Err(e);
                }
                Err(e)
            },
            Ok(None) => Ok(None),
            Ok(Some(keys)) => {
                proof {
                    got = Ok(Some(keys@));
                }
                let stepped = search_step(
                    backend,
                    batch_size,
                    stride,
                    keys,
                    completed,
                    &mut addresses,
                    &start,
                    &mut clock,
                    context,
                    progress,
                );
                proof {
                    came = stepped;
                }
                match stepped {
                    Ok(step) => Ok(Some(step)),
                    Err(e) => Err(e),
                }
            },
        };
        proof {
            let call = SourceCall::Next(got);
            lemma_source_push(*old(source), flag, t.source, asked, call, *source);
            let reads = new_reads((*old(context), waiting));
            if let Ok(Some(keys)) = got {
                assert(started(t.calls) =~= handed_keys(t.source.push(call)).take(
                    started(t.calls).len() as int,
                )) by {
                    assert(started(t.calls) =~= handed_keys(t.source).take(
                        started(t.calls).len() as int,
                    ));
                }
            }
            t = SearchTrace { source: t.source.push(call), ..t };
            assert(ran(
                (*old(backend), device),
                (*old(source), *source),
                (*old(progress), told_of),
                (*old(context), waiting),
                batch_size as nat,
                stride as nat,
                capacity as nat,
                t,
            ));
            if let Ok(Some(keys)) = got {
                let done = Batch { keys, addresses: addresses@ };
                let derived = choose|derived: Result<(), Error>| #[trigger]
                    stepped(
                        (device, *backend),
                        (told_of, *progress),
                        (waiting, *context),
                        (count, clock.count),
                        done,
                        derived,
                        start,
                        batch_size as nat,
                        stride as nat,
                        completed,
                        came,
                    );
                t = lemma_step(
                    (*old(backend), device, *backend),
                    (*old(source), *source),
                    (*old(progress), told_of, *progress),
                    (*old(context), waiting, *context),
                    (count, clock.count),
                    start,
                    batch_size as nat,
                    stride as nat,
                    capacity as nat,
                    t,
                    done,
                    derived,
                    completed,
                    came,
                );
            } else {
                assert(!reads.last());
            }
        }
        match next {
            Err(e) => {
                return Err(e);
            },
            Ok(None) => {
                return Ok(None);
            },
            Ok(Some(Step::Stopped)) => {
                return Ok(None);
            },
            Ok(Some(Step::Found(hit))) => {
                return Ok(Some(hit));
            },
            Ok(Some(Step::Next)) => {},
        }
        completed = completed + batch;
        let ghost lent = *source;
        let back = source.recycle(flag);
        proof {
            let call = SourceCall::Recycle(back);
            lemma_source_push(*old(source), flag, t.source, lent, call, *source);
            t = SearchTrace { source: t.source.push(call), ..t };
            assert(ran(
                (*old(backend), *backend),
                (*old(source), *source),
                (*old(progress), *progress),
                (*old(context), *context),
                batch_size as nat,
                stride as nat,
                capacity as nat,
                t,
            ));
        }
        if let Err(e) = back {
            return Err(e);
        }
    }
}

/// Submits one batch and keeps its keys at the end of `held`.
fn begin_one<B: AddressBackend>(
    backend: &mut B,
    batch_size: usize,
    keys: &[SecretKey],
    held: &mut VecDeque<KeyBatch>,
) -> (r: Result<(), Error>)
    ensures
        backend_step(
            *old(backend),
            (BackendCall::Begin { keys: keys@, count: batch_size as nat, r }),
            *final(backend),
        ),
        r is Err ==> final(held)@ == old(held)@,
        r is Ok ==> final(held)@.len() == old(held)@.len() + 1 && final(held)@.drop_last() == old(
            held,
        )@ && final(held)@.last().0@ == keys@,
{
    let begun = backend.begin_batch(keys, batch_size);
    if begun.is_ok() {
        held.push_back(clone_key_batch(keys));
        assert(held@.drop_last() =~= old(held)@);
    }
    begun
}

/// Retires a batch of which the search kept the keys.
fn put_away(keys: KeyBatch)
    ensures
        retired(keys.0@),
{
    keys.retire();
}

/// Keeps the backend full and judges the batches in the order in which they
/// were submitted, until a hit, a stop or an error. After a hit the batches
/// still out are waited for and counted.
#[verifier::rlimit(60)]
#[verifier::spinoff_prover]
fn search_inflight<B: AddressBackend, S: KeySource, P: ProgressSink>(
    backend: &mut B,
    batch_size: usize,
    stride: usize,
    capacity: usize,
    context: &mut WorkerContext<'_>,
    progress: &mut P,
    source: &mut S,
    held: &mut VecDeque<KeyBatch>,
) -> (r: Result<Option<HitRecord>, Error>)
    requires
        batch_size_allowed(batch_size as nat),
        capacity > 1,
        old(held)@.len() == 0,
    ensures
        r is Ok ==> final(held)@.len() == 0,
        exists|t: SearchTrace| #[trigger]
            ran(
                (*old(backend), *final(backend)),
                (*old(source), *final(source)),
                (*old(progress), *final(progress)),
                (*old(context), *final(context)),
                batch_size as nat,
                stride as nat,
                capacity as nat,
                t,
            ) && inflight_outcome(
                (*old(context), *final(context)),
                batch_size as nat,
                stride as nat,
                capacity as nat,
                t,
                r,
            ) && copies_kept(t.calls, final(held)@),
{
    let mut addresses: Vec<Address> = vec![[0u8; 20]; batch_size];
    let batch: u64 = batch_size as u64;
    let mut completed: u64 = 0;
    let start = context.ties.now();
    let mut clock = ReportClock { at: start, count: 0 };
    let flag: &AtomicBool = context.ties.stop_flag();
    let mut found: Option<HitRecord> = None;
    let ghost mut t = nothing_done();
    proof {
        assert(held@ =~= Seq::empty());
        lemma_nothing_called(new_reads((*old(context), *context)), t.source, capacity as nat);
        lemma_nothing_done(
            *backend,
            *source,
            *progress,
            (*old(context), *context),
            start,
            batch_size as nat,
            stride as nat,
            capacity as nat,
        );
    }
    while found.is_none()
        invariant
            batch_size_allowed(batch_size as nat),
            capacity > 1,
            batch == batch_size,
            addresses@.len() == batch_size,
            flag == old(context).flag(),
            call_ensures(std::time::Instant::now, (), start),
            context.times().len() > 0,
            clock.at == context.times().last().0,
            new_times((*old(context), *context))[0].0 == start,
            handed_keys(t.source).len() == started(t.calls).len(),
            unraised(new_reads((*old(context), *context))) == asked(t.source),
            ran(
                (*old(backend), *backend),
                (*old(source), *source),
                (*old(progress), *progress),
                (*old(context), *context),
                batch_size as nat,
                stride as nat,
                capacity as nat,
                t,
            ),
            all_out(t.calls, held@),
            copies_kept(t.calls, held@),
            t.calls.len() > 0 ==> t.calls.last().result() is Ok,
            none_derived(t.calls),
            kept_full(
                t.calls,
                new_reads((*old(context), *context)),
                t.source,
                capacity as nat,
                (if found is None {
                    t.judged + 1
                } else {
                    t.judged
                }),
            ),
            t.counted == ended(t.calls).len(),
            t.offered == t.judged,
            found is None ==> inflight_ready(
                (*old(context), *context),
                batch_size as nat,
                t,
                completed,
                clock.count,
                held@,
            ),
            found matches Some(hit) ==> measured(&start, hit.elapsed) && t.judged == ended(
                t.calls,
            ).len() && t.judged >= 1
                && context.exchanges().len() == old(context).exchanges().len() + 1
                && none_matches(ended(t.calls), (t.judged - 1) as nat, *old(context).targets)
                && hit_at(
                hit,
                ended(t.calls),
                (t.judged - 1) as nat,
                stride as nat,
                batch_size as nat,
                *old(context),
            ),
        decreases u64::MAX - completed, (if found is None {
            1int
        } else {
            0int
        }),
    {
        let mut quiet: bool = false;
        while !quiet && held.len() < capacity
            invariant
                batch_size_allowed(batch_size as nat),
                capacity > 1,
                flag == old(context).flag(),
                handed_keys(t.source).len() == started(t.calls).len(),
                unraised(new_reads((*old(context), *context))) == asked(t.source),
                ran(
                    (*old(backend), *backend),
                    (*old(source), *source),
                    (*old(progress), *progress),
                    (*old(context), *context),
                    batch_size as nat,
                    stride as nat,
                    capacity as nat,
                    t,
                ),
                inflight_ready(
                    (*old(context), *context),
                    batch_size as nat,
                    t,
                    completed,
                    clock.count,
                    held@,
                ),
                copies_kept(t.calls, held@),
                context.times().len() > 0,
                clock.at == context.times().last().0,
                new_times((*old(context), *context))[0].0 == start,
                quiet ==> stop_seen(new_reads((*old(context), *context))) || (t.source.len() > 0
                    && t.source.last() == SourceCall::Next(Ok(None))),
                kept_full(
                    t.calls,
                    new_reads((*old(context), *context)),
                    t.source,
                    capacity as nat,
                    t.judged + 1,
                ),
            decreases (if quiet {
                0int
            } else {
                capacity - held@.len() + 1
            }),
        {
            let ghost before = *context;
            let told: bool = context.ties.stopped();
            proof {
                assert(new_reads((*old(context), *context)) =~= new_reads(
                    (*old(context), before),
                ).push(told));
                lemma_read_push(new_reads((*old(context), before)), told);
                assert(new_reads((*old(context), before)).is_prefix_of(
                    new_reads((*old(context), *context)),
                ));
                assert(t.source.is_prefix_of(t.source));
                lemma_kept_full_later(
                    t.calls,
                    new_reads((*old(context), before)),
                    new_reads((*old(context), *context)),
                    t.source,
                    t.source,
                    capacity as nat,
                    t.judged + 1,
                );
                assert(old(context).reads().is_prefix_of(context.reads()));
                assert(ran(
                    (*old(backend), *backend),
                    (*old(source), *source),
                    (*old(progress), *progress),
                    (*old(context), *context),
                    batch_size as nat,
                    stride as nat,
                    capacity as nat,
                    t,
                ));
            }
            if told {
                quiet = true;
            } else {
                let ghost asked = *source;
                let ghost device = *backend;
                let ghost out = held@;
                let ghost mut got: Result<Option<Seq<SecretKey>>, Error> = Ok(None);
                let ghost mut begun: Result<(), Error> = Ok(());
                let next: Result<bool, Error> = match source.next(flag) {
                    Err(e) => {
                        proof {
                            got = Err(e);
                        }
                        Err(e)
                    },
                    Ok(None) => Ok(false),
                    Ok(Some(keys)) => {
                        proof {
                            got = Ok(Some(keys@));
                        }
                        let one = begin_one(backend, batch_size, keys, held);
                        proof {
                            begun = one;
                        }
                        match one {
                            Ok(()) => Ok(true),
                            Err(e) => Err(e),
                        }
                    },
                };
                proof {
                    let call = SourceCall::Next(got);
                    let reads = new_reads((*old(context), *context));
                    lemma_source_push(*old(source), flag, t.source, asked, call, *source);
                    assert(t.source.is_prefix_of(t.source.push(call)));
                    assert(reads.is_prefix_of(reads));
                    lemma_kept_full_later(
                        t.calls,
                        reads,
                        reads,
                        t.source,
                        t.source.push(call),
                        capacity as nat,
                        t.judged + 1,
                    );
                    let earlier = t.calls;
                    if let Ok(Some(keys)) = got {
                        assert(started(t.calls) =~= handed_keys(t.source.push(call)).take(
                            started(t.calls).len() as int,
                        )) by {
                            assert(started(t.calls) =~= handed_keys(t.source).take(
                                started(t.calls).len() as int,
                            ));
                        }
                    }
                    t = SearchTrace { source: t.source.push(call), ..t };
                    assert(ran(
                        (*old(backend), device),
                        (*old(source), *source),
                        (*old(progress), *progress),
                        (*old(context), *context),
                        batch_size as nat,
                        stride as nat,
                        capacity as nat,
                        t,
                    ));
                    if let Ok(Some(keys)) = got {
                        lemma_kept_full_push(
                            t.calls,
                            BackendCall::Begin { keys, count: batch_size as nat, r: begun },
                            reads,
                            t.source,
                            capacity as nat,
                            t.judged + 1,
                        );
                        lemma_copy_held(
                            t.calls,
                            keys,
                            batch_size as nat,
                            begun,
                            out,
                            held@,
                        );
                        t = lemma_batch_begun(
                            (*old(backend), device, *backend),
                            (*old(source), *source),
                            (*old(progress), *progress),
                            (*old(context), *context),
                            batch_size as nat,
                            stride as nat,
                            capacity as nat,
                            t,
                            keys,
                            begun,
                        );
                        if begun is Ok {
                            assert forall|i: int| 0 <= i < held@.len() implies (
                            #[trigger] held@[i]).0@ == started(t.calls)[ended(t.calls).len()
                                + i] by {
                                if i < out.len() {
                                    assert(held@[i] == held@.drop_last()[i]);
                                    assert(out[i].0@ == started(earlier)[ended(earlier).len()
                                        + i]);
                                }
                            }
                        }
                    }
                }
                match next {
                    Err(e) => {
                        return Err(e);
                    },
                    Ok(false) => {
                        quiet = true;
                    },
                    Ok(true) => {
                        let ghost lent = *source;
                        let back = source.recycle(flag);
                        proof {
                            let call = SourceCall::Recycle(back);
                            let reads = new_reads((*old(context), *context));
                            lemma_source_push(*old(source), flag, t.source, lent, call, *source);
                            assert(t.source.is_prefix_of(t.source.push(call)));
                            assert(reads.is_prefix_of(reads));
                            lemma_kept_full_later(
                                t.calls,
                                reads,
                                reads,
                                t.source,
                                t.source.push(call),
                                capacity as nat,
                                t.judged + 1,
                            );
                            t = SearchTrace { source: t.source.push(call), ..t };
                            assert(ran(
                                (*old(backend), *backend),
                                (*old(source), *source),
                                (*old(progress), *progress),
                                (*old(context), *context),
                                batch_size as nat,
                                stride as nat,
                                capacity as nat,
                                t,
                            ));
                        }
                        if let Err(e) = back {
                            return Err(e);
                        }
                    },
                }
            }
        }
        let ghost waiting = held@;
        let keys: KeyBatch = match held.pop_front() {
            Some(keys) => keys,
            None => {
                return Ok(None);
            },
        };
        let ghost device = *backend;
        let done = backend.end_batch(keys.0.as_slice(), addresses.as_mut_slice());
        let ghost full = Batch { keys: keys.0@, addresses: addresses@ };
        let ghost earlier = t.calls;
        proof {
            law_batches_end_in_order(t.calls, batch_size as nat, capacity as nat);
            let reads = new_reads((*old(context), *context));
            if waiting.len() < capacity {
                assert(reads.take(reads.len() as int) =~= reads);
                assert(t.source.take(t.source.len() as int) =~= t.source);
                assert(nothing_to_begin(reads, t.source, started(t.calls).len()));
            }
            lemma_kept_full_so_far(
                t.calls,
                reads,
                t.source,
                capacity as nat,
                t.judged + 1,
                t.judged + 2,
            );
            lemma_kept_full_push(
                t.calls,
                BackendCall::End { keys: full.keys, addresses: full.addresses, r: done },
                reads,
                t.source,
                capacity as nat,
                t.judged + 2,
            );
            assert(waiting[0].0@ == started(t.calls)[ended(t.calls).len() as int]);
            assert(backend_step(
                device,
                BackendCall::End { keys: full.keys, addresses: full.addresses, r: done },
                *backend,
            ));
            lemma_copy_ended(
                t.calls,
                BackendCall::End { keys: full.keys, addresses: full.addresses, r: done },
                waiting,
            );
            t = lemma_batch_ended(
                (*old(backend), device, *backend),
                (*old(source), *source),
                (*old(progress), *progress),
                (*old(context), *context),
                batch_size as nat,
                stride as nat,
                capacity as nat,
                t,
                full,
                done,
            );
            lemma_kept_full_before(t.calls, reads, t.source, capacity as nat, t.judged + 1);
            assert forall|i: int| 0 <= i < held@.len() implies (#[trigger] held@[i]).0@ == started(
                earlier,
            )[ended(earlier).len() + 1 + i] by {
                assert(held@[i] == waiting[i + 1]);
            }
            assert((t.judged + 1) * batch_size == t.judged * batch_size + batch_size)
                by (nonlinear_arith);
        }
        if let Err(e) = done {
            put_away(keys);
            proof {
                lemma_copy_retired(t.calls, waiting, held@);
            }
            return Err(e);
        }
        let base: u64 = completed;
        completed = match completed.checked_add(batch) {
            Some(sum) => sum,
            None => {
                put_away(keys);
                proof {
                    lemma_copy_retired(t.calls, waiting, held@);
                }
                return Err(Error::AttemptOverflow);
            },
        };
        context.total.record(batch);
        proof {
            t = SearchTrace { counted: t.counted + 1, ..t };
        }
        let ghost unjudged = *context;
        let verdict = judge_batch::<B>(
            keys.0.as_slice(),
            stride,
            addresses.as_slice(),
            base,
            context,
        );
        put_away(keys);
        let ghost verdict_index = hit_index(verdict);
        proof {
            lemma_copy_retired(t.calls, waiting, held@);
            lemma_offer_made(
                (*old(context), unjudged, *context),
                ended(t.calls),
                t.judged,
                stride as nat,
                batch_size as nat,
                base,
                verdict_index,
            );
        }
        let hit: Option<BatchHit> = match verdict {
            Ok(hit) => hit,
            Err(e) => {
                proof {
                    let refused = SearchTrace { offered: t.offered + 1, ..t };
                    let fault = fault_of(full, stride as nat, *old(context).targets);
                    if !(offers_fit(
                        *old(context),
                        *context,
                        ended(t.calls),
                        t.judged,
                        stride as nat,
                        batch_size as nat,
                    ) && fault == Some(e)) {
                        t = refused;
                    }
                    assert(ran(
                        (*old(backend), *backend),
                        (*old(source), *source),
                        (*old(progress), *progress),
                        (*old(context), *context),
                        batch_size as nat,
                        stride as nat,
                        capacity as nat,
                        t,
                    ));
                }
                return Err(e);
            },
        };
        let ghost judged_then = *context;
        let ghost told_of = *progress;
        let ghost count = clock.count;
        clock.tick(completed, &addresses[batch_size - 1], context, progress);
        proof {
            assert(new_times((*old(context), *context))[0] == new_times(
                (*old(context), judged_then),
            )[0]) by {
                if context.times() != judged_then.times() {
                    assert(context.times().drop_last() == judged_then.times());
                }
            }
            let reports = lemma_batch_judged(
                (*old(progress), told_of, *progress),
                (*old(context), judged_then, *context),
                (count, clock.count),
                t.reports,
                ended(t.calls),
                t.judged,
                batch_size as nat,
                base,
            );
            t = SearchTrace { offered: t.offered + 1, judged: t.judged + 1, reports, ..t };
            assert(ran(
                (*old(backend), *backend),
                (*old(source), *source),
                (*old(progress), *progress),
                (*old(context), *context),
                batch_size as nat,
                stride as nat,
                capacity as nat,
                t,
            ));
        }
        if let Some(hit) = hit {
            let ghost before = *context;
            context.ties.stop_first();
            let tries: u64 = base + hit.index as u64 + 1;
            let record = hit_record(&hit, &addresses[hit.index], tries, &start, &*context);
            proof {
                lemma_kept_full_before(
                    t.calls,
                    new_reads((*old(context), *context)),
                    t.source,
                    capacity as nat,
                    t.judged,
                );
                assert(old(context).exchanges().is_prefix_of(context.exchanges()));
                assert(ran(
                    (*old(backend), *backend),
                    (*old(source), *source),
                    (*old(progress), *progress),
                    (*old(context), *context),
                    batch_size as nat,
                    stride as nat,
                    capacity as nat,
                    t,
                ));
            }
            found = Some(record);
        } else {
            assert(none_matches(ended(t.calls), t.judged, *old(context).targets));
        }
    }
    while held.len() > 0
        invariant
            batch_size_allowed(batch_size as nat),
            batch == batch_size,
            addresses@.len() == batch_size,
            ran(
                (*old(backend), *backend),
                (*old(source), *source),
                (*old(progress), *progress),
                (*old(context), *context),
                batch_size as nat,
                stride as nat,
                capacity as nat,
                t,
            ),
            all_out(t.calls, held@),
            copies_kept(t.calls, held@),
            t.judged <= ended(t.calls).len(),
            kept_full(
                t.calls,
                new_reads((*old(context), *context)),
                t.source,
                capacity as nat,
                t.judged,
            ),
            unraised(new_reads((*old(context), *context))) == asked(t.source),
            t.calls.len() > 0 ==> t.calls.last().result() is Ok,
            none_derived(t.calls),
            t.counted == ended(t.calls).len(),
            t.offered == t.judged,
            t.judged >= 1,
            context.exchanges().len() == old(context).exchanges().len() + 1,
            none_matches(ended(t.calls), (t.judged - 1) as nat, *old(context).targets),
            found is Some,
            new_times((*old(context), *context))[0].0 == start,
            measured(&start, found->0.elapsed),
            hit_at(
                found->0,
                ended(t.calls),
                (t.judged - 1) as nat,
                stride as nat,
                batch_size as nat,
                *old(context),
            ),
        decreases held@.len(),
    {
        let ghost waiting = held@;
        if let Some(keys) = held.pop_front() {
            let ghost device = *backend;
            let done = backend.end_batch(keys.0.as_slice(), addresses.as_mut_slice());
            let ghost full = Batch { keys: keys.0@, addresses: addresses@ };
            let ghost earlier = t.calls;
            proof {
                lemma_kept_full_push(
                    t.calls,
                    BackendCall::End { keys: full.keys, addresses: full.addresses, r: done },
                    new_reads((*old(context), *context)),
                    t.source,
                    capacity as nat,
                    t.judged,
                );
                lemma_copy_ended(
                    t.calls,
                    BackendCall::End { keys: full.keys, addresses: full.addresses, r: done },
                    waiting,
                );
                assert(waiting[0].0@ == started(t.calls)[ended(t.calls).len() as int]);
                assert(backend_step(
                    device,
                    BackendCall::End { keys: full.keys, addresses: full.addresses, r: done },
                    *backend,
                ));
                t = lemma_batch_ended(
                    (*old(backend), device, *backend),
                    (*old(source), *source),
                    (*old(progress), *progress),
                    (*old(context), *context),
                    batch_size as nat,
                    stride as nat,
                    capacity as nat,
                    t,
                    full,
                    done,
                );
                assert forall|i: int| 0 <= i < held@.len() implies (#[trigger] held@[i]).0@
                    == started(earlier)[ended(earlier).len() + 1 + i] by {
                    assert(held@[i] == waiting[i + 1]);
                }
                assert((t.counted + 1) * batch_size == t.counted * batch_size + batch_size)
                    by (nonlinear_arith);
            }
            put_away(keys);
            proof {
                lemma_copy_retired(t.calls, waiting, held@);
            }
            if let Err(e) = done {
                return Err(e);
            }
            context.total.record(batch);
            proof {
                t = SearchTrace { counted: t.counted + 1, ..t };
                assert(ran(
                    (*old(backend), *backend),
                    (*old(source), *source),
                    (*old(progress), *progress),
                    (*old(context), *context),
                    batch_size as nat,
                    stride as nat,
                    capacity as nat,
                    t,
                ));
            }
        }
    }
    Ok(found)
}

/// Retires every batch of which the search kept the keys.
fn put_all_away(held: &mut VecDeque<KeyBatch>)
    ensures
        final(held)@.len() == 0,
        forall|i: int| 0 <= i < old(held)@.len() ==> retired((#[trigger] old(held)@[i]).0@),
{
    let ghost all = held@;
    while held.len() > 0
        invariant
            held@.len() <= all.len(),
            held@ == all.skip(all.len() - held@.len()),
            forall|i: int| 0 <= i < all.len() - held@.len() ==> retired((#[trigger] all[i]).0@),
        decreases held@.len(),
    {
        let ghost at = all.len() - held@.len();
        if let Some(keys) = held.pop_front() {
            assert(keys == all[at]);
            assert(held@ =~= all.skip(at + 1));
            put_away(keys);
        }
    }
}

/// Searches with the batches of `source`. A backend that can hold several
/// batches is kept full. However the search ends, every attempt has reached
/// the shared counter and every worker was told to stop.
pub fn run_with_source<B: AddressBackend, S: KeySource, P: ProgressSink>(
    backend: &mut B,
    batch_size: usize,
    context: &mut WorkerContext<'_>,
    progress: &mut P,
    source: &mut S,
) -> (r: Result<Option<HitRecord>, Error>)
    ensures
        flag_raised(old(context).flag()),
        if !batch_size_allowed(batch_size as nat) {
            r == Err::<Option<HitRecord>, Error>(Error::InvalidBatchSize) && *final(backend)
                == *old(backend) && *final(context) == *old(context) && *final(progress) == *old(
                progress,
            ) && *final(source) == *old(source)
        } else {
            &&& final(context).total.pending() == 0
            &&& all_added(final(context).total.global(), final(context).total.lumps())
            &&& exists|stride: usize, capacity: usize, t: SearchTrace|
                call_ensures(B::increment_stride, (&*old(backend),), stride) && call_ensures(
                    B::inflight_capacity,
                    (&*old(backend),),
                    capacity,
                ) && #[trigger] ran(
                    (*old(backend), *final(backend)),
                    (*old(source), *final(source)),
                    (*old(progress), *final(progress)),
                    (*old(context), *final(context)),
                    batch_size as nat,
                    stride as nat,
                    capacity as nat,
                    t,
                ) && search_outcome(
                    (*old(context), *final(context)),
                    batch_size as nat,
                    stride as nat,
                    capacity as nat,
                    t,
                    r,
                )
        },
{
    if batch_size < 1 || batch_size > MAX_GPU_BATCH_SIZE as usize {
        stop_all(context.ties.stop_flag());
        return Err(Error::InvalidBatchSize);
    }
    let stride: usize = backend.increment_stride();
    let capacity: usize = backend.inflight_capacity();
    let ghost mut kept: Seq<KeyBatch> = Seq::empty();
    let r = if capacity > 1 {
        let mut held: VecDeque<KeyBatch> = VecDeque::new();
        let found = search_inflight(
            backend,
            batch_size,
            stride,
            capacity,
            context,
            progress,
            source,
            &mut held,
        );
        proof {
            kept = held@;
        }
        put_all_away(&mut held);
        found
    } else {
        search_batches(backend, batch_size, stride, capacity, context, progress, source)
    };
    let ghost before = *context;
    let ghost t = choose|t: SearchTrace| #[trigger]
        ran(
            (*old(backend), *backend),
            (*old(source), *source),
            (*old(progress), *progress),
            (*old(context), before),
            batch_size as nat,
            stride as nat,
            capacity as nat,
            t,
        ) && if capacity > 1 {
            inflight_outcome(
                (*old(context), before),
                batch_size as nat,
                stride as nat,
                capacity as nat,
                t,
                r,
            ) && copies_kept(t.calls, kept)
        } else {
            plain_outcome((*old(context), before), batch_size as nat, stride as nat, t, r)
        };
    assert(capacity > 1 ==> copies_retired(t.calls)) by {
        reveal(copies_kept);
    }
    context.total.flush();
    stop_all(context.ties.stop_flag());
    proof {
        assert(ran(
            (*old(backend), *backend),
            (*old(source), *source),
            (*old(progress), *progress),
            (*old(context), *context),
            batch_size as nat,
            stride as nat,
            capacity as nat,
            t,
        ));
    }
    r
}

/// What a source hands out that draws on the searching thread are accepted draws
/// of its generator.
proof fn lemma_handed_are_draws<'a, R: KeyRng>(
    before: SequentialSource<'a, R>,
    stop: &AtomicBool,
    calls: Seq<SourceCall>,
    after: SequentialSource<'a, R>,
)
    requires
        source_ran(before, stop, calls, after),
    ensures
        after.stride() == before.stride(),
        descends(before.generator(), after.generator()),
        forall|b: int, i: int|
            0 <= b < handed_keys(calls).len() && 0 <= i < handed_keys(calls)[b].len() ==> is_draw(
                before.generator(),
                before.stride(),
                (#[trigger] handed_keys(calls)[b][i])@,
            ),
    decreases calls.len(),
{
    if calls.len() == 0 {
        lemma_descends_self(before.generator());
    } else {
        let earlier = calls.drop_last();
        let mid = choose|mid: SequentialSource<'a, R>|
            source_ran(before, stop, earlier, mid) && #[trigger] source_step(
                mid,
                stop,
                calls.last(),
                after,
            );
        lemma_handed_are_draws(before, stop, earlier, mid);
        let all = handed_keys(calls);
        if after != mid {
            lemma_descends_twice(before.generator(), mid.generator(), after.generator());
        }
        assert forall|b: int, i: int| 0 <= b < all.len() && 0 <= i < all[b].len() implies is_draw(
            before.generator(),
            before.stride(),
            (#[trigger] all[b][i])@,
        ) by {
            if b < handed_keys(earlier).len() {
                assert(all[b] == handed_keys(earlier)[b]);
                assert(is_draw(
                    before.generator(),
                    before.stride(),
                    handed_keys(earlier)[b][i]@,
                ));
            } else {
                let drawn = scalars(after.held());
                lemma_drew_all(mid.generator(), after.generator(), before.stride(), drawn);
                assert(drawn[i] == all[b][i]@);
                lemma_draw_of_ancestor(
                    before.generator(),
                    mid.generator(),
                    before.stride(),
                    all[b][i]@,
                );
            }
        }
    }
}

/// A hit among batches of draws has its key from one of them.
proof fn lemma_hit_is_drawn<'a, R: KeyRng>(
    hit: HitRecord,
    rng: R,
    worker: WorkerContext<'a>,
    handed: Seq<Seq<SecretKey>>,
    t: SearchTrace,
    drawn: nat,
    stride: nat,
    capacity: nat,
    batch_size: nat,
)
    requires
        batch_size > 0,
        orderly(t.calls, batch_size, capacity),
        started(t.calls).is_prefix_of(handed),
        t.judged >= 1,
        hit_at(hit, ended(t.calls), (t.judged - 1) as nat, stride, batch_size, worker),
        fault_of(ended(t.calls)[t.judged - 1], stride, *worker.targets) is None,
        forall|b: int, i: int|
            0 <= b < handed.len() && 0 <= i < handed[b].len() ==> is_draw(
                rng,
                drawn,
                (#[trigger] handed[b][i])@,
            ),
    ensures
        hit.drawn_from(rng, drawn, stride),
{
    law_batches_end_in_order(t.calls, batch_size, capacity);
    let b = t.judged - 1;
    let batch = ended(t.calls)[b];
    let index = hit_of(batch.addresses, *worker.targets)->0 as nat;
    assert(batch.keys == started(t.calls)[b]);
    assert(handed[b] == started(t.calls)[b]);
    let start = handed[b][(index / chain_len(stride)) as int]@;
    let offset = index % chain_len(stride);
    assert(is_draw(rng, drawn, start));
    assert(hit.private_key@ == key_text(start + offset));
}

/// Whether a search with keys drawn on the searching thread can go from one
/// state to the other and give `r`: there is a source that draws from the
/// generator in chains of `drawn` scalars, and a search with the batches of
/// that source, which is retired in the end.
pub open spec fn drawn_search<'a, 'b, B: AddressBackend, P: ProgressSink, R: KeyRng>(
    backend: (B, B),
    progress: (P, P),
    worker: (WorkerContext<'a>, WorkerContext<'a>),
    source: (SequentialSource<'b, R>, SequentialSource<'b, R>),
    rng: R,
    batch_size: nat,
    drawn: usize,
    stride: usize,
    capacity: usize,
    t: SearchTrace,
    r: Result<Option<HitRecord>, Error>,
) -> bool {
    &&& call_ensures(B::increment_stride, (&backend.0,), drawn)
    &&& call_ensures(B::increment_stride, (&backend.0,), stride)
    &&& call_ensures(B::inflight_capacity, (&backend.0,), capacity)
    &&& source.0.generator() == rng
    &&& source.0.held().len() == 0
    &&& source.0.stride() == drawn
    &&& source.0.chains() == chains_for(batch_size, drawn as nat)
    &&& ran(
        backend,
        source,
        progress,
        worker,
        batch_size,
        stride as nat,
        capacity as nat,
        t,
    )
    &&& search_outcome(worker, batch_size, stride as nat, capacity as nat, t, r)
    &&& call_ensures(SequentialSource::<'b, R>::retire, (source.1,), ())
    &&& r matches Ok(Some(hit)) ==> hit.drawn_from(rng, drawn as nat, stride as nat)
}

/// Searches with keys drawn from `rng` on this thread. The key of a hit is an
/// accepted draw of the generator, or less than a chain behind one. What the
/// caller finds the generator to be afterwards is left unsaid.
pub fn run_with_rng<B: AddressBackend, P: ProgressSink, R: KeyRng>(
    backend: &mut B,
    batch_size: usize,
    context: &mut WorkerContext<'_>,
    progress: &mut P,
    rng: &mut R,
) -> (r: Result<Option<HitRecord>, Error>)
    ensures
        flag_raised(old(context).flag()),
        if !batch_size_allowed(batch_size as nat) {
            r == Err::<Option<HitRecord>, Error>(Error::InvalidBatchSize) && *final(backend)
                == *old(backend) && *final(context) == *old(context) && *final(progress) == *old(
                progress,
            )
        } else {
            &&& final(context).total.pending() == 0
            &&& all_added(final(context).total.global(), final(context).total.lumps())
            &&& exists|
                source: (SequentialSource<'_, R>, SequentialSource<'_, R>),
                drawn: usize,
                stride: usize,
                capacity: usize,
                t: SearchTrace,
            | #[trigger]
                drawn_search(
                    (*old(backend), *final(backend)),
                    (*old(progress), *final(progress)),
                    (*old(context), *final(context)),
                    source,
                    *old(rng),
                    batch_size as nat,
                    drawn,
                    stride,
                    capacity,
                    t,
                    r,
                )
        },
{
    let drawn: usize = backend.increment_stride();
    let mut source = SequentialSource::new(rng, batch_size, drawn);
    let ghost first = source;
    let r = run_with_source(backend, batch_size, context, progress, &mut source);
    let ghost last = source;
    source.retire();
    proof {
        if batch_size_allowed(batch_size as nat) {
            let (stride, capacity, t) = choose|stride: usize, capacity: usize, t: SearchTrace|
                call_ensures(B::increment_stride, (&*old(backend),), stride) && call_ensures(
                    B::inflight_capacity,
                    (&*old(backend),),
                    capacity,
                ) && #[trigger] ran(
                    (*old(backend), *backend),
                    (first, last),
                    (*old(progress), *progress),
                    (*old(context), *context),
                    batch_size as nat,
                    stride as nat,
                    capacity as nat,
                    t,
                ) && search_outcome(
                    (*old(context), *context),
                    batch_size as nat,
                    stride as nat,
                    capacity as nat,
                    t,
                    r,
                );
            if r is Ok && r->Ok_0 is Some {
                lemma_handed_are_draws(first, old(context).flag(), t.source, last);
                lemma_hit_is_drawn(
                    r->Ok_0->Some_0,
                    *old(rng),
                    *old(context),
                    handed_keys(t.source),
                    t,
                    drawn as nat,
                    stride as nat,
                    capacity as nat,
                    batch_size as nat,
                );
            }
            assert(drawn_search(
                (*old(backend), *backend),
                (*old(progress), *progress),
                (*old(context), *context),
                (first, last),
                *old(rng),
                batch_size as nat,
                drawn,
                stride,
                capacity,
                t,
                r,
            ));
        }
    }
    r
}

/// Searches with keys from a generator that the operating system seeds.
pub fn run_worker<B: AddressBackend, P: ProgressSink>(
    backend: &mut B,
    batch_size: usize,
    context: &mut WorkerContext<'_>,
    progress: &mut P,
) -> (r: Result<Option<HitRecord>, Error>)
    ensures
        flag_raised(old(context).flag()),
        exists|seeded: Result<SeededRng, Error>| #[trigger]
            call_ensures(seed_rng, (), seeded) && match seeded {
                Err(e) => r == Err::<Option<HitRecord>, Error>(e) && *final(backend) == *old(
                    backend,
                ) && *final(context) == *old(context) && *final(progress) == *old(progress),
                Ok(rng) => if !batch_size_allowed(batch_size as nat) {
                    r == Err::<Option<HitRecord>, Error>(Error::InvalidBatchSize)
                        && *final(backend) == *old(backend) && *final(context) == *old(context)
                        && *final(progress) == *old(progress)
                } else {
                    &&& final(context).total.pending() == 0
                    &&& all_added(final(context).total.global(), final(context).total.lumps())
                    &&& exists|
                        source: (SequentialSource<'_, SeededRng>, SequentialSource<'_, SeededRng>),
                        drawn: usize,
                        stride: usize,
                        capacity: usize,
                        t: SearchTrace,
                    | #[trigger]
                        drawn_search(
                            (*old(backend), *final(backend)),
                            (*old(progress), *final(progress)),
                            (*old(context), *final(context)),
                            source,
                            rng,
                            batch_size as nat,
                            drawn,
                            stride,
                            capacity,
                            t,
                            r,
                        )
                },
            },
{
    let seeded = seed_rng();
    assert(call_ensures(seed_rng, (), seeded));
    let mut rng: SeededRng = match seeded {
        Ok(rng) => rng,
        Err(e) => {
            stop_all(context.ties.stop_flag());
            return Err(e);
        },
    };
    run_with_rng(backend, batch_size, context, progress, &mut rng)
}

}
