//! A worker's ties to the others: the stop flag, the shared counter, the closest
//! candidate and the main thread. What a worker does to them is kept in mind.
use crate::best::BestState;
use crate::counter::TryCounter;
use crate::error::Error;
use crate::scalar::SecretKey;
use crate::target::Targets;
use std::sync::atomic::{AtomicBool, AtomicU64, Ordering};
use vstd::prelude::*;

verus! {

use crate::address::address_of;
use crate::best::{proposal, CandidateModel};
use crate::hex::{all_nibbles, byte_nibbles};

/// `crossbeam::channel::Sender`, by which workers wake the main thread.
#[verifier::external_type_specification]
#[verifier::external_body]
#[verifier::reject_recursive_types(T)]
pub struct ExSender<T>(crossbeam::channel::Sender<T>);

/// Whether a read of the stop flag can give `value`.
pub open spec fn flag_reads(stop: &AtomicBool, value: bool) -> bool {
    call_ensures(AtomicBool::load, (stop, Ordering::Relaxed), value)
}

/// Whether the write that raises the stop flag has returned.
pub open spec fn flag_raised(stop: &AtomicBool) -> bool {
    call_ensures(AtomicBool::store, (stop, true, Ordering::Relaxed), ())
}

/// Whether raising the stop flag and reading what it was before, in one step,
/// can give `before`.
pub open spec fn flag_exchanged(stop: &AtomicBool, before: bool) -> bool {
    call_ensures(AtomicBool::swap, (stop, true, Ordering::SeqCst), before)
}

/// Whether the search was told to stop.
pub(crate) fn stopped(stop: &AtomicBool) -> (r: bool)
    ensures
        flag_reads(stop, r),
{
    stop.load(Ordering::Relaxed)
}

/// Tells every worker to stop.
pub(crate) fn stop_all(stop: &AtomicBool)
    ensures
        flag_raised(stop),
{
    stop.store(true, Ordering::Relaxed)
}

/// Tells every worker to stop, and says whether one had done so before.
fn stop_first(stop: &AtomicBool) -> (r: bool)
    ensures
        flag_exchanged(stop, r),
{
    stop.swap(true, Ordering::SeqCst)
}

/// The queue by which a worker wakes the main thread, with the number of
/// messages that the worker sent.
pub struct Updates<'a> {
    sender: &'a crossbeam::channel::Sender<()>,
    sent: Ghost<nat>,
}

impl<'a> Updates<'a> {
    /// The queue.
    pub closed spec fn sender(&self) -> &'a crossbeam::channel::Sender<()> {
        self.sender
    }

    /// How many messages the worker sent.
    pub closed spec fn sent(&self) -> nat {
        self.sent@
    }

    /// A queue to which nothing was sent.
    pub fn new(sender: &'a crossbeam::channel::Sender<()>) -> (r: Updates<'a>)
        ensures
            r.sender() == sender,
            r.sent() == 0,
    {
        Updates { sender, sent: Ghost(0) }
    }
}

/// The stop flag, with everything that its reads gave.
pub struct StopWatch<'a> {
    stop: &'a AtomicBool,
    reads: Ghost<Seq<bool>>,
}

impl<'a> StopWatch<'a> {
    /// The stop flag.
    pub closed spec fn flag(&self) -> &'a AtomicBool {
        self.stop
    }

    /// What the reads gave so far, in order.
    pub closed spec fn reads(&self) -> Seq<bool> {
        self.reads@
    }

    /// A watch that has not looked yet.
    pub fn new(stop: &'a AtomicBool) -> (r: StopWatch<'a>)
        ensures
            r.flag() == stop,
            r.reads().len() == 0,
    {
        StopWatch { stop, reads: Ghost(Seq::empty()) }
    }

    /// Whether the search was told to stop.
    pub fn stopped(&mut self) -> (r: bool)
        ensures
            flag_reads(old(self).flag(), r),
            final(self).flag() == old(self).flag(),
            final(self).reads() == old(self).reads().push(r),
    {
        let r: bool = stopped(self.stop);
        self.reads = Ghost(self.reads@.push(r));
        r
    }
}

/// `crossbeam::channel::Sender::try_send` of the empty message. It counts as
/// sent whether or not there was room for it: one that waits already is enough.
#[verifier::external_body]
fn notify(updates: &mut Updates<'_>)
    ensures
        final(updates).sender() == old(updates).sender(),
        final(updates).sent() == old(updates).sent() + 1,
{
    let _ = updates.sender.try_send(());
}

/// A match that a worker offered to the shared state, and what came of it.
pub struct Offer {
    pub new: CandidateModel,
    pub outcome: Result<bool, Error>,
}

/// How many of these offers were taken.
pub open spec fn taken(offers: Seq<Offer>) -> nat
    decreases offers.len(),
{
    if offers.len() == 0 {
        0
    } else {
        taken(offers.drop_last()) + if offers.last().outcome == Ok::<bool, Error>(true) {
            1nat
        } else {
            0nat
        }
    }
}

/// A worker's ties to the others, with everything that it did to them.
pub struct Ties<'a> {
    stop: &'a AtomicBool,
    best: &'a BestState,
    updates: Updates<'a>,
    reads: Ghost<Seq<bool>>,
    exchanges: Ghost<Seq<bool>>,
    offers: Ghost<Seq<Offer>>,
    times: Ghost<Seq<(std::time::Instant, nat)>>,
}

impl<'a> Ties<'a> {
    /// The stop flag.
    pub closed spec fn flag(&self) -> &'a AtomicBool {
        self.stop
    }

    /// The closest candidate of all workers.
    pub closed spec fn board(&self) -> &'a BestState {
        self.best
    }

    /// The queue to the main thread.
    pub closed spec fn waker(&self) -> &'a crossbeam::channel::Sender<()> {
        self.updates.sender()
    }

    /// How often the worker woke the main thread.
    pub closed spec fn wakes(&self) -> nat {
        self.updates.sent()
    }

    /// What the worker's reads of the stop flag gave, in order.
    pub closed spec fn reads(&self) -> Seq<bool> {
        self.reads@
    }

    /// What the stop flag was whenever the worker raised it on a hit, in order.
    pub closed spec fn exchanges(&self) -> Seq<bool> {
        self.exchanges@
    }

    /// The matches that the worker offered to the shared state, in order.
    pub closed spec fn offers(&self) -> Seq<Offer> {
        self.offers@
    }

    /// What the worker's readings of the clock gave, in order, each with how often
    /// the worker had read the stop flag before it.
    pub closed spec fn times(&self) -> Seq<(std::time::Instant, nat)> {
        self.times@
    }

    /// Whether these are ties to the same flag, state and queue.
    pub open spec fn same(&self, other: &Self) -> bool {
        &&& self.flag() == other.flag()
        &&& self.board() == other.board()
        &&& self.waker() == other.waker()
    }

    /// The stop flag itself, for whoever else has to watch it.
    pub fn stop_flag(&self) -> (r: &'a AtomicBool)
        ensures
            r == self.flag(),
    {
        self.stop
    }

    /// Whether the search was told to stop.
    pub fn stopped(&mut self) -> (r: bool)
        ensures
            flag_reads(old(self).flag(), r),
            final(self).same(&*old(self)),
            final(self).reads() == old(self).reads().push(r),
            final(self).times() == old(self).times(),
            final(self).exchanges() == old(self).exchanges(),
            final(self).offers() == old(self).offers(),
            final(self).wakes() == old(self).wakes(),
    {
        let r: bool = stopped(self.stop);
        self.reads = Ghost(self.reads@.push(r));
        r
    }

    /// Reads the clock.
    pub fn now(&mut self) -> (r: std::time::Instant)
        ensures
            call_ensures(std::time::Instant::now, (), r),
            final(self).same(&*old(self)),
            final(self).reads() == old(self).reads(),
            final(self).times() == old(self).times().push((r, old(self).reads().len())),
            final(self).exchanges() == old(self).exchanges(),
            final(self).offers() == old(self).offers(),
            final(self).wakes() == old(self).wakes(),
    {
        let r: std::time::Instant = std::time::Instant::now();
        self.times = Ghost(self.times@.push((r, self.reads@.len())));
        r
    }

    /// Tells every worker to stop, and says whether one had done so before.
    pub fn stop_first(&mut self) -> (r: bool)
        ensures
            flag_exchanged(old(self).flag(), r),
            final(self).same(&*old(self)),
            final(self).reads() == old(self).reads(),
            final(self).times() == old(self).times(),
            final(self).exchanges() == old(self).exchanges().push(r),
            final(self).offers() == old(self).offers(),
            final(self).wakes() == old(self).wakes(),
    {
        let r: bool = stop_first(self.stop);
        self.exchanges = Ghost(self.exchanges@.push(r));
        r
    }

    /// Offers a match to the shared state, and wakes the main thread if it was
    /// taken. `verify` is asked only about improvements.
    pub fn offer<F: FnOnce() -> Result<(), Error>>(
        &mut self,
        nibbles: &[u8; 40],
        key: &SecretKey,
        tries: u64,
        prefix: usize,
        suffix: usize,
        verify: F,
    ) -> (r: Result<(), Error>)
        requires
            prefix + suffix <= usize::MAX,
            all_nibbles(nibbles@),
            verify.requires(()),
            old(self).board().genuine_only() ==> forall|answer: Result<(), Error>| #[trigger]
                verify.ensures((), answer) && answer is Ok ==> nibbles@ == byte_nibbles(
                    address_of(key@),
                ),
        ensures
            final(self).same(&*old(self)),
            final(self).reads() == old(self).reads(),
            final(self).times() == old(self).times(),
            final(self).exchanges() == old(self).exchanges(),
            final(self).offers().len() == old(self).offers().len() + 1,
            final(self).offers().drop_last() == old(self).offers(),
            ({
                let new = proposal(nibbles@, key@, tries, prefix, suffix);
                let made = final(self).offers().last();
                &&& made.new == new
                &&& final(self).wakes() == old(self).wakes() + if made.outcome == Ok::<bool, Error>(
                    true,
                ) {
                    1nat
                } else {
                    0nat
                }
                &&& r == (match made.outcome {
                    Ok(_) => Ok::<(), Error>(()),
                    Err(e) => Err(e),
                })
                &&& (made.outcome == Ok::<bool, Error>(false) && old(self).board().turned_away(new))
                    || exists|answer: Result<(), Error>| #[trigger]
                    verify.ensures((), answer) && old(self).board().settled(
                        new,
                        answer,
                        made.outcome,
                    )
            }),
    {
        let outcome: Result<bool, Error> = self.best.consider_checked(
            nibbles,
            key,
            tries,
            prefix,
            suffix,
            verify,
        );
        let ghost new = proposal(nibbles@, key@, tries, prefix, suffix);
        let ghost made = Offer { new, outcome };
        self.offers = Ghost(self.offers@.push(made));
        assert(self.offers@.drop_last() =~= old(self).offers());
        let improved: bool = outcome?;
        if improved {
            notify(&mut self.updates);
        }
        Ok(())
    }
}

/// What one worker shares with the others, and what it searches for.
pub struct WorkerContext<'a> {
    pub worker_id: usize,
    pub targets: &'a Targets,
    pub report_every: u64,
    /// The worker's attempts on their way to the shared counter.
    pub total: TryCounter<'a>,
    /// The stop flag, the closest candidate and the main thread.
    pub ties: Ties<'a>,
}

impl<'a> WorkerContext<'a> {
    /// The stop flag.
    pub open spec fn flag(&self) -> &'a AtomicBool {
        self.ties.flag()
    }

    /// The closest candidate of all workers.
    pub open spec fn board(&self) -> &'a BestState {
        self.ties.board()
    }

    /// How often the worker woke the main thread.
    pub open spec fn wakes(&self) -> nat {
        self.ties.wakes()
    }

    /// What the worker's reads of the stop flag gave, in order.
    pub open spec fn reads(&self) -> Seq<bool> {
        self.ties.reads()
    }

    /// What the stop flag was whenever the worker raised it on a hit, in order.
    pub open spec fn exchanges(&self) -> Seq<bool> {
        self.ties.exchanges()
    }

    /// The matches that the worker offered to the shared state, in order.
    pub open spec fn offers(&self) -> Seq<Offer> {
        self.ties.offers()
    }

    /// What the worker's readings of the clock gave, in order, each with how often
    /// the worker had read the stop flag before it.
    pub open spec fn times(&self) -> Seq<(std::time::Instant, nat)> {
        self.ties.times()
    }

    /// Whether this is the same worker, whatever it has done since.
    pub open spec fn same_worker(&self, other: &Self) -> bool {
        &&& self.worker_id == other.worker_id
        &&& self.targets == other.targets
        &&& self.report_every == other.report_every
        &&& self.total.global() == other.total.global()
        &&& self.ties.same(&other.ties)
    }

    /// A worker that has done nothing yet.
    pub fn new(
        worker_id: usize,
        stop: &'a AtomicBool,
        total: &'a AtomicU64,
        best: &'a BestState,
        updates: &'a crossbeam::channel::Sender<()>,
        targets: &'a Targets,
        report_every: u64,
    ) -> (r: WorkerContext<'a>)
        ensures
            r.worker_id == worker_id,
            r.targets == targets,
            r.report_every == report_every,
            r.total.global() == total,
            r.total.recorded() == 0,
            r.flag() == stop,
            r.board() == best,
            r.ties.waker() == updates,
            r.wakes() == 0,
            r.reads().len() == 0,
            r.exchanges().len() == 0,
            r.offers().len() == 0,
            r.times().len() == 0,
    {
        WorkerContext {
            worker_id,
            targets,
            report_every,
            total: TryCounter::new(total),
            ties: Ties {
                stop,
                best,
                updates: Updates::new(updates),
                reads: Ghost(Seq::empty()),
                exchanges: Ghost(Seq::empty()),
                offers: Ghost(Seq::empty()),
                times: Ghost(Seq::empty()),
            },
        }
    }
}

}
