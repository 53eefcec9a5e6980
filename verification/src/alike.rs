//! Searches that are handed the same keys and get the same answers end alike.
use vstd::prelude::*;

verus! {

use crate::address::Address;
use crate::backend::AddressBackend;
use crate::best::{answered, held_after_answers, CandidateModel};
use crate::error::Error;
use crate::hex::byte_nibbles;
use crate::matching::full_match;
use crate::outcome::{fault_of, hit_at, new_reads, ran, search_outcome, SearchTrace};
use crate::scalar::SecretKey;
use crate::search::{HitRecord, ProgressSink};
use crate::source::KeySource;
use crate::target::Targets;
use crate::trace::{
    all_derived, ended, handed_keys, hit_of, lemma_calls_push, lemma_offers_longer, none_matches,
    offers_due, orderly, started, BackendCall, Batch, SourceCall,
};
use crate::worker::{Offer, WorkerContext};

/// A search with everything that it went through.
pub struct SearchRun<'a, B, S, P> {
    pub backend: (B, B),
    pub source: (S, S),
    pub progress: (P, P),
    pub worker: (WorkerContext<'a>, WorkerContext<'a>),
    pub capacity: nat,
    pub trace: SearchTrace,
    pub r: Result<Option<HitRecord>, Error>,
}

impl<'a, B: AddressBackend, S: KeySource, P: ProgressSink> SearchRun<'a, B, S, P> {
    /// Whether a search can have run like this.
    pub open spec fn possible(self, batch_size: nat, stride: nat) -> bool {
        &&& ran(
            self.backend,
            self.source,
            self.progress,
            self.worker,
            batch_size,
            stride,
            self.capacity,
            self.trace,
        )
        &&& search_outcome(
            self.worker,
            batch_size,
            stride,
            self.capacity,
            self.trace,
            self.r,
        )
    }

    /// The offers that the worker made.
    pub open spec fn made(self) -> Seq<Offer> {
        self.worker.1.offers().skip(self.worker.0.offers().len() as int)
    }

    /// Whether nobody else offered anything to the shared state, which held `held`
    /// before the search: each offer was answered by what the earlier ones left.
    pub open spec fn alone(
        self,
        batch_size: nat,
        stride: nat,
        held: Option<CandidateModel>,
    ) -> bool {
        let due = offers_due(
            ended(self.trace.calls),
            self.trace.offered,
            stride,
            batch_size,
            *self.worker.0.targets,
        );
        forall|i: int|
            0 <= i < self.made().len() ==> (#[trigger] self.made()[i]).outcome == answered(
                held_after_answers(held, due.take(i)),
                due[i],
            )
    }

    /// Whether nothing but the search itself could end it: the stop flag was never
    /// found raised, and the source neither failed nor had nothing more to give.
    pub open spec fn undisturbed(self) -> bool {
        &&& forall|i: int|
            0 <= i < new_reads(self.worker).len() ==> !#[trigger] new_reads(self.worker)[i]
        &&& forall|i: int|
            self.worker.0.exchanges().len() <= i < self.worker.1.exchanges().len()
                ==> !#[trigger] self.worker.1.exchanges()[i]
        &&& forall|i: int|
            0 <= i < self.trace.source.len() ==> #[trigger] self.trace.source[i]
                != SourceCall::Next(Ok(None))
        &&& forall|i: int, e: Error|
            0 <= i < self.trace.source.len() ==> !(#[trigger] self.trace.source[i].failed(e))
    }

    /// Whether the search ended by itself: with a hit or with an error.
    pub open spec fn concluded(self) -> bool {
        self.r != Ok::<Option<HitRecord>, Error>(None)
    }
}

impl BackendCall {
    /// The chain starts that the call was handed.
    pub open spec fn keys(self) -> Seq<SecretKey> {
        match self {
            BackendCall::Derive { keys, .. } => keys,
            BackendCall::Begin { keys, .. } => keys,
            BackendCall::End { keys, .. } => keys,
        }
    }

    /// The addresses that the call gave.
    pub open spec fn addresses(self) -> Seq<Address> {
        match self {
            BackendCall::Derive { addresses, .. } => addresses,
            BackendCall::Begin { .. } => Seq::empty(),
            BackendCall::End { addresses, .. } => addresses,
        }
    }
}

/// Whether two backends gave the same to calls that were handed the same.
pub open spec fn calls_alike(a: Seq<BackendCall>, b: Seq<BackendCall>) -> bool {
    forall|i: int|
        0 <= i < a.len() && i < b.len() && a[i].keys() == b[i].keys() ==> (
        #[trigger] a[i]).addresses() == b[i].addresses() && a[i].result() == b[i].result()
}

/// Whether two sources handed out the same, for as long as both went on.
pub open spec fn handed_alike(a: Seq<Seq<SecretKey>>, b: Seq<Seq<SecretKey>>) -> bool {
    forall|i: int| 0 <= i < a.len() && i < b.len() ==> #[trigger] a[i] == b[i]
}

/// In a row of batches derived one after the other, each call is a batch, and all
/// but a last one that failed were finished.
proof fn lemma_derived_calls(
    calls: Seq<BackendCall>,
    batch_size: nat,
    capacity: nat,
)
    requires
        all_derived(calls),
        orderly(calls, batch_size, capacity),
    ensures
        started(calls).len() == calls.len(),
        ended(calls).len() == (if calls.len() > 0 && calls.last().result() is Err {
            calls.len() - 1
        } else {
            calls.len() as int
        }),
        forall|i: int| 0 <= i < calls.len() ==> started(calls)[i] == (#[trigger] calls[i]).keys(),
        forall|i: int|
            0 <= i < ended(calls).len() ==> (#[trigger] ended(calls)[i]) == (Batch {
                keys: calls[i].keys(),
                addresses: calls[i].addresses(),
            }) && calls[i].result() is Ok,
    decreases calls.len(),
{
    if calls.len() > 0 {
        let earlier = calls.drop_last();
        assert forall|i: int| 0 <= i < earlier.len() implies (#[trigger] earlier[i]) is Derive by {
            assert(earlier[i] == calls[i]);
        }
        lemma_derived_calls(earlier, batch_size, capacity);
        assert(earlier.push(calls.last()) =~= calls);
        lemma_calls_push(earlier, calls.last());
        assert(calls[calls.len() - 1] is Derive);
        assert forall|i: int| 0 <= i < calls.len() implies started(calls)[i] == (
        #[trigger] calls[i]).keys() by {
            if i < earlier.len() {
                assert(earlier[i] == calls[i]);
            }
        }
        assert forall|i: int| 0 <= i < ended(calls).len() implies (#[trigger] ended(calls)[i]) == (
        Batch { keys: calls[i].keys(), addresses: calls[i].addresses() }) && calls[i].result()
            is Ok by {
            if i < ended(earlier).len() {
                assert(ended(earlier)[i] == ended(calls)[i]);
                assert(earlier[i] == calls[i]);
            }
        }
    }
}

/// What is due of more batches begins with what is due of fewer.
proof fn lemma_due_grows(
    batches: Seq<Batch>,
    few: nat,
    many: nat,
    stride: nat,
    batch_size: nat,
    targets: Targets,
)
    requires
        few <= many,
    ensures
        offers_due(batches, few, stride, batch_size, targets).is_prefix_of(
            offers_due(batches, many, stride, batch_size, targets),
        ),
    decreases many,
{
    if few < many {
        lemma_due_grows(batches, few, (many - 1) as nat, stride, batch_size, targets);
    }
}

/// A search on a backend that takes one batch at a time, which is left to itself,
/// ends with a hit or with an error.
pub proof fn law_undisturbed_search_concludes<
    'a,
    A: AddressBackend,
    S: KeySource,
    P: ProgressSink,
>(x: SearchRun<'a, A, S, P>, batch_size: nat, stride: nat)
    requires
        x.capacity <= 1,
        x.possible(batch_size, stride),
        x.undisturbed(),
    ensures
        x.concluded(),
{
    let before = x.worker.0.exchanges();
    let after = x.worker.1.exchanges();
    if x.r == Ok::<Option<HitRecord>, Error>(None) {
        if after == before.push(true) {
            assert(after[before.len() as int]);
        }
        if x.trace.source.len() > 0 {
            assert(x.trace.source[x.trace.source.len() - 1] == x.trace.source.last());
        }
        let reads = new_reads(x.worker);
        if reads.len() > 0 {
            assert(!reads[reads.len() - 1]);
        }
    }
}

/// Of two searches that are handed the same and get the same answers, neither
/// ends before the other by itself.
proof fn lemma_no_earlier_end<
    'a,
    'b,
    A: AddressBackend,
    B: AddressBackend,
    S: KeySource,
    T: KeySource,
    P: ProgressSink,
    Q: ProgressSink,
>(
    x: SearchRun<'a, A, S, P>,
    y: SearchRun<'b, B, T, Q>,
    batch_size: nat,
    stride: nat,
    held: Option<CandidateModel>,
)
    requires
        batch_size > 0,
        x.capacity <= 1,
        y.capacity <= 1,
        x.possible(batch_size, stride),
        y.possible(batch_size, stride),
        x.undisturbed(),
        y.undisturbed(),
        *x.worker.0.targets == *y.worker.0.targets,
        handed_alike(handed_keys(x.trace.source), handed_keys(y.trace.source)),
        calls_alike(x.trace.calls, y.trace.calls),
        x.alone(batch_size, stride, held),
        y.alone(batch_size, stride, held),
    ensures
        x.trace.judged >= y.trace.judged,
{
    let n = x.trace.judged;
    let m = y.trace.judged;
    let a = ended(x.trace.calls);
    let b = ended(y.trace.calls);
    let targets = *x.worker.0.targets;
    law_undisturbed_search_concludes(x, batch_size, stride);
    lemma_derived_calls(x.trace.calls, batch_size, x.capacity);
    lemma_derived_calls(y.trace.calls, batch_size, y.capacity);
    lemma_same_batches(x, y, batch_size, stride);
    if n < m {
        match x.r {
            Ok(Some(hit)) => {
                let at = n - 1;
                let index = hit_of(a[at].addresses, targets)->0;
                assert(a[at] == b[at]);
                assert(full_match(byte_nibbles(b[at].addresses[index as int]@), targets));
            },
            Ok(None) => {},
            Err(e) => {
                if x.trace.calls.len() > 0 && x.trace.calls.last().result() is Err {
                    let last = x.trace.calls.len() - 1;
                    assert(last == n);
                    assert(x.trace.calls[last].keys() == handed_keys(x.trace.source)[last]);
                    assert(y.trace.calls[last].keys() == handed_keys(y.trace.source)[last]);
                    assert(ended(y.trace.calls)[last].keys == y.trace.calls[last].keys());
                } else if a.len() == x.trace.counted + 1 && a.len() * batch_size > u64::MAX {
                    assert(a.len() == n + 1);
                    assert(y.trace.counted * batch_size >= (n + 1) * batch_size)
                        by (nonlinear_arith)
                        requires
                            y.trace.counted >= n + 1,
                    ;
                } else {
                    assert(a[n as int] == b[n as int]);
                    assert(fault_of(b[n as int], stride, targets) is None);
                    assert(x.trace.offered == n + 1);
                    lemma_refused_offer(x, y, batch_size, stride, held);
                }
            },
        }
    }
}

/// Batches that both searches finished are the same.
proof fn lemma_same_batches<
    'a,
    'b,
    A: AddressBackend,
    B: AddressBackend,
    S: KeySource,
    T: KeySource,
    P: ProgressSink,
    Q: ProgressSink,
>(
    x: SearchRun<'a, A, S, P>,
    y: SearchRun<'b, B, T, Q>,
    batch_size: nat,
    stride: nat,
)
    requires
        x.capacity <= 1,
        y.capacity <= 1,
        x.possible(batch_size, stride),
        y.possible(batch_size, stride),
        handed_alike(handed_keys(x.trace.source), handed_keys(y.trace.source)),
        calls_alike(x.trace.calls, y.trace.calls),
    ensures
        forall|i: int|
            0 <= i < ended(x.trace.calls).len() && i < ended(y.trace.calls).len()
                ==> #[trigger] ended(x.trace.calls)[i] == ended(y.trace.calls)[i],
{
    lemma_derived_calls(x.trace.calls, batch_size, x.capacity);
    lemma_derived_calls(y.trace.calls, batch_size, y.capacity);
    assert forall|i: int|
        0 <= i < ended(x.trace.calls).len() && i < ended(y.trace.calls).len() implies (
    #[trigger] ended(x.trace.calls)[i]) == ended(y.trace.calls)[i] by {
        let p = x.trace.calls[i];
        let q = y.trace.calls[i];
        assert(p.keys() == handed_keys(x.trace.source)[i]);
        assert(q.keys() == handed_keys(y.trace.source)[i]);
        assert(p.keys() == q.keys());
        assert(ended(y.trace.calls)[i].addresses == q.addresses());
    }
}

/// An offer that one search saw refused was not let pass in the other.
proof fn lemma_refused_offer<
    'a,
    'b,
    A: AddressBackend,
    B: AddressBackend,
    S: KeySource,
    T: KeySource,
    P: ProgressSink,
    Q: ProgressSink,
>(
    x: SearchRun<'a, A, S, P>,
    y: SearchRun<'b, B, T, Q>,
    batch_size: nat,
    stride: nat,
    held: Option<CandidateModel>,
)
    requires
        x.possible(batch_size, stride),
        y.possible(batch_size, stride),
        *x.worker.0.targets == *y.worker.0.targets,
        x.alone(batch_size, stride, held),
        y.alone(batch_size, stride, held),
        x.trace.offered == x.trace.judged + 1,
        ended(x.trace.calls).len() == x.trace.judged + 1,
        x.worker.1.offers().len() > x.worker.0.offers().len(),
        x.worker.1.offers().last().outcome is Err,
        forall|i: int|
            0 <= i < ended(x.trace.calls).len() && i < ended(y.trace.calls).len()
                ==> #[trigger] ended(x.trace.calls)[i] == ended(y.trace.calls)[i],
    ensures
        x.trace.judged >= y.trace.judged,
{
    if x.trace.judged < y.trace.judged {
        lemma_same_offer(x, y, batch_size, stride, held);
    }
}

/// The last offer of a search that stopped in the middle of a batch was also made
/// by a search that went on, where it was not refused.
proof fn lemma_same_offer<
    'a,
    'b,
    A: AddressBackend,
    B: AddressBackend,
    S: KeySource,
    T: KeySource,
    P: ProgressSink,
    Q: ProgressSink,
>(
    x: SearchRun<'a, A, S, P>,
    y: SearchRun<'b, B, T, Q>,
    batch_size: nat,
    stride: nat,
    held: Option<CandidateModel>,
)
    requires
        x.possible(batch_size, stride),
        y.possible(batch_size, stride),
        *x.worker.0.targets == *y.worker.0.targets,
        x.alone(batch_size, stride, held),
        y.alone(batch_size, stride, held),
        x.trace.offered == x.trace.judged + 1,
        ended(x.trace.calls).len() == x.trace.judged + 1,
        x.trace.judged < y.trace.judged,
        x.worker.1.offers().len() > x.worker.0.offers().len(),
        forall|i: int|
            0 <= i < ended(x.trace.calls).len() && i < ended(y.trace.calls).len()
                ==> #[trigger] ended(x.trace.calls)[i] == ended(y.trace.calls)[i],
    ensures
        x.worker.1.offers().last().outcome is Ok,
{
    let n = x.trace.judged;
    let m = y.trace.judged;
    let a = ended(x.trace.calls);
    let b = ended(y.trace.calls);
    let targets = *x.worker.0.targets;
    let due = offers_due(a, n, stride, batch_size, targets);
    let longer = offers_due(a, n + 1, stride, batch_size, targets);
    let theirs = offers_due(b, m, stride, batch_size, targets);
    assert(((n + 1) as nat - 1) as nat == n);
    let common = a.take((n + 1) as int);
    assert(common =~= b.take((n + 1) as int)) by {
        assert forall|i: int| 0 <= i < n + 1 implies a[i] == b[i] by {}
    }
    lemma_offers_longer(common, a, n + 1, stride, batch_size, targets);
    lemma_offers_longer(common, b, n + 1, stride, batch_size, targets);
    lemma_due_grows(b, n + 1, m, stride, batch_size, targets);
    lemma_due_grows(b, m, y.trace.offered, stride, batch_size, targets);
    let behind = offers_due(b, y.trace.offered, stride, batch_size, targets);
    let k = longer.len() - 1;
    assert(longer.take(k) =~= behind.take(k));
    assert(x.made().len() == longer.len());
    assert(x.made()[k] == x.worker.1.offers().last());
    if k < due.len() {
        assert(x.made()[k].outcome is Ok);
    }
    assert(x.made()[k].new == longer[k].new);
    assert(longer[k] == theirs[k]);
    assert(theirs[k] == behind[k]);
    assert(y.made()[k].new == theirs[k].new);
    assert(y.made()[k].outcome is Ok);
}

/// Two searches on backends that take one batch at a time, which are handed the
/// same keys, get the same answers from their backends and are left to themselves,
/// with shared states that hold the same before and get no other offers, end
/// alike: both with an error or both with the same hit, after as many addresses.
pub proof fn law_alike_searches_end_alike<
    'a,
    'b,
    A: AddressBackend,
    B: AddressBackend,
    S: KeySource,
    T: KeySource,
    P: ProgressSink,
    Q: ProgressSink,
>(
    x: SearchRun<'a, A, S, P>,
    y: SearchRun<'b, B, T, Q>,
    batch_size: nat,
    stride: nat,
    held: Option<CandidateModel>,
)
    requires
        batch_size > 0,
        x.capacity <= 1,
        y.capacity <= 1,
        x.possible(batch_size, stride),
        y.possible(batch_size, stride),
        x.undisturbed(),
        y.undisturbed(),
        *x.worker.0.targets == *y.worker.0.targets,
        handed_alike(handed_keys(x.trace.source), handed_keys(y.trace.source)),
        calls_alike(x.trace.calls, y.trace.calls),
        x.alone(batch_size, stride, held),
        y.alone(batch_size, stride, held),
    ensures
        x.concluded(),
        y.concluded(),
        x.r is Ok <==> y.r is Ok,
        x.r matches Ok(Some(hit)) ==> same_find(hit, y.r->Ok_0->Some_0),
        x.r is Ok && x.worker.0.worker_id == y.worker.0.worker_id
            ==> x.r->Ok_0->Some_0.worker_id == y.r->Ok_0->Some_0.worker_id,
        x.trace.counted == y.trace.counted,
        x.worker.1.total.recorded() - x.worker.0.total.recorded()
            == y.worker.1.total.recorded() - y.worker.0.total.recorded(),
{
    assert(handed_alike(handed_keys(y.trace.source), handed_keys(x.trace.source))) by {
        let p = handed_keys(x.trace.source);
        let q = handed_keys(y.trace.source);
        assert forall|i: int| 0 <= i < q.len() && i < p.len() implies #[trigger] q[i] == p[i] by {
            assert(p[i] == q[i]);
        }
    }
    assert(calls_alike(y.trace.calls, x.trace.calls)) by {
        let p = x.trace.calls;
        let q = y.trace.calls;
        assert forall|i: int|
            0 <= i < q.len() && i < p.len() && q[i].keys() == p[i].keys() implies (
        #[trigger] q[i]).addresses() == p[i].addresses() && q[i].result() == p[i].result() by {
            assert(p[i].result() == q[i].result());
        }
    }
    law_undisturbed_search_concludes(x, batch_size, stride);
    law_undisturbed_search_concludes(y, batch_size, stride);
    lemma_no_earlier_end(x, y, batch_size, stride, held);
    lemma_no_earlier_end(y, x, batch_size, stride, held);
    lemma_derived_calls(x.trace.calls, batch_size, x.capacity);
    lemma_derived_calls(y.trace.calls, batch_size, y.capacity);
    lemma_same_batches(x, y, batch_size, stride);
    let n = x.trace.judged;
    let a = ended(x.trace.calls);
    let b = ended(y.trace.calls);
    let targets = *x.worker.0.targets;
    let at = n - 1;
    if x.r is Ok {
        let index = hit_of(a[at].addresses, targets)->0;
        assert(a[at] == b[at]);
        assert(full_match(byte_nibbles(b[at].addresses[index as int]@), targets));
    }
    if y.r is Ok {
        let index = hit_of(b[at].addresses, targets)->0;
        assert(a[at] == b[at]);
        assert(full_match(byte_nibbles(a[at].addresses[index as int]@), targets));
    }
    if x.r is Err {
        if x.trace.calls.len() > n && y.trace.calls.len() > n {
            let p = x.trace.calls[n as int];
            let q = y.trace.calls[n as int];
            assert(p.keys() == handed_keys(x.trace.source)[n as int]);
            assert(q.keys() == handed_keys(y.trace.source)[n as int]);
            assert(p.result() == q.result());
        }
        assert(x.trace.counted == y.trace.counted);
    }
    assert(x.trace.counted * batch_size == y.trace.counted * batch_size);
}

/// Whether two hits are the same key and address after as many attempts.
pub open spec fn same_find(first: HitRecord, second: HitRecord) -> bool {
    &&& first.tries == second.tries
    &&& first.address@ == second.address@
    &&& first.private_key@ == second.private_key@
}

/// Searches whose batches are the same for as long as both went on, and which
/// both found something, found the same.
pub proof fn law_same_batches_same_hit<'a, 'b>(
    first: HitRecord,
    second: HitRecord,
    a: Seq<Batch>,
    b: Seq<Batch>,
    at_a: nat,
    at_b: nat,
    stride: nat,
    batch_size: nat,
    worker_a: WorkerContext<'a>,
    worker_b: WorkerContext<'b>,
)
    requires
        *worker_a.targets == *worker_b.targets,
        hit_at(first, a, at_a, stride, batch_size, worker_a),
        hit_at(second, b, at_b, stride, batch_size, worker_b),
        none_matches(a, at_a, *worker_a.targets),
        none_matches(b, at_b, *worker_b.targets),
        forall|i: int| 0 <= i < a.len() && i < b.len() ==> #[trigger] a[i] == b[i],
    ensures
        same_find(first, second),
{
    let targets = *worker_a.targets;
    let i = hit_of(a[at_a as int].addresses, targets)->0;
    let j = hit_of(b[at_b as int].addresses, targets)->0;
    if at_a < at_b {
        assert(a[at_a as int] == b[at_a as int]);
        assert(full_match(byte_nibbles(b[at_a as int].addresses[i as int]@), targets));
    }
    if at_b < at_a {
        assert(a[at_b as int] == b[at_b as int]);
        assert(full_match(byte_nibbles(a[at_b as int].addresses[j as int]@), targets));
    }
    assert(a[at_a as int] == b[at_a as int]);
}

}
