//! The two ways of preparing keys, ahead on a thread of their own or on the
//! searching thread, compared.
use std::sync::atomic::AtomicBool;
use vstd::prelude::*;

verus! {

use crate::alike::{
    calls_alike, law_alike_searches_end_alike, law_same_batches_same_hit, same_find, SearchRun,
};
use crate::backend::{scalars, AddressBackend};
use crate::best::CandidateModel;
use crate::chain::chains_for;
use crate::entropy::{advanced, drew_all, law_same_draws_same_keys, KeyRng};
use crate::error::Error;
use crate::pipeline::{
    batch_filled, law_sent_batches_are_draws, produced, received, sent_all, PipelineSource,
    PreparedBatch, ProducerState,
};
use crate::queue::{sent, values, Received, Turn};
use crate::scalar::{law_key_is_its_number, SecretKey};
use crate::search::ProgressSink;
use crate::source::SequentialSource;
use crate::trace::{
    ended, handed_keys, law_batches_end_in_order, source_ran, source_step, started, Batch,
    SourceCall,
};

/// Whether `batches` are accepted draws of `from`, `count` each, one batch after
/// the other, and `to` is what is left after them.
pub open spec fn drew_batches<R: KeyRng>(
    from: R,
    to: R,
    len: nat,
    count: nat,
    batches: Seq<Seq<nat>>,
) -> bool
    decreases batches.len(),
{
    if batches.len() == 0 {
        from == to
    } else {
        exists|mid: R|
            drew_batches(from, mid, len, count, batches.drop_last()) && batches.last().len()
                == count && #[trigger] drew_all(mid, to, len, batches.last())
    }
}

/// The starts of batches as plain numbers.
pub open spec fn starts(batches: Seq<Seq<SecretKey>>) -> Seq<Seq<nat>> {
    batches.map_values(|keys: Seq<SecretKey>| scalars(keys))
}

/// The starts of prepared batches as plain numbers.
pub open spec fn prepared_starts(batches: Seq<PreparedBatch>) -> Seq<Seq<nat>> {
    batches.map_values(|batch: PreparedBatch| scalars(batch.keys.0@))
}

/// Whether every batch that was asked for was handed out, but for the last
/// time at most.
pub open spec fn kept_handing(calls: Seq<SourceCall>) -> bool {
    forall|i: int|
        0 <= i < calls.len() - 1 ==> (#[trigger] calls[i] matches SourceCall::Next(r) ==> r
            matches Ok(Some(_)))
}

/// Whether two generators give the same draws.
pub open spec fn same_draws<R: KeyRng>(a: R, b: R) -> bool {
    advanced(a, b, 0)
}

/// Generators with the same draws give the same batches, for as many as were
/// drawn from both.
proof fn lemma_same_batches<R: KeyRng>(
    a: R,
    b: R,
    a_after: R,
    b_after: R,
    len: nat,
    count: nat,
    xs: Seq<Seq<nat>>,
    ys: Seq<Seq<nat>>,
)
    requires
        same_draws(a, b),
        drew_batches(a, a_after, len, count, xs),
        drew_batches(b, b_after, len, count, ys),
    ensures
        forall|i: int| 0 <= i < xs.len() && i < ys.len() ==> #[trigger] xs[i] == ys[i],
        xs.len() == ys.len() ==> same_draws(a_after, b_after),
    decreases xs.len() + ys.len(),
{
    if xs.len() > ys.len() {
        let mid = choose|mid: R|
            drew_batches(a, mid, len, count, xs.drop_last()) && xs.last().len() == count
                && #[trigger] drew_all(mid, a_after, len, xs.last());
        lemma_same_batches(a, b, mid, b_after, len, count, xs.drop_last(), ys);
        assert forall|i: int| 0 <= i < xs.len() && i < ys.len() implies #[trigger] xs[i]
            == ys[i] by {
            assert(xs.drop_last()[i] == ys[i]);
        }
    } else if xs.len() < ys.len() {
        let mid = choose|mid: R|
            drew_batches(b, mid, len, count, ys.drop_last()) && ys.last().len() == count
                && #[trigger] drew_all(mid, b_after, len, ys.last());
        lemma_same_batches(a, b, a_after, mid, len, count, xs, ys.drop_last());
        assert forall|i: int| 0 <= i < xs.len() && i < ys.len() implies #[trigger] xs[i]
            == ys[i] by {
            assert(xs[i] == ys.drop_last()[i]);
        }
    } else if xs.len() > 0 {
        let mid_a = choose|mid: R|
            drew_batches(a, mid, len, count, xs.drop_last()) && xs.last().len() == count
                && #[trigger] drew_all(mid, a_after, len, xs.last());
        let mid_b = choose|mid: R|
            drew_batches(b, mid, len, count, ys.drop_last()) && ys.last().len() == count
                && #[trigger] drew_all(mid, b_after, len, ys.last());
        lemma_same_batches(a, b, mid_a, mid_b, len, count, xs.drop_last(), ys.drop_last());
        law_same_draws_same_keys(mid_a, mid_b, a_after, b_after, len, xs.last(), ys.last());
        assert forall|i: int| 0 <= i < xs.len() && i < ys.len() implies #[trigger] xs[i]
            == ys[i] by {
            if i < xs.len() - 1 {
                assert(xs.drop_last()[i] == ys.drop_last()[i]);
            }
        }
    }
}

/// What the searching thread hands out it drew batch by batch.
proof fn lemma_sequential_batches<'a, R: KeyRng>(
    before: SequentialSource<'a, R>,
    stop: &AtomicBool,
    calls: Seq<SourceCall>,
    after: SequentialSource<'a, R>,
)
    requires
        before.ready(),
        source_ran(before, stop, calls, after),
        kept_handing(calls),
    ensures
        exists|left: R| #[trigger]
            drew_batches(
                before.generator(),
                left,
                before.stride(),
                before.chains(),
                starts(handed_keys(calls)),
            ) && (kept_handing(calls.push(SourceCall::Next(Ok(None)))) ==> left
                == after.generator() && after.ready()),
        after.stride() == before.stride(),
        after.chains() == before.chains(),
    decreases calls.len(),
{
    let all = starts(handed_keys(calls));
    let kept = kept_handing(calls.push(SourceCall::Next(Ok(None))));
    if calls.len() == 0 {
        assert(drew_batches(
            before.generator(),
            after.generator(),
            before.stride(),
            before.chains(),
            all,
        ));
    } else {
        let earlier = calls.drop_last();
        let mid = choose|mid: SequentialSource<'a, R>|
            source_ran(before, stop, earlier, mid) && #[trigger] source_step(
                mid,
                stop,
                calls.last(),
                after,
            );
        assert(kept_handing(earlier)) by {
            assert forall|i: int| 0 <= i < earlier.len() - 1 implies (#[trigger] earlier[i] matches
                SourceCall::Next(r) ==> r matches Ok(Some(_))) by {
                assert(earlier[i] == calls[i]);
            }
        }
        let more = earlier.push(SourceCall::Next(Ok(None)));
        assert(kept_handing(more)) by {
            assert forall|i: int| 0 <= i < more.len() - 1 implies (#[trigger] more[i] matches
                SourceCall::Next(r) ==> r matches Ok(Some(_))) by {
                assert(more[i] == calls[i]);
            }
        }
        lemma_sequential_batches(before, stop, earlier, mid);
        let before_last = starts(handed_keys(earlier));
        assert(drew_batches(
            before.generator(),
            mid.generator(),
            before.stride(),
            before.chains(),
            before_last,
        ));
        if kept {
            let longer = calls.push(SourceCall::Next(Ok(None)));
            assert(longer[calls.len() - 1] == calls.last());
        }
        match calls.last() {
            SourceCall::Next(Ok(Some(keys))) => {
                assert(all.drop_last() =~= before_last);
                assert(all.last() == scalars(keys));
                assert(drew_all(mid.generator(), after.generator(), before.stride(), all.last()));
                assert(drew_batches(
                    before.generator(),
                    after.generator(),
                    before.stride(),
                    before.chains(),
                    all,
                ));
            },
            _ => {
                assert(all =~= before_last);
            },
        }
    }
}

/// What the producer fills it drew batch by batch.
proof fn lemma_produced_batches<R: KeyRng>(
    from: R,
    to: R,
    stride: nat,
    count: nat,
    back: Seq<PreparedBatch>,
    batches: Seq<PreparedBatch>,
)
    requires
        produced(from, to, stride, count, back, batches),
        forall|i: int| 0 <= i < batches.len() ==> (#[trigger] back[i]).keys.0@.len() <= count,
    ensures
        drew_batches(from, to, stride, count, prepared_starts(batches)),
        forall|i: int| 0 <= i < batches.len() ==> (#[trigger] batches[i]).sequence == i,
    decreases batches.len(),
{
    if batches.len() > 0 {
        let mid = choose|mid: R|
            produced(from, mid, stride, count, back, batches.drop_last())
                && #[trigger] batch_filled(
                mid,
                to,
                stride,
                count,
                back[batches.len() - 1],
                batches.last(),
                (batches.len() - 1) as nat,
            );
        lemma_produced_batches(from, mid, stride, count, back, batches.drop_last());
        let all = prepared_starts(batches);
        assert(all.drop_last() =~= prepared_starts(batches.drop_last()));
        assert(batches.last().keys.0@.take(count as int) =~= batches.last().keys.0@);
        assert(drew_all(mid, to, stride, all.last()));
        assert forall|i: int| 0 <= i < batches.len() implies (#[trigger] batches[i]).sequence
            == i by {
            if i < batches.len() - 1 {
                assert(batches.drop_last()[i] == batches[i]);
            }
        }
    }
}

/// Whether this batch came over the queue.
spec fn came(log: Seq<Turn<Received<PreparedBatch>>>, number: int, keys: Seq<SecretKey>) -> bool {
    exists|at: int|
        0 <= at < values(log).len() && (#[trigger] values(log)[at]).sequence == number && values(
            log,
        )[at].keys.0@ == keys
}

/// What a queue gave before it has given later.
proof fn lemma_came_later(
    before: Seq<Turn<Received<PreparedBatch>>>,
    after: Seq<Turn<Received<PreparedBatch>>>,
    number: int,
    keys: Seq<SecretKey>,
)
    requires
        values(before).is_prefix_of(values(after)),
        came(before, number, keys),
    ensures
        came(after, number, keys),
{
    let at = choose|at: int|
        0 <= at < values(before).len() && (#[trigger] values(before)[at]).sequence == number
            && values(before)[at].keys.0@ == keys;
    assert(values(after)[at] == values(before)[at]);
}

/// What a pipelined search is handed came over the queue, in the order of the
/// numbers.
proof fn lemma_pipelined_batches(
    before: PipelineSource,
    stop: &AtomicBool,
    calls: Seq<SourceCall>,
    after: PipelineSource,
)
    requires
        before.expected() == 0,
        source_ran(before, stop, calls, after),
    ensures
        after.expected() == handed_keys(calls).len(),
        forall|i: int|
            0 <= i < handed_keys(calls).len() ==> came(
                after.ready_log(),
                i,
                #[trigger] handed_keys(calls)[i],
            ),
    decreases calls.len(),
{
    if calls.len() > 0 {
        let earlier = calls.drop_last();
        let mid = choose|mid: PipelineSource|
            source_ran(before, stop, earlier, mid) && #[trigger] source_step(
                mid,
                stop,
                calls.last(),
                after,
            );
        lemma_pipelined_batches(before, stop, earlier, mid);
        assert(values(mid.ready_log()).is_prefix_of(values(after.ready_log())));
        assert forall|i: int| 0 <= i < handed_keys(calls).len() implies came(
            after.ready_log(),
            i,
            #[trigger] handed_keys(calls)[i],
        ) by {
            if i < handed_keys(earlier).len() {
                assert(handed_keys(calls)[i] == handed_keys(earlier)[i]);
                lemma_came_later(
                    mid.ready_log(),
                    after.ready_log(),
                    i,
                    handed_keys(earlier)[i],
                );
            } else {
                let got = choose|got: Result<Option<PreparedBatch>, Error>| #[trigger]
                    received(mid.ready_log(), after.ready_log(), stop, got) && match got {
                        Ok(Some(batch)) => after.current() == Some(batch) && batch.sequence
                            == mid.expected() && calls.last() == SourceCall::Next(
                            Ok(Some(batch.keys.0@)),
                        ),
                        _ => false,
                    };
                let at = values(mid.ready_log()).len() as int;
                assert(values(after.ready_log())[at] == got->Ok_0->Some_0);
            }
        }
    }
}

/// A search is handed the same keys in the same order whether they are prepared
/// ahead on a thread of their own or on the searching thread, as long as the
/// generators give the same draws and what comes over the queue is what the
/// producer sent.
pub proof fn law_pipelined_keys_are_sequential<'a, R: KeyRng>(
    sequential: (SequentialSource<'a, R>, SequentialSource<'a, R>),
    sequential_stop: &AtomicBool,
    sequential_calls: Seq<SourceCall>,
    pipelined: (PipelineSource, PipelineSource),
    pipelined_stop: &AtomicBool,
    pipelined_calls: Seq<SourceCall>,
    producer: (R, R),
    back: Seq<PreparedBatch>,
    batches: Seq<PreparedBatch>,
)
    requires
        sequential.0.ready(),
        source_ran(sequential.0, sequential_stop, sequential_calls, sequential.1),
        kept_handing(sequential_calls),
        pipelined.0.expected() == 0,
        source_ran(pipelined.0, pipelined_stop, pipelined_calls, pipelined.1),
        same_draws(sequential.0.generator(), producer.0),
        produced(
            producer.0,
            producer.1,
            sequential.0.stride(),
            sequential.0.chains(),
            back,
            batches,
        ),
        forall|i: int|
            0 <= i < batches.len() ==> (#[trigger] back[i]).keys.0@.len()
                <= sequential.0.chains(),
        forall|i: int|
            0 <= i < values(pipelined.1.ready_log()).len() ==> batches.contains(
                #[trigger] values(pipelined.1.ready_log())[i],
            ),
    ensures
        forall|i: int|
            0 <= i < handed_keys(pipelined_calls).len() && i < handed_keys(sequential_calls).len()
                ==> #[trigger] handed_keys(pipelined_calls)[i] == handed_keys(sequential_calls)[i],
{
    let len = sequential.0.stride();
    let count = sequential.0.chains();
    let ours = starts(handed_keys(sequential_calls));
    let theirs = prepared_starts(batches);
    lemma_sequential_batches(sequential.0, sequential_stop, sequential_calls, sequential.1);
    let left = choose|left: R| #[trigger]
        drew_batches(sequential.0.generator(), left, len, count, ours);
    lemma_produced_batches(producer.0, producer.1, len, count, back, batches);
    lemma_same_batches(
        sequential.0.generator(),
        producer.0,
        left,
        producer.1,
        len,
        count,
        ours,
        theirs,
    );
    lemma_pipelined_batches(pipelined.0, pipelined_stop, pipelined_calls, pipelined.1);
    let log = pipelined.1.ready_log();
    assert forall|i: int| 0 <= i < handed_keys(pipelined_calls).len() implies i < theirs.len()
        && theirs[i] == scalars(#[trigger] handed_keys(pipelined_calls)[i]) by {
        let keys = handed_keys(pipelined_calls)[i];
        assert(came(log, i, keys));
        let at = choose|at: int|
            0 <= at < values(log).len() && (#[trigger] values(log)[at]).sequence == i && values(
                log,
            )[at].keys.0@ == keys;
        assert(batches.contains(values(log)[at]));
        let sent = batches.index_of(values(log)[at]);
        assert(batches[sent].sequence == sent);
    }
    assert forall|i: int|
        0 <= i < handed_keys(pipelined_calls).len() && i < handed_keys(
            sequential_calls,
        ).len() implies #[trigger] handed_keys(pipelined_calls)[i] == handed_keys(
        sequential_calls,
    )[i] by {
        let p = handed_keys(pipelined_calls)[i];
        let q = handed_keys(sequential_calls)[i];
        assert(ours[i] == scalars(q));
        assert(theirs[i] == scalars(p));
        assert(scalars(p) == scalars(q));
        assert forall|k: int| 0 <= k < p.len() implies p[k] == q[k] by {
            assert(scalars(p)[k] == scalars(q)[k]);
            law_key_is_its_number(p[k], q[k]);
        }
        assert(p =~= q);
    }
}

/// Whether two backends gave the same addresses wherever they were handed the
/// same starts.
pub open spec fn answered_alike(a: Seq<Batch>, b: Seq<Batch>) -> bool {
    forall|i: int|
        0 <= i < a.len() && i < b.len() && a[i].keys == b[i].keys ==> (#[trigger] a[i]).addresses
            == b[i].addresses
}

/// Whether one search drew its keys on the searching thread and the other had
/// them prepared ahead, from generators that give the same draws, and what came
/// over the queue is what the producer sent.
pub open spec fn prepared_from_same<
    'a,
    'b,
    'c,
    A: AddressBackend,
    B: AddressBackend,
    P: ProgressSink,
    Q: ProgressSink,
    R: KeyRng,
>(
    sequential: SearchRun<'a, A, SequentialSource<'b, R>, P>,
    pipelined: SearchRun<'c, B, PipelineSource, Q>,
    batch_size: nat,
    stride: nat,
    producer: (ProducerState<R>, ProducerState<R>),
    back: Seq<PreparedBatch>,
    batches: Seq<PreparedBatch>,
) -> bool {
    let count = chains_for(batch_size, stride);
    &&& sequential.source.0.ready()
    &&& sequential.source.0.stride() == stride
    &&& sequential.source.0.chains() == count
    &&& kept_handing(sequential.trace.source)
    &&& pipelined.source.0.expected() == 0
    &&& same_draws(sequential.source.0.generator(), producer.0.rng)
    &&& sent(producer.0.ready).len() == 0
    &&& back.len() == batches.len()
    &&& sent_all(
        producer.0,
        producer.1,
        pipelined.worker.0.flag(),
        stride,
        count,
        back,
        batches,
    )
    &&& forall|i: int| 0 <= i < batches.len() ==> (#[trigger] back[i]).keys.0@.len() <= count
    &&& forall|i: int|
        0 <= i < values(pipelined.source.1.ready_log()).len() ==> sent(producer.1.ready).contains(
            #[trigger] values(pipelined.source.1.ready_log())[i],
        )
}

/// A search finds the same key and address after as many attempts whether its
/// keys are prepared ahead on a thread of their own or on the searching thread,
/// as long as both find something and the backends answer alike.
pub proof fn law_pipelined_hit_is_sequential<
    'a,
    'b,
    'c,
    A: AddressBackend,
    B: AddressBackend,
    P: ProgressSink,
    Q: ProgressSink,
    R: KeyRng,
>(
    sequential: SearchRun<'a, A, SequentialSource<'b, R>, P>,
    pipelined: SearchRun<'c, B, PipelineSource, Q>,
    batch_size: nat,
    stride: nat,
    producer: (ProducerState<R>, ProducerState<R>),
    back: Seq<PreparedBatch>,
    batches: Seq<PreparedBatch>,
)
    requires
        sequential.possible(batch_size, stride),
        pipelined.possible(batch_size, stride),
        sequential.r matches Ok(Some(_)),
        pipelined.r matches Ok(Some(_)),
        *sequential.worker.0.targets == *pipelined.worker.0.targets,
        prepared_from_same(
            sequential,
            pipelined,
            batch_size,
            stride,
            producer,
            back,
            batches,
        ),
        answered_alike(ended(sequential.trace.calls), ended(pipelined.trace.calls)),
    ensures
        same_find(sequential.r->Ok_0->Some_0, pipelined.r->Ok_0->Some_0),
{
    let s = sequential.trace;
    let p = pipelined.trace;
    let a = ended(s.calls);
    let b = ended(p.calls);
    law_sent_batches_are_draws(
        producer.0,
        producer.1,
        pipelined.worker.0.flag(),
        stride,
        chains_for(batch_size, stride),
        back,
        batches,
    );
    assert(sent(producer.0.ready) + batches =~= batches);
    law_pipelined_keys_are_sequential(
        sequential.source,
        sequential.worker.0.flag(),
        s.source,
        pipelined.source,
        pipelined.worker.0.flag(),
        p.source,
        (producer.0.rng, producer.1.rng),
        back,
        batches,
    );
    law_batches_end_in_order(s.calls, batch_size, sequential.capacity);
    law_batches_end_in_order(p.calls, batch_size, pipelined.capacity);
    assert forall|i: int| 0 <= i < a.len() && i < b.len() implies #[trigger] a[i] == b[i] by {
        assert(a[i].keys == started(s.calls)[i]);
        assert(b[i].keys == started(p.calls)[i]);
        assert(a[i].keys == handed_keys(s.source)[i]);
        assert(b[i].keys == handed_keys(p.source)[i]);
    }
    law_same_batches_same_hit(
        sequential.r->Ok_0->Some_0,
        pipelined.r->Ok_0->Some_0,
        a,
        b,
        (s.judged - 1) as nat,
        (p.judged - 1) as nat,
        stride,
        batch_size,
        sequential.worker.0,
        pipelined.worker.0,
    );
}

/// Preparing keys ahead changes no result: where backends take one batch at a
/// time and answer alike, and both searches are left to themselves, with shared
/// states that hold the same before and get no other offers, both fail, or both
/// find the same after as many attempts; and both count as many addresses.
pub proof fn law_pipelined_search_is_sequential<
    'a,
    'b,
    'c,
    A: AddressBackend,
    B: AddressBackend,
    P: ProgressSink,
    Q: ProgressSink,
    R: KeyRng,
>(
    sequential: SearchRun<'a, A, SequentialSource<'b, R>, P>,
    pipelined: SearchRun<'c, B, PipelineSource, Q>,
    batch_size: nat,
    stride: nat,
    producer: (ProducerState<R>, ProducerState<R>),
    back: Seq<PreparedBatch>,
    batches: Seq<PreparedBatch>,
    held: Option<CandidateModel>,
)
    requires
        batch_size > 0,
        sequential.capacity <= 1,
        pipelined.capacity <= 1,
        sequential.possible(batch_size, stride),
        pipelined.possible(batch_size, stride),
        sequential.undisturbed(),
        pipelined.undisturbed(),
        *sequential.worker.0.targets == *pipelined.worker.0.targets,
        prepared_from_same(
            sequential,
            pipelined,
            batch_size,
            stride,
            producer,
            back,
            batches,
        ),
        calls_alike(sequential.trace.calls, pipelined.trace.calls),
        sequential.alone(batch_size, stride, held),
        pipelined.alone(batch_size, stride, held),
    ensures
        sequential.concluded(),
        pipelined.concluded(),
        sequential.r is Ok <==> pipelined.r is Ok,
        sequential.r matches Ok(Some(hit)) ==> same_find(hit, pipelined.r->Ok_0->Some_0),
        sequential.r is Ok && sequential.worker.0.worker_id == pipelined.worker.0.worker_id
            ==> sequential.r->Ok_0->Some_0.worker_id == pipelined.r->Ok_0->Some_0.worker_id,
        sequential.worker.1.total.recorded() - sequential.worker.0.total.recorded()
            == pipelined.worker.1.total.recorded() - pipelined.worker.0.total.recorded(),
{
    law_sent_batches_are_draws(
        producer.0,
        producer.1,
        pipelined.worker.0.flag(),
        stride,
        chains_for(batch_size, stride),
        back,
        batches,
    );
    assert(sent(producer.0.ready) + batches =~= batches);
    law_pipelined_keys_are_sequential(
        sequential.source,
        sequential.worker.0.flag(),
        sequential.trace.source,
        pipelined.source,
        pipelined.worker.0.flag(),
        pipelined.trace.source,
        (producer.0.rng, producer.1.rng),
        back,
        batches,
    );
    let p = handed_keys(sequential.trace.source);
    let q = handed_keys(pipelined.trace.source);
    assert forall|i: int| 0 <= i < p.len() && i < q.len() implies #[trigger] p[i] == q[i] by {
        assert(q[i] == p[i]);
    }
    law_alike_searches_end_alike(sequential, pipelined, batch_size, stride, held);
}

}
