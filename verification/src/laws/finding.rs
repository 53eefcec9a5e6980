//! What a search finds, what it reports on the way, and when it started.
use crate::address::Address;
use crate::backend::AddressBackend;
use crate::chain::chain_count;
use crate::clock::{elapsed_since, timestamp_text, Elapsed};
use crate::entropy::{KeyRng, SeededRng};
use crate::error::Error;
use crate::judge::{assess_batch, judge_batch, Assessment, BatchHit};
use crate::matching::{evaluate_batch, BatchCandidate};
use crate::scalar::SecretKey;
use crate::search::{
    run_with_rng, run_with_source, run_worker, HitRecord, Progress, ProgressSink,
};
use crate::source::{KeySource, SequentialSource};
use crate::target::Targets;
use crate::worker::WorkerContext;
use vstd::prelude::*;

verus! {

use crate::address::address_of;
use crate::chain::{chain_len, chain_scalar};
use crate::clock::measured;
use crate::entropy::is_draw;
use crate::hex::{address_text, all_nibbles, byte_nibbles, key_text};
use crate::judge::chain_addresses;
use crate::laws::counting::lemma_multiple_passed;
use crate::laws::digits::{
    lemma_digits_of_key, lemma_key_digits, lemma_prefixed, lemma_spelled, lower_digits,
    number_in, spells,
};
use crate::laws::keys::{group_order, lemma_place, scalars_per_chain};
use crate::laws::matches::{
    agree_first, agree_last, law_hits_are_met_targets, lemma_first, lemma_last, meets,
};
use crate::laws::supply::{drawn_of, lemma_drawn_of};
use crate::matching::{full_match, law_evaluation_is_unique, matches_some};
use crate::outcome::{
    hit_at, new_reads, new_times, ran, search_outcome, stop_seen, SearchTrace,
};
use crate::scalar::is_scalar;
use crate::search::drawn_search;
use crate::trace::{
    asked, best_of, ended, handed_keys, hit_of, kept_full, last_point, law_batches_end_in_order,
    nothing_to_begin, report_fits, report_points, reports_fit, started, unraised, Batch, SourceCall,
};

/// Whether a text is `0x` and these digits in lower case.
pub open spec fn shown(text: Seq<char>, digits: Seq<u8>) -> bool {
    &&& text.len() == 2 + digits.len()
    &&& text[0] == '0'
    &&& text[1] == 'x'
    &&& forall|i: int|
        0 <= i < digits.len() ==> text[2 + i] == lower_digits()[#[trigger] digits[i] as int]
}

/// Whether a record shows an address that begins with the prefix and ends with
/// the suffix, and the key of that very address.
pub open spec fn finds(hit: HitRecord, targets: Targets) -> bool {
    exists|scalar: nat, digits: Seq<u8>, key_digits: Seq<u8>|
        #![trigger number_in(16, key_digits), spells(digits, address_of(scalar))]
        {
            &&& 0 < scalar < group_order()
            &&& key_digits.len() == 64
            &&& all_nibbles(key_digits)
            &&& number_in(16, key_digits) == scalar
            &&& shown(hit.private_key@, key_digits)
            &&& spells(digits, address_of(scalar))
            &&& shown(hit.address@, digits)
            &&& meets(digits, targets.prefix@, targets.suffix@)
        }
}

/// A genuine record finds what it was asked for.
proof fn lemma_genuine_finds(hit: HitRecord, targets: Targets)
    requires
        hit.genuine(targets),
    ensures
        finds(hit, targets),
{
    let scalar = choose|scalar: nat| #[trigger]
        is_scalar(scalar) && hit.private_key@ == key_text(scalar) && hit.address@
            == address_text(address_of(scalar)) && full_match(
            byte_nibbles(address_of(scalar)),
            targets,
        );
    let digits = byte_nibbles(address_of(scalar));
    let key_digits = lemma_key_digits(scalar);
    lemma_spelled(digits, address_of(scalar));
    lemma_prefixed(digits, hit.address@);
    lemma_prefixed(key_digits, hit.private_key@);
    law_hits_are_met_targets(address_of(scalar), digits, targets);
    assert(number_in(16, key_digits) == scalar && spells(digits, address_of(scalar)));
}

/// A hit of a search is an address that begins with the prefix and ends with the
/// suffix, with its own key; it says who found it, and at which attempt of those
/// that were counted. Its time is measured from the clock's first reading of the
/// search, which was taken before the stop flag was looked at.
pub proof fn law_search_finds_what_was_asked<
    'a,
    B: AddressBackend,
    S: KeySource,
    P: ProgressSink,
>(batch_size: usize, hit: HitRecord)
    ensures
        forall|
            backend: &mut B,
            context: &mut WorkerContext<'a>,
            progress: &mut P,
            source: &mut S,
            r: Result<Option<HitRecord>, Error>,
        | #[trigger]
            call_ensures(
                run_with_source::<B, S, P>,
                (backend, batch_size, context, progress, source),
                r,
            ) && r == Ok::<Option<HitRecord>, Error>(Some(hit)) ==> {
                &&& 1 <= batch_size <= 262_144
                &&& finds(hit, *context.targets)
                &&& hit.worker_id == context.worker_id
                &&& timed(*context, *final(context), hit)
                &&& 1 <= hit.tries <= final(context).total.recorded() - context.total.recorded()
                &&& final(context).total.pending() == 0
            },
{
    assert forall|
        backend: &mut B,
        context: &mut WorkerContext<'a>,
        progress: &mut P,
        source: &mut S,
        r: Result<Option<HitRecord>, Error>,
    | #[trigger]
        call_ensures(
            run_with_source::<B, S, P>,
            (backend, batch_size, context, progress, source),
            r,
        ) && r == Ok::<Option<HitRecord>, Error>(Some(hit)) implies ({
        &&& 1 <= batch_size <= 262_144
        &&& finds(hit, *context.targets)
        &&& hit.worker_id == context.worker_id
        &&& timed(*context, *final(context), hit)
        &&& 1 <= hit.tries <= final(context).total.recorded() - context.total.recorded()
        &&& final(context).total.pending() == 0
    }) by {
        let worker = (*context, *final(context));
        let (stride, capacity, t) = choose|stride: usize, capacity: usize, t: SearchTrace|
            call_ensures(B::increment_stride, (&*backend,), stride) && call_ensures(
                B::inflight_capacity,
                (&*backend,),
                capacity,
            ) && #[trigger] ran(
                (*backend, *final(backend)),
                (*source, *final(source)),
                (*progress, *final(progress)),
                worker,
                batch_size as nat,
                stride as nat,
                capacity as nat,
                t,
            ) && search_outcome(
                worker,
                batch_size as nat,
                stride as nat,
                capacity as nat,
                t,
                r,
            );
        assert(ran(
            (*backend, *final(backend)),
            (*source, *final(source)),
            (*progress, *final(progress)),
            worker,
            batch_size as nat,
            stride as nat,
            capacity as nat,
            t,
        ));
        lemma_genuine_finds(hit, *context.targets);
        assert(new_times(worker)[0] == worker.1.times()[worker.0.times().len() as int]);
        let batches = ended(t.calls);
        let last = (t.judged - 1) as nat;
        law_batches_end_in_order(t.calls, batch_size as nat, capacity as nat);
        assert(batches[last as int].addresses.len() == batch_size);
        let n = batch_size as nat;
        assert(last * n + n <= t.counted * n) by (nonlinear_arith)
            requires
                last + 1 <= t.counted,
        ;
        assert(last * n >= 0) by (nonlinear_arith);
    }
}

/// A search with keys drawn on the searching thread finds what was asked, and the
/// key found is an acceptable draw of the generator, or less than a chain behind
/// one.
pub proof fn law_found_key_was_drawn<'a, B: AddressBackend, P: ProgressSink, R: KeyRng>(
    batch_size: usize,
    hit: HitRecord,
)
    requires
        0 < batch_size <= 262_144,
    ensures
        forall|
            backend: &mut B,
            context: &mut WorkerContext<'a>,
            progress: &mut P,
            rng: &mut R,
            r: Result<Option<HitRecord>, Error>,
        | #[trigger]
            call_ensures(
                run_with_rng::<B, P, R>,
                (backend, batch_size, context, progress, rng),
                r,
            ) && r == Ok::<Option<HitRecord>, Error>(Some(hit)) ==> finds(hit, *context.targets)
                && timed(*context, *final(context), hit) && exists|drawn: usize, stride: usize| #[trigger]
                behind_a_draw(hit, *rng, drawn as nat, stride) && call_ensures(
                    B::increment_stride,
                    (&*backend,),
                    drawn,
                ) && call_ensures(B::increment_stride, (&*backend,), stride),
{
    assert forall|
        backend: &mut B,
        context: &mut WorkerContext<'a>,
        progress: &mut P,
        rng: &mut R,
        r: Result<Option<HitRecord>, Error>,
    | #[trigger]
        call_ensures(
            run_with_rng::<B, P, R>,
            (backend, batch_size, context, progress, rng),
            r,
        ) && r == Ok::<Option<HitRecord>, Error>(Some(hit)) implies finds(hit, *context.targets)
        && timed(*context, *final(context), hit) && exists|drawn: usize, stride: usize| #[trigger]
        behind_a_draw(hit, *rng, drawn as nat, stride) && call_ensures(
            B::increment_stride,
            (&*backend,),
            drawn,
        ) && call_ensures(B::increment_stride, (&*backend,), stride) by {
        let (source, drawn, stride, capacity, t) = choose|
            source: (SequentialSource<'_, R>, SequentialSource<'_, R>),
            drawn: usize,
            stride: usize,
            capacity: usize,
            t: SearchTrace,
        | #[trigger]
            drawn_search(
                (*backend, *final(backend)),
                (*progress, *final(progress)),
                (*context, *final(context)),
                source,
                *rng,
                batch_size as nat,
                drawn,
                stride,
                capacity,
                t,
                r,
            );
        assert(drawn_search(
            (*backend, *final(backend)),
            (*progress, *final(progress)),
            (*context, *final(context)),
            source,
            *rng,
            batch_size as nat,
            drawn,
            stride,
            capacity,
            t,
            r,
        ));
        let worker = (*context, *final(context));
        assert(new_times(worker)[0] == worker.1.times()[worker.0.times().len() as int]);
        lemma_genuine_finds(hit, *context.targets);
        lemma_behind_a_draw(hit, *rng, drawn as nat, stride);
    }
}

/// Whether the key that a record shows is an acceptable draw or less than a chain
/// behind one.
pub open spec fn behind_a_draw<R: KeyRng>(
    hit: HitRecord,
    rng: R,
    drawn: nat,
    stride: usize,
) -> bool {
    exists|start: nat, step: nat| #[trigger]
        drawn_of(rng, drawn, start) && step < scalars_per_chain(stride) && hit.private_key@
            == #[trigger] key_text(start + step)
}

/// A drawn key is an acceptable draw or less than a chain behind one.
proof fn lemma_behind_a_draw<R: KeyRng>(hit: HitRecord, rng: R, drawn: nat, stride: usize)
    requires
        hit.drawn_from(rng, drawn, stride as nat),
    ensures
        behind_a_draw(hit, rng, drawn, stride),
{
    let (start, offset) = choose|start: nat, offset: nat|
        is_draw(rng, drawn, start) && offset < chain_len(stride as nat) && hit.private_key@
            == #[trigger] key_text(start + offset);
    lemma_drawn_of(rng, drawn, start);
    assert(drawn_of(rng, drawn, start) && hit.private_key@ == key_text(start + offset));
}

/// Whether a hit says how long ago the worker's first reading of the clock was since
/// `before`, and that reading was taken before the stop flag was looked at.
pub open spec fn timed<'a>(
    before: WorkerContext<'a>,
    after: WorkerContext<'a>,
    hit: HitRecord,
) -> bool {
    let first = after.times()[before.times().len() as int];
    &&& after.times().len() > before.times().len()
    &&& first.1 == before.reads().len()
    &&& measured(&first.0, hit.elapsed)
}

/// The hit of a worker that seeds its own generator is what was asked for, says who
/// found it, and is timed from the beginning of the search.
pub proof fn law_worker_finds_what_was_asked<'a, B: AddressBackend, P: ProgressSink>(
    batch_size: usize,
    hit: HitRecord,
)
    ensures
        forall|
            backend: &mut B,
            context: &mut WorkerContext<'a>,
            progress: &mut P,
            r: Result<Option<HitRecord>, Error>,
        | #[trigger]
            call_ensures(
                run_worker::<B, P>,
                (backend, batch_size, context, progress),
                r,
            ) && r == Ok::<Option<HitRecord>, Error>(Some(hit)) ==> {
                &&& finds(hit, *context.targets)
                &&& hit.worker_id == context.worker_id
                &&& timed(*context, *final(context), hit)
                &&& 1 <= batch_size <= 262_144
            },
{
    assert forall|
        backend: &mut B,
        context: &mut WorkerContext<'a>,
        progress: &mut P,
        r: Result<Option<HitRecord>, Error>,
    | #[trigger]
        call_ensures(
            run_worker::<B, P>,
            (backend, batch_size, context, progress),
            r,
        ) && r == Ok::<Option<HitRecord>, Error>(Some(hit)) implies ({
        &&& finds(hit, *context.targets)
        &&& hit.worker_id == context.worker_id
        &&& timed(*context, *final(context), hit)
        &&& 1 <= batch_size <= 262_144
    }) by {
        let worker = (*context, *final(context));
        let (rng, source, drawn, stride, capacity, t) = choose|
            rng: SeededRng,
            source: (SequentialSource<'_, SeededRng>, SequentialSource<'_, SeededRng>),
            drawn: usize,
            stride: usize,
            capacity: usize,
            t: SearchTrace,
        | #[trigger]
            drawn_search(
                (*backend, *final(backend)),
                (*progress, *final(progress)),
                worker,
                source,
                rng,
                batch_size as nat,
                drawn,
                stride,
                capacity,
                t,
                r,
            );
        assert(drawn_search(
            (*backend, *final(backend)),
            (*progress, *final(progress)),
            worker,
            source,
            rng,
            batch_size as nat,
            drawn,
            stride,
            capacity,
            t,
            r,
        ));
        lemma_genuine_finds(hit, *context.targets);
        assert(new_times(worker)[0] == worker.1.times()[worker.0.times().len() as int]);
    }
}

/// A search with a batch size that is not allowed does nothing.
pub proof fn law_wrong_batch_size_is_refused<
    'a,
    B: AddressBackend,
    S: KeySource,
    P: ProgressSink,
>(batch_size: usize)
    requires
        batch_size == 0 || batch_size > 262_144,
    ensures
        forall|
            backend: &mut B,
            context: &mut WorkerContext<'a>,
            progress: &mut P,
            source: &mut S,
            r: Result<Option<HitRecord>, Error>,
        | #[trigger]
            call_ensures(
                run_with_source::<B, S, P>,
                (backend, batch_size, context, progress, source),
                r,
            ) ==> r == Err::<Option<HitRecord>, Error>(Error::InvalidBatchSize) && *final(backend)
                == *backend && *final(context) == *context && *final(source) == *source,
{
}

/// What a search began with the keys of its source it began in their order. Where
/// it ends well, everything that it began was finished, and every address of that
/// was counted as an attempt.
pub proof fn law_every_finished_batch_is_counted<
    'a,
    B: AddressBackend,
    S: KeySource,
    P: ProgressSink,
>(
    backend: (B, B),
    source: (S, S),
    progress: (P, P),
    worker: (WorkerContext<'a>, WorkerContext<'a>),
    batch_size: nat,
    stride: nat,
    capacity: nat,
    t: SearchTrace,
    r: Result<Option<HitRecord>, Error>,
    i: int,
)
    requires
        ran(backend, source, progress, worker, batch_size, stride, capacity, t),
        search_outcome(worker, batch_size, stride, capacity, t, r),
    ensures
        0 <= i < started(t.calls).len() ==> i < handed_keys(t.source).len() && started(t.calls)[i]
            == handed_keys(t.source)[i],
        0 <= i < ended(t.calls).len() ==> i < started(t.calls).len() && ended(t.calls)[i].keys
            == started(t.calls)[i] && ended(t.calls)[i].addresses.len() == batch_size,
        r is Ok ==> started(t.calls).len() == ended(t.calls).len(),
        r is Ok ==> worker.1.total.recorded() - worker.0.total.recorded() == ended(t.calls).len()
            * batch_size,
        0 <= i < t.reports.len() ==> measured(
            &worker.1.times()[worker.0.times().len() + i].0,
            t.reports[i].elapsed,
        ),
        worker.1.times().len() == worker.0.times().len() + t.reports.len() + 1,
{
    law_batches_end_in_order(t.calls, batch_size, capacity);
    let begun = started(t.calls);
    if 0 <= i < begun.len() {
        assert(begun[i] == handed_keys(t.source).subrange(0, begun.len() as int)[i]);
    }
    if 0 <= i < t.reports.len() {
        assert(new_times(worker)[i] == worker.1.times()[worker.0.times().len() + i]);
        assert(t.reports[i] == t.reports[i]);
    }
}

/// The number of tries of a hit points at it: counted from one through all
/// batches, `batch_size` addresses each, it is the place of the address that the
/// record shows. The key shown is that of the place: the start of its chain and
/// the steps behind it.
pub proof fn law_tries_point_at_the_hit<'a>(
    hit: HitRecord,
    batches: Seq<Batch>,
    b: nat,
    stride: usize,
    batch_size: nat,
    worker: WorkerContext<'a>,
    at: int,
    digits: Seq<u8>,
    chain: nat,
    step: nat,
    key_digits: Seq<u8>,
)
    requires
        hit_at(hit, batches, b, stride as nat, batch_size, worker),
        batches[b as int].addresses.len() == batch_size,
        0 <= at < batch_size,
        hit.tries == b * batch_size + at + 1,
        spells(digits, batches[b as int].addresses[at]@),
        at == chain * scalars_per_chain(stride) + step,
        step < scalars_per_chain(stride),
        key_digits.len() == 64,
        all_nibbles(key_digits),
        number_in(16, key_digits) == batches[b as int].keys[chain as int]@ + step,
    ensures
        shown(hit.address@, digits),
        meets(digits, worker.targets.prefix@, worker.targets.suffix@),
        shown(hit.private_key@, key_digits),
        hit.worker_id == worker.worker_id,
{
    let batch = batches[b as int];
    let index = hit_of(batch.addresses, *worker.targets)->0;
    assert(index == at);
    assert(full_match(byte_nibbles(batch.addresses[at]@), *worker.targets));
    let scalar = (batch.keys[chain as int]@ + step) as nat;
    assert(chain_scalar(batch.keys, stride as nat, index as nat) == scalar) by {
        lemma_place(at as nat, stride, chain, step);
    }
    assert(hit.private_key@ == key_text(scalar));
    assert(shown(hit.private_key@, key_digits)) by {
        lemma_key_shown(hit.private_key@, scalar, key_digits);
    }
    assert(shown(hit.address@, digits)) by {
        lemma_spelled(digits, batch.addresses[at]@);
        lemma_prefixed(digits, hit.address@);
    }
    law_hits_are_met_targets(batch.addresses[at]@, digits, *worker.targets);
}

/// The hit of a search that derives one batch at a time, or keeps several out,
/// stands in the last of the batches that were judged, and no batch before holds
/// any.
pub proof fn law_no_earlier_batch_holds_a_hit<'a>(
    worker: (WorkerContext<'a>, WorkerContext<'a>),
    batch_size: nat,
    stride: nat,
    capacity: nat,
    t: SearchTrace,
    hit: HitRecord,
    b: int,
    at: int,
    digits: Seq<u8>,
)
    requires
        search_outcome(worker, batch_size, stride, capacity, t, Ok(Some(hit))),
        0 <= b < t.judged - 1,
        b < ended(t.calls).len(),
        0 <= at < ended(t.calls)[b].addresses.len(),
        spells(digits, ended(t.calls)[b].addresses[at]@),
    ensures
        !meets(digits, worker.0.targets.prefix@, worker.0.targets.suffix@),
{
    let batch = ended(t.calls)[b];
    law_hits_are_met_targets(batch.addresses[at]@, digits, *worker.0.targets);
}

/// A search that ends with nothing, but for one that another worker beat to it,
/// has judged every batch that it finished, or was told to stop; and no batch that
/// it judged holds a hit.
pub proof fn law_nothing_found_is_nothing_there<'a>(
    worker: (WorkerContext<'a>, WorkerContext<'a>),
    batch_size: nat,
    stride: nat,
    capacity: nat,
    t: SearchTrace,
    b: int,
    at: int,
    digits: Seq<u8>,
)
    requires
        search_outcome(worker, batch_size, stride, capacity, t, Ok(None)),
        worker.1.exchanges() == worker.0.exchanges(),
        0 <= b < t.judged,
        b < ended(t.calls).len(),
        0 <= at < ended(t.calls)[b].addresses.len(),
        spells(digits, ended(t.calls)[b].addresses[at]@),
    ensures
        !meets(digits, worker.0.targets.prefix@, worker.0.targets.suffix@),
        t.judged == ended(t.calls).len() || stop_seen(new_reads(worker)),
{
    let batch = ended(t.calls)[b];
    law_hits_are_met_targets(batch.addresses[at]@, digits, *worker.0.targets);
    if capacity <= 1 {
        let longer = worker.0.exchanges().push(true);
        assert(longer.len() == worker.0.exchanges().len() + 1);
    }
}

/// A search that derives one batch at a time gives nothing once it has read the
/// stop flag as raised, and only the first to raise the flag gives its hit.
pub proof fn law_stopped_search_gives_nothing<'a>(
    worker: (WorkerContext<'a>, WorkerContext<'a>),
    batch_size: nat,
    stride: nat,
    t: SearchTrace,
    r: Result<Option<HitRecord>, Error>,
)
    requires
        search_outcome(worker, batch_size, stride, 1, t, r),
    ensures
        new_reads(worker).len() > 0 && new_reads(worker).last() ==> r == Ok::<
            Option<HitRecord>,
            Error,
        >(None) && worker.1.exchanges() == worker.0.exchanges(),
        r matches Ok(Some(_)) ==> worker.1.exchanges().len() == worker.0.exchanges().len() + 1
            && !worker.1.exchanges().last(),
        worker.1.exchanges().len() == worker.0.exchanges().len() + 1 && worker.1.exchanges().last()
            ==> r == Ok::<Option<HitRecord>, Error>(None),
{
    let before = worker.0.exchanges();
    assert(before.push(true).len() == before.len() + 1);
    assert(before.push(true).last());
    assert(!before.push(false).last());
}

/// What the text of a key shows.
proof fn lemma_key_shown(text: Seq<char>, scalar: nat, key_digits: Seq<u8>)
    requires
        text == key_text(scalar),
        key_digits.len() == 64,
        all_nibbles(key_digits),
        number_in(16, key_digits) == scalar,
    ensures
        shown(text, key_digits),
{
    lemma_digits_of_key(scalar, key_digits);
    lemma_prefixed(key_digits, text);
}

/// A batch is judged to hold a hit exactly when one of its addresses begins with
/// the prefix and ends with the suffix. The hit is the first that does, with the
/// key that its address belongs to.
pub proof fn law_judged_hit_is_the_first<'a, B: AddressBackend>(
    keys: &[SecretKey],
    stride: usize,
    addresses: &[Address],
    base: u64,
    at: int,
    digits: Seq<u8>,
)
    requires
        0 <= at < addresses@.len(),
        spells(digits, addresses@[at]@),
    ensures
        forall|context: &mut WorkerContext<'a>, r: Result<Option<BatchHit>, Error>| #[trigger]
            call_ensures(
                judge_batch::<B>,
                (keys, stride, addresses, base, context),
                r,
            ) ==> {
                let met = meets(digits, context.targets.prefix@, context.targets.suffix@);
                &&& r matches Ok(None) ==> !met
                &&& r matches Ok(Some(hit)) ==> {
                    &&& hit.index < addresses@.len()
                    &&& met ==> hit.index <= at
                    &&& hit.index == at ==> met
                    &&& addresses@[hit.index as int]@ == address_of(hit.key@)
                }
            },
{
    assert forall|context: &mut WorkerContext<'a>, r: Result<Option<BatchHit>, Error>| #[trigger]
        call_ensures(judge_batch::<B>, (keys, stride, addresses, base, context), r) implies ({
        let met = meets(digits, context.targets.prefix@, context.targets.suffix@);
        &&& r matches Ok(None) ==> !met
        &&& r matches Ok(Some(hit)) ==> {
            &&& hit.index < addresses@.len()
            &&& met ==> hit.index <= at
            &&& hit.index == at ==> met
            &&& addresses@[hit.index as int]@ == address_of(hit.key@)
        }
    }) by {
        law_hits_are_met_targets(addresses@[at]@, digits, *context.targets);
    }
}

/// Judging a batch finds what evaluating it does: its first full match and its best
/// candidate, each with the key of its place.
pub proof fn law_assessment_follows_evaluation<B: AddressBackend>(
    keys: &[SecretKey],
    stride: usize,
    addresses: &[Address],
    targets: &Targets,
    evaluated: (Option<BatchCandidate>, Option<usize>),
    found: Assessment,
    chain: nat,
    step: nat,
)
    requires
        addresses@.len() <= usize::MAX,
        call_ensures(evaluate_batch, (addresses, targets), evaluated),
        call_ensures(
            assess_batch::<B>,
            (keys, stride, addresses, targets),
            Ok::<Assessment, Error>(found),
        ),
        step < scalars_per_chain(stride),
    ensures
        match (found.hit, evaluated.1) {
            (Some(hit), Some(index)) => {
                &&& hit.index == index
                &&& addresses@[index as int]@ == address_of(hit.key@)
                &&& index == chain * scalars_per_chain(stride) + step ==> hit.key@
                    == keys@[chain as int]@ + step
            },
            (None, None) => true,
            _ => false,
        },
        match (found.best, evaluated.0) {
            (Some(proposal), Some(candidate)) => {
                &&& proposal.candidate == candidate
                &&& candidate.index == chain * scalars_per_chain(stride) + step
                    ==> proposal.key@ == keys@[chain as int]@ + step
            },
            (None, None) => true,
            _ => false,
        },
{
    law_evaluation_is_unique(
        addresses@,
        *targets,
        evaluated,
        (best_of(addresses@, *targets), hit_of(addresses@, *targets)),
    );
    let place = chain * scalars_per_chain(stride) + step;
    lemma_place(place, stride, chain, step);
}

/// A batch is refused only for a fault of what was found in it: the first full
/// match or the best candidate has no start or leaves the range, or the full match
/// is not the address of its scalar.
pub proof fn law_refused_batch_has_a_fault<B: AddressBackend>(
    keys: &[SecretKey],
    stride: usize,
    addresses: &[Address],
    targets: &Targets,
    evaluated: (Option<BatchCandidate>, Option<usize>),
    e: Error,
)
    requires
        addresses@.len() <= usize::MAX,
        call_ensures(evaluate_batch, (addresses, targets), evaluated),
        call_ensures(
            assess_batch::<B>,
            (keys, stride, addresses, targets),
            Err::<Assessment, Error>(e),
        ),
    ensures
        e == Error::AddressMismatch ==> evaluated.1 is Some,
        e == Error::AddressMismatch ==> forall|chain: nat, step: nat|
            step < scalars_per_chain(stride) && evaluated.1->0 == #[trigger] place_of(
                stride,
                chain,
                step,
            ) ==> addresses@[evaluated.1->0 as int]@ != address_of(
                (keys@[chain as int]@ + step) as nat,
            ),
        e == Error::IndexOutsideBatch ==> (evaluated.1 is Some && evaluated.1->0
            >= scalars_per_chain(stride) * keys@.len()) || (evaluated.0 is Some
            && evaluated.0->0.index >= scalars_per_chain(stride) * keys@.len()),
        e == Error::AddressMismatch || e == Error::IndexOutsideBatch || e
            == Error::ChainLeavesRange,
        evaluated.0 is Some || evaluated.1 is Some,
{
    law_evaluation_is_unique(
        addresses@,
        *targets,
        evaluated,
        (best_of(addresses@, *targets), hit_of(addresses@, *targets)),
    );
    if evaluated.1 is Some {
        let index = evaluated.1->0;
        lemma_outside(keys@.len(), stride, index as nat);
        assert forall|chain: nat, step: nat|
            e == Error::AddressMismatch && step < scalars_per_chain(stride) && index
                == #[trigger] place_of(stride, chain, step) implies addresses@[index as int]@
            != address_of((keys@[chain as int]@ + step) as nat) by {
            lemma_place(index as nat, stride, chain, step);
        }
    }
    if evaluated.0 is Some {
        lemma_outside(keys@.len(), stride, evaluated.0->0.index as nat);
    }
}

/// A place whose chain has no start lies behind all chains that have.
proof fn lemma_outside(starts: nat, stride: usize, index: nat)
    ensures
        index / chain_len(stride as nat) >= starts <==> index >= scalars_per_chain(stride) * starts,
{
    let len = scalars_per_chain(stride) as int;
    let chain = index as int / len;
    vstd::arithmetic::div_mod::lemma_fundamental_div_mod(index as int, len);
    assert(chain >= starts <==> index >= len * starts) by (nonlinear_arith)
        requires
            index == len * chain + index as int % len,
            0 <= index as int % len,
            index as int % len < len,
            len > 0,
    ;
}

/// A search that keeps several batches out ends one, until there is a hit, only
/// where as many are out as the backend can hold, or where it was told to stop or
/// the source had no more.
pub proof fn law_backend_is_kept_full<'a>(
    worker: (WorkerContext<'a>, WorkerContext<'a>),
    batch_size: nat,
    stride: nat,
    capacity: nat,
    t: SearchTrace,
    r: Result<Option<HitRecord>, Error>,
    p: int,
)
    requires
        capacity > 1,
        search_outcome(worker, batch_size, stride, capacity, t, r),
        0 <= p < t.calls.len(),
        t.calls[p] is End,
        ended(t.calls.take(p)).len() < t.judged,
    ensures
        ({
            let out = started(t.calls.take(p)).len() - ended(t.calls.take(p)).len();
            ||| out == capacity
            ||| exists|m: int| 0 < m <= new_reads(worker).len() && #[trigger] new_reads(worker)[m
                - 1]
            ||| exists|k: int| 0 < k <= t.source.len() && #[trigger] t.source[k - 1]
                == SourceCall::Next(Ok(None))
        }),
{
    reveal(kept_full);
    let earlier = t.calls.take(p);
    let reads = new_reads(worker);
    if started(earlier).len() - ended(earlier).len() != capacity {
        assert(nothing_to_begin(reads, t.source, started(earlier).len()));
        let (m, k) = choose|m: int, k: int|
            0 <= m <= reads.len() && 0 <= k <= t.source.len() && unraised(#[trigger] reads.take(m))
                == asked(#[trigger] t.source.take(k)) && handed_keys(t.source.take(k)).len()
                == started(earlier).len() && ((m > 0 && reads[m - 1]) || (k > 0 && t.source[k - 1]
                == SourceCall::Next(Ok(None))));
        assert((m > 0 && reads[m - 1]) || (k > 0 && t.source[k - 1] == SourceCall::Next(Ok(None))));
    }
}

/// The main thread is woken exactly once for a batch whose offer was taken, and not
/// at all for another.
pub proof fn law_taken_offer_wakes<'a, B: AddressBackend>(
    keys: &[SecretKey],
    stride: usize,
    addresses: &[Address],
    base: u64,
)
    ensures
        forall|context: &mut WorkerContext<'a>, r: Result<Option<BatchHit>, Error>| #[trigger]
            call_ensures(judge_batch::<B>, (keys, stride, addresses, base, context), r) ==> {
                let before = context.offers();
                let after = final(context).offers();
                let made = after.len() > before.len() && after.last().outcome == Ok::<bool, Error>(
                    true,
                );
                &&& before.len() <= after.len() <= before.len() + 1
                &&& made ==> final(context).wakes() == context.wakes() + 1
                &&& !made ==> final(context).wakes() == context.wakes()
            },
{
}

/// A batch that has its starts, and whose addresses are those of its scalars, is
/// never refused.
pub proof fn law_true_batch_is_not_refused<'a, B: AddressBackend>(
    keys: &[SecretKey],
    stride: usize,
    addresses: &[Address],
    base: u64,
    chains: usize,
)
    requires
        addresses@.len() <= usize::MAX,
        call_ensures(chain_count, (addresses@.len() as usize, stride), chains),
        keys@.len() == chains,
        forall|chain: nat, step: nat|
            #![trigger keys@[chain as int], place_of(stride, chain, step)]
            step < scalars_per_chain(stride) && place_of(stride, chain, step) < addresses@.len()
                ==> keys@[chain as int]@ + step < group_order() && addresses@[place_of(
                stride,
                chain,
                step,
            )]@ == address_of((keys@[chain as int]@ + step) as nat),
    ensures
        forall|context: &mut WorkerContext<'a>, r: Result<Option<BatchHit>, Error>| #[trigger]
            call_ensures(judge_batch::<B>, (keys, stride, addresses, base, context), r) ==> r is Ok,
{
    let s = stride as nat;
    assert forall|j: int|
        #![trigger addresses@[j]]
        #![trigger chain_scalar(keys@, s, j as nat)]
        0 <= j < addresses@.len() implies chain_scalar(keys@, s, j as nat) < group_order()
        && addresses@[j]@ == address_of(chain_scalar(keys@, s, j as nat)) by {
        let len = scalars_per_chain(stride) as int;
        let chain = (j / len) as nat;
        let step = (j % len) as nat;
        vstd::arithmetic::div_mod::lemma_fundamental_div_mod(j, len);
        vstd::arithmetic::div_mod::lemma_div_pos_is_pos(j, len);
        vstd::arithmetic::div_mod::lemma_mod_bound(j, len);
        vstd::arithmetic::mul::lemma_mul_is_commutative(chain as int, len);
        assert(place_of(stride, chain, step) == j);
        lemma_place(j as nat, stride, chain, step);
        assert(keys@[chain as int] == keys@[chain as int]);
    }
    assert(chain_addresses(keys@, s, addresses@));
}

/// The place in a batch of a step along a chain.
pub open spec fn place_of(stride: usize, chain: nat, step: nat) -> int {
    (chain * scalars_per_chain(stride) + step) as int
}

/// Of a batch that is judged well, where any digit of the targets is matched, one
/// match is offered: none of the batch matches more digits, and it is numbered by
/// its attempt.
pub proof fn law_best_of_a_batch_is_offered<'a, B: AddressBackend>(
    keys: &[SecretKey],
    stride: usize,
    addresses: &[Address],
    base: u64,
    at: int,
    digits: Seq<u8>,
    prefix: nat,
    suffix: nat,
)
    requires
        0 <= at < addresses@.len(),
        spells(digits, addresses@[at]@),
        prefix + suffix > 0,
        base + addresses@.len() <= u64::MAX,
    ensures
        forall|context: &mut WorkerContext<'a>, r: Result<Option<BatchHit>, Error>| #[trigger]
            call_ensures(
                judge_batch::<B>,
                (keys, stride, addresses, base, context),
                r,
            ) && r is Ok && agree_first(digits, context.targets.prefix@, prefix) && agree_last(
                digits,
                context.targets.suffix@,
                suffix,
            ) ==> {
                let new = final(context).offers().last().new;
                &&& final(context).offers().len() == context.offers().len() + 1
                &&& new.prefix_match + new.suffix_match >= prefix + suffix
                &&& new.score == new.prefix_match + new.suffix_match
                &&& base < new.tries <= base + addresses@.len()
            },
{
    assert forall|context: &mut WorkerContext<'a>, r: Result<Option<BatchHit>, Error>| #[trigger]
        call_ensures(
            judge_batch::<B>,
            (keys, stride, addresses, base, context),
            r,
        ) && r is Ok && agree_first(digits, context.targets.prefix@, prefix) && agree_last(
            digits,
            context.targets.suffix@,
            suffix,
        ) implies ({
        let new = final(context).offers().last().new;
        &&& final(context).offers().len() == context.offers().len() + 1
        &&& new.prefix_match + new.suffix_match >= prefix + suffix
        &&& new.score == new.prefix_match + new.suffix_match
        &&& base < new.tries <= base + addresses@.len()
    }) by {
        let targets = *context.targets;
        lemma_spelled(digits, addresses@[at]@);
        lemma_first(digits, targets.prefix@, prefix);
        lemma_last(digits, targets.suffix@, suffix);
        assert(digits.len() == 40);
        assert(matches_some(addresses@, targets, at));
        let best = best_of(addresses@, targets);
        assert(best is Some);
        let other = byte_nibbles(addresses@[best->0.index as int]@);
        lemma_first(other, targets.prefix@, 0);
        lemma_last(other, targets.suffix@, 0);
    }
}

/// The match that a judged batch offers is numbered by its attempt: counted from
/// one behind the attempts before, the number is its place in the batch. It shows
/// the address at that place, the digits that this address matches, and the key of
/// the place.
pub proof fn law_offer_is_numbered_by_its_attempt<'a, B: AddressBackend>(
    keys: &[SecretKey],
    stride: usize,
    addresses: &[Address],
    base: u64,
    at: int,
    digits: Seq<u8>,
    chain: nat,
    step: nat,
    key_digits: Seq<u8>,
    len: nat,
)
    requires
        0 <= at < addresses@.len(),
        spells(digits, addresses@[at]@),
        base + addresses@.len() <= u64::MAX,
        at == chain * scalars_per_chain(stride) + step,
        step < scalars_per_chain(stride),
        key_digits.len() == 64,
        all_nibbles(key_digits),
        number_in(16, key_digits) == keys@[chain as int]@ + step,
    ensures
        forall|context: &mut WorkerContext<'a>, r: Result<Option<BatchHit>, Error>| #[trigger]
            call_ensures(
                judge_batch::<B>,
                (keys, stride, addresses, base, context),
                r,
            ) && r is Ok && final(context).offers().len() > context.offers().len()
                && final(context).offers().last().new.tries == base + at + 1 ==> {
                let new = final(context).offers().last().new;
                &&& shown(new.address, digits)
                &&& shown(new.private_key, key_digits)
                &&& agree_first(digits, context.targets.prefix@, len) <==> len <= new.prefix_match
                &&& agree_last(digits, context.targets.suffix@, len) <==> len <= new.suffix_match
            },
{
    assert forall|context: &mut WorkerContext<'a>, r: Result<Option<BatchHit>, Error>| #[trigger]
        call_ensures(
            judge_batch::<B>,
            (keys, stride, addresses, base, context),
            r,
        ) && r is Ok && final(context).offers().len() > context.offers().len()
            && final(context).offers().last().new.tries == base + at + 1 implies ({
        let new = final(context).offers().last().new;
        &&& shown(new.address, digits)
        &&& shown(new.private_key, key_digits)
        &&& agree_first(digits, context.targets.prefix@, len) <==> len <= new.prefix_match
        &&& agree_last(digits, context.targets.suffix@, len) <==> len <= new.suffix_match
    }) by {
        let targets = *context.targets;
        let new = final(context).offers().last().new;
        lemma_spelled(digits, addresses@[at]@);
        lemma_first(digits, targets.prefix@, len);
        lemma_last(digits, targets.suffix@, len);
        assert(digits.len() == 40);
        let best = best_of(addresses@, targets);
        assert(best is Some);
        assert(best->0.index == at);
        lemma_prefixed(digits, new.address);
        lemma_place(at as nat, stride, chain, step);
        lemma_key_shown(new.private_key, (keys@[chain as int]@ + step) as nat, key_digits);
    }
}

/// What a report says, by the points after which reports are made.
proof fn lemma_report(
    reports: Seq<Progress>,
    batches: Seq<Batch>,
    judged: nat,
    batch_size: nat,
    every: nat,
    i: int,
) -> (points: (nat, nat))
    requires
        reports_fit(reports, batches, judged, batch_size, every),
        0 <= i < reports.len(),
    ensures
        every > 0,
        points.0 < points.1 <= judged,
        reports[i].completed == points.1 * batch_size,
        reports[i].since_report == points.1 * batch_size - points.0 * batch_size,
        (points.0 * batch_size) / every < (points.1 * batch_size) / every,
        i == 0 ==> points.0 == 0,
        i > 0 ==> reports[i - 1].completed == points.0 * batch_size,
{
    let points = report_points(judged, batch_size, every);
    lemma_points(judged, batch_size, every);
    let previous = last_point(points.take(i));
    let point = points[i];
    assert(report_fits(reports[i], previous, point, batches, batch_size));
    if i > 0 {
        assert(points.take(i).last() == points[i - 1]);
        assert(report_fits(
            reports[i - 1],
            last_point(points.take(i - 1)),
            points[i - 1],
            batches,
            batch_size,
        ));
    }
    assert((point - previous) * batch_size == point * batch_size - previous * batch_size)
        by (nonlinear_arith);
    (previous, point)
}

/// Reports count on from one another: each says how many attempts there were in
/// all, and how many since the one before, which are those in between.
pub proof fn law_reports_add_up(
    reports: Seq<Progress>,
    batches: Seq<Batch>,
    judged: nat,
    batch_size: nat,
    every: nat,
    i: int,
)
    requires
        reports_fit(reports, batches, judged, batch_size, every),
        0 <= i < reports.len(),
        batch_size > 0,
    ensures
        every > 0,
        reports[i].since_report > 0,
        reports[i].completed <= judged * batch_size,
        i == 0 ==> reports[i].since_report == reports[i].completed,
        i > 0 ==> reports[i].completed == reports[i - 1].completed + reports[i].since_report,
{
    let (previous, point) = lemma_report(reports, batches, judged, batch_size, every, i);
    assert(previous * batch_size < point * batch_size <= judged * batch_size) by (nonlinear_arith)
        requires
            previous < point <= judged,
            batch_size > 0,
    ;
    if previous == 0 {
        assert(previous * batch_size == 0) by (nonlinear_arith)
            requires
                previous == 0,
        ;
    }
}

/// A report is made only where a multiple of the interval lies among the attempts
/// since the one before.
pub proof fn law_report_passed_a_multiple(
    reports: Seq<Progress>,
    batches: Seq<Batch>,
    judged: nat,
    batch_size: nat,
    every: nat,
    i: int,
)
    requires
        reports_fit(reports, batches, judged, batch_size, every),
        0 <= i < reports.len(),
    ensures
        exists|k: int|
            reports[i].completed - reports[i].since_report < #[trigger] (k * every)
                <= reports[i].completed,
{
    let (previous, point) = lemma_report(reports, batches, judged, batch_size, every, i);
    lemma_multiple_passed(
        (previous * batch_size) as int,
        (point * batch_size) as int,
        every as int,
    );
}

/// The sample of a report is the last address of the batch that the report was
/// made after.
pub proof fn law_sample_is_the_last_address(
    reports: Seq<Progress>,
    batches: Seq<Batch>,
    judged: nat,
    batch_size: nat,
    every: nat,
    i: int,
    finished: int,
)
    requires
        reports_fit(reports, batches, judged, batch_size, every),
        0 <= i < reports.len(),
        batch_size > 0,
        reports[i].completed == finished * batch_size,
    ensures
        1 <= finished <= batches.len(),
        reports[i].sample == batches[finished - 1].addresses[batch_size - 1],
{
    let points = report_points(judged, batch_size, every);
    let point = points[i] as int;
    assert(report_fits(reports[i], last_point(points.take(i)), points[i], batches, batch_size));
    assert(finished == point) by (nonlinear_arith)
        requires
            finished * batch_size == point * batch_size,
            batch_size > 0,
    ;
}

/// No report is left out: behind the last one, no multiple of the interval was
/// passed.
pub proof fn law_no_report_is_missing(
    reports: Seq<Progress>,
    batches: Seq<Batch>,
    judged: nat,
    batch_size: nat,
    every: nat,
    k: int,
)
    requires
        reports_fit(reports, batches, judged, batch_size, every),
        every > 0,
        batch_size > 0,
        0 < k * every <= judged * batch_size,
    ensures
        reports.len() > 0,
        k * every <= reports.last().completed,
{
    let points = report_points(judged, batch_size, every);
    lemma_points(judged, batch_size, every);
    let last = last_point(points);
    lemma_multiple_passed(
        (last * batch_size) as int,
        (judged * batch_size) as int,
        every as int,
    );
    assert(k * every <= last * batch_size);
    if reports.len() == 0 {
        assert(last * batch_size == 0) by (nonlinear_arith)
            requires
                last == 0,
        ;
    } else {
        let i = reports.len() - 1;
        assert(report_fits(
            reports[i],
            last_point(points.take(i)),
            points[i],
            batches,
            batch_size,
        ));
    }
}

/// Points rise, each with a multiple passed since the one before, and behind the
/// last none was.
proof fn lemma_points(judged: nat, batch_size: nat, every: nat)
    ensures
        ({
            let points = report_points(judged, batch_size, every);
            &&& points.len() > 0 ==> every > 0
            &&& last_point(points) <= judged
            &&& every > 0 ==> (last_point(points) * batch_size) / every >= (judged * batch_size)
                / every
            &&& forall|i: int|
                0 <= i < points.len() ==> last_point(points.take(i)) < #[trigger] points[i]
                    && points[i] <= judged && (last_point(points.take(i)) * batch_size) / every < (
                points[i] * batch_size) / every
        }),
    decreases judged,
{
    let points = report_points(judged, batch_size, every);
    if judged > 0 {
        let before = (judged - 1) as nat;
        let earlier = report_points(before, batch_size, every);
        lemma_points(before, batch_size, every);
        assert forall|i: int| 0 <= i < points.len() implies last_point(points.take(i))
            < #[trigger] points[i] && points[i] <= judged && (last_point(points.take(i))
            * batch_size) / every < (points[i] * batch_size) / every by {
            if i < earlier.len() {
                assert(points.take(i) =~= earlier.take(i));
                assert(points[i] == earlier[i]);
            } else {
                assert(points.take(i) =~= earlier);
            }
        }
    }
}

/// A span is the whole seconds and the rest of one look at the clock.
pub proof fn law_span_is_of_one_look(start: &std::time::Instant, r: Elapsed)
    requires
        call_ensures(elapsed_since, (start,), r),
    ensures
        r.nanos < 1_000_000_000,
        exists|span: std::time::Duration| #[trigger]
            call_ensures(std::time::Instant::elapsed, (start,), span) && call_ensures(
                std::time::Duration::as_secs,
                (&span,),
                r.secs,
            ) && call_ensures(std::time::Duration::subsec_nanos, (&span,), r.nanos),
{
}

/// A timestamp is the text that the clock gave, or says that there is none.
pub proof fn law_timestamp(formatted: String, given: String, missing: String)
    requires
        call_ensures(timestamp_text, (Some(formatted),), given),
        call_ensures(timestamp_text, (None::<String>,), missing),
    ensures
        given@ == formatted@,
        missing@ == seq!['N', 'A'],
{
    reveal_strlit("NA");
    assert(missing@ =~= seq!['N', 'A']);
}

}
