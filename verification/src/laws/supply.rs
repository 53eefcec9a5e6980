//! Where keys come from and how they reach the search.
use crate::chain::chain_count;
use crate::entropy::{accept_draw, generate_chain_start, generate_secret_key, KeyRng};
use crate::error::Error;
use crate::pipeline::{
    accept_sequence, after_offer, after_receive, check_pipeline_batch, prepare_batch, prepare_keys,
    produce, receive, send, settle, uses_pipeline, Discard, PipelineSource, PreparedBatch,
    ProducerEnd, SendStep,
};
use crate::queue::{Inbox, Offered, Outbox, Received, Sending, Turn};
use crate::scalar::SecretKey;
use crate::search::HitRecord;
use crate::source::{clone_key_batch, fill_secret_keys, KeyBatch, KeySource, SequentialSource};
use crate::worker::StopWatch;
use std::sync::atomic::AtomicBool;
use vstd::prelude::*;

verus! {

use crate::backend::scalars;
use crate::entropy::{
    advanced, descends, draw_accepted, first_accepted, is_draw, lemma_descends_self,
    lemma_descends_twice, lemma_draw_of_ancestor, lemma_drew_all,
};
use crate::laws::digits::{lemma_number_of_bytes, number_in};
use crate::laws::keys::group_order;
use crate::pipeline::{
    batch_filled, delivered, producer_ended, production, receive_ends, received, rounds, send_ends,
    sent_all, sent_one, ProducerState,
};
use crate::queue::{sent, values};
use crate::scalar::{be_value, erased_bytes, is_scalar};
use crate::worker::flag_reads;

/// Whether drawn bytes spell a scalar from which a chain of `len` scalars can be
/// walked without a doubling and without infinity.
pub open spec fn acceptable(bytes: Seq<u8>, len: nat) -> bool {
    let number = number_in(256, bytes);
    &&& 0 < number < group_order()
    &&& forall|i: nat| 0 < i < len ==> number != i && #[trigger] (number + i) != group_order()
}

/// A draw is accepted exactly when it is acceptable.
proof fn lemma_acceptable(bytes: Seq<u8>, len: nat)
    ensures
        draw_accepted(bytes, len) <==> acceptable(bytes, len),
{
    lemma_number_of_bytes(bytes);
    let number = number_in(256, bytes);
    if is_scalar(number) && len > 1 {
        if number < len {
            let i = number;
            assert(0 < i < len && number + i == number + number);
        } else if number + len - 1 >= group_order() {
            let i = (group_order() - number) as nat;
            assert(0 < i < len && number + i == group_order());
        }
    }
}

/// One draw gives a key exactly when it is acceptable, and the key is the number
/// that it spells.
pub proof fn law_draw_gives_a_key(bytes: &[u8; 32], len: usize, r: Option<SecretKey>)
    requires
        call_ensures(accept_draw, (bytes, len), r),
    ensures
        r is Some <==> acceptable(bytes@, len as nat),
        r matches Some(key) ==> key@ == number_in(256, bytes@),
{
    lemma_acceptable(bytes@, len as nat);
    lemma_number_of_bytes(bytes@);
}

/// Whether a key is the first acceptable draw of a generator.
pub open spec fn first_of<R: KeyRng>(rng: R, len: nat, key: nat) -> bool {
    exists|n: nat|
        acceptable(#[trigger] rng.draw(n), len) && key == number_in(256, rng.draw(n)) && forall|
            j: nat,
        |
            j < n ==> !acceptable(#[trigger] rng.draw(j), len)
}

/// Whether the first accepted draw is the first acceptable one.
proof fn lemma_first_of<R: KeyRng>(rng: R, len: nat, n: nat)
    requires
        first_accepted(rng, len, n),
    ensures
        first_of(rng, len, number_in(256, rng.draw(n))),
{
    lemma_acceptable(rng.draw(n), len);
    assert forall|j: nat| j < n implies !acceptable(#[trigger] rng.draw(j), len) by {
        lemma_acceptable(rng.draw(j), len);
    }
}

/// A chain start is the first acceptable draw, so none is passed over and none is
/// changed.
pub proof fn law_start_is_the_first_acceptable_draw<R: KeyRng>(len: usize, key: SecretKey)
    ensures
        forall|rng: &mut R, r: Result<SecretKey, Error>| #[trigger]
            call_ensures(generate_chain_start::<R>, (rng, len), r) && r == Ok::<SecretKey, Error>(
                key,
            ) ==> first_of(*rng, len as nat, key@),
        forall|rng: &mut R, r: Result<SecretKey, Error>| #[trigger]
            call_ensures(generate_secret_key::<R>, (rng,), r) && r == Ok::<SecretKey, Error>(
                key,
            ) ==> first_of(*rng, 1, key@),
{
    assert forall|rng: &mut R, r: Result<SecretKey, Error>| #[trigger]
        call_ensures(generate_chain_start::<R>, (rng, len), r) && r == Ok::<SecretKey, Error>(
            key,
        ) implies first_of(*rng, len as nat, key@) by {
        let n = choose|n: nat| #[trigger]
            first_accepted(*rng, len as nat, n) && key@ == be_value(rng.draw(n))
                && advanced(*rng, *final(rng), n + 1);
        lemma_first_of(*rng, len as nat, n);
        lemma_number_of_bytes(rng.draw(n));
    }
    assert forall|rng: &mut R, r: Result<SecretKey, Error>| #[trigger]
        call_ensures(generate_secret_key::<R>, (rng,), r) && r == Ok::<SecretKey, Error>(
            key,
        ) implies first_of(*rng, 1, key@) by {
        let n = choose|n: nat| #[trigger]
            first_accepted(*rng, 1, n) && key@ == be_value(rng.draw(n))
                && advanced(*rng, *final(rng), n + 1);
        lemma_first_of(*rng, 1, n);
        lemma_number_of_bytes(rng.draw(n));
    }
}

/// Whether a key is an acceptable draw of a generator.
pub open spec fn drawn_of<R: KeyRng>(rng: R, len: nat, key: nat) -> bool {
    exists|n: nat| acceptable(#[trigger] rng.draw(n), len) && key == number_in(256, rng.draw(n))
}

/// An accepted draw is an acceptable one.
pub proof fn lemma_drawn_of<R: KeyRng>(rng: R, len: nat, scalar: nat)
    requires
        is_draw(rng, len, scalar),
    ensures
        drawn_of(rng, len, scalar),
{
    let n = choose|n: nat|
        draw_accepted(#[trigger] rng.draw(n), len) && scalar == be_value(rng.draw(n));
    lemma_acceptable(rng.draw(n), len);
    lemma_number_of_bytes(rng.draw(n));
}

/// A batch that was filled has as many keys as it should, or those that it had,
/// and every one of them is an acceptable draw.
pub proof fn law_filled_batch_is_drawn<R: KeyRng>(count: usize, stride: usize, i: int)
    ensures
        forall|rng: &mut R, batch: &mut KeyBatch, r: Result<(), Error>| #[trigger]
            call_ensures(fill_secret_keys::<R>, (rng, batch, count, stride), r) && r is Ok ==> {
                &&& final(batch).0@.len() >= count
                &&& final(batch).0@.len() >= batch.0@.len()
                &&& final(batch).0@.len() == count || final(batch).0@.len() == batch.0@.len()
                &&& 0 <= i < final(batch).0@.len() ==> drawn_of(
                    *rng,
                    stride as nat,
                    final(batch).0@[i]@,
                )
            },
{
    assert forall|rng: &mut R, batch: &mut KeyBatch, r: Result<(), Error>| #[trigger]
        call_ensures(fill_secret_keys::<R>, (rng, batch, count, stride), r) && r is Ok && 0 <= i
            < final(batch).0@.len() implies drawn_of(
        *rng,
        stride as nat,
        final(batch).0@[i]@,
    ) by {
        let drawn = scalars(final(batch).0@);
        let len = stride as nat;
        lemma_drew_all(*rng, *final(rng), len, drawn);
        assert(drawn[i] == final(batch).0@[i]@);
        lemma_drawn_of(*rng, len, drawn[i]);
    }
}

/// A copy of a batch has the same keys in the same order.
pub proof fn law_copied_batch(keys: &[SecretKey], r: KeyBatch, i: int)
    requires
        call_ensures(clone_key_batch, (keys,), r),
    ensures
        r.0@.len() == keys@.len(),
        0 <= i < keys@.len() ==> r.0@[i] == keys@[i],
{
}

/// A wait on a queue ends with the value that came. Where nothing came it goes on
/// until the search is told to stop; an end that is gone is an error unless it
/// was.
pub proof fn law_wait_is_answered<T>(
    received: Received<T>,
    stopping: bool,
    r: Option<Result<Option<T>, Error>>,
)
    requires
        call_ensures(after_receive::<T>, (received, stopping), r),
    ensures
        r is None <==> received is Timeout && !stopping,
        received matches Received::Value(value) ==> r == Some(Ok::<Option<T>, Error>(Some(value))),
        !(received is Value) && stopping ==> r == Some(Ok::<Option<T>, Error>(None)),
        received is Disconnected && !stopping ==> r == Some(
            Err::<Option<T>, Error>(Error::SourceDisconnected),
        ),
{
}

/// A value that was offered is taken, offered again or cleared, never lost from
/// sight: what comes back is what was offered.
pub proof fn law_offer_is_answered<T>(offered: Offered<T>, stopping: bool, r: SendStep<T>)
    requires
        call_ensures(after_offer::<T>, (offered, stopping), r),
    ensures
        r is Taken <==> offered is Taken,
        r is Again <==> offered is Timeout && !stopping,
        offered matches Offered::Timeout(value) ==> (r matches SendStep::Again(again) ==> again
            == value) && (r matches SendStep::Lost(lost, said) ==> lost == value && said == Ok::<
            bool,
            Error,
        >(false)),
        offered matches Offered::Disconnected(value) ==> r == SendStep::Lost(
            value,
            if stopping {
                Ok::<bool, Error>(false)
            } else {
                Err(Error::ConsumerDisconnected)
            },
        ),
{
}

/// A batch is accepted exactly when its number is the one that is due, and the
/// next is one more.
pub proof fn law_batches_are_numbered(expected: u64, sequence: u64, r: Result<u64, Error>)
    requires
        call_ensures(accept_sequence, (expected, sequence), r),
    ensures
        r is Ok <==> sequence == expected && expected < u64::MAX,
        r matches Ok(next) ==> next == sequence + 1,
        sequence != expected ==> r == Err::<u64, Error>(Error::BatchOrder),
        sequence == expected && r is Err ==> r == Err::<u64, Error>(Error::SequenceOverflow),
{
}

/// Keys are drawn ahead for batches of 65536 addresses and more, and such batches
/// have 262144 at most.
pub proof fn law_large_batches_are_drawn_ahead(
    batch_size: usize,
    ahead: bool,
    checked: Result<(), Error>,
)
    requires
        call_ensures(uses_pipeline, (batch_size,), ahead),
        call_ensures(check_pipeline_batch, (batch_size,), checked),
    ensures
        ahead <==> 65_536 <= batch_size,
        checked is Ok <==> 0 < batch_size <= 262_144,
        checked matches Err(e) ==> e == Error::InvalidPipelineBatch,
{
}

/// What the search found counts only where the thread that drew the keys ended
/// well; its failure is never hidden.
pub proof fn law_producer_failure_shows(
    producer: ProducerEnd,
    found: Result<Option<HitRecord>, Error>,
    r: Result<Option<HitRecord>, Error>,
)
    requires
        call_ensures(settle, (producer, found), r),
    ensures
        producer is Panicked ==> r == Err::<Option<HitRecord>, Error>(Error::ProducerPanicked),
        producer matches ProducerEnd::Finished(Err(e)) ==> r == Err::<Option<HitRecord>, Error>(e),
        producer matches ProducerEnd::Finished(Ok(_)) ==> r == found,
{
}

/// What is received is the last that came, and nothing is received only where the
/// stop flag was last read as raised. A wait lasts ten milliseconds at a time.
pub proof fn law_received_value_came_last<T>(stop: &AtomicBool)
    ensures
        forall|inbox: &mut Inbox<T>, r: Result<Option<T>, Error>| #[trigger]
            call_ensures(receive::<T>, (inbox, stop), r) ==> {
                let last = final(inbox).log().last();
                &&& r matches Ok(Some(value)) ==> last == Turn::Wait(10, Received::Value(value))
                &&& r matches Ok(None) ==> last == Turn::<Received<T>>::Read(*stop, true)
                &&& r is Err ==> last == Turn::<Received<T>>::Read(*stop, false)
            },
{
    assert forall|inbox: &mut Inbox<T>, r: Result<Option<T>, Error>| #[trigger]
        call_ensures(receive::<T>, (inbox, stop), r) implies ({
        let last = final(inbox).log().last();
        &&& r matches Ok(Some(value)) ==> last == Turn::Wait(10, Received::Value(value))
        &&& r matches Ok(None) ==> last == Turn::<Received<T>>::Read(*stop, true)
        &&& r is Err ==> last == Turn::<Received<T>>::Read(*stop, false)
    }) by {
        let before = inbox.log();
        let after = final(inbox).log();
        assert(received(before, after, stop, r));
        let (times, end) = choose|times: nat, end: Seq<Turn<Received<T>>>|
            after == before + rounds(*stop, times, Received::<T>::Timeout) + end
                && #[trigger] receive_ends(*stop, times, end, r);
        assert(after.last() == end.last());
    }
}

/// A value counts as sent only where the other end took that very value last, and
/// as not sent only where the stop flag was last read as raised.
pub proof fn law_sent_value_was_taken<T: Discard>(value: T, stop: &AtomicBool)
    ensures
        forall|outbox: &mut Outbox<T>, r: Result<bool, Error>| #[trigger]
            call_ensures(send::<T>, (outbox, value, stop), r) ==> {
                let last = final(outbox).log().last();
                &&& r == Ok::<bool, Error>(true) ==> last == Turn::Wait(10, Sending::Taken(value))
                &&& r == Ok::<bool, Error>(false) ==> last == Turn::<Sending<T>>::Read(*stop, true)
                &&& r is Err ==> last == Turn::<Sending<T>>::Read(*stop, false)
            },
{
    assert forall|outbox: &mut Outbox<T>, r: Result<bool, Error>| #[trigger]
        call_ensures(send::<T>, (outbox, value, stop), r) implies ({
        let last = final(outbox).log().last();
        &&& r == Ok::<bool, Error>(true) ==> last == Turn::Wait(10, Sending::Taken(value))
        &&& r == Ok::<bool, Error>(false) ==> last == Turn::<Sending<T>>::Read(*stop, true)
        &&& r is Err ==> last == Turn::<Sending<T>>::Read(*stop, false)
    }) by {
        let before = outbox.log();
        let after = final(outbox).log();
        assert(delivered(before, after, value, stop, r));
        let (times, end) = choose|times: nat, end: Seq<Turn<Sending<T>>>|
            after == before + rounds(*stop, times, Sending::Full(value)) + end
                && #[trigger] send_ends(*stop, times, value, end, r);
        assert(after.last() == end.last());
    }
}

/// Every key of a batch that was wiped is 32 bytes of one.
pub proof fn law_wiped_batch_tells_nothing(ones: Seq<u8>, i: int)
    requires
        ones.len() == 32,
        forall|k: int| 0 <= k < 32 ==> ones[k] == 1,
    ensures
        forall|batch: &mut KeyBatch| #[trigger]
            call_ensures(KeyBatch::wipe, (batch,), ()) && 0 <= i < batch.0@.len() ==> {
                &&& final(batch).0@.len() == batch.0@.len()
                &&& final(batch).0@[i]@ == number_in(256, ones)
            },
{
    lemma_number_of_bytes(ones);
    assert(ones =~= erased_bytes());
}

/// While keys are drawn ahead, the stop flag is read once for every 1024 of them:
/// as often as that takes, and no more.
pub proof fn law_flag_is_read_in_between<'a, R: KeyRng>(count: usize, stride: usize)
    ensures
        forall|
            rng: &mut R,
            batch: &mut KeyBatch,
            watch: &mut StopWatch<'a>,
            r: Result<bool, Error>,
        | #[trigger]
            call_ensures(prepare_keys::<R>, (rng, batch, count, stride, watch), r) && r == Ok::<
                bool,
                Error,
            >(true) ==> {
                let looks = final(watch).reads().len() - watch.reads().len();
                &&& 1024 * looks >= count
                &&& count > 0 ==> 1024 * (looks - 1) < count
            },
{
}

/// A source of prepared batches hands out only what came in turn: the batch whose
/// number was due. It asks for the next only once the last was given back.
pub proof fn law_batches_come_in_turn(
    before: PipelineSource,
    stop: &AtomicBool,
    after: PipelineSource,
    keys: Seq<SecretKey>,
)
    requires
        PipelineSource::gives(before, stop, after, Ok(Some(keys))),
    ensures
        before.current() is None,
        after.current() is Some,
        after.current()->0.sequence == before.expected(),
        after.current()->0.keys.0@ == keys,
        after.expected() == before.expected() + 1,
        values(after.ready_log()) == values(before.ready_log()).push(after.current()->0),
{
}

/// A batch that is given back goes to be filled again, or is cleared where the
/// search was told to stop; the source then holds none.
pub proof fn law_batch_goes_back(
    before: PipelineSource,
    stop: &AtomicBool,
    after: PipelineSource,
    r: Result<(), Error>,
)
    requires
        PipelineSource::takes_back(before, stop, after, r),
        before.current() is Some,
    ensures
        after.current() is None,
        after.expected() == before.expected(),
        r is Ok ==> sent(after.recycle_log()) == sent(before.recycle_log()).push(
            before.current()->0,
        ) || (flag_reads(stop, true) && call_ensures(
            PreparedBatch::discard,
            (before.current()->0,),
            (),
        )),
        r is Err ==> call_ensures(PreparedBatch::discard, (before.current()->0,), ()),
{
}

/// Whether a prepared batch has its number and at least `count` keys, of which the
/// first `count` are acceptable draws of the generator.
pub open spec fn prepared_well<R: KeyRng>(
    batch: PreparedBatch,
    number: int,
    rng: R,
    stride: nat,
    count: nat,
) -> bool {
    &&& batch.sequence == number
    &&& batch.keys.0@.len() >= count
    &&& forall|k: int|
        0 <= k < count ==> drawn_of(rng, stride, (#[trigger] batch.keys.0@[k])@)
}

/// A batch that is prepared has the number and the keys that it should.
pub proof fn law_prepared_batch<'a, R: KeyRng>(
    batch: PreparedBatch,
    sequence: u64,
    count: usize,
    stride: usize,
)
    ensures
        forall|rng: &mut R, watch: &mut StopWatch<'a>, r: Result<Option<PreparedBatch>, Error>|
            #[trigger]
            call_ensures(
                prepare_batch::<R>,
                (rng, batch, sequence, count, stride, watch),
                r,
            ) && r is Ok && r->Ok_0 is Some ==> prepared_well(
                r->Ok_0->0,
                sequence as int,
                *rng,
                stride as nat,
                count as nat,
            ),
{
    assert forall|rng: &mut R, watch: &mut StopWatch<'a>, r: Result<Option<PreparedBatch>, Error>|
        #[trigger]
        call_ensures(
            prepare_batch::<R>,
            (rng, batch, sequence, count, stride, watch),
            r,
        ) && r is Ok && r->Ok_0 is Some implies prepared_well(
        r->Ok_0->0,
        sequence as int,
        *rng,
        stride as nat,
        count as nat,
    ) by {
        lemma_filled(
            *rng,
            *rng,
            *final(rng),
            stride as nat,
            count as nat,
            batch,
            r->Ok_0->0,
            sequence as nat,
        );
    }
}

/// A batch that was filled is prepared well, also as seen from an earlier state of
/// the generator.
proof fn lemma_filled<R: KeyRng>(
    first: R,
    from: R,
    to: R,
    stride: nat,
    count: nat,
    back: PreparedBatch,
    batch: PreparedBatch,
    number: nat,
)
    requires
        descends(first, from) || first == from,
        batch_filled(from, to, stride, count, back, batch, number),
    ensures
        prepared_well(batch, number as int, first, stride, count),
        descends(first, to),
{
    let drawn = scalars(batch.keys.0@.take(count as int));
    if first == from {
        lemma_descends_self(from);
    }
    lemma_drew_all(from, to, stride, drawn);
    lemma_descends_twice(first, from, to);
    assert forall|k: int| 0 <= k < count implies drawn_of(
        first,
        stride,
        (#[trigger] batch.keys.0@[k])@,
    ) by {
        assert(drawn[k] == batch.keys.0@[k]@);
        lemma_draw_of_ancestor(first, from, stride, drawn[k]);
        lemma_drawn_of(first, stride, drawn[k]);
    }
}

/// Batches that went out are prepared well and numbered from zero on.
proof fn lemma_sent_well<R: KeyRng>(
    before: ProducerState<R>,
    after: ProducerState<R>,
    stop: &AtomicBool,
    stride: nat,
    count: nat,
    back: Seq<PreparedBatch>,
    batches: Seq<PreparedBatch>,
)
    requires
        sent_all(before, after, stop, stride, count, back, batches),
    ensures
        descends(before.rng, after.rng),
        sent(after.ready) == sent(before.ready) + batches,
        forall|i: int|
            0 <= i < batches.len() ==> prepared_well(
                #[trigger] batches[i],
                i,
                before.rng,
                stride,
                count,
            ),
    decreases batches.len(),
{
    if batches.len() == 0 {
        lemma_descends_self(before.rng);
        assert(sent(before.ready) + batches =~= sent(before.ready));
    } else {
        let last = (batches.len() - 1) as nat;
        let fewer = batches.drop_last();
        let mid = choose|mid: ProducerState<R>|
            sent_all(before, mid, stop, stride, count, back, fewer) && #[trigger] sent_one(
                mid,
                after,
                stop,
                stride,
                count,
                back[last as int],
                batches.last(),
                last,
            );
        lemma_sent_well(before, mid, stop, stride, count, back, fewer);
        lemma_filled(
            before.rng,
            mid.rng,
            after.rng,
            stride,
            count,
            back[last as int],
            batches.last(),
            last,
        );
        assert(sent(before.ready) + batches =~= (sent(before.ready) + fewer).push(batches.last()));
        assert forall|i: int| 0 <= i < batches.len() implies prepared_well(
            #[trigger] batches[i],
            i,
            before.rng,
            stride,
            count,
        ) by {
            if i < last {
                assert(batches[i] == fewer[i]);
            }
        }
    }
}

/// A producer sends batches numbered from zero on, each with a start for every
/// chain, all of them acceptable draws of its generator.
pub proof fn law_produced_batches<R: KeyRng>(
    stop: &AtomicBool,
    batch_size: usize,
    stride: usize,
    chains: usize,
    i: int,
)
    requires
        call_ensures(chain_count, (batch_size, stride), chains),
    ensures
        forall|
            recycle: &mut Inbox<PreparedBatch>,
            ready: &mut Outbox<PreparedBatch>,
            rng: &mut R,
            r: Result<(), Error>,
        | #[trigger]
            call_ensures(
                produce::<R>,
                (recycle, ready, stop, batch_size, stride, rng),
                r,
            ) ==> {
                let earlier = sent(ready.log());
                let all = sent(final(ready).log());
                &&& earlier.is_prefix_of(all)
                &&& 0 <= i < all.len() - earlier.len() ==> prepared_well(
                    all[earlier.len() + i],
                    i,
                    *rng,
                    stride as nat,
                    chains as nat,
                )
            },
{
    assert forall|
        recycle: &mut Inbox<PreparedBatch>,
        ready: &mut Outbox<PreparedBatch>,
        rng: &mut R,
        r: Result<(), Error>,
    | #[trigger]
        call_ensures(produce::<R>, (recycle, ready, stop, batch_size, stride, rng), r) implies ({
        let earlier = sent(ready.log());
        let all = sent(final(ready).log());
        &&& earlier.is_prefix_of(all)
        &&& 0 <= i < all.len() - earlier.len() ==> prepared_well(
            all[earlier.len() + i],
            i,
            *rng,
            stride as nat,
            chains as nat,
        )
    }) by {
        let before = ProducerState { recycle: recycle.log(), ready: ready.log(), rng: *rng };
        let after = ProducerState {
            recycle: final(recycle).log(),
            ready: final(ready).log(),
            rng: *final(rng),
        };
        let s = stride as nat;
        let count = chains as nat;
        assert(production(before, after, stop, s, count, r));
        let (at, back, batches) = choose|
            at: ProducerState<R>,
            back: Seq<PreparedBatch>,
            batches: Seq<PreparedBatch>,
        |
            back.len() == batches.len() && #[trigger] sent_all(
                before,
                at,
                stop,
                s,
                count,
                back,
                batches,
            ) && producer_ended(at, after, stop, s, count, batches.len(), r);
        lemma_sent_well(before, at, stop, s, count, back, batches);
        assert(sent(after.ready) == sent(at.ready));
        let earlier = sent(before.ready);
        assert(earlier =~= sent(after.ready).subrange(0, earlier.len() as int));
        if 0 <= i < batches.len() {
            assert(sent(after.ready)[earlier.len() + i] == batches[i]);
        }
    }
}

/// A draw is not given up on while there is an acceptable one among those that are
/// looked at.
pub proof fn law_acceptable_draw_is_found<R: KeyRng>(len: usize, n: nat)
    requires
        n < u64::MAX,
    ensures
        forall|rng: &mut R, r: Result<SecretKey, Error>| #[trigger]
            call_ensures(generate_chain_start::<R>, (rng, len), r) && acceptable(
                rng.draw(n),
                len as nat,
            ) ==> r is Ok,
{
    assert forall|rng: &mut R, r: Result<SecretKey, Error>| #[trigger]
        call_ensures(generate_chain_start::<R>, (rng, len), r) && acceptable(
            rng.draw(n),
            len as nat,
        ) implies r is Ok by {
        let first = lemma_first_exists(*rng, len as nat, n);
        assert(first < u64::MAX && first_accepted(*rng, len as nat, first));
    }
}

/// Up to an acceptable draw there is a first one.
proof fn lemma_first_exists<R: KeyRng>(rng: R, len: nat, n: nat) -> (first: nat)
    requires
        acceptable(rng.draw(n), len),
    ensures
        first <= n,
        first_accepted(rng, len, first),
    decreases n,
{
    lemma_acceptable(rng.draw(n), len);
    if exists|j: nat| j < n && draw_accepted(#[trigger] rng.draw(j), len) {
        let j = choose|j: nat| j < n && draw_accepted(#[trigger] rng.draw(j), len);
        lemma_acceptable(rng.draw(j), len);
        lemma_first_exists(rng, len, j)
    } else {
        n
    }
}

/// A source that draws on the searching thread hands out a start for every chain of
/// a batch, each an acceptable draw of its generator, and nothing where the search
/// was told to stop.
pub proof fn law_source_hands_out_draws<'a, R: KeyRng>(
    before: SequentialSource<'a, R>,
    stop: &AtomicBool,
    after: SequentialSource<'a, R>,
    r: Result<Option<Seq<SecretKey>>, Error>,
    i: int,
)
    requires
        SequentialSource::<'a, R>::gives(before, stop, after, r),
        before.held().len() <= before.chains(),
    ensures
        r matches Ok(Some(keys)) ==> flag_reads(stop, false) && keys.len() == before.chains() && (0
            <= i < keys.len() ==> drawn_of(before.generator(), before.stride(), keys[i]@)),
        r matches Ok(None) ==> flag_reads(stop, true),
        after.chains() == before.chains() && after.stride() == before.stride(),
{
    if let Ok(Some(keys)) = r {
        let drawn = scalars(keys);
        lemma_drew_all(before.generator(), after.generator(), before.stride(), drawn);
        if 0 <= i < keys.len() {
            assert(drawn[i] == keys[i]@);
            lemma_drawn_of(before.generator(), before.stride(), drawn[i]);
        }
    }
}

}
