//! Two owned batches that go round between a thread that draws keys and the
//! thread that searches. The producer knows nothing about devices, matching or
//! files, and no secret batch is copied.
use crate::backend::MAX_GPU_BATCH_SIZE;
use crate::chain::chain_count;
use crate::entropy::{generate_chain_start, KeyRng};
use crate::error::Error;
use crate::queue::{recv_for, send_for, Inbox, Offered, Outbox, Received};
use crate::scalar::SecretKey;
use crate::search::HitRecord;
use crate::source::{KeyBatch, KeySource};
use crate::worker::{stop_all, StopWatch};
use std::sync::atomic::AtomicBool;
use vstd::prelude::*;

verus! {

use crate::backend::scalars;
use crate::chain::{chains_for, start_accepted};
use crate::entropy::{advanced, drew_all, exhausted, lemma_drew_next};
use crate::queue::{
    lemma_sent_push, lemma_values_of_reads, lemma_values_push, reads_of, sent, values, Sending,
    Turn,
};
use crate::search::batch_size_allowed;
use crate::worker::{flag_raised, flag_reads};

/// The smallest batch for which keys are drawn ahead on a thread of their own.
pub const MIN_PIPELINED_BATCH: usize = 65_536;

/// How long a wait on a queue lasts before the stop flag is looked at again.
pub const CANCEL_POLL_MILLIS: u64 = 10;

/// How many keys are drawn before the stop flag is looked at again.
pub const PREPARE_CHUNK: usize = 1_024;

/// What must be cleared before it is thrown away.
pub trait Discard: Sized {
    /// Clears the value and throws it away.
    fn discard(self);
}

/// What a wait on a queue comes to, given what the stop flag says behind it.
/// `None` says that the wait goes on: nothing came in time, and the search was
/// not told to stop. A queue whose other end is gone is an error unless the
/// search was told to stop.
pub fn after_receive<T>(received: Received<T>, stopping: bool) -> (r: Option<
    Result<Option<T>, Error>,
>)
    ensures
        r == (match received {
            Received::Value(value) => Some(Ok::<Option<T>, Error>(Some(value))),
            Received::Timeout => if stopping {
                Some(Ok(None))
            } else {
                None
            },
            Received::Disconnected => if stopping {
                Some(Ok(None))
            } else {
                Some(Err(Error::SourceDisconnected))
            },
        }),
{
    match received {
        Received::Value(value) => Some(Ok(Some(value))),
        Received::Timeout => if stopping {
            Some(Ok(None))
        } else {
            None
        },
        Received::Disconnected => if stopping {
            Some(Ok(None))
        } else {
            Some(Err(Error::SourceDisconnected))
        },
    }
}

/// What becomes of a value that was offered to a queue.
pub enum SendStep<T> {
    /// The other end has it.
    Taken,
    /// It is offered again.
    Again(T),
    /// It is cleared, and this is reported.
    Lost(T, Result<bool, Error>),
}

/// What an offer to a queue comes to, given what the stop flag says behind it. A
/// value for which there was no room in time is offered again unless the search
/// was told to stop. A queue whose other end is gone is an error unless it was.
pub fn after_offer<T>(offered: Offered<T>, stopping: bool) -> (r: SendStep<T>)
    ensures
        r == (match offered {
            Offered::Taken => SendStep::Taken,
            Offered::Timeout(value) => if stopping {
                SendStep::Lost(value, Ok::<bool, Error>(false))
            } else {
                SendStep::Again(value)
            },
            Offered::Disconnected(value) => if stopping {
                SendStep::Lost(value, Ok(false))
            } else {
                SendStep::Lost(value, Err(Error::ConsumerDisconnected))
            },
        }),
{
    match offered {
        Offered::Taken => SendStep::Taken,
        Offered::Timeout(value) => if stopping {
            SendStep::Lost(value, Ok(false))
        } else {
            SendStep::Again(value)
        },
        Offered::Disconnected(value) => if stopping {
            SendStep::Lost(value, Ok(false))
        } else {
            SendStep::Lost(value, Err(Error::ConsumerDisconnected))
        },
    }
}

/// So many times in turn, the stop flag was read as not raised and a wait came to
/// this.
pub open spec fn rounds<E>(flag: AtomicBool, times: nat, came: E) -> Seq<Turn<E>> {
    Seq::new(
        2 * times,
        |i: int|
            if i % 2 == 0 {
                Turn::Read(flag, false)
            } else {
                Turn::Wait(CANCEL_POLL_MILLIS, came)
            },
    )
}

/// One more turn of each kind is one more round.
proof fn lemma_one_more_round<E>(before: Seq<Turn<E>>, flag: AtomicBool, times: nat, came: E)
    ensures
        before + rounds(flag, times, came) + seq![
            Turn::Read(flag, false),
            Turn::Wait(CANCEL_POLL_MILLIS, came),
        ] == before + rounds(flag, times + 1, came),
        before + rounds(flag, 0, came) == before,
{
    assert(before + rounds(flag, times, came) + seq![
        Turn::Read(flag, false),
        Turn::Wait(CANCEL_POLL_MILLIS, came),
    ] =~= before + rounds(flag, times + 1, came));
    assert(before + rounds(flag, 0, came) =~= before);
}

/// How a wait ends that nothing came of so many times. The stop flag is read
/// before each wait, and once more behind one that found the other end gone. A
/// raised flag ends the wait at once; without one the wait ends with a value,
/// with the other end gone, or where it was tried as often as can be counted.
pub open spec fn receive_ends<T>(
    flag: AtomicBool,
    times: nat,
    end: Seq<Turn<Received<T>>>,
    r: Result<Option<T>, Error>,
) -> bool {
    let quiet = Turn::Read(flag, false);
    let gone = Turn::Wait(CANCEL_POLL_MILLIS, Received::<T>::Disconnected);
    match r {
        Ok(Some(value)) => end == seq![
            quiet,
            Turn::Wait(CANCEL_POLL_MILLIS, Received::Value(value)),
        ],
        Ok(None) => {
            ||| end == seq![Turn::<Received<T>>::Read(flag, true)]
            ||| end == seq![quiet, gone, Turn::Read(flag, true)]
        },
        Err(e) => {
            ||| e == Error::SourceDisconnected && end == seq![quiet, gone, quiet]
            ||| e == Error::WaitExhausted && times == u64::MAX && end == seq![quiet]
        },
    }
}

/// Whether waiting until there was a value, or the search was told to stop, can
/// give `r` and lead from one log to the other. The wait goes on only where
/// nothing came in time and the stop flag was then read as not raised.
pub open spec fn received<T>(
    before: Seq<Turn<Received<T>>>,
    after: Seq<Turn<Received<T>>>,
    stop: &AtomicBool,
    r: Result<Option<T>, Error>,
) -> bool {
    &&& exists|times: nat, end: Seq<Turn<Received<T>>>|
        after == before + rounds(*stop, times, Received::<T>::Timeout) + end
            && #[trigger] receive_ends(*stop, times, end, r)
    &&& values(after) == (match r {
        Ok(Some(value)) => values(before).push(value),
        _ => values(before),
    })
    &&& r == Ok::<Option<T>, Error>(None) ==> flag_reads(stop, true)
}

/// Waits for a value until there is one or the search was told to stop. A
/// queue whose other end is gone is an error unless the search was told so.
pub fn receive<T>(inbox: &mut Inbox<T>, stop: &AtomicBool) -> (r: Result<Option<T>, Error>)
    ensures
        final(inbox).receiver() == old(inbox).receiver(),
        received(old(inbox).log(), final(inbox).log(), stop, r),
{
    let ghost first = inbox.log();
    let ghost flag = *stop;
    let told: bool = inbox.stopped(stop);
    proof {
        lemma_values_push(first, Turn::Read(flag, told));
        lemma_one_more_round(first, flag, 0, Received::<T>::Timeout);
        assert(inbox.log() =~= first + seq![Turn::Read(flag, told)]);
    }
    if told {
        assert(receive_ends(
            flag,
            0,
            seq![Turn::<Received<T>>::Read(flag, true)],
            Ok::<Option<T>, Error>(None),
        ));
        return Ok(None);
    }
    let mut polls: u64 = 0;
    while polls < u64::MAX
        invariant
            first == old(inbox).log(),
            flag == *stop,
            inbox.receiver() == old(inbox).receiver(),
            values(inbox.log()) == values(first),
            inbox.log() == first + rounds(flag, polls as nat, Received::<T>::Timeout) + seq![
                Turn::<Received<T>>::Read(flag, false),
            ],
        decreases u64::MAX - polls,
    {
        let ghost waited = first + rounds(flag, polls as nat, Received::<T>::Timeout);
        let ghost before = inbox.log();
        let came: Received<T> = recv_for(inbox, CANCEL_POLL_MILLIS);
        let ghost turn = Turn::Wait(CANCEL_POLL_MILLIS, came);
        proof {
            lemma_values_push(before, turn);
            assert(inbox.log() =~= waited + seq![Turn::Read(flag, false), turn]);
        }
        let silent: Received<T> = match came {
            Received::Value(value) => {
                assert(receive_ends(
                    flag,
                    polls as nat,
                    seq![Turn::Read(flag, false), turn],
                    Ok::<Option<T>, Error>(Some(value)),
                ));
                return Ok(Some(value));
            },
            silent => silent,
        };
        let ghost between = inbox.log();
        let told: bool = inbox.stopped(stop);
        proof {
            lemma_values_push(between, Turn::Read(flag, told));
            assert(inbox.log() =~= waited + seq![
                Turn::Read(flag, false),
                turn,
                Turn::Read(flag, told),
            ]);
            if silent is Timeout {
                lemma_one_more_round(first, flag, polls as nat, Received::<T>::Timeout);
                assert(inbox.log() =~= first + rounds(
                    flag,
                    (polls + 1) as nat,
                    Received::<T>::Timeout,
                ) + seq![Turn::<Received<T>>::Read(flag, told)]);
            }
        }
        if let Some(end) = after_receive(silent, told) {
            proof {
                if silent is Timeout {
                    assert(receive_ends(
                        flag,
                        (polls + 1) as nat,
                        seq![Turn::<Received<T>>::Read(flag, true)],
                        end,
                    ));
                } else {
                    assert(receive_ends(
                        flag,
                        polls as nat,
                        seq![Turn::Read(flag, false), turn, Turn::Read(flag, told)],
                        end,
                    ));
                }
            }
            return end;
        }
        polls += 1;
    }
    assert(receive_ends(
        flag,
        polls as nat,
        seq![Turn::<Received<T>>::Read(flag, false)],
        Err::<Option<T>, Error>(Error::WaitExhausted),
    ));
    Err(Error::WaitExhausted)
}

/// How offering a value ends for which there was no room so many times. The stop
/// flag is read before each wait, and once more behind one that found the other
/// end gone. A raised flag ends it at once; without one it ends with the value
/// taken, with the other end gone, or where it was tried as often as can be
/// counted.
pub open spec fn send_ends<T>(
    flag: AtomicBool,
    times: nat,
    value: T,
    end: Seq<Turn<Sending<T>>>,
    r: Result<bool, Error>,
) -> bool {
    let quiet = Turn::Read(flag, false);
    let gone = Turn::Wait(CANCEL_POLL_MILLIS, Sending::Lost(value));
    match r {
        Ok(true) => end == seq![
            quiet,
            Turn::Wait(CANCEL_POLL_MILLIS, Sending::Taken(value)),
        ],
        Ok(false) => {
            ||| end == seq![Turn::<Sending<T>>::Read(flag, true)]
            ||| end == seq![quiet, gone, Turn::Read(flag, true)]
        },
        Err(e) => {
            ||| e == Error::ConsumerDisconnected && end == seq![quiet, gone, quiet]
            ||| e == Error::WaitExhausted && times == u64::MAX && end == seq![quiet]
        },
    }
}

/// Whether offering `value` until it was taken, or the search was told to stop,
/// can give `r` and lead from one log to the other. It is offered again only
/// where there was no room in time and the stop flag was then read as not raised.
/// A value that was not taken was cleared.
pub open spec fn delivered<T: Discard>(
    before: Seq<Turn<Sending<T>>>,
    after: Seq<Turn<Sending<T>>>,
    value: T,
    stop: &AtomicBool,
    r: Result<bool, Error>,
) -> bool {
    &&& exists|times: nat, end: Seq<Turn<Sending<T>>>|
        after == before + rounds(*stop, times, Sending::Full(value)) + end
            && #[trigger] send_ends(*stop, times, value, end, r)
    &&& sent(after) == (if r == Ok::<bool, Error>(true) {
        sent(before).push(value)
    } else {
        sent(before)
    })
    &&& r == Ok::<bool, Error>(false) ==> flag_reads(stop, true)
    &&& r != Ok::<bool, Error>(true) ==> call_ensures(T::discard, (value,), ())
}

/// Offers a value until it is taken or the search was told to stop; `true`
/// says that it was taken. A value that was not taken is cleared.
pub fn send<T: Discard>(outbox: &mut Outbox<T>, value: T, stop: &AtomicBool) -> (r: Result<
    bool,
    Error,
>)
    ensures
        final(outbox).sender() == old(outbox).sender(),
        delivered(old(outbox).log(), final(outbox).log(), value, stop, r),
{
    let ghost first = outbox.log();
    let ghost flag = *stop;
    let ghost full = Sending::Full(value);
    let mut held: T = value;
    let told: bool = outbox.stopped(stop);
    proof {
        lemma_sent_push(first, Turn::Read(flag, told));
        lemma_one_more_round(first, flag, 0, full);
        assert(outbox.log() =~= first + seq![Turn::Read(flag, told)]);
    }
    if told {
        assert(send_ends(
            flag,
            0,
            value,
            seq![Turn::<Sending<T>>::Read(flag, true)],
            Ok::<bool, Error>(false),
        ));
        held.discard();
        return Ok(false);
    }
    let mut polls: u64 = 0;
    while polls < u64::MAX
        invariant
            held == value,
            first == old(outbox).log(),
            flag == *stop,
            full == Sending::Full(value),
            outbox.sender() == old(outbox).sender(),
            sent(outbox.log()) == sent(first),
            outbox.log() == first + rounds(flag, polls as nat, full) + seq![
                Turn::<Sending<T>>::Read(flag, false),
            ],
        decreases u64::MAX - polls,
    {
        let ghost waited = first + rounds(flag, polls as nat, full);
        let ghost before = outbox.log();
        let offered: Offered<T> = send_for(outbox, held, CANCEL_POLL_MILLIS);
        let ghost turn = outbox.log().last();
        let ghost between = outbox.log();
        proof {
            lemma_sent_push(before, turn);
            assert(outbox.log() =~= waited + seq![Turn::Read(flag, false), turn]);
        }
        if let Offered::Taken = offered {
            assert(send_ends(
                flag,
                polls as nat,
                value,
                seq![Turn::Read(flag, false), turn],
                Ok::<bool, Error>(true),
            ));
            return Ok(true);
        }
        let told: bool = outbox.stopped(stop);
        proof {
            lemma_sent_push(between, Turn::Read(flag, told));
            assert(outbox.log() =~= waited + seq![
                Turn::Read(flag, false),
                turn,
                Turn::Read(flag, told),
            ]);
            if offered is Timeout {
                lemma_one_more_round(first, flag, polls as nat, full);
                assert(outbox.log() =~= first + rounds(flag, (polls + 1) as nat, full) + seq![
                    Turn::<Sending<T>>::Read(flag, told),
                ]);
            }
        }
        let ghost missed = offered;
        match after_offer(offered, told) {
            SendStep::Taken => {
                return Ok(true);
            },
            SendStep::Again(returned) => {
                held = returned;
            },
            SendStep::Lost(returned, end) => {
                proof {
                    if missed is Timeout {
                        assert(send_ends(
                            flag,
                            (polls + 1) as nat,
                            value,
                            seq![Turn::<Sending<T>>::Read(flag, true)],
                            end,
                        ));
                    } else {
                        assert(send_ends(
                            flag,
                            polls as nat,
                            value,
                            seq![Turn::Read(flag, false), turn, Turn::Read(flag, told)],
                            end,
                        ));
                    }
                }
                returned.discard();
                return end;
            },
        }
        polls += 1;
    }
    assert(send_ends(
        flag,
        polls as nat,
        value,
        seq![Turn::<Sending<T>>::Read(flag, false)],
        Err::<bool, Error>(Error::WaitExhausted),
    ));
    held.discard();
    Err(Error::WaitExhausted)
}

/// A batch of keys on its way round, with its number.
pub struct PreparedBatch {
    pub sequence: u64,
    pub keys: KeyBatch,
}

impl PreparedBatch {
    /// A batch with no keys yet.
    pub fn new() -> (r: PreparedBatch)
        ensures
            r.sequence == 0,
            r.keys.0@.len() == 0,
    {
        PreparedBatch { sequence: 0, keys: KeyBatch(Vec::new()) }
    }
}

impl Discard for PreparedBatch {
    fn discard(self)
        ensures
            call_ensures(KeyBatch::retire, (self.keys,), ()),
    {
        self.keys.retire();
    }
}

/// The number expected after a batch with the number `sequence`, where
/// `expected` was.
pub fn accept_sequence(expected: u64, sequence: u64) -> (r: Result<u64, Error>)
    ensures
        r == (if sequence != expected {
            Err::<u64, Error>(Error::BatchOrder)
        } else if expected == u64::MAX {
            Err(Error::SequenceOverflow)
        } else {
            Ok((expected + 1) as u64)
        }),
{
    if sequence != expected {
        return Err(Error::BatchOrder);
    }
    match expected.checked_add(1) {
        Some(next) => Ok(next),
        None => Err(Error::SequenceOverflow),
    }
}

/// Whether numbers are accepted one after the other, from `expected` on.
pub open spec fn all_in_order(numbers: Seq<u64>, expected: nat) -> bool
    decreases numbers.len(),
{
    numbers.len() == 0 || (numbers[0] == expected && expected < u64::MAX && all_in_order(
        numbers.drop_first(),
        expected + 1,
    ))
}

/// Batches that are all accepted came in the order in which they were numbered,
/// with none missing and none twice.
pub proof fn law_accepted_batches_are_consecutive(numbers: Seq<u64>, expected: nat)
    requires
        all_in_order(numbers, expected),
    ensures
        forall|i: int| 0 <= i < numbers.len() ==> #[trigger] numbers[i] == expected + i,
    decreases numbers.len(),
{
    if numbers.len() > 0 {
        let rest = numbers.drop_first();
        law_accepted_batches_are_consecutive(rest, expected + 1);
        assert forall|i: int| 0 <= i < numbers.len() implies #[trigger] numbers[i] == expected
            + i by {
            if i > 0 {
                assert(rest[i - 1] == expected + 1 + (i - 1));
            }
        }
    }
}

/// The searching thread's side of the queues.
pub struct PipelineSource {
    ready: Inbox<PreparedBatch>,
    recycle: Outbox<PreparedBatch>,
    current: Option<PreparedBatch>,
    expected: u64,
}

impl PipelineSource {
    /// The number of the batch that comes next.
    pub closed spec fn expected(&self) -> nat {
        self.expected as nat
    }

    /// The batch that is out and was not given back.
    pub closed spec fn current(&self) -> Option<PreparedBatch> {
        self.current
    }

    /// Whether a batch is out that was not given back.
    pub open spec fn holds_batch(&self) -> bool {
        self.current() is Some
    }

    /// What was done at the queue of prepared batches.
    pub closed spec fn ready_log(&self) -> Seq<Turn<Received<PreparedBatch>>> {
        self.ready.log()
    }

    /// What was done at the queue of batches to be filled again.
    pub closed spec fn recycle_log(&self) -> Seq<Turn<Sending<PreparedBatch>>> {
        self.recycle.log()
    }

    /// A source that takes batches from `ready` and gives them back to
    /// `recycle`.
    pub fn new(ready: Inbox<PreparedBatch>, recycle: Outbox<PreparedBatch>) -> (r: PipelineSource)
        ensures
            r.expected() == 0,
            !r.holds_batch(),
            r.ready_log() == ready.log(),
            r.recycle_log() == recycle.log(),
    {
        PipelineSource { ready, recycle, current: None, expected: 0 }
    }

    /// Clears the batch that is out, if there is one.
    pub fn wipe(&mut self)
        ensures
            !final(self).holds_batch(),
            final(self).expected() == old(self).expected(),
            final(self).ready_log() == old(self).ready_log(),
            final(self).recycle_log() == old(self).recycle_log(),
            old(self).current() matches Some(batch) ==> call_ensures(
                PreparedBatch::discard,
                (batch,),
                (),
            ),
    {
        if let Some(batch) = self.current.take() {
            batch.discard();
        }
    }
}

impl KeySource for PipelineSource {
    /// The next batch that waiting on the queue gives, if it has the number
    /// that is expected, unless the search was told to stop meanwhile.
    open spec fn gives(
        before: PipelineSource,
        stop: &AtomicBool,
        after: PipelineSource,
        r: Result<Option<Seq<SecretKey>>, Error>,
    ) -> bool {
        &&& after.recycle_log() == before.recycle_log()
        &&& if before.holds_batch() {
            r == Err::<Option<Seq<SecretKey>>, Error>(Error::BatchNotRecycled) && after == before
        } else {
            exists|got: Result<Option<PreparedBatch>, Error>| #[trigger]
                received(before.ready_log(), after.ready_log(), stop, got) && match got {
                    Err(e) => r == Err::<Option<Seq<SecretKey>>, Error>(e) && after.current()
                        is None && after.expected() == before.expected(),
                    Ok(None) => r == Ok::<Option<Seq<SecretKey>>, Error>(None) && after.current()
                        is None && after.expected() == before.expected(),
                    Ok(Some(batch)) => after.current() == Some(batch) && if batch.sequence
                        != before.expected() {
                        r == Err::<Option<Seq<SecretKey>>, Error>(Error::BatchOrder)
                            && after.expected() == before.expected()
                    } else if before.expected() == u64::MAX {
                        r == Err::<Option<Seq<SecretKey>>, Error>(Error::SequenceOverflow)
                            && after.expected() == before.expected()
                    } else {
                        r == Ok::<Option<Seq<SecretKey>>, Error>(Some(batch.keys.0@))
                            && after.expected() == before.expected() + 1
                    },
                }
        }
    }

    /// The batch that is out goes to the queue of batches to be filled again,
    /// unless the search was told to stop.
    open spec fn takes_back(
        before: PipelineSource,
        stop: &AtomicBool,
        after: PipelineSource,
        r: Result<(), Error>,
    ) -> bool {
        &&& after.ready_log() == before.ready_log()
        &&& after.expected() == before.expected()
        &&& after.current() is None
        &&& match before.current() {
            None => r is Ok && after.recycle_log() == before.recycle_log(),
            Some(batch) => exists|back: Result<bool, Error>| #[trigger]
                delivered(before.recycle_log(), after.recycle_log(), batch, stop, back)
                    && match back {
                    Ok(_) => r is Ok,
                    Err(e) => r == Err::<(), Error>(e),
                },
        }
    }

    fn next(&mut self, stop: &AtomicBool) -> (r: Result<Option<&[SecretKey]>, Error>) {
        if self.current.is_some() {
            return Err(Error::BatchNotRecycled);
        }
        let got = receive(&mut self.ready, stop);
        let ghost answer = got;
        assert(received(old(self).ready_log(), self.ready_log(), stop, answer));
        match got {
            Err(e) => {
                return Err(e);
            },
            Ok(next) => {
                self.current = next;
            },
        }
        assert(answer == Ok::<Option<PreparedBatch>, Error>(self.current()));
        assert(received(old(self).ready_log(), self.ready_log(), stop, answer));
        let number: u64 = match &self.current {
            None => {
                return Ok(None);
            },
            Some(batch) => batch.sequence,
        };
        match accept_sequence(self.expected, number) {
            Ok(next) => {
                self.expected = next;
            },
            Err(e) => {
                return Err(e);
            },
        }
        match &self.current {
            None => Ok(None),
            Some(batch) => {
                let keys: &[SecretKey] = batch.keys.0.as_slice();
                assert(received(old(self).ready_log(), self.ready_log(), stop, answer));
                Ok(Some(keys))
            },
        }
    }

    fn recycle(&mut self, stop: &AtomicBool) -> (r: Result<(), Error>) {
        if let Some(batch) = self.current.take() {
            let back = send(&mut self.recycle, batch, stop);
            assert(delivered(old(self).recycle_log(), self.recycle_log(), batch, stop, back));
            return match back {
                Ok(_) => Ok(()),
                Err(e) => Err(e),
            };
        }
        Ok(())
    }
}

/// Whether the first `done` keys of a batch were redrawn, one accepted draw of
/// the generator after the other, and the rest left as they were.
pub open spec fn redrawn<R: KeyRng>(
    from: R,
    to: R,
    stride: nat,
    before: Seq<SecretKey>,
    after: Seq<SecretKey>,
    done: nat,
) -> bool {
    &&& after.len() == (if before.len() < done {
        done
    } else {
        before.len()
    })
    &&& drew_all(from, to, stride, scalars(after.take(done as int)))
    &&& forall|i: int| done <= i < before.len() ==> #[trigger] after[i] == before[i]
}

/// How often the stop flag is read while `count` keys are drawn: before the
/// first, and before each that follows a whole chunk.
pub open spec fn chunk_reads(count: nat) -> nat {
    (count + PREPARE_CHUNK as nat - 1) as nat / PREPARE_CHUNK as nat
}

/// Whether the flag was read as not raised each time but the last, which gave
/// `last`, and `times` times in all.
pub open spec fn read_in_turn(reads: Seq<bool>, times: nat, last: bool) -> bool {
    &&& reads.len() == times
    &&& forall|i: int| 0 <= i < reads.len() - 1 ==> !#[trigger] reads[i]
    &&& reads.len() > 0 ==> reads.last() == last
}

/// One more key takes one more read where it begins a chunk.
proof fn lemma_chunk_reads(done: nat)
    ensures
        chunk_reads(0) == 0,
        chunk_reads(done + 1) == chunk_reads(done) + if done % PREPARE_CHUNK as nat == 0 {
            1nat
        } else {
            0nat
        },
{
    let chunk = PREPARE_CHUNK as int;
    vstd::arithmetic::div_mod::lemma_fundamental_div_mod(done as int, chunk);
    vstd::arithmetic::div_mod::lemma_fundamental_div_mod(done + chunk - 1, chunk);
    vstd::arithmetic::div_mod::lemma_fundamental_div_mod(done + chunk, chunk);
}

/// Redraws the first `count` keys of a batch, adding what is missing. The stop
/// flag is read before each chunk of keys. `false` says that the search was told
/// to stop meanwhile.
pub fn prepare_keys<R: KeyRng>(
    rng: &mut R,
    batch: &mut KeyBatch,
    count: usize,
    stride: usize,
    watch: &mut StopWatch<'_>,
) -> (r: Result<bool, Error>)
    ensures
        final(watch).flag() == old(watch).flag(),
        old(watch).reads().is_prefix_of(final(watch).reads()),
        r == Ok::<bool, Error>(true) ==> final(batch).0@.len() == (if old(batch).0@.len() < count {
            count as nat
        } else {
            old(batch).0@.len()
        }) && forall|i: int|
            0 <= i < count ==> start_accepted((#[trigger] final(batch).0@[i])@, stride as nat),
        r == Ok::<bool, Error>(true) ==> drew_all(
            *old(rng),
            *final(rng),
            stride as nat,
            scalars(final(batch).0@.take(count as int)),
        ),
        r matches Err(e) ==> e == Error::EntropyExhausted,
        exists|left: R, done: nat| #[trigger]
            redrawn(*old(rng), left, stride as nat, old(batch).0@, final(batch).0@, done)
                && match r {
                Ok(true) => done == count && *final(rng) == left && read_in_turn(
                    final(watch).reads().skip(old(watch).reads().len() as int),
                    chunk_reads(count as nat),
                    false,
                ),
                Ok(false) => done < count && done % PREPARE_CHUNK as nat == 0 && *final(rng) == left
                    && flag_reads(old(watch).flag(), true) && read_in_turn(
                    final(watch).reads().skip(old(watch).reads().len() as int),
                    chunk_reads(done + 1),
                    true,
                ),
                Err(_) => done < count && exhausted(left, stride as nat) && advanced(
                    left,
                    *final(rng),
                    u64::MAX as nat,
                ) && read_in_turn(
                    final(watch).reads().skip(old(watch).reads().len() as int),
                    chunk_reads(done + 1),
                    false,
                ),
            },
{
    let mut index: usize = 0;
    proof {
        lemma_chunk_reads(0);
    }
    while index < count
        invariant
            index <= count,
            watch.flag() == old(watch).flag(),
            old(watch).reads().is_prefix_of(watch.reads()),
            read_in_turn(
                watch.reads().skip(old(watch).reads().len() as int),
                chunk_reads(index as nat),
                false,
            ),
            forall|i: int|
                0 <= i < index ==> start_accepted((#[trigger] batch.0@[i])@, stride as nat),
            redrawn(*old(rng), *rng, stride as nat, old(batch).0@, batch.0@, index as nat),
        decreases count - index,
    {
        let ghost reads = watch.reads().skip(old(watch).reads().len() as int);
        proof {
            lemma_chunk_reads(index as nat);
        }
        if index % PREPARE_CHUNK == 0 {
            let told: bool = watch.stopped();
            assert(watch.reads().skip(old(watch).reads().len() as int) =~= reads.push(told));
            assert(old(watch).reads().is_prefix_of(watch.reads()));
            if told {
                return Ok(false);
            }
        }
        let ghost before = *rng;
        let ghost drawn = scalars(batch.0@.take(index as int));
        let key: SecretKey = generate_chain_start(rng, stride)?;
        if index < batch.0.len() {
            batch.0.set(index, key);
        } else {
            batch.0.push(key);
        }
        index += 1;
        proof {
            let longer = scalars(batch.0@.take(index as int));
            lemma_drew_next(*old(rng), before, *rng, stride as nat, drawn, key@);
            assert(longer =~= drawn.push(key@));
        }
    }
    Ok(true)
}

/// Whether a batch was filled: numbered, with its first keys the next draws of
/// the generator. There are exactly `count` keys, unless the batch that came
/// back held more.
pub open spec fn batch_filled<R: KeyRng>(
    from: R,
    to: R,
    stride: nat,
    count: nat,
    back: PreparedBatch,
    batch: PreparedBatch,
    number: nat,
) -> bool {
    &&& batch.sequence == number
    &&& batch.keys.0@.len() == (if back.keys.0@.len() < count {
        count
    } else {
        back.keys.0@.len()
    })
    &&& drew_all(from, to, stride, scalars(batch.keys.0@.take(count as int)))
}

/// Fills a batch that came back with the next keys of the generator and numbers
/// it. `None` says that the search was told to stop meanwhile. A batch that is
/// not to be sent is cleared.
pub fn prepare_batch<R: KeyRng>(
    rng: &mut R,
    batch: PreparedBatch,
    sequence: u64,
    count: usize,
    stride: usize,
    watch: &mut StopWatch<'_>,
) -> (r: Result<Option<PreparedBatch>, Error>)
    ensures
        final(watch).flag() == old(watch).flag(),
        old(watch).reads().is_prefix_of(final(watch).reads()),
        match r {
            Ok(Some(filled)) => batch_filled(
                *old(rng),
                *final(rng),
                stride as nat,
                count as nat,
                batch,
                filled,
                sequence as nat,
            ) && read_in_turn(
                final(watch).reads().skip(old(watch).reads().len() as int),
                chunk_reads(count as nat),
                false,
            ),
            Ok(None) => exists|done: nat| #[trigger]
                left_off(*old(rng), *final(rng), stride as nat, count as nat, batch, done)
                    && done % PREPARE_CHUNK as nat == 0 && read_in_turn(
                    final(watch).reads().skip(old(watch).reads().len() as int),
                    chunk_reads(done + 1),
                    true,
                ) && flag_reads(old(watch).flag(), true),
            Err(e) => e == Error::EntropyExhausted && exists|left: R, done: nat| #[trigger]
                left_off(*old(rng), left, stride as nat, count as nat, batch, done) && exhausted(
                    left,
                    stride as nat,
                ) && advanced(left, *final(rng), u64::MAX as nat) && read_in_turn(
                    final(watch).reads().skip(old(watch).reads().len() as int),
                    chunk_reads(done + 1),
                    false,
                ),
        },
{
    let ghost came = batch;
    let mut batch: PreparedBatch = batch;
    let prepared = prepare_keys(rng, &mut batch.keys, count, stride, watch);
    let ghost part = batch;
    let ghost (left, done) = choose|left: R, done: nat| #[trigger]
        redrawn(*old(rng), left, stride as nat, came.keys.0@, part.keys.0@, done)
            && match prepared {
            Ok(true) => done == count && *rng == left,
            Ok(false) => done < count && done % PREPARE_CHUNK as nat == 0 && *rng == left
                && read_in_turn(
                watch.reads().skip(old(watch).reads().len() as int),
                chunk_reads(done + 1),
                true,
            ),
            Err(_) => done < count && exhausted(left, stride as nat) && advanced(
                left,
                *rng,
                u64::MAX as nat,
            ) && read_in_turn(
                watch.reads().skip(old(watch).reads().len() as int),
                chunk_reads(done + 1),
                false,
            ),
        };
    match prepared {
        Ok(true) => {
            batch.sequence = sequence;
            Ok(Some(batch))
        },
        Ok(false) => {
            batch.discard();
            assert(left_off(*old(rng), left, stride as nat, count as nat, came, done));
            Ok(None)
        },
        Err(e) => {
            batch.discard();
            assert(left_off(*old(rng), left, stride as nat, count as nat, came, done));
            Err(e)
        },
    }
}

/// Whether filling a batch that came back was left off after the first `done`
/// keys, and the batch was cleared.
pub open spec fn left_off<R: KeyRng>(
    from: R,
    to: R,
    stride: nat,
    count: nat,
    back: PreparedBatch,
    done: nat,
) -> bool {
    &&& done < count
    &&& exists|part: PreparedBatch|
        redrawn(from, to, stride, back.keys.0@, part.keys.0@, done) && #[trigger] call_ensures(
            PreparedBatch::discard,
            (part,),
            (),
        )
}

/// Whether the batches are those that came back, filled one after the other and
/// numbered from zero on, with keys that are the draws of the generator in
/// order. `to` is what is left of it.
pub open spec fn produced<R: KeyRng>(
    from: R,
    to: R,
    stride: nat,
    count: nat,
    back: Seq<PreparedBatch>,
    batches: Seq<PreparedBatch>,
) -> bool
    decreases batches.len(),
{
    if batches.len() == 0 {
        from == to
    } else {
        exists|mid: R|
            produced(from, mid, stride, count, back, batches.drop_last())
                && #[trigger] batch_filled(
                mid,
                to,
                stride,
                count,
                back[batches.len() - 1],
                batches.last(),
                (batches.len() - 1) as nat,
            )
    }
}

/// What came back does not matter beyond the batches that were filled.
proof fn lemma_produced_longer<R: KeyRng>(
    from: R,
    to: R,
    stride: nat,
    count: nat,
    back: Seq<PreparedBatch>,
    longer: Seq<PreparedBatch>,
    batches: Seq<PreparedBatch>,
)
    requires
        produced(from, to, stride, count, back, batches),
        back.is_prefix_of(longer),
        batches.len() <= back.len(),
    ensures
        produced(from, to, stride, count, longer, batches),
    decreases batches.len(),
{
    if batches.len() > 0 {
        let mid = choose|mid: R|
            produced(from, mid, stride, count, back, batches.drop_last())
                && #[trigger] batch_filled(
                mid,
                to,
                stride,
                count,
                back[batches.len() - 1],
                batches.last(),
                (batches.len() - 1) as nat,
            );
        lemma_produced_longer(from, mid, stride, count, back, longer, batches.drop_last());
        assert(back[batches.len() - 1] == longer[batches.len() - 1]);
    }
}

/// What a producer works with, at one time: what was done at the queue by which
/// batches come back and at the one by which they go out, and the generator.
pub struct ProducerState<R> {
    pub recycle: Seq<Turn<Received<PreparedBatch>>>,
    pub ready: Seq<Turn<Sending<PreparedBatch>>>,
    pub rng: R,
}

/// Whether a batch came back, and the stop flag was then read so many times, as
/// not raised each time but the last, which gave `last`.
pub open spec fn came_back(
    before: Seq<Turn<Received<PreparedBatch>>>,
    after: Seq<Turn<Received<PreparedBatch>>>,
    batch: PreparedBatch,
    stop: &AtomicBool,
    times: nat,
    last: bool,
) -> bool {
    exists|got: Seq<Turn<Received<PreparedBatch>>>, reads: Seq<bool>| #[trigger]
        received(before, got, stop, Ok(Some(batch))) && #[trigger] read_in_turn(reads, times, last)
            && after == got + reads_of::<Received<PreparedBatch>>(*stop, reads)
}

/// Whether a batch came back, was filled with a look at the stop flag before each
/// chunk of keys, and went out.
pub open spec fn sent_one<R: KeyRng>(
    before: ProducerState<R>,
    after: ProducerState<R>,
    stop: &AtomicBool,
    stride: nat,
    count: nat,
    back: PreparedBatch,
    batch: PreparedBatch,
    number: nat,
) -> bool {
    &&& came_back(before.recycle, after.recycle, back, stop, chunk_reads(count), false)
    &&& batch_filled(before.rng, after.rng, stride, count, back, batch, number)
    &&& delivered(before.ready, after.ready, batch, stop, Ok(true))
}

/// Whether these batches went out, one after the other, and nothing else was
/// done.
pub open spec fn sent_all<R: KeyRng>(
    before: ProducerState<R>,
    after: ProducerState<R>,
    stop: &AtomicBool,
    stride: nat,
    count: nat,
    back: Seq<PreparedBatch>,
    batches: Seq<PreparedBatch>,
) -> bool
    decreases batches.len(),
{
    if batches.len() == 0 {
        after == before
    } else {
        exists|mid: ProducerState<R>|
            sent_all(before, mid, stop, stride, count, back, batches.drop_last())
                && #[trigger] sent_one(
                mid,
                after,
                stop,
                stride,
                count,
                back[batches.len() - 1],
                batches.last(),
                (batches.len() - 1) as nat,
            )
    }
}

/// What came back does not matter beyond the batches that went out.
proof fn lemma_sent_longer<R: KeyRng>(
    before: ProducerState<R>,
    after: ProducerState<R>,
    stop: &AtomicBool,
    stride: nat,
    count: nat,
    back: Seq<PreparedBatch>,
    longer: Seq<PreparedBatch>,
    batches: Seq<PreparedBatch>,
)
    requires
        sent_all(before, after, stop, stride, count, back, batches),
        back.is_prefix_of(longer),
        batches.len() <= back.len(),
    ensures
        sent_all(before, after, stop, stride, count, longer, batches),
    decreases batches.len(),
{
    if batches.len() > 0 {
        let mid = choose|mid: ProducerState<R>|
            sent_all(before, mid, stop, stride, count, back, batches.drop_last())
                && #[trigger] sent_one(
                mid,
                after,
                stop,
                stride,
                count,
                back[batches.len() - 1],
                batches.last(),
                (batches.len() - 1) as nat,
            );
        lemma_sent_longer(before, mid, stop, stride, count, back, longer, batches.drop_last());
        assert(back[batches.len() - 1] == longer[batches.len() - 1]);
    }
}

/// The batches that a producer sent hold the draws of its generator in order, and
/// are what the queues saw.
pub proof fn law_sent_batches_are_draws<R: KeyRng>(
    before: ProducerState<R>,
    after: ProducerState<R>,
    stop: &AtomicBool,
    stride: nat,
    count: nat,
    back: Seq<PreparedBatch>,
    batches: Seq<PreparedBatch>,
)
    requires
        sent_all(before, after, stop, stride, count, back, batches),
        batches.len() == back.len(),
    ensures
        produced(before.rng, after.rng, stride, count, back, batches),
        values(after.recycle) == values(before.recycle) + back,
        sent(after.ready) == sent(before.ready) + batches,
    decreases batches.len(),
{
    if batches.len() == 0 {
        assert(values(before.recycle) + back =~= values(before.recycle));
        assert(sent(before.ready) + batches =~= sent(before.ready));
    } else {
        let last = (batches.len() - 1) as nat;
        let fewer = batches.drop_last();
        let earlier = back.drop_last();
        let mid = choose|mid: ProducerState<R>|
            sent_all(before, mid, stop, stride, count, back, fewer) && #[trigger] sent_one(
                mid,
                after,
                stop,
                stride,
                count,
                back[last as int],
                batches.last(),
                last,
            );
        lemma_sent_shorter(before, mid, stop, stride, count, earlier, back, fewer);
        law_sent_batches_are_draws(before, mid, stop, stride, count, earlier, fewer);
        lemma_produced_longer(before.rng, mid.rng, stride, count, earlier, back, fewer);
        assert(batch_filled(
            mid.rng,
            after.rng,
            stride,
            count,
            back[last as int],
            batches.last(),
            last,
        ));
        let (got, reads) = choose|
            got: Seq<Turn<Received<PreparedBatch>>>,
            reads: Seq<bool>,
        | #[trigger]
            received(mid.recycle, got, stop, Ok(Some(back[last as int])))
                && #[trigger] read_in_turn(reads, chunk_reads(count), false) && after.recycle
                == got + reads_of::<Received<PreparedBatch>>(*stop, reads);
        lemma_values_of_reads(got, *stop, reads);
        assert(values(before.recycle) + back =~= (values(before.recycle) + earlier).push(
            back[last as int],
        ));
        assert(sent(before.ready) + batches =~= (sent(before.ready) + fewer).push(batches.last()));
    }
}

/// Batches that came back later do not matter for those that went out before.
proof fn lemma_sent_shorter<R: KeyRng>(
    before: ProducerState<R>,
    after: ProducerState<R>,
    stop: &AtomicBool,
    stride: nat,
    count: nat,
    back: Seq<PreparedBatch>,
    longer: Seq<PreparedBatch>,
    batches: Seq<PreparedBatch>,
)
    requires
        sent_all(before, after, stop, stride, count, longer, batches),
        back.is_prefix_of(longer),
        batches.len() <= back.len(),
    ensures
        sent_all(before, after, stop, stride, count, back, batches),
    decreases batches.len(),
{
    if batches.len() > 0 {
        let mid = choose|mid: ProducerState<R>|
            sent_all(before, mid, stop, stride, count, longer, batches.drop_last())
                && #[trigger] sent_one(
                mid,
                after,
                stop,
                stride,
                count,
                longer[batches.len() - 1],
                batches.last(),
                (batches.len() - 1) as nat,
            );
        lemma_sent_shorter(before, mid, stop, stride, count, back, longer, batches.drop_last());
        assert(back[batches.len() - 1] == longer[batches.len() - 1]);
    }
}

/// How a producer ended that had sent `number` batches: while it waited for one
/// to come back, while it filled one, while it waited for one to be taken, or
/// because it could number no more. It ends well only where the stop flag was
/// read as raised, and then at once.
pub open spec fn producer_ended<R: KeyRng>(
    at: ProducerState<R>,
    end: ProducerState<R>,
    stop: &AtomicBool,
    stride: nat,
    count: nat,
    number: nat,
    r: Result<(), Error>,
) -> bool {
    ||| end.ready == at.ready && end.rng == at.rng && exists|
        got: Result<Option<PreparedBatch>, Error>,
    | #[trigger]
        received(at.recycle, end.recycle, stop, got) && match got {
            Ok(Some(_)) => false,
            Ok(None) => r is Ok,
            Err(e) => r == Err::<(), Error>(e),
        }
    ||| end.ready == at.ready && r is Ok && exists|back: PreparedBatch, done: nat| #[trigger]
        left_off(at.rng, end.rng, stride, count, back, done) && done % PREPARE_CHUNK as nat == 0
            && came_back(at.recycle, end.recycle, back, stop, chunk_reads(done + 1), true)
    ||| end.ready == at.ready && r == Err::<(), Error>(Error::EntropyExhausted) && exists|
        back: PreparedBatch,
        left: R,
        done: nat,
    | #[trigger]
        left_off(at.rng, left, stride, count, back, done) && exhausted(left, stride) && advanced(
            left,
            end.rng,
            u64::MAX as nat,
        ) && came_back(at.recycle, end.recycle, back, stop, chunk_reads(done + 1), false)
    ||| exists|back: PreparedBatch, batch: PreparedBatch, answer: Result<bool, Error>|
        came_back(at.recycle, end.recycle, back, stop, chunk_reads(count), false)
            && #[trigger] batch_filled(at.rng, end.rng, stride, count, back, batch, number)
            && #[trigger] delivered(at.ready, end.ready, batch, stop, answer) && match answer {
            Ok(true) => false,
            Ok(false) => r is Ok,
            Err(e) => r == Err::<(), Error>(e),
        }
    ||| end == at && number == u64::MAX && r == Err::<(), Error>(Error::SequenceOverflow)
}

/// Whether a producer can go from one state to the other and end with `r`: it
/// sent batches that came back, filled in order, until something ended it.
pub open spec fn production<R: KeyRng>(
    before: ProducerState<R>,
    after: ProducerState<R>,
    stop: &AtomicBool,
    stride: nat,
    count: nat,
    r: Result<(), Error>,
) -> bool {
    exists|at: ProducerState<R>, back: Seq<PreparedBatch>, batches: Seq<PreparedBatch>|
        back.len() == batches.len() && #[trigger] sent_all(
            before,
            at,
            stop,
            stride,
            count,
            back,
            batches,
        ) && producer_ended(at, after, stop, stride, count, batches.len(), r)
}

/// Fills the batches that come back and numbers them, until the search is told
/// to stop. However it ends, every worker is told to stop.
pub fn produce<R: KeyRng>(
    recycle: &mut Inbox<PreparedBatch>,
    ready: &mut Outbox<PreparedBatch>,
    stop: &AtomicBool,
    batch_size: usize,
    stride: usize,
    rng: &mut R,
) -> (r: Result<(), Error>)
    ensures
        production(
            (ProducerState {
                recycle: old(recycle).log(),
                ready: old(ready).log(),
                rng: *old(rng),
            }),
            (ProducerState {
                recycle: final(recycle).log(),
                ready: final(ready).log(),
                rng: *final(rng),
            }),
            stop,
            stride as nat,
            chains_for(batch_size as nat, stride as nat),
            r,
        ),
        flag_raised(stop),
{
    let r = produce_batches(recycle, ready, stop, batch_size, stride, rng);
    stop_all(stop);
    r
}

/// Fills and numbers batches until the search is told to stop.
fn produce_batches<R: KeyRng>(
    recycle: &mut Inbox<PreparedBatch>,
    ready: &mut Outbox<PreparedBatch>,
    stop: &AtomicBool,
    batch_size: usize,
    stride: usize,
    rng: &mut R,
) -> (r: Result<(), Error>)
    ensures
        production(
            (ProducerState {
                recycle: old(recycle).log(),
                ready: old(ready).log(),
                rng: *old(rng),
            }),
            (ProducerState {
                recycle: final(recycle).log(),
                ready: final(ready).log(),
                rng: *final(rng),
            }),
            stop,
            stride as nat,
            chains_for(batch_size as nat, stride as nat),
            r,
        ),
{
    let count: usize = chain_count(batch_size, stride);
    let mut sequence: u64 = 0;
    let ghost first = ProducerState { recycle: recycle.log(), ready: ready.log(), rng: *rng };
    let ghost mut back: Seq<PreparedBatch> = Seq::empty();
    let ghost mut batches: Seq<PreparedBatch> = Seq::empty();
    while sequence < u64::MAX
        invariant
            count == chains_for(batch_size as nat, stride as nat),
            first == (ProducerState {
                recycle: old(recycle).log(),
                ready: old(ready).log(),
                rng: *old(rng),
            }),
            back.len() == sequence,
            batches.len() == sequence,
            sent_all(
                first,
                (ProducerState { recycle: recycle.log(), ready: ready.log(), rng: *rng }),
                stop,
                stride as nat,
                count as nat,
                back,
                batches,
            ),
        decreases u64::MAX - sequence,
    {
        let ghost at = ProducerState { recycle: recycle.log(), ready: ready.log(), rng: *rng };
        let next = receive(recycle, stop);
        let ghost answer = next;
        let ghost got = recycle.log();
        let batch: PreparedBatch = match next {
            Ok(Some(batch)) => batch,
            Ok(None) => {
                proof {
                    let end = ProducerState {
                        recycle: recycle.log(),
                        ready: ready.log(),
                        rng: *rng,
                    };
                    assert(received(at.recycle, end.recycle, stop, answer));
                    assert(producer_ended(
                        at,
                        end,
                        stop,
                        stride as nat,
                        count as nat,
                        sequence as nat,
                        Ok(()),
                    ));
                }
                return Ok(());
            },
            Err(e) => {
                proof {
                    let end = ProducerState {
                        recycle: recycle.log(),
                        ready: ready.log(),
                        rng: *rng,
                    };
                    assert(received(at.recycle, end.recycle, stop, answer));
                    assert(producer_ended(
                        at,
                        end,
                        stop,
                        stride as nat,
                        count as nat,
                        sequence as nat,
                        Err(e),
                    ));
                }
                return Err(e);
            },
        };
        let ghost came = batch;
        let mut watch = StopWatch::new(stop);
        let prepared = prepare_batch(rng, batch, sequence, count, stride, &mut watch);
        let ghost reads = watch.reads();
        assert(reads.skip(0) =~= reads);
        recycle.note(watch);
        assert(received(at.recycle, got, stop, Ok(Some(came))));
        let ghost end = ProducerState { recycle: recycle.log(), ready: ready.log(), rng: *rng };
        let filled: PreparedBatch = match prepared {
            Ok(Some(filled)) => filled,
            Ok(None) => {
                proof {
                    let done = choose|done: nat| #[trigger]
                        left_off(at.rng, end.rng, stride as nat, count as nat, came, done) && done
                            % PREPARE_CHUNK as nat == 0 && read_in_turn(
                            reads,
                            chunk_reads(done + 1),
                            true,
                        );
                    assert(came_back(
                        at.recycle,
                        end.recycle,
                        came,
                        stop,
                        chunk_reads(done + 1),
                        true,
                    ));
                    assert(producer_ended(
                        at,
                        end,
                        stop,
                        stride as nat,
                        count as nat,
                        sequence as nat,
                        Ok(()),
                    ));
                }
                return Ok(());
            },
            Err(e) => {
                proof {
                    let (left, done) = choose|left: R, done: nat| #[trigger]
                        left_off(at.rng, left, stride as nat, count as nat, came, done)
                            && exhausted(left, stride as nat) && advanced(
                            left,
                            end.rng,
                            u64::MAX as nat,
                        ) && read_in_turn(reads, chunk_reads(done + 1), false);
                    assert(came_back(
                        at.recycle,
                        end.recycle,
                        came,
                        stop,
                        chunk_reads(done + 1),
                        false,
                    ));
                    assert(producer_ended(
                        at,
                        end,
                        stop,
                        stride as nat,
                        count as nat,
                        sequence as nat,
                        Err(e),
                    ));
                }
                return Err(e);
            },
        };
        let ghost full = filled;
        let answer = send(ready, filled, stop);
        proof {
            let after = ProducerState { recycle: recycle.log(), ready: ready.log(), rng: *rng };
            assert(came_back(
                at.recycle,
                after.recycle,
                came,
                stop,
                chunk_reads(count as nat),
                false,
            ));
            assert(batch_filled(
                at.rng,
                after.rng,
                stride as nat,
                count as nat,
                came,
                full,
                sequence as nat,
            ));
            assert(delivered(at.ready, after.ready, full, stop, answer));
            if answer == Ok::<bool, Error>(true) {
                let longer = back.push(came);
                let more = batches.push(full);
                lemma_sent_longer(
                    first,
                    at,
                    stop,
                    stride as nat,
                    count as nat,
                    back,
                    longer,
                    batches,
                );
                assert(more.drop_last() =~= batches);
                assert(sent_one(
                    at,
                    after,
                    stop,
                    stride as nat,
                    count as nat,
                    longer[more.len() - 1],
                    more.last(),
                    (more.len() - 1) as nat,
                ));
                back = longer;
                batches = more;
            }
        }
        match answer {
            Ok(true) => {},
            Ok(false) => {
                return Ok(());
            },
            Err(e) => {
                return Err(e);
            },
        }
        sequence += 1;
    }
    Err(Error::SequenceOverflow)
}

/// Whether a search with batches of this size draws its keys ahead.
pub fn uses_pipeline(batch_size: usize) -> (r: bool)
    ensures
        r == (batch_size >= MIN_PIPELINED_BATCH),
{
    batch_size >= MIN_PIPELINED_BATCH
}

/// Checks the batch size of a search that draws its keys ahead.
pub fn check_pipeline_batch(batch_size: usize) -> (r: Result<(), Error>)
    ensures
        r is Ok <==> batch_size_allowed(batch_size as nat),
        r matches Err(e) ==> e == Error::InvalidPipelineBatch,
{
    if batch_size < 1 || batch_size > MAX_GPU_BATCH_SIZE as usize {
        Err(Error::InvalidPipelineBatch)
    } else {
        Ok(())
    }
}

/// How the thread that draws keys ended.
pub enum ProducerEnd {
    Finished(Result<(), Error>),
    Panicked,
}

/// What a search comes to once both threads have ended. A failure of the
/// producer is never hidden by what the searching thread found.
pub open spec fn settled(
    producer: ProducerEnd,
    found: Result<Option<HitRecord>, Error>,
) -> Result<Option<HitRecord>, Error> {
    match producer {
        ProducerEnd::Panicked => Err(Error::ProducerPanicked),
        ProducerEnd::Finished(Err(e)) => Err(e),
        ProducerEnd::Finished(Ok(_)) => found,
    }
}

/// What a search comes to once both threads have ended.
pub fn settle(producer: ProducerEnd, found: Result<Option<HitRecord>, Error>) -> (r: Result<
    Option<HitRecord>,
    Error,
>)
    ensures
        r == settled(producer, found),
{
    match producer {
        ProducerEnd::Panicked => Err(Error::ProducerPanicked),
        ProducerEnd::Finished(Err(e)) => Err(e),
        ProducerEnd::Finished(Ok(_)) => found,
    }
}

}
