//! The two ends of a queue between threads, each with everything that was done at
//! it: the waits, and the looks at the stop flag between them.
use crate::worker::{stopped, StopWatch};
use std::sync::atomic::AtomicBool;
use vstd::prelude::*;

verus! {

use crate::worker::flag_reads;

/// `crossbeam::channel::Receiver`, the other end of a queue.
#[verifier::external_type_specification]
#[verifier::external_body]
#[verifier::reject_recursive_types(T)]
pub struct ExReceiver<T>(crossbeam::channel::Receiver<T>);

/// What waiting on a queue gave.
pub enum Received<T> {
    Value(T),
    Timeout,
    Disconnected,
}

/// What offering a value to a queue gave.
pub enum Offered<T> {
    Taken,
    Timeout(T),
    Disconnected(T),
}

/// A value that was offered to a queue, and whether the queue took it, was full
/// or had lost its other end.
pub enum Sending<T> {
    Taken(T),
    Full(T),
    Lost(T),
}

/// One thing that was done at an end of a queue: the stop flag was read and gave
/// this, or a wait of so many milliseconds came to this.
pub enum Turn<E> {
    Read(AtomicBool, bool),
    Wait(u64, E),
}

/// Reads of the stop flag that gave these values.
pub open spec fn reads_of<E>(flag: AtomicBool, reads: Seq<bool>) -> Seq<Turn<E>> {
    Seq::new(reads.len(), |i: int| Turn::Read(flag, reads[i]))
}

/// The receiving end of a queue, with everything that was done at it.
#[verifier::reject_recursive_types(T)]
pub struct Inbox<T> {
    receiver: crossbeam::channel::Receiver<T>,
    log: Ghost<Seq<Turn<Received<T>>>>,
}

impl<T> Inbox<T> {
    /// What was done so far, in order.
    pub closed spec fn log(&self) -> Seq<Turn<Received<T>>> {
        self.log@
    }

    /// The queue.
    pub closed spec fn receiver(&self) -> crossbeam::channel::Receiver<T> {
        self.receiver
    }

    /// A receiving end at which nothing was done yet.
    pub fn new(receiver: crossbeam::channel::Receiver<T>) -> (r: Inbox<T>)
        ensures
            r.receiver() == receiver,
            r.log().len() == 0,
    {
        Inbox { receiver, log: Ghost(Seq::empty()) }
    }

    /// Whether the search was told to stop.
    pub fn stopped(&mut self, stop: &AtomicBool) -> (r: bool)
        ensures
            flag_reads(stop, r),
            final(self).receiver() == old(self).receiver(),
            final(self).log() == old(self).log().push(Turn::Read(*stop, r)),
    {
        let r: bool = stopped(stop);
        self.log = Ghost(self.log@.push(Turn::Read(*stop, r)));
        r
    }

    /// Notes the reads of a watch that was kept between two waits.
    pub fn note(&mut self, watch: StopWatch<'_>)
        ensures
            final(self).receiver() == old(self).receiver(),
            final(self).log() == old(self).log() + reads_of::<Received<T>>(
                *watch.flag(),
                watch.reads(),
            ),
    {
        self.log = Ghost(self.log@ + reads_of::<Received<T>>(*watch.flag(), watch.reads()));
    }
}

/// The values that waiting gave.
pub open spec fn values<T>(log: Seq<Turn<Received<T>>>) -> Seq<T>
    decreases log.len(),
{
    if log.len() == 0 {
        Seq::empty()
    } else {
        let earlier = values(log.drop_last());
        match log.last() {
            Turn::Wait(_, Received::Value(value)) => earlier.push(value),
            _ => earlier,
        }
    }
}

/// What one more turn adds to the values.
pub proof fn lemma_values_push<T>(log: Seq<Turn<Received<T>>>, turn: Turn<Received<T>>)
    ensures
        values(log.push(turn)) == (match turn {
            Turn::Wait(_, Received::Value(value)) => values(log).push(value),
            _ => values(log),
        }),
{
    assert(log.push(turn).drop_last() =~= log);
}

/// Reads of the stop flag add no value.
pub proof fn lemma_values_of_reads<T>(
    log: Seq<Turn<Received<T>>>,
    flag: AtomicBool,
    reads: Seq<bool>,
)
    ensures
        values(log + reads_of::<Received<T>>(flag, reads)) == values(log),
    decreases reads.len(),
{
    let all = log + reads_of::<Received<T>>(flag, reads);
    if reads.len() == 0 {
        assert(all =~= log);
    } else {
        let earlier = reads.drop_last();
        lemma_values_of_reads(log, flag, earlier);
        assert(all.drop_last() =~= log + reads_of::<Received<T>>(flag, earlier));
    }
}

/// The sending end of a queue, with everything that was done at it.
#[verifier::reject_recursive_types(T)]
pub struct Outbox<T> {
    sender: crossbeam::channel::Sender<T>,
    log: Ghost<Seq<Turn<Sending<T>>>>,
}

impl<T> Outbox<T> {
    /// What was done so far, in order.
    pub closed spec fn log(&self) -> Seq<Turn<Sending<T>>> {
        self.log@
    }

    /// The queue.
    pub closed spec fn sender(&self) -> crossbeam::channel::Sender<T> {
        self.sender
    }

    /// A sending end at which nothing was done yet.
    pub fn new(sender: crossbeam::channel::Sender<T>) -> (r: Outbox<T>)
        ensures
            r.sender() == sender,
            r.log().len() == 0,
    {
        Outbox { sender, log: Ghost(Seq::empty()) }
    }

    /// Whether the search was told to stop.
    pub fn stopped(&mut self, stop: &AtomicBool) -> (r: bool)
        ensures
            flag_reads(stop, r),
            final(self).sender() == old(self).sender(),
            final(self).log() == old(self).log().push(Turn::Read(*stop, r)),
    {
        let r: bool = stopped(stop);
        self.log = Ghost(self.log@.push(Turn::Read(*stop, r)));
        r
    }
}

/// The values that the queue took.
pub open spec fn sent<T>(log: Seq<Turn<Sending<T>>>) -> Seq<T>
    decreases log.len(),
{
    if log.len() == 0 {
        Seq::empty()
    } else {
        let earlier = sent(log.drop_last());
        match log.last() {
            Turn::Wait(_, Sending::Taken(value)) => earlier.push(value),
            _ => earlier,
        }
    }
}

/// What one more turn adds to the values that were taken.
pub proof fn lemma_sent_push<T>(log: Seq<Turn<Sending<T>>>, turn: Turn<Sending<T>>)
    ensures
        sent(log.push(turn)) == (match turn {
            Turn::Wait(_, Sending::Taken(value)) => sent(log).push(value),
            _ => sent(log),
        }),
{
    assert(log.push(turn).drop_last() =~= log);
}

/// `crossbeam::channel::Receiver::recv_timeout`. What comes, and whether
/// anything does, depends on the other end; whatever it is, it is what the log
/// has last, with the wait that was asked for.
#[verifier::external_body]
pub(crate) fn recv_for<T>(inbox: &mut Inbox<T>, millis: u64) -> (r: Received<T>)
    ensures
        final(inbox).receiver() == old(inbox).receiver(),
        final(inbox).log() == old(inbox).log().push(Turn::Wait(millis, r)),
{
    match inbox.receiver.recv_timeout(std::time::Duration::from_millis(millis)) {
        Ok(value) => Received::Value(value),
        Err(crossbeam::channel::RecvTimeoutError::Timeout) => Received::Timeout,
        Err(crossbeam::channel::RecvTimeoutError::Disconnected) => Received::Disconnected,
    }
}

/// `crossbeam::channel::Sender::send_timeout`. A value that was not taken is
/// handed back as it was. Whether it is taken depends on the other end;
/// whatever came of it is what the log has last, with the wait that was asked
/// for.
#[verifier::external_body]
pub(crate) fn send_for<T>(outbox: &mut Outbox<T>, value: T, millis: u64) -> (r: Offered<T>)
    ensures
        final(outbox).sender() == old(outbox).sender(),
        final(outbox).log() == old(outbox).log().push(
            Turn::Wait(
                millis,
                match r {
                    Offered::Taken => Sending::Taken(value),
                    Offered::Timeout(_) => Sending::Full(value),
                    Offered::Disconnected(_) => Sending::Lost(value),
                },
            ),
        ),
        r matches Offered::Timeout(returned) ==> returned == value,
        r matches Offered::Disconnected(returned) ==> returned == value,
{
    match outbox.sender.send_timeout(value, std::time::Duration::from_millis(millis)) {
        Ok(()) => Offered::Taken,
        Err(crossbeam::channel::SendTimeoutError::Timeout(value)) => Offered::Timeout(value),
        Err(crossbeam::channel::SendTimeoutError::Disconnected(value)) => Offered::Disconnected(
            value,
        ),
    }
}

}
