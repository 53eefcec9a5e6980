//! The main thread's wait for the end of a search.
use crate::error::Error;
use crate::search::HitRecord;
use vstd::prelude::*;

verus! {

/// What the main thread waits for.
pub enum SearchEvent {
    /// A worker ended with a hit or an error.
    Ended(Result<HitRecord, Error>),
    /// Every worker is gone.
    AllGone,
    /// The closest candidate improved.
    Improved,
    /// Nobody is left to say that it improved.
    ImprovementsGone,
}

/// Who keeps the closest candidate. Nothing is taken on trust of a keeper: the
/// wait is bound by what a keeper states of itself, and most state nothing.
pub trait ClosestKeeper: Sized {
    /// Whether keeping the closest candidate can lead from `before` to `after`
    /// and give `r`. A keeper that says nothing of itself may do anything.
    open spec fn saves(before: Self, after: Self, r: Result<(), Error>) -> bool {
        true
    }

    /// Keeps the closest candidate as it is now.
    fn save_closest(&mut self) -> (r: Result<(), Error>)
        ensures
            Self::saves(*old(self), *final(self), r),
    ;
}

/// The queues that the main thread waits on, with everything that came of it.
pub struct SearchQueues<'a> {
    hits: &'a crossbeam::channel::Receiver<Result<HitRecord, Error>>,
    updates: &'a crossbeam::channel::Receiver<()>,
    seen: Ghost<Seq<SearchEvent>>,
    ends: Ghost<Seq<Option<Result<HitRecord, Error>>>>,
}

impl<'a> SearchQueues<'a> {
    /// What waiting on both queues gave, in order.
    pub closed spec fn seen(&self) -> Seq<SearchEvent> {
        self.seen@
    }

    /// What waiting on the workers' queue alone gave, in order.
    pub closed spec fn ends(&self) -> Seq<Option<Result<HitRecord, Error>>> {
        self.ends@
    }

    /// The queue of the workers' ends.
    pub closed spec fn hits(&self) -> &'a crossbeam::channel::Receiver<Result<HitRecord, Error>> {
        self.hits
    }

    /// The queue of the improvements.
    pub closed spec fn updates(&self) -> &'a crossbeam::channel::Receiver<()> {
        self.updates
    }

    /// Whether these are the same queues, whatever came of them since.
    pub open spec fn same_queues(&self, other: &Self) -> bool {
        self.hits() == other.hits() && self.updates() == other.updates()
    }

    /// Queues on which nobody has waited yet.
    pub fn new(
        hits: &'a crossbeam::channel::Receiver<Result<HitRecord, Error>>,
        updates: &'a crossbeam::channel::Receiver<()>,
    ) -> (r: SearchQueues<'a>)
        ensures
            r.hits() == hits,
            r.updates() == updates,
            r.seen().len() == 0,
            r.ends().len() == 0,
    {
        SearchQueues { hits, updates, seen: Ghost(Seq::empty()), ends: Ghost(Seq::empty()) }
    }
}

/// `crossbeam::channel::Select` over both queues: the next message of either,
/// or that one of them is closed. Which comes depends on the other threads;
/// whatever it is, it is what was seen last.
#[verifier::external_body]
fn next_event(queues: &mut SearchQueues<'_>) -> (r: SearchEvent)
    ensures
        final(queues).same_queues(&*old(queues)),
        final(queues).seen() == old(queues).seen().push(r),
        final(queues).ends() == old(queues).ends(),
{
    let mut select = crossbeam::channel::Select::new();
    let ended = select.recv(queues.hits);
    select.recv(queues.updates);
    let ready = select.select();
    if ready.index() == ended {
        ready.recv(queues.hits).map_or(SearchEvent::AllGone, SearchEvent::Ended)
    } else {
        ready.recv(queues.updates).map_or(SearchEvent::ImprovementsGone, |()| SearchEvent::Improved)
    }
}

/// `crossbeam::channel::Receiver::recv`: the next message, or nothing once the
/// queue is empty and closed. Which comes depends on the other threads;
/// whatever it is, it is the end that came last.
#[verifier::external_body]
fn next_ended(queues: &mut SearchQueues<'_>) -> (r: Option<Result<HitRecord, Error>>)
    ensures
        final(queues).same_queues(&*old(queues)),
        final(queues).seen() == old(queues).seen(),
        final(queues).ends() == old(queues).ends().push(r),
{
    queues.hits.recv().ok()
}

/// What the main thread does about an event.
pub enum Reaction {
    /// The search is over.
    Finish(Result<Option<HitRecord>, Error>),
    /// The closest candidate is to be kept, and the wait goes on.
    Save,
    /// Only the workers' ends are left to wait for.
    WaitForEnd,
}

/// What the main thread does about an event.
pub open spec fn reaction(event: SearchEvent) -> Reaction {
    match event {
        SearchEvent::Ended(end) => Reaction::Finish(outcome(Some(end))),
        SearchEvent::AllGone => Reaction::Finish(outcome(None)),
        SearchEvent::Improved => Reaction::Save,
        SearchEvent::ImprovementsGone => Reaction::WaitForEnd,
    }
}

/// What the main thread does about an event. The first end of a worker ends
/// the search: a hit with the hit, an error with the error.
pub fn react(event: SearchEvent) -> (r: Reaction)
    ensures
        r == reaction(event),
{
    match event {
        SearchEvent::Ended(end) => Reaction::Finish(conclude(Some(end))),
        SearchEvent::AllGone => Reaction::Finish(conclude(None)),
        SearchEvent::Improved => Reaction::Save,
        SearchEvent::ImprovementsGone => Reaction::WaitForEnd,
    }
}

/// What a search comes to once a worker ended, or none is left to.
pub open spec fn outcome(end: Option<Result<HitRecord, Error>>) -> Result<
    Option<HitRecord>,
    Error,
> {
    match end {
        None => Ok(None),
        Some(Ok(hit)) => Ok(Some(hit)),
        Some(Err(e)) => Err(e),
    }
}

/// What a search comes to once a worker ended, or none is left to.
pub fn conclude(end: Option<Result<HitRecord, Error>>) -> (r: Result<Option<HitRecord>, Error>)
    ensures
        r == outcome(end),
{
    match end {
        None => Ok(None),
        Some(Ok(hit)) => Ok(Some(hit)),
        Some(Err(e)) => Err(e),
    }
}

/// What was done about an event.
pub enum Handled {
    /// The search is over.
    Done(Result<Option<HitRecord>, Error>),
    /// The wait goes on.
    GoOn,
    /// Only the workers' ends are left to wait for.
    WaitForEnd,
}

/// Does what is to be done about an event. The closest candidate is kept when
/// it improved, and only then; failing to keep it ends the search.
pub fn handle_event<K: ClosestKeeper>(event: SearchEvent, keeper: &mut K) -> (r: Handled)
    ensures
        match reaction(event) {
            Reaction::Finish(end) => r == Handled::Done(end) && *final(keeper) == *old(keeper),
            Reaction::WaitForEnd => r == Handled::WaitForEnd && *final(keeper) == *old(keeper),
            Reaction::Save => exists|saved: Result<(), Error>| #[trigger]
                K::saves(*old(keeper), *final(keeper), saved) && r == (match saved {
                    Ok(_) => Handled::GoOn,
                    Err(e) => Handled::Done(Err(e)),
                }),
        },
{
    match react(event) {
        Reaction::Finish(end) => Handled::Done(end),
        Reaction::WaitForEnd => Handled::WaitForEnd,
        Reaction::Save => match keeper.save_closest() {
            Ok(()) => Handled::GoOn,
            Err(e) => Handled::Done(Err(e)),
        },
    }
}

/// Whether a keeper can go from `before` to `after` by exactly these attempts to
/// keep the closest candidate.
pub open spec fn kept<K: ClosestKeeper>(
    before: K,
    saves: Seq<Result<(), Error>>,
    after: K,
) -> bool
    decreases saves.len(),
{
    if saves.len() == 0 {
        before == after
    } else {
        exists|mid: K|
            kept(before, saves.drop_last(), mid) && #[trigger] K::saves(mid, after, saves.last())
    }
}

/// How many of these events are improvements.
pub open spec fn improvements(events: Seq<SearchEvent>) -> nat
    decreases events.len(),
{
    if events.len() == 0 {
        0
    } else {
        improvements(events.drop_last()) + if events.last() is Improved {
            1nat
        } else {
            0nat
        }
    }
}

/// Whether waiting for the end of a search can see these events and ends, make
/// these attempts to keep the closest candidate, and give `r`. There is one
/// attempt for each improvement, and none after one that failed.
pub open spec fn waited(
    events: Seq<SearchEvent>,
    ends: Seq<Option<Result<HitRecord, Error>>>,
    saves: Seq<Result<(), Error>>,
    r: Result<Option<HitRecord>, Error>,
) -> bool {
    let last = events.last();
    &&& events.len() > 0
    &&& forall|i: int| 0 <= i < events.len() - 1 ==> (#[trigger] events[i]) is Improved
    &&& saves.len() == improvements(events)
    &&& forall|i: int| 0 <= i < saves.len() - 1 ==> (#[trigger] saves[i]) is Ok
    &&& match reaction(last) {
        Reaction::Finish(end) => r == end && ends.len() == 0 && (saves.len() > 0
            ==> saves.last() is Ok),
        Reaction::WaitForEnd => ends.len() == 1 && r == outcome(ends[0]) && (saves.len() > 0
            ==> saves.last() is Ok),
        Reaction::Save => ends.len() == 0 && match saves.last() {
            Ok(_) => r == Err::<Option<HitRecord>, Error>(Error::WaitExhausted) && events.len()
                == u64::MAX,
            Err(e) => r == Err::<Option<HitRecord>, Error>(e),
        },
    }
}

/// Waits until a worker ends, and keeps the closest candidate whenever it
/// improved. Failing to keep it ends the search.
pub fn receive_hit<K: ClosestKeeper>(queues: &mut SearchQueues<'_>, keeper: &mut K) -> (r: Result<
    Option<HitRecord>,
    Error,
>)
    ensures
        final(queues).same_queues(&*old(queues)),
        old(queues).seen().is_prefix_of(final(queues).seen()),
        old(queues).ends().is_prefix_of(final(queues).ends()),
        exists|saves: Seq<Result<(), Error>>| #[trigger]
            kept(*old(keeper), saves, *final(keeper)) && waited(
                final(queues).seen().skip(old(queues).seen().len() as int),
                final(queues).ends().skip(old(queues).ends().len() as int),
                saves,
                r,
            ),
{
    let ghost first = queues.seen();
    let ghost mut saves: Seq<Result<(), Error>> = Seq::empty();
    let mut events: u64 = 0;
    proof {
        assert(queues.seen().skip(first.len() as int) =~= Seq::empty());
    }
    while events < u64::MAX
        invariant
            first == old(queues).seen(),
            queues.same_queues(&*old(queues)),
            first.is_prefix_of(queues.seen()),
            queues.ends() == old(queues).ends(),
            queues.seen().len() == first.len() + events,
            forall|i: int|
                0 <= i < events ==> (#[trigger] queues.seen().skip(first.len() as int)[i])
                    is Improved,
            improvements(queues.seen().skip(first.len() as int)) == events,
            saves.len() == events,
            forall|i: int| 0 <= i < saves.len() ==> (#[trigger] saves[i]) is Ok,
            kept(*old(keeper), saves, *keeper),
        decreases u64::MAX - events,
    {
        let ghost earlier = queues.seen().skip(first.len() as int);
        let ghost before = *keeper;
        let event: SearchEvent = next_event(queues);
        let ghost all = queues.seen().skip(first.len() as int);
        let ghost seen = event;
        proof {
            assert(all =~= earlier.push(event));
            assert(all.drop_last() =~= earlier);
            assert(first.is_prefix_of(queues.seen()));
            assert(queues.ends().skip(old(queues).ends().len() as int) =~= Seq::empty());
            assert forall|i: int|
                0 <= i < all.len() - 1 implies (#[trigger] all[i]) is Improved by {
                assert(all[i] == earlier[i]);
            }
        }
        let handled = handle_event(event, keeper);
        proof {
            if seen is Improved {
                let saved = choose|saved: Result<(), Error>| #[trigger]
                    K::saves(before, *keeper, saved) && handled == (match saved {
                        Ok(_) => Handled::GoOn,
                        Err(e) => Handled::Done(Err(e)),
                    });
                let more = saves.push(saved);
                assert(more.drop_last() =~= saves);
                assert(K::saves(before, *keeper, more.last()));
                assert(kept(*old(keeper), more, *keeper));
                saves = more;
            }
        }
        match handled {
            Handled::Done(end) => {
                return end;
            },
            Handled::GoOn => {},
            Handled::WaitForEnd => {
                let end: Option<Result<HitRecord, Error>> = next_ended(queues);
                proof {
                    let ends = queues.ends().skip(old(queues).ends().len() as int);
                    assert(ends =~= seq![end]);
                    assert(old(queues).ends().is_prefix_of(queues.ends()));
                }
                return conclude(end);
            },
        }
        events += 1;
    }
    assert(queues.ends().skip(old(queues).ends().len() as int) =~= Seq::empty());
    Err(Error::WaitExhausted)
}

/// The first error among the workers' ends, in order.
pub open spec fn first_error(ends: Seq<Result<HitRecord, Error>>) -> Option<Error>
    decreases ends.len(),
{
    if ends.len() == 0 {
        None
    } else {
        match ends[0] {
            Err(e) => Some(e),
            Ok(_) => first_error(ends.drop_first()),
        }
    }
}

/// What the program comes to once everything has ended: an error that was
/// received, else the first among the ends that came later, else one of what had
/// to be done after the search, else what was received.
pub open spec fn finished(
    received: Result<Option<HitRecord>, Error>,
    later: Seq<Result<HitRecord, Error>>,
    saved: Result<(), Error>,
) -> Result<Option<HitRecord>, Error> {
    match (received, first_error(later), saved) {
        (Err(e), _, _) => Err(e),
        (Ok(_), Some(e), _) => Err(e),
        (Ok(_), None, Err(e)) => Err(e),
        (Ok(hit), None, Ok(_)) => Ok(hit),
    }
}

/// What the program comes to once everything has ended. No error is hidden by
/// a hit.
pub fn finish(
    received: Result<Option<HitRecord>, Error>,
    later: Vec<Result<HitRecord, Error>>,
    saved: Result<(), Error>,
) -> (r: Result<Option<HitRecord>, Error>)
    ensures
        r == finished(received, later@, saved),
{
    let mut rest: Vec<Result<HitRecord, Error>> = later;
    let mut first: Option<Error> = None;
    let ghost all = rest@;
    proof {
        assert(all.skip(all.len() as int) =~= Seq::empty());
    }
    while rest.len() > 0
        invariant
            rest@.len() <= all.len(),
            rest@ == all.take(rest@.len() as int),
            first == first_error(all.skip(rest@.len() as int)),
        decreases rest@.len(),
    {
        let ghost at = rest@.len() - 1;
        let end = rest.pop();
        proof {
            assert(all.skip(at).drop_first() =~= all.skip(at + 1));
            assert(rest@ =~= all.take(at));
            assert(end == Some(all.skip(at)[0]));
        }
        if let Some(Err(e)) = end {
            first = Some(e);
        }
    }
    assert(all.skip(0) =~= all);
    match received {
        Err(e) => Err(e),
        Ok(hit) => match first {
            Some(e) => Err(e),
            None => match saved {
                Err(e) => Err(e),
                Ok(()) => Ok(hit),
            },
        },
    }
}

}
