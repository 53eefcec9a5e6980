//! The closest candidate seen so far, alone and shared between workers.
use crate::error::Error;
use crate::hex::{nibbles_to_hex, sk_to_hex};
use crate::hint::{HeldBoard, ScoreHint};
use crate::scalar::SecretKey;
use vstd::prelude::*;
use vstd::rwlock::{RwLock, RwLockPredicate, WriteHandle};

verus! {

use crate::address::address_of;
use crate::hex::{address_text, all_nibbles, byte_nibbles, key_text, prefixed_hex};
use crate::hint::held_score;
use crate::scalar::is_scalar;
use crate::trace::Due;

/// An address that matches in part, with the key that controls it.
pub struct BestCandidate {
    pub score: u32,
    pub prefix_match: usize,
    pub suffix_match: usize,
    pub tries: u64,
    pub address: String,
    pub private_key: String,
}

/// What a candidate says, as plain values.
pub struct CandidateModel {
    pub score: u32,
    pub prefix_match: usize,
    pub suffix_match: usize,
    pub tries: u64,
    pub address: Seq<char>,
    pub private_key: Seq<char>,
}

impl View for BestCandidate {
    type V = CandidateModel;

    open spec fn view(&self) -> CandidateModel {
        CandidateModel {
            score: self.score,
            prefix_match: self.prefix_match,
            suffix_match: self.suffix_match,
            tries: self.tries,
            address: self.address@,
            private_key: self.private_key@,
        }
    }
}

impl Clone for BestCandidate {
    fn clone(&self) -> (r: BestCandidate)
        ensures
            r@ == self@,
    {
        BestCandidate {
            score: self.score,
            prefix_match: self.prefix_match,
            suffix_match: self.suffix_match,
            tries: self.tries,
            address: self.address.clone(),
            private_key: self.private_key.clone(),
        }
    }
}

/// The score of a candidate: its matched digits, kept in 32 bits.
pub open spec fn score_of(prefix: usize, suffix: usize) -> u32 {
    (prefix + suffix) as u32
}

impl CandidateModel {
    /// Whether the key controls the address.
    pub open spec fn genuine(self) -> bool {
        exists|scalar: nat| #[trigger]
            is_scalar(scalar) && self.private_key == key_text(scalar) && self.address
                == address_text(address_of(scalar))
    }

    /// Whether the score is that of the matches, and not zero.
    pub open spec fn scored(self) -> bool {
        self.score == score_of(self.prefix_match, self.suffix_match) && self.score > 0
    }

    /// Whether this candidate is better than `other`: a higher score, then
    /// more of the prefix, then more of the suffix, then fewer tries.
    pub open spec fn better_than(self, other: CandidateModel) -> bool {
        ||| self.score > other.score
        ||| self.score == other.score && self.prefix_match > other.prefix_match
        ||| self.score == other.score && self.prefix_match == other.prefix_match
            && self.suffix_match > other.suffix_match
        ||| self.score == other.score && self.prefix_match == other.prefix_match
            && self.suffix_match == other.suffix_match && self.tries < other.tries
    }

    /// Whether this candidate takes the place of what is held.
    pub open spec fn improves_on(self, held: Option<CandidateModel>) -> bool {
        self.score > 0 && match held {
            None => true,
            Some(other) => self.better_than(other),
        }
    }
}

/// A view of a candidate that may be missing.
pub open spec fn candidate_view(candidate: Option<BestCandidate>) -> Option<CandidateModel> {
    match candidate {
        None => None,
        Some(c) => Some(c@),
    }
}

/// What would be held of a match.
pub open spec fn proposal(
    nibbles: Seq<u8>,
    scalar: nat,
    tries: u64,
    prefix: usize,
    suffix: usize,
) -> CandidateModel {
    CandidateModel {
        score: score_of(prefix, suffix),
        prefix_match: prefix,
        suffix_match: suffix,
        tries,
        address: prefixed_hex(nibbles),
        private_key: key_text(scalar),
    }
}

/// The matched digits, kept in 32 bits.
fn match_score(prefix: usize, suffix: usize) -> (r: u32)
    requires
        prefix + suffix <= usize::MAX,
    ensures
        r == score_of(prefix, suffix),
        prefix + suffix <= u32::MAX ==> r == prefix + suffix,
{
    #[verifier::truncate]
    ((prefix + suffix) as u32)
}

/// The closest candidate seen so far, for one owner.
pub struct BestBoard {
    candidate: Option<BestCandidate>,
}

impl View for BestBoard {
    type V = Option<CandidateModel>;

    closed spec fn view(&self) -> Option<CandidateModel> {
        candidate_view(self.candidate)
    }
}

impl BestBoard {
    /// A board that holds nothing.
    pub fn new() -> (r: BestBoard)
        ensures
            r@ is None,
    {
        BestBoard { candidate: None }
    }

    /// A copy of what is held.
    pub fn snapshot(&self) -> (r: Option<BestCandidate>)
        ensures
            candidate_view(r) == self@,
    {
        match &self.candidate {
            None => None,
            Some(candidate) => Some(candidate.clone()),
        }
    }

    /// The score of what is held, or zero.
    pub fn score(&self) -> (r: u32)
        ensures
            r == held_score(self@),
    {
        match &self.candidate {
            None => 0,
            Some(candidate) => candidate.score,
        }
    }

    /// Takes the match if it improves on what is held and `verify` confirms
    /// it. `verify` is asked only about improvements; its error leaves the
    /// board as it was.
    pub fn consider_checked<F: FnOnce() -> Result<(), Error>>(
        &mut self,
        nibbles: &[u8; 40],
        secret_key: &SecretKey,
        tries: u64,
        prefix_match: usize,
        suffix_match: usize,
        verify: F,
    ) -> (r: Result<bool, Error>)
        requires
            prefix_match + suffix_match <= usize::MAX,
            all_nibbles(nibbles@),
            verify.requires(()),
        ensures
            ({
                let new = proposal(
                    nibbles@,
                    secret_key@,
                    tries,
                    prefix_match,
                    suffix_match,
                );
                if new.improves_on(old(self)@) {
                    exists|answer: Result<(), Error>| #[trigger]
                        verify.ensures((), answer) && match answer {
                            Ok(_) => r == Ok::<bool, Error>(true) && final(self)@ == Some(new),
                            Err(e) => r == Err::<bool, Error>(e) && final(self)@ == old(self)@,
                        }
                } else {
                    r == Ok::<bool, Error>(false) && final(self)@ == old(self)@
                }
            }),
    {
        let score: u32 = match_score(prefix_match, suffix_match);
        if score == 0 {
            return Ok(false);
        }
        if let Some(held) = &self.candidate {
            let better: bool = if score != held.score {
                score > held.score
            } else if prefix_match != held.prefix_match {
                prefix_match > held.prefix_match
            } else if suffix_match != held.suffix_match {
                suffix_match > held.suffix_match
            } else {
                tries < held.tries
            };
            if !better {
                return Ok(false);
            }
        }
        let answer: Result<(), Error> = verify();
        assert(verify.ensures((), answer));
        match answer {
            Ok(()) => {
                self.candidate = Some(
                    BestCandidate {
                        score,
                        prefix_match,
                        suffix_match,
                        tries,
                        address: nibbles_to_hex(nibbles),
                        private_key: sk_to_hex(secret_key),
                    },
                );
                Ok(true)
            },
            Err(e) => Err(e),
        }
    }
}

/// What a shared board may hold, and the hint that shows its score.
pub struct BestPolicy {
    pub genuine_only: bool,
    pub hint: ScoreHint,
}

impl RwLockPredicate<HeldBoard> for BestPolicy {
    /// The score of what is held is shown by the hint.
    open spec fn inv(self, board: HeldBoard) -> bool {
        &&& board.belongs_to(self.hint)
        &&& self.hint.shown(held_score(board@))
        &&& match board@ {
            None => true,
            Some(c) => c.scored() && (self.genuine_only ==> c.genuine()),
        }
    }
}

/// The closest candidate of all workers. The score is only a hint by which
/// hopeless matches are turned away without waiting; the candidate itself
/// stays behind the lock.
pub struct BestState {
    score: ScoreHint,
    board: RwLock<HeldBoard, BestPolicy>,
}

impl Default for BestState {
    /// A state that holds nothing and takes any match it is offered.
    fn default() -> (r: BestState)
        ensures
            !r.genuine_only(),
            r.started_empty(),
    {
        BestState::empty(Ghost(false))
    }
}

impl BestState {
    /// Whether the lock guards the board of the score hint.
    #[verifier::type_invariant]
    pub closed spec fn tied(self) -> bool {
        self.board.pred().hint == self.score
    }

    /// Whether every candidate ever held controls its address.
    pub closed spec fn genuine_only(&self) -> bool {
        self.board.pred().genuine_only
    }

    /// Whether the state was made with no score and nothing held.
    pub closed spec fn started_empty(&self) -> bool {
        &&& self.score.fresh()
        &&& exists|board: HeldBoard|
            board@ is None && #[trigger] call_ensures(
                RwLock::<HeldBoard, BestPolicy>::new,
                (board, Ghost(self.board.pred())),
                self.board,
            )
    }

    /// Whether a read of the score hint can give `hint`.
    pub closed spec fn hints(&self, hint: u32) -> bool {
        self.score.reads(hint)
    }

    /// Whether the write of `score` as the score hint has returned.
    pub closed spec fn published(&self, score: u32) -> bool {
        self.score.written(score)
    }

    /// Whether the score hint was made with this score or had it written.
    pub closed spec fn shows(&self, score: u32) -> bool {
        self.score.shown(score)
    }

    /// Whether taking the lock can find this held.
    pub closed spec fn found_holding(&self, held: Option<CandidateModel>) -> bool {
        exists|found: (HeldBoard, WriteHandle<'_, HeldBoard, BestPolicy>)| #[trigger]
            call_ensures(RwLock::<HeldBoard, BestPolicy>::acquire_write, (&self.board,), found)
                && found.0@ == held
    }

    /// Whether the lock was given back with this held.
    pub closed spec fn left_holding(&self, held: Option<CandidateModel>) -> bool {
        exists|handle: WriteHandle<'_, HeldBoard, BestPolicy>, board: HeldBoard|
            handle.rwlock() == self.board && board@ == held && #[trigger] call_ensures(
                WriteHandle::<'_, HeldBoard, BestPolicy>::release_write,
                (handle, board),
                (),
            )
    }

    /// Whether a match was not taken, and for what reason: it has no score, the
    /// hint is higher, or it does not improve on what is held.
    pub open spec fn turned_away(&self, new: CandidateModel) -> bool {
        ||| new.score == 0
        ||| exists|hint: u32| #[trigger] self.hints(hint) && new.score < hint
        ||| exists|held: Option<CandidateModel>| #[trigger]
            self.found_holding(held) && !new.improves_on(held) && self.left_holding(held)
    }

    /// Whether a match improved on what was held, so that `answer` decided:
    /// it was taken and its score published, or the error was passed on and
    /// everything left as it was, with the score of what is held still the one
    /// that is shown.
    pub open spec fn settled(
        &self,
        new: CandidateModel,
        answer: Result<(), Error>,
        r: Result<bool, Error>,
    ) -> bool {
        exists|held: Option<CandidateModel>| #[trigger]
            self.found_holding(held) && new.improves_on(held) && match answer {
                Ok(_) => r == Ok::<bool, Error>(true) && self.left_holding(Some(new))
                    && self.published(new.score),
                Err(e) => r == Err::<bool, Error>(e) && self.left_holding(held) && self.shows(
                    held_score(held),
                ),
            }
    }

    /// A state that holds nothing.
    fn empty(genuine_only: Ghost<bool>) -> (r: BestState)
        ensures
            r.genuine_only() == genuine_only@,
            r.started_empty(),
    {
        let (score, board) = ScoreHint::with_board();
        let ghost policy = BestPolicy { genuine_only: genuine_only@, hint: score };
        let ghost first = board;
        let guarded = RwLock::new(board, Ghost(policy));
        proof {
            assert(call_ensures(
                RwLock::<HeldBoard, BestPolicy>::new,
                (first, Ghost(policy)),
                guarded,
            ));
        }
        BestState { score, board: guarded }
    }

    /// A state that holds nothing and takes only matches whose key controls
    /// the address.
    pub fn verified() -> (r: BestState)
        ensures
            r.genuine_only(),
            r.started_empty(),
    {
        BestState::empty(Ghost(true))
    }

    /// The score hint, as last published.
    pub fn cached_score(&self) -> (r: u32)
        ensures
            self.hints(r),
    {
        self.score.read()
    }

    /// Offers a match that needs no confirmation.
    pub fn consider(
        &self,
        nibbles: &[u8; 40],
        key: &SecretKey,
        tries: u64,
        prefix: usize,
        suffix: usize,
    ) -> (r: bool)
        requires
            prefix + suffix <= usize::MAX,
            all_nibbles(nibbles@),
            self.genuine_only() ==> nibbles@ == byte_nibbles(address_of(key@)),
        ensures
            ({
                let new = proposal(nibbles@, key@, tries, prefix, suffix);
                if r {
                    self.settled(new, Ok(()), Ok(true))
                } else {
                    self.turned_away(new)
                }
            }),
    {
        let verify = || -> (answer: Result<(), Error>)
            ensures
                answer is Ok,
            { Ok(()) };
        match self.consider_checked(nibbles, key, tries, prefix, suffix, verify) {
            Ok(taken) => taken,
            Err(_) => false,
        }
    }

    /// Offers a match. It is taken if it improves on what is held and `verify`
    /// confirms it. `Ok(true)` says that it was taken. An error is that of
    /// `verify`, and nothing was taken then.
    pub fn consider_checked<F: FnOnce() -> Result<(), Error>>(
        &self,
        nibbles: &[u8; 40],
        secret_key: &SecretKey,
        tries: u64,
        prefix_match: usize,
        suffix_match: usize,
        verify: F,
    ) -> (r: Result<bool, Error>)
        requires
            prefix_match + suffix_match <= usize::MAX,
            all_nibbles(nibbles@),
            verify.requires(()),
            self.genuine_only() ==> forall|answer: Result<(), Error>| #[trigger]
                verify.ensures((), answer) && answer is Ok ==> nibbles@ == byte_nibbles(
                    address_of(secret_key@),
                ),
        ensures
            score_of(prefix_match, suffix_match) == 0 ==> r == Ok::<bool, Error>(false),
            r == Ok::<bool, Error>(true) ==> exists|answer: Result<(), Error>| #[trigger]
                verify.ensures((), answer) && answer is Ok,
            r matches Err(e) ==> exists|answer: Result<(), Error>| #[trigger]
                verify.ensures((), answer) && answer == Err::<(), Error>(e),
            ({
                let new = proposal(nibbles@, secret_key@, tries, prefix_match, suffix_match);
                ||| r == Ok::<bool, Error>(false) && self.turned_away(new)
                ||| exists|answer: Result<(), Error>| #[trigger]
                    verify.ensures((), answer) && self.settled(new, answer, r)
            }),
    {
        let score: u32 = match_score(prefix_match, suffix_match);
        if score == 0 {
            return Ok(false);
        }
        let hint: u32 = self.cached_score();
        if score < hint {
            return Ok(false);
        }
        proof {
            use_type_invariant(self);
        }
        let (mut board, handle) = self.board.acquire_write();
        let ghost before = board@;
        assert(self.found_holding(before));
        let r: Result<bool, Error> = board.consider_checked(
            nibbles,
            secret_key,
            tries,
            prefix_match,
            suffix_match,
            verify,
        );
        proof {
            if board@ != before && self.genuine_only() {
                use_type_invariant(secret_key);
                secret_key.lemma_in_range();
                assert(is_scalar(secret_key@));
                assert(board@->0.genuine());
            }
        }
        if let Ok(true) = r {
            // Published under the lock, so an older update cannot lower it.
            self.score.publish(&board);
        }
        let ghost after = board@;
        handle.release_write(board);
        assert(self.left_holding(after));
        r
    }

    /// A copy of the closest candidate, if there is one.
    pub fn snapshot(&self) -> (r: Option<BestCandidate>)
        ensures
            self.found_holding(candidate_view(r)),
            self.left_holding(candidate_view(r)),
            self.shows(held_score(candidate_view(r))),
            r matches Some(c) ==> c@.scored() && (self.genuine_only() ==> c@.genuine()),
    {
        proof {
            use_type_invariant(self);
        }
        let (board, handle) = self.board.acquire_write();
        let r: Option<BestCandidate> = board.snapshot();
        handle.release_write(board);
        r
    }
}

/// Candidates are strictly ordered by score, prefix, suffix and tries: none is
/// better than itself, the order carries over, and of two that differ in any
/// of the four one is better.
pub proof fn law_candidates_are_ordered(a: CandidateModel, b: CandidateModel, c: CandidateModel)
    ensures
        !a.better_than(a),
        a.better_than(b) && b.better_than(c) ==> a.better_than(c),
        a.better_than(b) || b.better_than(a) || (a.score == b.score && a.prefix_match
            == b.prefix_match && a.suffix_match == b.suffix_match && a.tries == b.tries),
{
}

/// What takes the place of a candidate never has a lower score.
pub proof fn law_score_never_falls(new: CandidateModel, held: CandidateModel)
    requires
        new.improves_on(Some(held)),
    ensures
        new.score >= held.score,
{
}

/// What is held after a row of confirmed offers, one after the other.
pub open spec fn held_after(offers: Seq<CandidateModel>) -> Option<CandidateModel>
    decreases offers.len(),
{
    if offers.len() == 0 {
        None
    } else {
        let held = held_after(offers.drop_last());
        if offers.last().improves_on(held) {
            Some(offers.last())
        } else {
            held
        }
    }
}

/// After any row of confirmed offers, what is held is one of them, none of the
/// others is better, and nothing is held only where no offer had a score.
pub proof fn law_best_offer_is_held(offers: Seq<CandidateModel>)
    ensures
        match held_after(offers) {
            None => forall|i: int| 0 <= i < offers.len() ==> (#[trigger] offers[i]).score == 0,
            Some(held) => offers.contains(held) && held.score > 0 && forall|i: int|
                0 <= i < offers.len() ==> !(#[trigger] offers[i]).better_than(held),
        },
    decreases offers.len(),
{
    if offers.len() > 0 {
        let earlier = offers.drop_last();
        law_best_offer_is_held(earlier);
        let last = offers.last();
        assert(offers[offers.len() - 1] == last);
        assert forall|i: int| 0 <= i < earlier.len() implies offers[i] == earlier[i] by {}
        match held_after(earlier) {
            None => {
                assert forall|i: int| 0 <= i < offers.len() implies (last.score > 0
                    ==> !(#[trigger] offers[i]).better_than(last)) && (last.score == 0
                    ==> offers[i].score == 0) by {
                    if i < earlier.len() {
                        assert(earlier[i].score == 0);
                    }
                }
            },
            Some(held) => {
                let at = choose|at: int| 0 <= at < earlier.len() && earlier[at] == held;
                assert(offers[at] == held);
                assert forall|i: int| 0 <= i < offers.len() && last.better_than(
                    held,
                ) implies !(#[trigger] offers[i]).better_than(last) by {
                    if i < earlier.len() {
                        assert(!earlier[i].better_than(held));
                    }
                }
                assert forall|i: int| 0 <= i < offers.len() && !last.improves_on(
                    Some(held),
                ) implies !(#[trigger] offers[i]).better_than(held) by {
                    if i < earlier.len() {
                        assert(!earlier[i].better_than(held));
                    }
                }
            },
        }
    }
}

/// Whatever is found held, from whatever thread, its score was published: the
/// hint was made with it or had it written.
pub proof fn law_held_score_is_published(state: BestState, held: Option<CandidateModel>)
    requires
        state.tied(),
        state.found_holding(held),
    ensures
        state.shows(held_score(held)),
{
}

/// What a state that holds `held` answers to an offer, given what the CPU says of
/// it.
pub open spec fn answered(held: Option<CandidateModel>, offer: Due) -> Result<bool, Error> {
    if !offer.new.improves_on(held) {
        Ok(false)
    } else {
        match offer.answer {
            Ok(_) => Ok(true),
            Err(e) => Err(e),
        }
    }
}

/// What is held after a row of offers, one after the other, each with what the
/// CPU says of it, where `first` was held before.
pub open spec fn held_after_answers(first: Option<CandidateModel>, offers: Seq<Due>) -> Option<
    CandidateModel,
>
    decreases offers.len(),
{
    if offers.len() == 0 {
        first
    } else {
        let held = held_after_answers(first, offers.drop_last());
        if answered(held, offers.last()) == Ok::<bool, Error>(true) {
            Some(offers.last().new)
        } else {
            held
        }
    }
}

/// The score that was published last in a row of offers: only one that was
/// taken publishes its score.
pub open spec fn published_after(first: Option<CandidateModel>, offers: Seq<Due>) -> u32
    decreases offers.len(),
{
    if offers.len() == 0 {
        held_score(first)
    } else {
        let held = held_after_answers(first, offers.drop_last());
        if answered(held, offers.last()) == Ok::<bool, Error>(true) {
            offers.last().new.score
        } else {
            published_after(first, offers.drop_last())
        }
    }
}

/// After any row of offers, confirmed or refused, the score that was published
/// last is that of what is held, and it was never higher before.
pub proof fn law_published_score_is_held(first: Option<CandidateModel>, offers: Seq<Due>)
    ensures
        published_after(first, offers) == held_score(held_after_answers(first, offers)),
        forall|k: int|
            0 <= k <= offers.len() ==> published_after(first, #[trigger] offers.take(k))
                <= published_after(first, offers),
    decreases offers.len(),
{
    if offers.len() == 0 {
        assert(offers.take(0) =~= offers);
    } else {
        let earlier = offers.drop_last();
        law_published_score_is_held(first, earlier);
        assert forall|k: int| 0 <= k <= offers.len() implies published_after(
            first,
            #[trigger] offers.take(k),
        ) <= published_after(first, offers) by {
            if k < offers.len() {
                assert(offers.take(k) =~= earlier.take(k));
            } else {
                assert(offers.take(k) =~= offers);
            }
        }
    }
}

}
