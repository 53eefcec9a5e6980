//! The score by which hopeless matches are turned away without waiting, and the
//! board that it is published from.
use crate::best::{BestBoard, BestCandidate};
use crate::error::Error;
use crate::scalar::SecretKey;
use std::sync::atomic::{AtomicU32, Ordering};
use vstd::prelude::*;

verus! {

use crate::best::{candidate_view, proposal, CandidateModel};
use crate::hex::all_nibbles;

/// The score of what is held.
pub open spec fn held_score(held: Option<CandidateModel>) -> u32 {
    match held {
        None => 0,
        Some(candidate) => candidate.score,
    }
}

/// A score that any thread can read. It is written only from the board that
/// belongs to it.
pub struct ScoreHint {
    score: AtomicU32,
}

/// A board that belongs to a score hint. There is one for each hint.
pub struct HeldBoard {
    board: BestBoard,
    hint: Ghost<AtomicU32>,
}

impl View for HeldBoard {
    type V = Option<CandidateModel>;

    closed spec fn view(&self) -> Option<CandidateModel> {
        self.board@
    }
}

impl ScoreHint {
    /// Whether the hint was made with no score.
    pub closed spec fn fresh(&self) -> bool {
        call_ensures(AtomicU32::new, (0u32,), self.score)
    }

    /// Whether a read of the hint can give `score`.
    pub closed spec fn reads(&self, score: u32) -> bool {
        call_ensures(AtomicU32::load, (&self.score, Ordering::Relaxed), score)
    }

    /// Whether the write of `score` has returned.
    pub closed spec fn written(&self, score: u32) -> bool {
        call_ensures(AtomicU32::store, (&self.score, score, Ordering::Relaxed), ())
    }

    /// Whether the hint was made with this score or had it written.
    pub open spec fn shown(&self, score: u32) -> bool {
        self.written(score) || (score == 0 && self.fresh())
    }

    /// A hint with no score, and the board that belongs to it and holds nothing.
    pub(crate) fn with_board() -> (r: (ScoreHint, HeldBoard))
        ensures
            r.0.fresh(),
            r.1@ is None,
            r.1.belongs_to(r.0),
    {
        let score = AtomicU32::new(0);
        let hint: Ghost<AtomicU32> = Ghost(score);
        (ScoreHint { score }, HeldBoard { board: BestBoard::new(), hint })
    }

    /// The score as last published.
    pub fn read(&self) -> (r: u32)
        ensures
            self.reads(r),
    {
        self.score.load(Ordering::Relaxed)
    }

    /// Publishes the score of what the board holds.
    pub fn publish(&self, board: &HeldBoard)
        requires
            board.belongs_to(*self),
        ensures
            self.written(held_score(board@)),
    {
        self.score.store(board.board.score(), Ordering::Relaxed)
    }
}

impl HeldBoard {
    /// Whether this is the board of a hint.
    pub closed spec fn belongs_to(&self, hint: ScoreHint) -> bool {
        self.hint@ == hint.score
    }

    /// A copy of what is held.
    pub fn snapshot(&self) -> (r: Option<BestCandidate>)
        ensures
            candidate_view(r) == self@,
    {
        self.board.snapshot()
    }

    /// Takes the match if it improves on what is held and `verify` confirms it,
    /// as a board does. The hint is left to be published.
    pub fn consider_checked<F: FnOnce() -> Result<(), Error>>(
        &mut self,
        nibbles: &[u8; 40],
        secret_key: &SecretKey,
        tries: u64,
        prefix_match: usize,
        suffix_match: usize,
        verify: F,
    ) -> (r: Result<bool, Error>)
        requires
            prefix_match + suffix_match <= usize::MAX,
            all_nibbles(nibbles@),
            verify.requires(()),
        ensures
            forall|hint: ScoreHint| #[trigger]
                final(self).belongs_to(hint) == old(self).belongs_to(hint),
            ({
                let new = proposal(nibbles@, secret_key@, tries, prefix_match, suffix_match);
                if new.improves_on(old(self)@) {
                    exists|answer: Result<(), Error>| #[trigger]
                        verify.ensures((), answer) && match answer {
                            Ok(_) => r == Ok::<bool, Error>(true) && final(self)@ == Some(new),
                            Err(e) => r == Err::<bool, Error>(e) && final(self)@ == old(self)@,
                        }
                } else {
                    r == Ok::<bool, Error>(false) && final(self)@ == old(self)@
                }
            }),
    {
        self.board.consider_checked(nibbles, secret_key, tries, prefix_match, suffix_match, verify)
    }
}

}
