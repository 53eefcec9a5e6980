//! What the closest candidate is, and what an offer does to it.
use crate::best::{BestBoard, BestCandidate, BestState};
use crate::error::Error;
use crate::scalar::SecretKey;
use vstd::prelude::*;

verus! {

use crate::best::{proposal, CandidateModel};

/// Whether a candidate counts the digits that it matches, and matches no more
/// than an address has.
pub open spec fn counted(held: CandidateModel) -> bool {
    &&& held.prefix_match <= 40
    &&& held.suffix_match <= 40
    &&& held.score == held.prefix_match + held.suffix_match
}

/// Whether a match of so many digits, found after so many tries, comes before
/// `held`: more digits, then more of the prefix, then fewer tries.
pub open spec fn comes_before(
    prefix: usize,
    suffix: usize,
    tries: u64,
    held: CandidateModel,
) -> bool {
    let digits = prefix + suffix;
    let kept = held.prefix_match + held.suffix_match;
    ||| digits > kept
    ||| digits == kept && prefix > held.prefix_match
    ||| digits == kept && prefix == held.prefix_match && tries < held.tries
}

/// The score of a match is the number of its digits, at the front and at the
/// end.
pub proof fn law_score_counts_digits(
    nibbles: Seq<u8>,
    scalar: nat,
    tries: u64,
    prefix: usize,
    suffix: usize,
)
    requires
        prefix <= 40,
        suffix <= 40,
    ensures
        proposal(nibbles, scalar, tries, prefix, suffix).score == prefix + suffix,
        counted(proposal(nibbles, scalar, tries, prefix, suffix)),
        proposal(nibbles, scalar, tries, prefix, suffix).tries == tries,
{
}

/// An empty board takes every confirmed match of at least one digit, with its
/// digits counted, and no other.
pub proof fn law_empty_board_takes_any_match<F: FnOnce() -> Result<(), Error>>(
    nibbles: &[u8; 40],
    key: &SecretKey,
    tries: u64,
    prefix: usize,
    suffix: usize,
    verify: F,
)
    requires
        prefix <= 40,
        suffix <= 40,
    ensures
        forall|board: &mut BestBoard, r: Result<bool, Error>| #[trigger]
            call_ensures(
                BestBoard::consider_checked::<F>,
                (board, nibbles, key, tries, prefix, suffix, verify),
                r,
            ) && board@ is None && r is Ok ==> {
                &&& r == Ok::<bool, Error>(prefix + suffix > 0)
                &&& final(board)@ is Some <==> prefix + suffix > 0
                &&& prefix + suffix > 0 ==> final(board)@->0.score == prefix + suffix
                    && final(board)@->0.prefix_match == prefix && final(board)@->0.suffix_match
                    == suffix && final(board)@->0.tries == tries
            },
{
}

/// A board that holds a candidate gives it up for a confirmed match exactly when
/// the match comes before it; what is then held counts the digits of the match.
pub proof fn law_board_keeps_the_closest<F: FnOnce() -> Result<(), Error>>(
    nibbles: &[u8; 40],
    key: &SecretKey,
    tries: u64,
    prefix: usize,
    suffix: usize,
    verify: F,
)
    requires
        prefix <= 40,
        suffix <= 40,
    ensures
        forall|board: &mut BestBoard, r: Result<bool, Error>| #[trigger]
            call_ensures(
                BestBoard::consider_checked::<F>,
                (board, nibbles, key, tries, prefix, suffix, verify),
                r,
            ) && board@ is Some && counted(board@->0) && board@->0.score > 0 ==> {
                &&& r is Ok ==> r == Ok::<bool, Error>(
                    comes_before(prefix, suffix, tries, board@->0),
                )
                &&& r == Ok::<bool, Error>(true) ==> final(board)@ is Some && counted(
                    final(board)@->0,
                ) && final(board)@->0.prefix_match == prefix && final(board)@->0.suffix_match
                    == suffix && final(board)@->0.tries == tries
                &&& r != Ok::<bool, Error>(true) ==> final(board)@ == board@
                &&& r is Err ==> comes_before(prefix, suffix, tries, board@->0)
            },
{
}

/// An offer fails only with the error of its confirmation, and is taken only
/// where it was confirmed. Where nothing but a confirmation can come, it does
/// not fail.
pub proof fn law_board_listens_to_the_confirmation<F: FnOnce() -> Result<(), Error>>(
    nibbles: &[u8; 40],
    key: &SecretKey,
    tries: u64,
    prefix: usize,
    suffix: usize,
    verify: F,
)
    ensures
        forall|board: &mut BestBoard, r: Result<bool, Error>| #[trigger]
            call_ensures(
                BestBoard::consider_checked::<F>,
                (board, nibbles, key, tries, prefix, suffix, verify),
                r,
            ) ==> {
                &&& r matches Err(e) ==> verify.ensures((), Err(e)) && final(board)@ == board@
                &&& r == Ok::<bool, Error>(true) ==> exists|answer: Result<(), Error>| #[trigger]
                    verify.ensures((), answer) && answer is Ok
                &&& r == Ok::<bool, Error>(false) ==> final(board)@ == board@
            },
{
}

/// The score of a board is that of what it holds, and zero where it holds
/// nothing.
pub proof fn law_board_score(board: &BestBoard, r: u32)
    requires
        call_ensures(BestBoard::score, (board,), r),
    ensures
        match board@ {
            None => r == 0,
            Some(held) => r == held.score,
        },
{
}

/// A shared state in which nothing was held and no score shown takes every match
/// of at least one digit that it is offered.
pub proof fn law_empty_state_takes_any_match(
    state: &BestState,
    nibbles: &[u8; 40],
    key: &SecretKey,
    tries: u64,
    prefix: usize,
    suffix: usize,
    r: bool,
)
    requires
        prefix <= 40,
        suffix <= 40,
        call_ensures(BestState::consider, (state, nibbles, key, tries, prefix, suffix), r),
        forall|hint: u32| #[trigger] state.hints(hint) ==> hint == 0,
        forall|held: Option<CandidateModel>| #[trigger] state.found_holding(held) ==> held is None,
    ensures
        r == (prefix + suffix > 0),
        r ==> state.published((prefix + suffix) as u32),
{
}

/// A shared state turns a match away only for want of any digit, for a shown
/// score above its own, or for a candidate that it does not come before.
pub proof fn law_state_turns_away_only_the_worse(
    state: &BestState,
    nibbles: &[u8; 40],
    key: &SecretKey,
    tries: u64,
    prefix: usize,
    suffix: usize,
    r: bool,
)
    requires
        prefix <= 40,
        suffix <= 40,
        call_ensures(BestState::consider, (state, nibbles, key, tries, prefix, suffix), r),
        forall|held: Option<CandidateModel>| #[trigger]
            state.found_holding(held) ==> held is None || counted(held->0) && held->0.score > 0,
    ensures
        r ==> prefix + suffix > 0 && exists|held: Option<CandidateModel>| #[trigger]
            state.found_holding(held) && (held is None || comes_before(
                prefix,
                suffix,
                tries,
                held->0,
            )),
        !r ==> {
            ||| prefix + suffix == 0
            ||| exists|hint: u32| #[trigger] state.hints(hint) && hint > prefix + suffix
            ||| exists|held: Option<CandidateModel>| #[trigger]
                state.found_holding(held) && held is Some && !comes_before(
                    prefix,
                    suffix,
                    tries,
                    held->0,
                )
        },
{
}

/// Whatever a shared state shows of its closest candidate counts the digits that
/// it matches, and matches at least one.
pub proof fn law_shown_candidate_is_counted(state: &BestState, r: Option<BestCandidate>)
    requires
        call_ensures(BestState::snapshot, (state,), r),
    ensures
        r matches Some(c) ==> c.score > 0 && (c.prefix_match <= 40 && c.suffix_match <= 40
            ==> c.score == c.prefix_match + c.suffix_match),
{
}

/// A copy of what a board holds says the same.
pub proof fn law_board_shows_what_it_holds(board: &BestBoard, r: Option<BestCandidate>)
    requires
        call_ensures(BestBoard::snapshot, (board,), r),
    ensures
        match (board@, r) {
            (None, None) => true,
            (Some(held), Some(c)) => {
                &&& c.score == held.score
                &&& c.prefix_match == held.prefix_match
                &&& c.suffix_match == held.suffix_match
                &&& c.tries == held.tries
                &&& c.address@ == held.address
                &&& c.private_key@ == held.private_key
            },
            _ => false,
        },
{
}

/// An offer that has to be confirmed is taken by a shared state exactly as by one
/// that holds nothing, where nothing was held and no score shown: every match of
/// at least one digit, unless its confirmation fails. An error is that of the
/// confirmation, and only a confirmed match is taken.
pub proof fn law_empty_state_takes_what_is_confirmed<F: FnOnce() -> Result<(), Error>>(
    state: &BestState,
    nibbles: &[u8; 40],
    key: &SecretKey,
    tries: u64,
    prefix: usize,
    suffix: usize,
    verify: F,
    r: Result<bool, Error>,
)
    requires
        prefix <= 40,
        suffix <= 40,
        call_ensures(
            BestState::consider_checked::<F>,
            (state, nibbles, key, tries, prefix, suffix, verify),
            r,
        ),
        forall|hint: u32| #[trigger] state.hints(hint) ==> hint == 0,
        forall|held: Option<CandidateModel>| #[trigger] state.found_holding(held) ==> held is None,
    ensures
        r is Ok ==> r == Ok::<bool, Error>(prefix + suffix > 0),
        r is Err ==> prefix + suffix > 0,
        r matches Err(e) ==> verify.ensures((), Err(e)),
        r == Ok::<bool, Error>(true) ==> exists|answer: Result<(), Error>| #[trigger]
            verify.ensures((), answer) && answer is Ok,
        r == Ok::<bool, Error>(true) ==> state.published((prefix + suffix) as u32),
{
}

/// A shared state turns an offer that has to be confirmed away only for want of any
/// digit, for a shown score above its own, or for a candidate that it does not come
/// before; and it takes one, or asks for its confirmation, only where it comes
/// before what is held.
pub proof fn law_state_asks_only_about_the_better<F: FnOnce() -> Result<(), Error>>(
    state: &BestState,
    nibbles: &[u8; 40],
    key: &SecretKey,
    tries: u64,
    prefix: usize,
    suffix: usize,
    verify: F,
    r: Result<bool, Error>,
)
    requires
        prefix <= 40,
        suffix <= 40,
        call_ensures(
            BestState::consider_checked::<F>,
            (state, nibbles, key, tries, prefix, suffix, verify),
            r,
        ),
        forall|held: Option<CandidateModel>| #[trigger]
            state.found_holding(held) ==> held is None || counted(held->0) && held->0.score > 0,
    ensures
        r != Ok::<bool, Error>(false) ==> prefix + suffix > 0 && exists|
            held: Option<CandidateModel>,
        | #[trigger]
            state.found_holding(held) && (held is None || comes_before(
                prefix,
                suffix,
                tries,
                held->0,
            )),
        r == Ok::<bool, Error>(false) ==> {
            ||| prefix + suffix == 0
            ||| exists|hint: u32| #[trigger] state.hints(hint) && hint > prefix + suffix
            ||| exists|held: Option<CandidateModel>| #[trigger]
                state.found_holding(held) && held is Some && !comes_before(
                    prefix,
                    suffix,
                    tries,
                    held->0,
                )
        },
{
}

}
