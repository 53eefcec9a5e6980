//! Which addresses meet a prefix and a suffix, and which of a batch is best.
use crate::address::Address;
use crate::error::Error;
use crate::hex::hex_to_nibbles;
use crate::matching::{
    evaluate_batch, prefix_match_len, suffix_match_len, BatchCandidate, Rank,
};
use crate::target::{effective_fixed, validate_targets, Targets};
use vstd::prelude::*;

verus! {

use crate::hex::byte_nibbles;
use crate::laws::digits::{lemma_spelled, spells};
use crate::matching::{
    common_len, common_tail, from_end, full_match, law_common_len, law_common_tail, matches_some,
};
use crate::target::{
    law_accepted_targets_are_satisfiable, overlap_len, shared_head, shared_tail,
};

/// Whether the first `len` digits are those that the pattern begins with.
pub open spec fn agree_first(digits: Seq<u8>, pattern: Seq<u8>, len: nat) -> bool {
    len <= digits.len() && len <= pattern.len() && forall|i: int|
        0 <= i < len ==> digits[i] == pattern[i]
}

/// The digit so many places from the end, the last being at one.
pub open spec fn counted_back(digits: Seq<u8>, i: int) -> u8 {
    digits[digits.len() - i]
}

/// Whether the last `len` digits are those that the pattern ends with.
pub open spec fn agree_last(digits: Seq<u8>, pattern: Seq<u8>, len: nat) -> bool {
    len <= digits.len() && len <= pattern.len() && forall|i: int|
        1 <= i <= len ==> #[trigger] counted_back(digits, i) == counted_back(pattern, i)
}

/// Whether the digits begin with all of the prefix and end with all of the
/// suffix.
pub open spec fn meets(digits: Seq<u8>, prefix: Seq<u8>, suffix: Seq<u8>) -> bool {
    agree_first(digits, prefix, prefix.len()) && agree_last(digits, suffix, suffix.len())
}

/// The common length is the longest agreement at the front.
pub proof fn lemma_first(digits: Seq<u8>, pattern: Seq<u8>, len: nat)
    ensures
        agree_first(digits, pattern, len) <==> len <= common_len(pattern, digits),
        common_len(pattern, digits) == pattern.len() <==> pattern.is_prefix_of(digits),
        common_len(pattern, digits) <= digits.len(),
{
    law_common_len(pattern, digits);
    let most = common_len(pattern, digits);
    if agree_first(digits, pattern, len) && len > most {
        assert(digits[most as int] == pattern[most as int]);
    }
}

/// The common tail is the longest agreement at the end.
pub proof fn lemma_last(digits: Seq<u8>, pattern: Seq<u8>, len: nat)
    ensures
        agree_last(digits, pattern, len) <==> len <= common_tail(pattern, digits),
        common_tail(pattern, digits) == pattern.len() <==> pattern.is_suffix_of(digits),
        common_tail(pattern, digits) <= digits.len(),
    decreases len,
{
    law_common_tail(pattern, digits);
    let most = common_tail(pattern, digits);
    if len <= most {
        assert forall|i: int| 1 <= i <= len implies #[trigger] counted_back(digits, i)
            == counted_back(pattern, i) by {
            assert(from_end(pattern, i) == from_end(digits, i));
        }
    } else if agree_last(digits, pattern, len) {
        let at = (most + 1) as int;
        assert(counted_back(digits, at) == counted_back(pattern, at));
        lemma_tail_stops(pattern, digits);
    }
}

/// The common tail ends with a sequence or at a difference.
proof fn lemma_tail_stops(a: Seq<u8>, b: Seq<u8>)
    ensures
        common_tail(a, b) <= a.len(),
        common_tail(a, b) <= b.len(),
        common_tail(a, b) < a.len() && common_tail(a, b) < b.len() ==> a[a.len() - 1 - common_tail(
            a,
            b,
        )] != b[b.len() - 1 - common_tail(a, b)],
    decreases a.len(),
{
    if a.len() > 0 && b.len() > 0 && a.last() == b.last() {
        lemma_tail_stops(a.drop_last(), b.drop_last());
    }
}

/// How many digits of a pattern an address starts with: that many agree, and
/// no more do.
pub proof fn law_prefix_count(digits: &[u8; 40], pattern: &[u8], r: usize, len: nat)
    requires
        call_ensures(prefix_match_len, (digits, pattern), r),
    ensures
        agree_first(digits@, pattern@, len) <==> len <= r,
{
    lemma_first(digits@, pattern@, len);
}

/// How many digits of a pattern an address ends with: that many agree, and no
/// more do.
pub proof fn law_suffix_count(digits: &[u8; 40], pattern: &[u8], r: usize, len: nat)
    requires
        call_ensures(suffix_match_len, (digits, pattern), r),
    ensures
        agree_last(digits@, pattern@, len) <==> len <= r,
{
    lemma_last(digits@, pattern@, len);
}

/// What decides a hit is that the digits of the address begin with all of the
/// prefix and end with all of the suffix, whichever of the two is empty.
pub proof fn law_hits_are_met_targets(address: Seq<u8>, digits: Seq<u8>, targets: Targets)
    requires
        spells(digits, address),
    ensures
        full_match(byte_nibbles(address), targets) <==> meets(
            digits,
            targets.prefix@,
            targets.suffix@,
        ),
{
    lemma_spelled(digits, address);
    lemma_first(digits, targets.prefix@, targets.prefix@.len());
    lemma_last(digits, targets.suffix@, targets.suffix@.len());
    law_common_len(targets.prefix@, digits);
    law_common_tail(targets.suffix@, digits);
}

/// A batch that holds an address whose digits begin with the prefix and end
/// with the suffix gives a hit, at that address or before it.
pub proof fn law_met_targets_give_a_hit(
    addresses: &[Address],
    targets: &Targets,
    r: (Option<BatchCandidate>, Option<usize>),
    at: int,
    digits: Seq<u8>,
)
    requires
        call_ensures(evaluate_batch, (addresses, targets), r),
        0 <= at < addresses@.len(),
        spells(digits, addresses@[at]@),
        meets(digits, targets.prefix@, targets.suffix@),
    ensures
        r.1 matches Some(hit) && hit <= at,
{
    law_hits_are_met_targets(addresses@[at]@, digits, *targets);
}

/// A hit is an address of the batch that begins with the prefix and ends with
/// the suffix, and no address before it does.
pub proof fn law_hit_meets_targets(
    addresses: &[Address],
    targets: &Targets,
    r: (Option<BatchCandidate>, Option<usize>),
    hit: usize,
    at: int,
    digits: Seq<u8>,
)
    requires
        call_ensures(evaluate_batch, (addresses, targets), r),
        r.1 == Some(hit),
        0 <= at <= hit,
        spells(digits, addresses@[at]@),
    ensures
        hit < addresses@.len(),
        meets(digits, targets.prefix@, targets.suffix@) <==> at == hit,
{
    law_hits_are_met_targets(addresses@[at]@, digits, *targets);
}

/// No address of a batch matches more digits in all than the best candidate,
/// nor as many with more of them in the prefix, nor just as many before it.
/// Where any digit is matched, there is a best candidate.
pub proof fn law_best_matches_most(
    addresses: &[Address],
    targets: &Targets,
    r: (Option<BatchCandidate>, Option<usize>),
    at: int,
    digits: Seq<u8>,
    prefix: nat,
    suffix: nat,
)
    requires
        call_ensures(evaluate_batch, (addresses, targets), r),
        0 <= at < addresses@.len(),
        spells(digits, addresses@[at]@),
        agree_first(digits, targets.prefix@, prefix),
        agree_last(digits, targets.suffix@, suffix),
        prefix + suffix > 0,
    ensures
        r.0 matches Some(best) && {
            &&& best.prefix + best.suffix >= prefix + suffix
            &&& best.prefix + best.suffix == prefix + suffix ==> best.prefix >= prefix
            &&& best.prefix == prefix && best.suffix == suffix ==> best.index <= at
        },
{
    lemma_spelled(digits, addresses@[at]@);
    lemma_first(digits, targets.prefix@, prefix);
    lemma_last(digits, targets.suffix@, suffix);
    assert(digits.len() == 40);
    assert(matches_some(addresses@, *targets, at));
    let best = r.0->0;
    let other = byte_nibbles(addresses@[best.index as int]@);
    lemma_first(other, targets.prefix@, 0);
    lemma_last(other, targets.suffix@, 0);
}

/// The best candidate is an address of the batch, with the digits that it
/// matches at the front and at the end, and at least one of them.
pub proof fn law_best_is_counted(
    addresses: &[Address],
    targets: &Targets,
    r: (Option<BatchCandidate>, Option<usize>),
    best: BatchCandidate,
    digits: Seq<u8>,
    len: nat,
)
    requires
        call_ensures(evaluate_batch, (addresses, targets), r),
        r.0 == Some(best),
        spells(digits, addresses@[best.index as int]@),
    ensures
        best.index < addresses@.len(),
        best.prefix + best.suffix > 0,
        agree_first(digits, targets.prefix@, len) <==> len <= best.prefix,
        agree_last(digits, targets.suffix@, len) <==> len <= best.suffix,
{
    let at = best.index as int;
    lemma_spelled(digits, addresses@[at]@);
    lemma_first(digits, targets.prefix@, len);
    lemma_last(digits, targets.suffix@, len);
}

/// A rank is above another by its total, then by its prefix, then by its suffix,
/// then by coming earlier: it is never above one with a larger total.
pub proof fn law_rank_order(a: Rank, b: Rank, r: bool)
    requires
        call_ensures(Rank::outranks, (a, b), r),
    ensures
        r ==> a.0 >= b.0,
        a.0 > b.0 ==> r,
        a.0 == b.0 && a.1 > b.1 ==> r,
        a.0 == b.0 && a.1 < b.1 ==> !r,
        a.0 == b.0 && a.1 == b.1 && a.2 > b.2 ==> r,
        a.0 == b.0 && a.1 == b.1 && a.2 < b.2 ==> !r,
        a.0 == b.0 && a.1 == b.1 && a.2 == b.2 ==> r == (a.3 < b.3),
        a.above(b) ==> a.0 >= b.0,
        a.0 > b.0 ==> a.above(b),
{
}

/// A candidate is ranked by all its digits, then those of the prefix, then those
/// of the suffix, then its place: one that outranks another matches no fewer
/// digits.
pub proof fn law_candidates_are_ranked(
    a: BatchCandidate,
    b: BatchCandidate,
    rank_a: Rank,
    rank_b: Rank,
    r: bool,
)
    requires
        a.prefix + a.suffix <= usize::MAX,
        b.prefix + b.suffix <= usize::MAX,
        call_ensures(BatchCandidate::rank, (a,), rank_a),
        call_ensures(BatchCandidate::rank, (b,), rank_b),
        call_ensures(Rank::outranks, (rank_a, rank_b), r),
    ensures
        r ==> a.prefix + a.suffix >= b.prefix + b.suffix,
        a.prefix + a.suffix > b.prefix + b.suffix ==> r,
        a.prefix + a.suffix == b.prefix + b.suffix && a.prefix > b.prefix ==> r,
        a.prefix == b.prefix && a.suffix == b.suffix ==> r == (a.index < b.index),
{
}

/// Whatever the targets accepted, some address meets them, by the very test
/// that decides hits.
pub proof fn law_accepted_targets_can_be_hit(
    prefix: &str,
    suffix: &str,
    verdict: Result<(), Error>,
    p: Vec<u8>,
    s: Vec<u8>,
)
    requires
        call_ensures(validate_targets, (prefix, suffix), verdict),
        verdict is Ok,
        call_ensures(hex_to_nibbles, (prefix,), Some(p)),
        call_ensures(hex_to_nibbles, (suffix,), Some(s)),
    ensures
        exists|address: Seq<u8>, digits: Seq<u8>| #[trigger]
            spells(digits, address) && address.len() == 20 && meets(digits, p@, s@) && full_match(
                byte_nibbles(address),
                (Targets { prefix: p, suffix: s }),
            ),
{
    let targets = Targets { prefix: p, suffix: s };
    law_accepted_targets_are_satisfiable(p@, s@);
    let address = choose|address: Seq<u8>|
        address.len() == 20 && #[trigger] p@.is_prefix_of(byte_nibbles(address))
            && s@.is_suffix_of(byte_nibbles(address));
    let digits = byte_nibbles(address);
    lemma_spelled(digits, address);
    lemma_first(digits, p@, p@.len());
    lemma_last(digits, s@, s@.len());
    law_hits_are_met_targets(address, digits, targets);
    assert(spells(digits, address));
}

/// Targets of hex digits are refused exactly when no forty digits begin with
/// the one and end with the other, and texts with another character always.
pub proof fn law_refused_targets_cannot_be_met(
    prefix: &str,
    suffix: &str,
    verdict: Result<(), Error>,
    rp: Option<Vec<u8>>,
    rs: Option<Vec<u8>>,
)
    requires
        call_ensures(validate_targets, (prefix, suffix), verdict),
        call_ensures(hex_to_nibbles, (prefix,), rp),
        call_ensures(hex_to_nibbles, (suffix,), rs),
    ensures
        match (rp, rs) {
            (Some(p), Some(s)) => {
                &&& verdict is Err <==> forall|digits: Seq<u8>|
                    digits.len() == 40 ==> !#[trigger] meets(digits, p@, s@)
                &&& verdict == Err::<(), Error>(Error::TargetsTooLong) <==> prefix@.len() > 40
                    || suffix@.len() > 40
                &&& verdict != Err::<(), Error>(Error::TargetsNotHex)
            },
            _ => verdict == Err::<(), Error>(Error::TargetsNotHex),
        },
{
    if rp is Some && rs is Some {
        let p = rp->0;
        let s = rs->0;
        if verdict is Ok {
            law_accepted_targets_can_be_hit(prefix, suffix, verdict, p, s);
            let (address, digits) = choose|address: Seq<u8>, digits: Seq<u8>| #[trigger]
                spells(digits, address) && address.len() == 20 && meets(digits, p@, s@);
            assert(digits.len() == 40 && meets(digits, p@, s@));
        } else {
            assert forall|digits: Seq<u8>| digits.len() == 40 implies !#[trigger] meets(
                digits,
                p@,
                s@,
            ) by {
                if meets(digits, p@, s@) {
                    let shared = overlap_len(p@.len(), s@.len());
                    assert(shared_tail(p@, s@) =~= shared_head(p@, s@)) by {
                        assert forall|k: int| 0 <= k < shared implies shared_tail(p@, s@)[k]
                            == shared_head(p@, s@)[k] by {
                            let at = p@.len() - shared + k;
                            assert(digits[at] == p@[at]);
                            let i = 40 - at;
                            assert(counted_back(digits, i) == counted_back(s@, i));
                        }
                    }
                }
            }
        }
    }
}

/// A filter that cannot be met is reported with what the texts ask for where
/// they overlap: so many digits that both together fill an address.
pub proof fn law_conflict_is_shown(
    prefix: &str,
    suffix: &str,
    verdict: Result<(), Error>,
    prefix_tail: String,
    suffix_head: String,
    overlap: usize,
)
    requires
        call_ensures(validate_targets, (prefix, suffix), verdict),
        verdict == Err::<(), Error>(Error::ImpossibleFilter { prefix_tail, suffix_head, overlap }),
    ensures
        prefix@.len() + suffix@.len() == 40 + overlap,
        prefix_tail@.len() == overlap,
        suffix_head@.len() == overlap,
        prefix_tail@.is_suffix_of(prefix@),
        suffix_head@.is_prefix_of(suffix@),
        overlap > 0,
{
    assert(prefix_tail@ =~= prefix@.subrange(prefix@.len() - overlap, prefix@.len() as int));
    assert(suffix_head@ =~= suffix@.subrange(0, overlap as int));
    if overlap == 0 {
        let p = crate::hex::text_nibbles(prefix@);
        let s = crate::hex::text_nibbles(suffix@);
        assert(shared_tail(p, s) =~= shared_head(p, s));
    }
}

/// The digits that hex targets fix are those of both, and never more than an
/// address has.
pub proof fn law_fixed_digits(prefix: &str, suffix: &str, r: usize)
    requires
        call_ensures(effective_fixed, (prefix, suffix), r),
        vstd::utf8::is_ascii_chars(prefix@),
        vstd::utf8::is_ascii_chars(suffix@),
    ensures
        r <= 40,
        r <= prefix@.len() + suffix@.len(),
        r < 40 ==> r == prefix@.len() + suffix@.len(),
{
    vstd::utf8::is_ascii_chars_encode_utf8(prefix@);
    vstd::utf8::is_ascii_chars_encode_utf8(suffix@);
}

}
