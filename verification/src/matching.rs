//! Matching addresses against a prefix and a suffix, and choosing the best of
//! a batch.
use crate::address::Address;
use crate::hex::address_nibbles;
use crate::target::Targets;
use vstd::prelude::*;

verus! {

use crate::hex::byte_nibbles;

/// How many leading entries two sequences have in common.
pub open spec fn common_len(a: Seq<u8>, b: Seq<u8>) -> nat
    decreases a.len(),
{
    if a.len() == 0 || b.len() == 0 || a[0] != b[0] {
        0
    } else {
        1 + common_len(a.drop_first(), b.drop_first())
    }
}

/// How many trailing entries two sequences have in common.
pub open spec fn common_tail(a: Seq<u8>, b: Seq<u8>) -> nat
    decreases a.len(),
{
    if a.len() == 0 || b.len() == 0 || a.last() != b.last() {
        0
    } else {
        1 + common_tail(a.drop_last(), b.drop_last())
    }
}

/// Agreement up to `len`, and either an end or a difference there, fixes the
/// common length.
pub proof fn lemma_common_len(a: Seq<u8>, b: Seq<u8>, len: nat)
    requires
        len <= a.len(),
        len <= b.len(),
        forall|i: int| 0 <= i < len ==> a[i] == b[i],
        len == a.len() || len == b.len() || a[len as int] != b[len as int],
    ensures
        common_len(a, b) == len,
    decreases len,
{
    if len > 0 {
        lemma_common_len(a.drop_first(), b.drop_first(), (len - 1) as nat);
    }
}

/// The `i`-th entry from the end, counted from one.
pub open spec fn from_end(s: Seq<u8>, i: int) -> u8 {
    s[s.len() - i]
}

/// Agreement of the last `len` entries, and either an end or a difference
/// before them, fixes the common tail.
pub proof fn lemma_common_tail(a: Seq<u8>, b: Seq<u8>, len: nat)
    requires
        len <= a.len(),
        len <= b.len(),
        forall|i: int| 1 <= i <= len ==> #[trigger] from_end(a, i) == from_end(b, i),
        len == a.len() || len == b.len() || a[a.len() - len - 1] != b[b.len() - len - 1],
    ensures
        common_tail(a, b) == len,
    decreases len,
{
    if len > 0 {
        assert(from_end(a, 1) == from_end(b, 1));
        let da = a.drop_last();
        let db = b.drop_last();
        assert forall|i: int| 1 <= i <= len - 1 implies #[trigger] from_end(da, i) == from_end(
            db,
            i,
        ) by {
            assert(from_end(a, i + 1) == from_end(b, i + 1));
        }
        lemma_common_tail(da, db, (len - 1) as nat);
    }
}

/// The common length is within both sequences, and is all of one exactly when
/// that one is a beginning of the other.
pub proof fn law_common_len(a: Seq<u8>, b: Seq<u8>)
    ensures
        common_len(a, b) <= a.len(),
        common_len(a, b) <= b.len(),
        forall|i: int| 0 <= i < common_len(a, b) ==> a[i] == b[i],
        common_len(a, b) == a.len() <==> a.is_prefix_of(b),
        common_len(a, b) < a.len() && common_len(a, b) < b.len() ==> a[common_len(a, b) as int]
            != b[common_len(a, b) as int],
    decreases a.len(),
{
    if a.len() == 0 {
        assert(a =~= b.take(0));
    } else if b.len() > 0 && a[0] == b[0] {
        let ta = a.drop_first();
        let tb = b.drop_first();
        law_common_len(ta, tb);
        assert forall|i: int| 0 <= i < common_len(a, b) implies a[i] == b[i] by {
            if i > 0 {
                assert(ta[i - 1] == tb[i - 1]);
            }
        }
        if a.is_prefix_of(b) {
            assert(ta =~= tb.take(ta.len() as int));
        }
        if common_len(a, b) == a.len() {
            assert(a =~= b.take(a.len() as int));
        }
    } else if a.is_prefix_of(b) {
        assert(a[0] == b.take(a.len() as int)[0]);
    }
}

/// The common tail is within both sequences, and is all of one exactly when
/// that one is an end of the other.
pub proof fn law_common_tail(a: Seq<u8>, b: Seq<u8>)
    ensures
        common_tail(a, b) <= a.len(),
        common_tail(a, b) <= b.len(),
        forall|i: int|
            1 <= i <= common_tail(a, b) ==> #[trigger] from_end(a, i) == from_end(b, i),
        common_tail(a, b) == a.len() <==> a.is_suffix_of(b),
    decreases a.len(),
{
    if a.len() == 0 {
        assert(a =~= b.skip(b.len() as int));
        assert(a =~= b.subrange(b.len() as int, b.len() as int));
    } else if b.len() > 0 && a.last() == b.last() {
        let ta = a.drop_last();
        let tb = b.drop_last();
        law_common_tail(ta, tb);
        assert forall|i: int| 1 <= i <= common_tail(a, b) implies #[trigger] from_end(a, i)
            == from_end(b, i) by {
            if i > 1 {
                assert(from_end(ta, i - 1) == from_end(tb, i - 1));
            }
        }
        if a.is_suffix_of(b) {
            assert(ta =~= tb.subrange(tb.len() - ta.len(), tb.len() as int)) by {
                assert forall|k: int| 0 <= k < ta.len() implies ta[k] == tb.subrange(
                    tb.len() - ta.len(),
                    tb.len() as int,
                )[k] by {
                    assert(a[k] == b.subrange(b.len() - a.len(), b.len() as int)[k]);
                }
            }
        }
        if common_tail(a, b) == a.len() {
            assert(a =~= b.subrange(b.len() - a.len(), b.len() as int)) by {
                assert forall|k: int| 0 <= k < a.len() implies a[k] == b.subrange(
                    b.len() - a.len(),
                    b.len() as int,
                )[k] by {
                    assert(from_end(a, a.len() - k) == from_end(b, a.len() - k));
                }
            }
        }
    } else if a.is_suffix_of(b) {
        assert(a.last() == b.subrange(b.len() - a.len(), b.len() as int).last());
    }
}

/// How many leading digits of `pattern` the address starts with.
pub fn prefix_match_len(nibbles: &[u8; 40], pattern: &[u8]) -> (r: usize)
    ensures
        r == common_len(pattern@, nibbles@),
        r <= 40,
{
    let mut len: usize = 0;
    while len < pattern.len() && len < 40 && pattern[len] == nibbles[len]
        invariant
            len <= pattern@.len(),
            len <= 40,
            forall|i: int| 0 <= i < len ==> pattern@[i] == nibbles@[i],
        decreases 40 - len,
    {
        len += 1;
    }
    proof {
        lemma_common_len(pattern@, nibbles@, len as nat);
    }
    len
}

/// How many trailing digits of `pattern` the address ends with.
pub fn suffix_match_len(nibbles: &[u8; 40], pattern: &[u8]) -> (r: usize)
    ensures
        r == common_tail(pattern@, nibbles@),
        r <= 40,
{
    let mut len: usize = 0;
    while len < pattern.len() && len < 40 && pattern[pattern.len() - 1 - len] == nibbles[39 - len]
        invariant
            len <= pattern@.len(),
            len <= 40,
            forall|i: int|
                1 <= i <= len ==> #[trigger] from_end(pattern@, i) == from_end(nibbles@, i),
        decreases 40 - len,
    {
        len += 1;
    }
    proof {
        lemma_common_tail(pattern@, nibbles@, len as nat);
    }
    len
}

/// How well one address of a batch matches.
#[derive(Clone, Copy, Debug, PartialEq, Eq, Structural)]
pub struct BatchCandidate {
    pub index: usize,
    pub prefix: usize,
    pub suffix: usize,
}

/// What candidates are ordered by: total matches, then prefix matches, then
/// suffix matches, then the earlier index.
#[derive(Clone, Copy, Debug, PartialEq, Eq, Structural)]
pub struct Rank(pub usize, pub usize, pub usize, pub usize);

impl Rank {
    /// Whether this rank is above `other`. The last field counts downwards.
    pub open spec fn above(self, other: Rank) -> bool {
        ||| self.0 > other.0
        ||| self.0 == other.0 && self.1 > other.1
        ||| self.0 == other.0 && self.1 == other.1 && self.2 > other.2
        ||| self.0 == other.0 && self.1 == other.1 && self.2 == other.2 && self.3 < other.3
    }

    /// Whether this rank is above `other`.
    pub fn outranks(self, other: Rank) -> (r: bool)
        ensures
            r == self.above(other),
    {
        if self.0 != other.0 {
            self.0 > other.0
        } else if self.1 != other.1 {
            self.1 > other.1
        } else if self.2 != other.2 {
            self.2 > other.2
        } else {
            self.3 < other.3
        }
    }
}

impl BatchCandidate {
    /// The rank that the candidate's fields give it.
    pub open spec fn spec_rank(self) -> Rank {
        Rank((self.prefix + self.suffix) as usize, self.prefix, self.suffix, self.index)
    }

    /// What the candidate is ordered by.
    pub fn rank(self) -> (r: Rank)
        requires
            self.prefix + self.suffix <= usize::MAX,
        ensures
            r == self.spec_rank(),
            r.0 == self.prefix + self.suffix,
    {
        Rank(self.prefix + self.suffix, self.prefix, self.suffix, self.index)
    }
}

/// How the address at `index` matches the targets.
pub open spec fn candidate_at(
    addresses: Seq<Address>,
    targets: Targets,
    index: int,
) -> BatchCandidate {
    let nibbles = byte_nibbles(addresses[index]@);
    BatchCandidate {
        index: index as usize,
        prefix: common_len(targets.prefix@, nibbles) as usize,
        suffix: common_tail(targets.suffix@, nibbles) as usize,
    }
}

/// Whether nibbles start with the whole prefix and end with the whole suffix.
pub open spec fn full_match(nibbles: Seq<u8>, targets: Targets) -> bool {
    targets.prefix@.is_prefix_of(nibbles) && targets.suffix@.is_suffix_of(nibbles)
}

/// Whether the address at `index` matches at all.
pub open spec fn matches_some(addresses: Seq<Address>, targets: Targets, index: int) -> bool {
    let candidate = candidate_at(addresses, targets, index);
    candidate.prefix + candidate.suffix > 0
}

/// Whether `best` is the highest-ranked of the matching addresses before `end`.
pub open spec fn is_best(
    best: Option<BatchCandidate>,
    addresses: Seq<Address>,
    targets: Targets,
    end: int,
) -> bool {
    match best {
        None => forall|j: int| 0 <= j < end ==> !#[trigger] matches_some(addresses, targets, j),
        Some(candidate) => {
            &&& candidate.index < end
            &&& candidate == candidate_at(addresses, targets, candidate.index as int)
            &&& matches_some(addresses, targets, candidate.index as int)
            &&& forall|j: int|
                0 <= j < end && j != candidate.index && #[trigger] matches_some(
                    addresses,
                    targets,
                    j,
                ) ==> candidate.spec_rank().above(candidate_at(addresses, targets, j).spec_rank())
        },
    }
}

/// Whether `hit` is the first address before `end` that matches in full.
pub open spec fn is_first_hit(
    hit: Option<usize>,
    addresses: Seq<Address>,
    targets: Targets,
    end: int,
) -> bool {
    match hit {
        None => forall|j: int|
            0 <= j < end ==> !full_match(byte_nibbles((#[trigger] addresses[j])@), targets),
        Some(index) => {
            &&& index < end
            &&& full_match(byte_nibbles(addresses[index as int]@), targets)
            &&& forall|j: int|
                0 <= j < index ==> !full_match(byte_nibbles((#[trigger] addresses[j])@), targets)
        },
    }
}

/// The best candidate of a batch, and the first address that matches in full.
/// Of equally good candidates the earliest is the best.
pub fn evaluate_batch(addresses: &[Address], targets: &Targets) -> (r: (
    Option<BatchCandidate>,
    Option<usize>,
))
    ensures
        is_best(r.0, addresses@, *targets, addresses@.len() as int),
        is_first_hit(r.1, addresses@, *targets, addresses@.len() as int),
{
    let mut best: Option<BatchCandidate> = None;
    let mut hit: Option<usize> = None;
    let mut index: usize = 0;
    while index < addresses.len()
        invariant
            index <= addresses@.len(),
            is_best(best, addresses@, *targets, index as int),
            is_first_hit(hit, addresses@, *targets, index as int),
            best matches Some(c) ==> c.prefix <= 40 && c.suffix <= 40,
        decreases addresses@.len() - index,
    {
        let nibbles: [u8; 40] = address_nibbles(&addresses[index]);
        let candidate = BatchCandidate {
            index,
            prefix: prefix_match_len(&nibbles, targets.prefix.as_slice()),
            suffix: suffix_match_len(&nibbles, targets.suffix.as_slice()),
        };
        proof {
            law_common_len(targets.prefix@, nibbles@);
            law_common_tail(targets.suffix@, nibbles@);
            assert(candidate == candidate_at(addresses@, *targets, index as int));
            assert(matches_some(addresses@, *targets, index as int) == (candidate.prefix
                + candidate.suffix > 0));
        }
        if candidate.prefix + candidate.suffix > 0 {
            let better: bool = match best {
                None => true,
                Some(current) => candidate.rank().outranks(current.rank()),
            };
            if better {
                best = Some(candidate);
            }
        }
        if hit.is_none() && candidate.prefix == targets.prefix.len() && candidate.suffix
            == targets.suffix.len() {
            hit = Some(index);
        }
        index += 1;
    }
    (best, hit)
}

/// Ranks are strictly ordered: no rank is above itself, the order carries
/// over, and of two different ranks one is above the other.
pub proof fn law_ranks_are_ordered(a: Rank, b: Rank, c: Rank)
    ensures
        !a.above(a),
        a.above(b) && b.above(c) ==> a.above(c),
        a == b || a.above(b) || b.above(a),
{
}

/// Where anything is searched for, the first full match of a batch is also its
/// best candidate.
pub proof fn law_first_hit_is_best(
    addresses: Seq<Address>,
    targets: Targets,
    best: Option<BatchCandidate>,
    hit: usize,
)
    requires
        addresses.len() <= usize::MAX,
        targets.prefix@.len() + targets.suffix@.len() > 0,
        is_best(best, addresses, targets, addresses.len() as int),
        is_first_hit(Some(hit), addresses, targets, addresses.len() as int),
    ensures
        best == Some(candidate_at(addresses, targets, hit as int)),
{
    let nibbles = byte_nibbles(addresses[hit as int]@);
    law_common_len(targets.prefix@, nibbles);
    law_common_tail(targets.suffix@, nibbles);
    let full = candidate_at(addresses, targets, hit as int);
    assert(matches_some(addresses, targets, hit as int));
    let top = best->0;
    if top.index != hit {
        let other = byte_nibbles(addresses[top.index as int]@);
        law_common_len(targets.prefix@, other);
        law_common_tail(targets.suffix@, other);
        assert(top.spec_rank().above(full.spec_rank()));
        assert(full_match(other, targets));
    }
}

/// A batch has one best candidate and one first full match, and no others
/// answer to the descriptions.
pub proof fn law_evaluation_is_unique(
    addresses: Seq<Address>,
    targets: Targets,
    a: (Option<BatchCandidate>, Option<usize>),
    b: (Option<BatchCandidate>, Option<usize>),
)
    requires
        addresses.len() <= usize::MAX,
        is_best(a.0, addresses, targets, addresses.len() as int),
        is_best(b.0, addresses, targets, addresses.len() as int),
        is_first_hit(a.1, addresses, targets, addresses.len() as int),
        is_first_hit(b.1, addresses, targets, addresses.len() as int),
    ensures
        a == b,
{
    match (a.0, b.0) {
        (Some(x), Some(y)) => {
            if x.index != y.index {
                assert(matches_some(addresses, targets, x.index as int));
                assert(matches_some(addresses, targets, y.index as int));
                law_ranks_are_ordered(x.spec_rank(), y.spec_rank(), x.spec_rank());
            }
        },
        (Some(x), None) => {
            assert(matches_some(addresses, targets, x.index as int));
        },
        (None, Some(y)) => {
            assert(matches_some(addresses, targets, y.index as int));
        },
        (None, None) => {},
    }
    match (a.1, b.1) {
        (Some(i), Some(j)) => {
            assert(full_match(byte_nibbles(addresses[i as int]@), targets));
            assert(full_match(byte_nibbles(addresses[j as int]@), targets));
        },
        (Some(i), None) => {
            assert(full_match(byte_nibbles(addresses[i as int]@), targets));
        },
        (None, Some(j)) => {
            assert(full_match(byte_nibbles(addresses[j as int]@), targets));
        },
        (None, None) => {},
    }
}

}
