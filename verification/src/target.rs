//! What the user searches for: a hex prefix and a hex suffix.
use crate::error::Error;
use crate::hex::hex_to_nibbles;
use vstd::prelude::*;
use vstd::string::{StringExecFns, StrSliceExecFns, StringSliceAdditionalSpecFns};

verus! {

use crate::hex::{all_nibbles, byte_nibbles, digit_value, hex_text, text_nibbles};
use vstd::utf8::is_ascii_chars;

/// The nibbles that an address must start and end with.
pub struct Targets {
    pub prefix: Vec<u8>,
    pub suffix: Vec<u8>,
}

impl Default for Targets {
    /// Targets that every address meets.
    fn default() -> (r: Targets)
        ensures
            r.prefix@ == Seq::<u8>::empty(),
            r.suffix@ == Seq::<u8>::empty(),
    {
        Targets { prefix: Vec::new(), suffix: Vec::new() }
    }
}

/// How many digits a prefix and a suffix share.
pub open spec fn overlap_len(prefix: nat, suffix: nat) -> nat {
    if prefix + suffix > 40 {
        (prefix + suffix - 40) as nat
    } else {
        0
    }
}

/// The end of the prefix that the suffix also covers.
pub open spec fn shared_tail<A>(prefix: Seq<A>, suffix: Seq<A>) -> Seq<A> {
    prefix.skip(prefix.len() - overlap_len(prefix.len(), suffix.len()))
}

/// The beginning of the suffix that the prefix also covers.
pub open spec fn shared_head<A>(prefix: Seq<A>, suffix: Seq<A>) -> Seq<A> {
    suffix.take(overlap_len(prefix.len(), suffix.len()) as int)
}

/// What is wrong with a prefix and a suffix, if anything.
pub open spec fn targets_verdict(
    prefix: Seq<char>,
    suffix: Seq<char>,
    verdict: Result<(), Error>,
) -> bool {
    let p = text_nibbles(prefix);
    let s = text_nibbles(suffix);
    if !hex_text(prefix) || !hex_text(suffix) {
        verdict == Err::<(), Error>(Error::TargetsNotHex)
    } else if prefix.len() > 40 || suffix.len() > 40 {
        verdict == Err::<(), Error>(Error::TargetsTooLong)
    } else if shared_tail(p, s) != shared_head(p, s) {
        &&& verdict matches Err(Error::ImpossibleFilter { prefix_tail, suffix_head, overlap })
        &&& prefix_tail@ == shared_tail(prefix, suffix)
        &&& suffix_head@ == shared_head(prefix, suffix)
        &&& overlap == overlap_len(prefix.len(), suffix.len())
    } else {
        verdict == Ok::<(), Error>(())
    }
}

/// Checks that both are hex, fit in an address, and agree where they overlap.
pub fn validate_targets(prefix: &str, suffix: &str) -> (r: Result<(), Error>)
    ensures
        targets_verdict(prefix@, suffix@, r),
{
    let (p, s): (Vec<u8>, Vec<u8>) = match (hex_to_nibbles(prefix), hex_to_nibbles(suffix)) {
        (Some(p), Some(s)) => (p, s),
        _ => {
            return Err(Error::TargetsNotHex);
        },
    };
    if p.len() > 40 || s.len() > 40 {
        return Err(Error::TargetsTooLong);
    }
    let shared: usize = if p.len() + s.len() > 40 { p.len() + s.len() - 40 } else { 0 };
    let first: usize = p.len() - shared;
    let mut i: usize = 0;
    while i < shared
        invariant
            p@ == text_nibbles(prefix@),
            s@ == text_nibbles(suffix@),
            hex_text(prefix@),
            hex_text(suffix@),
            p@.len() <= 40,
            s@.len() <= 40,
            shared == overlap_len(p@.len(), s@.len()),
            first == p@.len() - shared,
            i <= shared,
            forall|k: int| 0 <= k < i ==> p@[first + k] == s@[k],
        decreases shared - i,
    {
        if p[first + i] != s[i] {
            proof {
                assert(shared_tail(p@, s@)[i as int] != shared_head(p@, s@)[i as int]);
                lemma_hex_is_ascii(prefix@);
                lemma_hex_is_ascii(suffix@);
            }
            let tail: &str = prefix.substring_ascii(first, p.len());
            let head: &str = suffix.substring_ascii(0, shared);
            return Err(
                Error::ImpossibleFilter {
                    prefix_tail: tail.to_owned(),
                    suffix_head: head.to_owned(),
                    overlap: shared,
                },
            );
        }
        i += 1;
    }
    assert(shared_tail(p@, s@) =~= shared_head(p@, s@)) by {
        assert forall|k: int| 0 <= k < shared implies shared_tail(p@, s@)[k] == shared_head(
            p@,
            s@,
        )[k] by {
            assert(p@[first + k] == s@[k]);
        }
    }
    Ok(())
}

/// Hex digits are ASCII characters.
proof fn lemma_hex_is_ascii(text: Seq<char>)
    requires
        hex_text(text),
    ensures
        is_ascii_chars(text),
{
    assert forall|i: int| 0 <= i < text.len() implies '\0' <= #[trigger] text[i] <= '\u{7f}' by {
        assert(digit_value(text[i]) is Some);
    }
}

/// Exactly the accepted pairs can be met: there is an address that starts with
/// the prefix and ends with the suffix if and only if both are at most as long
/// as an address and agree where they overlap.
pub proof fn law_accepted_targets_are_satisfiable(prefix: Seq<u8>, suffix: Seq<u8>)
    requires
        all_nibbles(prefix),
        all_nibbles(suffix),
    ensures
        (prefix.len() <= 40 && suffix.len() <= 40 && shared_tail(prefix, suffix) == shared_head(
            prefix,
            suffix,
        )) <==> exists|address: Seq<u8>|
            address.len() == 20 && #[trigger] prefix.is_prefix_of(byte_nibbles(address))
                && suffix.is_suffix_of(byte_nibbles(address)),
{
    let p = prefix.len();
    let s = suffix.len();
    let shared = overlap_len(p, s);
    let tail = shared_tail(prefix, suffix);
    let head = shared_head(prefix, suffix);
    if p <= 40 && s <= 40 && tail == head {
        let nibbles = Seq::new(
            40,
            |i: int|
                if i < p {
                    prefix[i]
                } else if i >= 40 - s {
                    suffix[i - (40 - s)]
                } else {
                    0u8
                },
        );
        let address = Seq::new(20, |k: int| (nibbles[2 * k] * 16 + nibbles[2 * k + 1]) as u8);
        assert(all_nibbles(nibbles)) by {
            assert forall|i: int| 0 <= i < 40 implies #[trigger] nibbles[i] < 16 by {
                if i < p {
                    assert(prefix[i] < 16);
                } else if i >= 40 - s {
                    assert(suffix[i - (40 - s)] < 16);
                }
            }
        }
        assert(byte_nibbles(address) =~= nibbles) by {
            assert forall|i: int| 0 <= i < 40 implies byte_nibbles(address)[i] == nibbles[i] by {
                let k = i / 2;
                assert(nibbles[2 * k] < 16 && nibbles[2 * k + 1] < 16);
                assert(address[k] == nibbles[2 * k] * 16 + nibbles[2 * k + 1]);
                assert(i == 2 * k || i == 2 * k + 1);
            }
        }
        assert(prefix =~= nibbles.subrange(0, p as int));
        assert(suffix =~= nibbles.subrange(40 - s, 40)) by {
            assert forall|k: int| 0 <= k < s implies suffix[k] == nibbles[40 - s + k] by {
                if 40 - s + k < p {
                    assert(tail[k] == head[k]);
                }
            }
        }
        assert(prefix.is_prefix_of(byte_nibbles(address)));
        assert(suffix.is_suffix_of(byte_nibbles(address)));
    }
    if exists|address: Seq<u8>|
        address.len() == 20 && #[trigger] prefix.is_prefix_of(byte_nibbles(address))
            && suffix.is_suffix_of(byte_nibbles(address)) {
        let address = choose|address: Seq<u8>|
            address.len() == 20 && #[trigger] prefix.is_prefix_of(byte_nibbles(address))
                && suffix.is_suffix_of(byte_nibbles(address));
        let nibbles = byte_nibbles(address);
        assert(nibbles.len() == 40);
        assert(tail =~= head) by {
            assert forall|k: int| 0 <= k < shared implies tail[k] == head[k] by {
                assert(prefix[p - shared + k] == nibbles.subrange(0, p as int)[p - shared + k]);
                assert(suffix[k] == nibbles.subrange(40 - s, 40)[k]);
            }
        }
    }
}

/// How many digits of an address are fixed by the two targets together.
pub fn effective_fixed(prefix: &str, suffix: &str) -> (r: usize)
    ensures
        r == fixed_digits(prefix.spec_bytes().len(), suffix.spec_bytes().len()),
{
    let p: usize = prefix.as_bytes().len();
    let s: usize = suffix.as_bytes().len();
    if p >= 40 || s >= 40 - p {
        40
    } else {
        p + s
    }
}

/// The digits that a prefix and a suffix fix, at most all of them.
pub open spec fn fixed_digits(prefix: nat, suffix: nat) -> nat {
    if prefix + suffix < 40 {
        prefix + suffix
    } else {
        40
    }
}

}
