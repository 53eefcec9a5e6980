//! Targets, matching, ranking, counting and output names.
use std::sync::atomic::{AtomicU64, Ordering};
use vanity_rs::address::derive_address;
use vanity_rs::best::{BestBoard, BestState};
use vanity_rs::counter::{
    crossed_report_threshold, flush_global_tries, TryCounter, GLOBAL_TRY_FLUSH,
};
use vanity_rs::error::Error;
use vanity_rs::hex::{address_nibbles, hex_to_nibbles};
use vanity_rs::matching::{evaluate_batch, prefix_match_len, suffix_match_len, BatchCandidate};
use vanity_rs::output::{
    appends, backslash_separates, closest_file_name, closest_output_path, worker_count, OutFmt,
};
use vanity_rs::scalar::SecretKey;
use vanity_rs::target::{effective_fixed, validate_targets, Targets};

fn test_key(value: u8) -> SecretKey {
    let mut bytes = [0u8; 32];
    bytes[31] = value;
    SecretKey::from_byte_array(bytes).unwrap()
}

#[test]
fn target_validation_accepts_consistent_overlaps() {
    let full = "a".repeat(40);
    for (prefix, suffix, fixed) in [
        ("", "", 0),
        ("a", "B", 2),
        (full.as_str(), "", 40),
        ("", full.as_str(), 40),
        (full.as_str(), "AAA", 40),
        (full.as_str(), full.as_str(), 40),
    ] {
        validate_targets(prefix, suffix).unwrap();
        assert_eq!(effective_fixed(prefix, suffix), fixed);
    }
    let prefix = format!("{}ab", "0".repeat(20));
    let suffix = format!("AB{}", "f".repeat(18));
    validate_targets(&prefix, &suffix).unwrap();
}

#[test]
fn target_validation_rejects_invalid_and_conflicting_patterns() {
    let long = "a".repeat(41);
    let full = "a".repeat(40);
    for (prefix, suffix) in [
        ("0x12", ""),
        ("", "g"),
        ("你好", ""),
        (long.as_str(), ""),
        ("", long.as_str()),
        (full.as_str(), "b"),
    ] {
        assert!(validate_targets(prefix, suffix).is_err());
    }
}

#[test]
fn rejected_targets_say_why() {
    let long = "a".repeat(41);
    let full = "a".repeat(40);
    assert_eq!(
        validate_targets("xyz", "").err().unwrap().message(),
        "prefix and suffix may only contain hex characters 0-9a-f (no 0x)"
    );
    assert_eq!(
        validate_targets(&long, "").err().unwrap().message(),
        "prefix and suffix must be at most 40 hex digits"
    );
    assert_eq!(
        validate_targets(&full, "Bc").err().unwrap().message(),
        "impossible filter: prefix tail aa and suffix head Bc disagree on 2 overlapping digits"
    );
}

#[test]
fn matches_count_from_the_correct_address_edges() {
    let address: [u8; 40] = hex_to_nibbles("0123456789012345678901234567890123456789")
        .unwrap()
        .try_into()
        .unwrap();
    assert_eq!(prefix_match_len(&address, &[]), 0);
    assert_eq!(suffix_match_len(&address, &[]), 0);
    assert_eq!(prefix_match_len(&address, &[0, 1, 2, 15]), 3);
    assert_eq!(suffix_match_len(&address, &[15, 6, 7, 8, 9]), 4);
    assert_eq!(prefix_match_len(&address, &[15]), 0);
    assert_eq!(suffix_match_len(&address, &[0]), 0);
    assert_eq!(prefix_match_len(&address, &address), 40);
    assert_eq!(suffix_match_len(&address, &address), 40);
}

#[test]
fn batch_matching_preserves_nibble_order_overlap_and_ties() {
    let mut addresses = [[0; 20]; 4];
    addresses[0][0] = 0xab;
    addresses[1][0] = 0xac;
    addresses[2][0] = 0xab;
    addresses[2][19] = 0xcd;
    addresses[3] = addresses[2];
    let (best, hit) = evaluate_batch(
        &addresses,
        &Targets {
            prefix: vec![10, 11, 0],
            suffix: vec![12, 13],
        },
    );
    assert_eq!(hit, Some(2));
    let best = best.unwrap();
    assert_eq!((best.index, best.prefix, best.suffix), (2, 3, 2));
    let full = address_nibbles(&addresses[2]).to_vec();
    let (best, hit) = evaluate_batch(
        &addresses,
        &Targets {
            prefix: full.clone(),
            suffix: full,
        },
    );
    assert_eq!(hit, Some(2));
    assert_eq!(best.unwrap().rank().0, 80);
    let (_, hit) = evaluate_batch(&[], &Targets::default());
    assert_eq!(hit, None);
}

#[test]
fn ranks_prefer_matches_then_prefix_then_suffix_then_the_earlier_address() {
    let at = |index, prefix, suffix| BatchCandidate {
        index,
        prefix,
        suffix,
    };
    assert!(at(5, 2, 1).rank().outranks(at(0, 1, 1).rank()));
    assert!(at(5, 2, 1).rank().outranks(at(0, 1, 2).rank()));
    assert!(at(1, 2, 1).rank().outranks(at(5, 2, 1).rank()));
    assert!(!at(5, 2, 1).rank().outranks(at(5, 2, 1).rank()));
}

#[test]
fn nothing_matching_gives_no_candidate() {
    let targets = Targets {
        prefix: vec![1],
        suffix: vec![1],
    };
    let (best, hit) = evaluate_batch(&[[0; 20]; 3], &targets);
    assert!(best.is_none());
    assert!(hit.is_none());
}

#[test]
fn best_candidate_preserves_ranking_and_tie_breaks() {
    let best = BestState::default();
    let key = test_key(1);
    let address = [0; 40];
    assert!(!best.consider(&address, &key, 1, 0, 0));
    assert!(best.snapshot().is_none());
    assert!(best.consider(&address, &key, 10, 1, 0));
    assert!(!best.consider(&address, &key, 1, 0, 1));
    assert!(!best.consider(&address, &key, 10, 1, 0));
    assert!(best.consider(&address, &key, 9, 1, 0));
    assert!(best.consider(&address, &key, 100, 1, 1));
    assert!(best.consider(&address, &key, 200, 2, 0));
    assert!(!best.consider(&address, &key, 201, 2, 0));
    assert!(!best.consider(&address, &key, 1, 1, 0));
    let saved = best.snapshot().unwrap();
    assert_eq!(
        (saved.score, saved.prefix_match, saved.suffix_match),
        (2, 2, 0)
    );
    assert_eq!(saved.tries, 200);
    assert_eq!(best.cached_score(), saved.score);
}

#[test]
fn a_refused_confirmation_leaves_the_board_as_it_was() {
    let mut board = BestBoard::new();
    let key = test_key(1);
    assert!(board.consider_checked(&[0; 40], &key, 5, 1, 0, || Ok(())).unwrap());
    let refused = board.consider_checked(&[0; 40], &key, 6, 2, 0, || Err(Error::AddressMismatch));
    assert!(refused.is_err());
    let held = board.snapshot().unwrap();
    assert_eq!((held.prefix_match, held.tries), (1, 5));
    assert_eq!(held.address, format!("0x{}", "0".repeat(40)));
    // What is no improvement needs no confirmation.
    assert!(!board
        .consider_checked(&[0; 40], &key, 6, 1, 0, || panic!("not asked"))
        .unwrap());
    let state = BestState::verified();
    assert!(state
        .consider_checked(&[0; 40], &key, 1, 1, 0, || Err(Error::AddressMismatch))
        .is_err());
    assert!(state.snapshot().is_none());
    assert_eq!(state.cached_score(), 0);
}

#[test]
fn the_published_score_is_that_of_the_candidate_held() {
    for state in [BestState::default(), BestState::verified()] {
        assert!(state.snapshot().is_none());
        assert_eq!(state.cached_score(), 0);
        let key = test_key(7);
        let nibbles = address_nibbles(&derive_address(&key));
        assert!(state.consider_checked(&nibbles, &key, 9, 2, 1, || Ok(())).unwrap());
        assert_eq!((state.cached_score(), state.snapshot().unwrap().score), (3, 3));
        assert!(state
            .consider_checked(&nibbles, &key, 10, 5, 1, || Err(Error::AddressMismatch))
            .is_err());
        assert!(!state.consider_checked(&nibbles, &key, 11, 1, 1, || Ok(())).unwrap());
        assert_eq!((state.cached_score(), state.snapshot().unwrap().score), (3, 3));
        assert!(state.consider_checked(&nibbles, &key, 12, 4, 0, || Ok(())).unwrap());
        assert_eq!((state.cached_score(), state.snapshot().unwrap().score), (4, 4));
    }
}

#[test]
fn pending_attempts_reach_the_shared_counter() {
    let counter = AtomicU64::new(0);
    for _ in 0..4 {
        let mut pending = 0;
        for _ in 0..GLOBAL_TRY_FLUSH + 17 {
            pending += 1;
            if pending >= GLOBAL_TRY_FLUSH {
                flush_global_tries(&counter, &mut pending);
            }
        }
        flush_global_tries(&counter, &mut pending);
        assert_eq!(pending, 0);
    }
    let expected = 4 * (GLOBAL_TRY_FLUSH + 17);
    assert_eq!(counter.load(Ordering::Relaxed), expected);
    assert_eq!(flush_global_tries(&counter, &mut 0), expected);
    let mut tries = TryCounter::new(&counter);
    tries.record(5);
    assert_eq!(counter.load(Ordering::Relaxed), expected);
    tries.record(GLOBAL_TRY_FLUSH);
    assert_eq!(counter.load(Ordering::Relaxed), expected + GLOBAL_TRY_FLUSH + 5);
    tries.record(1);
    assert_eq!(tries.flush(), expected + GLOBAL_TRY_FLUSH + 6);
}

#[test]
fn reports_are_due_when_a_multiple_was_passed() {
    assert!(!crossed_report_threshold(8, 9, 5));
    assert!(crossed_report_threshold(8, 16, 5));
    assert!(crossed_report_threshold(9, 10, 5));
    assert!(!crossed_report_threshold(0, 16, 0));
}

#[test]
fn closest_files_stand_next_to_the_output() {
    assert_eq!(closest_output_path("found_wallet.jsonl"), "found_wallet-closest.json");
    assert_eq!(closest_output_path("found"), "found-closest.json");
    assert_eq!(closest_output_path("a.b.txt"), "a.b-closest.json");
    assert_eq!(closest_output_path("dir/hit.jsonl"), "dir/hit-closest.json");
    assert_eq!(closest_output_path("./hit.jsonl"), "./hit-closest.json");
    assert_eq!(closest_output_path("../out/hit"), "../out/hit-closest.json");
    assert_eq!(closest_output_path("/tmp/a.b/x.y.txt"), "/tmp/a.b/x.y-closest.json");
    assert_eq!(closest_output_path(""), "closest-closest.json");
    assert_eq!(closest_file_name(None), "closest-closest.json");
}

#[test]
fn closest_files_of_unusual_outputs() {
    assert_eq!(closest_output_path(".hidden"), ".hidden-closest.json");
    assert_eq!(closest_output_path(".a.txt"), ".a-closest.json");
    assert_eq!(closest_output_path("a."), "a-closest.json");
    assert_eq!(closest_output_path("..a"), ".-closest.json");
    assert_eq!(closest_output_path("..."), "..-closest.json");
    assert_eq!(closest_output_path("x-closest.json"), "x-closest-closest.json");
    assert_eq!(closest_output_path("hit.txt//"), "hit-closest.json");
    assert_eq!(closest_output_path("/"), "/closest-closest.json");
    assert_eq!(closest_output_path("/x"), "/x-closest.json");
    assert_eq!(closest_output_path("/./x"), "/x-closest.json");
    assert_eq!(closest_output_path("b.txt/."), "b-closest.json");
    if !backslash_separates() {
        assert_eq!(closest_output_path("dir/hit.jsonl/"), "dir/hit-closest.json");
        assert_eq!(closest_output_path(".."), "../closest-closest.json");
        assert_eq!(closest_output_path("a/.."), "a/../closest-closest.json");
        assert_eq!(closest_output_path("../"), "../closest-closest.json");
        assert_eq!(closest_output_path("."), "./closest-closest.json");
        assert_eq!(closest_output_path("./."), "././closest-closest.json");
        assert_eq!(closest_output_path("/."), "/./closest-closest.json");
        assert_eq!(closest_output_path("///"), "///closest-closest.json");
        assert_eq!(closest_output_path("//x"), "/x-closest.json");
        assert_eq!(closest_output_path("a//b.txt"), "a/b-closest.json");
        assert_eq!(closest_output_path("a/./b.txt"), "a/b-closest.json");
        assert_eq!(closest_output_path("a/.//./b.txt"), "a/b-closest.json");
        assert_eq!(closest_output_path("a//c/./d/b.txt"), "a//c/./d/b-closest.json");
        assert_eq!(closest_output_path(".//b.txt"), "./b-closest.json");
        assert_eq!(closest_output_path("././b.txt"), "./b-closest.json");
        assert_eq!(closest_output_path("a/../b.txt"), "a/../b-closest.json");
        assert_eq!(closest_output_path("a/b.txt/./"), "a/b-closest.json");
        assert_eq!(closest_output_path("a/.hidden/"), "a/.hidden-closest.json");
        assert_eq!(closest_output_path("a/..x//"), "a/.-closest.json");
        assert_eq!(closest_output_path("a/x.y/././."), "a/x-closest.json");
        assert_eq!(closest_output_path("a:b.txt"), "a:b-closest.json");
        assert_eq!(closest_output_path("c:/a\\b.txt"), "c:/a\\b-closest.json");
    }
}

#[test]
fn output_and_worker_choices() {
    assert!(appends(OutFmt::Json, false));
    assert!(appends(OutFmt::Txt, true));
    assert!(!appends(OutFmt::Txt, false));
    assert_eq!(worker_count(false, None, 8), 8);
    assert_eq!(worker_count(false, Some(3), 8), 3);
    assert_eq!(worker_count(false, Some(0), 8), 1);
    assert_eq!(worker_count(true, Some(3), 8), 1);
}
