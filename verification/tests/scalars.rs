//! Scalars, chains, hex text and CPU addresses.
use vanity_rs::address::{address_from_public_key, derive_address, verify_address, Address};
use vanity_rs::chain::{
    chain_count, chain_key, chain_start_accepted, chain_starts, check_chain_batch,
    expand_chain_keys,
};
use vanity_rs::entropy::{accept_draw, generate_chain_start, generate_secret_key, KeyRng, SeededRng};
use vanity_rs::error::Error;
use vanity_rs::hex::{address_nibbles, hex_to_nibbles, is_hex, nibbles_to_hex, sk_to_hex};
use vanity_rs::scalar::{increment_secret_key, offset_secret_key, SecretKey};

fn scalar(value: u8) -> SecretKey {
    let mut bytes = [0u8; 32];
    bytes[31] = value;
    SecretKey::from_byte_array(bytes).unwrap()
}

fn below_order(distance: u8) -> SecretKey {
    let mut bytes = secp256k1::constants::CURVE_ORDER;
    bytes[31] -= distance;
    SecretKey::from_byte_array(bytes).unwrap()
}

fn sequential_keys(count: usize) -> Vec<SecretKey> {
    let mut key = scalar(64);
    let mut keys = Vec::new();
    for index in 0..count {
        if index > 0 {
            key = increment_secret_key(&key).unwrap();
        }
        keys.push(key);
    }
    keys
}

#[test]
fn increment_secret_key_walks_valid_scalars() {
    let two = increment_secret_key(&scalar(1)).unwrap();
    assert_eq!(two.secret_bytes()[31], 2);
    assert!(increment_secret_key(&below_order(1)).is_none());
}

#[test]
fn offset_secret_key_carries_across_limbs_and_stops_at_the_order() {
    let mut bytes = [0u8; 32];
    bytes[30] = 0x01;
    bytes[31] = 0xff;
    let start = SecretKey::from_byte_array(bytes).unwrap();
    let moved = offset_secret_key(&start, 3).unwrap().secret_bytes();
    assert_eq!((moved[30], moved[31]), (0x02, 0x02));
    assert!(offset_secret_key(&start, 0).unwrap() == start);
    let near = below_order(5);
    assert!(offset_secret_key(&near, 4).is_some());
    assert!(offset_secret_key(&near, 5).is_none());
    let mut all_ff = [0xffu8; 32];
    all_ff[0] = 0x7f;
    let big = SecretKey::from_byte_array(all_ff).unwrap();
    assert!(offset_secret_key(&big, 1).is_some());
}

#[test]
fn chain_helpers_index_and_validate_starts() {
    let keys = sequential_keys(70);
    let starts = chain_starts(&keys, 32);
    assert_eq!(starts.len(), 3);
    assert_eq!(chain_count(70, 32), 3);
    assert_eq!(chain_count(64, 32), 2);
    assert_eq!(chain_count(0, 32), 0);
    assert_eq!(chain_count(5, 1), 5);
    for (index, key) in keys.iter().enumerate() {
        assert!(chain_key(&starts, 32, index).unwrap() == *key);
    }
    assert!(chain_key(&starts, 32, 96).is_err());
    assert!(check_chain_batch(&starts, 70, 32).is_ok());
    assert!(check_chain_batch(&starts, 64, 32).is_err());
    assert!(check_chain_batch(&[], 0, 32).is_ok());

    // Single-element chains never add, so 1 and n-1 stay acceptable.
    assert!(chain_start_accepted(&scalar(1), 1));
    assert!(!chain_start_accepted(&scalar(1), 2));
    assert!(!chain_start_accepted(&scalar(31), 32));
    assert!(chain_start_accepted(&scalar(32), 32));
    assert!(chain_start_accepted(&below_order(1), 1));
    assert!(!chain_start_accepted(&below_order(1), 2));
    assert!(chain_start_accepted(&below_order(32), 32));
    assert!(!chain_start_accepted(&below_order(31), 32));
}

#[test]
fn expand_chain_keys_matches_per_address_scalars() {
    let keys = sequential_keys(70);
    let starts = chain_starts(&keys, 32);
    let mut bytes = vec![0xaa; 70 * 32 + 7];
    expand_chain_keys(&starts, 32, 70, &mut bytes).unwrap();
    for (index, key) in keys.iter().enumerate() {
        assert_eq!(&bytes[index * 32..][..32], &key.secret_bytes()[..]);
    }
    assert!(bytes[70 * 32..].iter().all(|&byte| byte == 0xaa));
    assert!(expand_chain_keys(&starts, 32, 64, &mut bytes).is_err());
    assert!(expand_chain_keys(&starts, 32, 70, &mut bytes[..100]).is_err());
    let mut carry = [0xffu8; 32];
    carry[0] = 0x7f;
    carry[30] = 0xff;
    carry[31] = 0xfe;
    let start = SecretKey::from_byte_array(carry).unwrap();
    let mut out = vec![0; 3 * 32];
    expand_chain_keys(&[start], 3, 3, &mut out).unwrap();
    assert_eq!(&out[64..][29..], &[0x00, 0x00, 0x00]);
    assert_eq!(out[64 + 28], 0x00);
    assert_eq!(out[64], 0x80);
    let mut single = vec![0; 32];
    expand_chain_keys(&[], 32, 0, &mut single).unwrap();
}

#[test]
fn chain_failures_say_what_is_wrong() {
    let starts = [below_order(1)];
    assert_eq!(
        chain_key(&starts, 4, 1).err().unwrap().message(),
        "chain leaves scalar range"
    );
    assert_eq!(
        chain_key(&starts, 4, 4).err().unwrap().message(),
        "address index outside the key batch"
    );
    assert_eq!(
        check_chain_batch(&starts, 5, 4).err().unwrap().message(),
        "batch key count does not match address count"
    );
    let mut short = [0u8; 31];
    assert_eq!(
        expand_chain_keys(&starts, 1, 1, &mut short).err().unwrap().message(),
        "expanded key buffer too small"
    );
    // A stride of zero counts as one.
    assert_eq!(chain_count(7, 0), 7);
    assert!(chain_key(&starts, 0, 0).unwrap() == starts[0]);
}

#[test]
fn erased_keys_hold_ones() {
    let mut key = scalar(9);
    key.non_secure_erase();
    assert_eq!(key.secret_bytes(), [1u8; 32]);
}

#[test]
fn secret_bytes_round_trip_and_range_is_checked() {
    let key = below_order(1);
    assert!(SecretKey::from_byte_array(key.secret_bytes()).unwrap() == key);
    for bytes in [[0u8; 32], secp256k1::constants::CURVE_ORDER, [255u8; 32]] {
        assert_eq!(
            SecretKey::from_byte_array(bytes).err().unwrap().message(),
            "malformed or out-of-range secret key"
        );
    }
}

#[test]
fn hex_conversion_handles_empty_case_and_odd_lengths() {
    assert_eq!(hex_to_nibbles(""), Some(vec![]));
    assert_eq!(hex_to_nibbles("0aF19"), Some(vec![0, 10, 15, 1, 9]));
    for invalid in ["0x12", "gg", " a", "a\n", "你好"] {
        assert_eq!(hex_to_nibbles(invalid), None);
    }
    assert!(is_hex("00ffAA"));
    assert!(!is_hex("0x"));
}

#[test]
fn keys_and_addresses_are_written_in_lower_case_hex() {
    assert_eq!(
        sk_to_hex(&scalar(0xab)),
        "0x00000000000000000000000000000000000000000000000000000000000000ab"
    );
    let mut address: Address = [0; 20];
    address[0] = 0xde;
    address[19] = 0x0f;
    let nibbles = address_nibbles(&address);
    assert_eq!((nibbles[0], nibbles[1], nibbles[38], nibbles[39]), (13, 14, 0, 15));
    let text = nibbles_to_hex(&nibbles);
    assert_eq!(text, "0xde0000000000000000000000000000000000000f");
    assert_eq!(hex_to_nibbles(&text[2..]).unwrap(), nibbles.to_vec());
}

#[test]
fn known_ethereum_address_vectors() {
    for (key, expected) in [
        (1, "0x7e5f4552091a69125d5dfcb7b8c2659029395bdf"),
        (2, "0x2b5ad5c4795c026514f8317c7a215e218dccd6cf"),
    ] {
        let address = address_nibbles(&derive_address(&scalar(key)));
        assert_eq!(nibbles_to_hex(&address), expected);
    }
}

#[test]
fn addresses_are_checked_against_their_keys() {
    let address = derive_address(&scalar(1));
    assert!(verify_address(&scalar(1), &address).is_ok());
    assert_eq!(
        verify_address(&scalar(2), &address).err().unwrap().message(),
        "GPU/CPU address verification failed"
    );
    // The end of the Keccak-256 digest of nothing.
    assert_eq!(
        nibbles_to_hex(&address_nibbles(&address_from_public_key(&[]))),
        "0xdcc703c0e500b653ca82273b7bfad8045d85a470"
    );
}

#[test]
fn address_stream_matches_the_pre_upgrade_checksum() {
    let mut rng = SeededRng::from_seed(&[91; 32]);
    let mut checksum = tiny_keccak::Keccak::v256();
    for _ in 0..4096 {
        let key = generate_secret_key(&mut rng).unwrap();
        tiny_keccak::Hasher::update(&mut checksum, &address_nibbles(&derive_address(&key)));
    }
    let mut digest = [0u8; 32];
    tiny_keccak::Hasher::finalize(checksum, &mut digest);
    assert_eq!(
        digest,
        [
            179, 211, 234, 56, 193, 181, 240, 38, 155, 133, 204, 142, 22, 70, 166, 242, 77, 138,
            108, 127, 206, 47, 68, 153, 14, 220, 102, 45, 249, 41, 35, 104
        ]
    );
}

struct CandidateRng(std::vec::IntoIter<[u8; 32]>);

impl KeyRng for CandidateRng {
    fn fill_bytes(&mut self, bytes: &mut [u8; 32]) {
        *bytes = self.0.next().unwrap();
    }
}

#[test]
fn secret_generation_rejects_invalid_scalars() {
    let valid = scalar(1).secret_bytes();
    let mut rng = CandidateRng(
        vec![[0; 32], secp256k1::constants::CURVE_ORDER, [255; 32], valid].into_iter(),
    );
    assert_eq!(generate_secret_key(&mut rng).unwrap().secret_bytes(), valid);
    assert!(rng.0.next().is_none());
}

#[test]
fn chain_starts_are_drawn_until_one_is_accepted() {
    let good = scalar(32).secret_bytes();
    let mut rng = CandidateRng(
        vec![scalar(31).secret_bytes(), below_order(31).secret_bytes(), good].into_iter(),
    );
    assert_eq!(generate_chain_start(&mut rng, 32).unwrap().secret_bytes(), good);
    assert!(accept_draw(&scalar(31).secret_bytes(), 32).is_none());
    assert!(accept_draw(&good, 32).is_some());
}

#[test]
fn one_seed_gives_one_stream_of_keys() {
    let mut first = SeededRng::from_seed(&[5; 32]);
    let mut second = SeededRng::from_seed(&[5; 32]);
    let a = generate_secret_key(&mut first).unwrap();
    let b = generate_secret_key(&mut first).unwrap();
    assert!(a != b);
    assert!(generate_secret_key(&mut second).unwrap() == a);
    assert!(generate_secret_key(&mut second).unwrap() == b);
    let mut other = SeededRng::from_seed(&[6; 32]);
    assert!(generate_secret_key(&mut other).unwrap() != a);
    assert_eq!(Error::EntropyExhausted.message(), "search CSPRNG never gave a usable scalar");
}
