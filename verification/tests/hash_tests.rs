use chunkstats::hash::key_hash;
use std::hash::Hasher;

const SEED: u64 = 0x517c_c1b7_2722_0a95;

#[test]
fn hash_of_nothing_is_zero() {
    assert_eq!(key_hash(b""), 0);
}

#[test]
fn hash_of_one_byte() {
    assert_eq!(key_hash(b"a"), 97u64.wrapping_mul(SEED));
}

#[test]
fn hash_of_two_bytes() {
    let first = 97u64.wrapping_mul(SEED);
    let second = (first.rotate_left(5) ^ 98).wrapping_mul(SEED);
    assert_eq!(key_hash(b"ab"), second);
}

#[test]
fn hash_agrees_with_the_hasher_fed_byte_by_byte() {
    let key = b"Ouagadougou";
    let mut h = fxhash::FxHasher64::default();
    for b in key.iter() {
        h.write_u8(*b);
    }
    assert_eq!(key_hash(key), h.finish());
    assert_ne!(key_hash(key), key_hash(b"Ouagadougov"));
}
