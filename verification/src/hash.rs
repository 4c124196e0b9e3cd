//! Hashing of keys, byte by byte, with the Fx hasher.

use vstd::prelude::*;

verus! {

/// The 64-bit Fx hasher of the `fxhash` crate. Nothing of it is visible here but
/// its state, which `hasher_state` names.
#[verifier::external_type_specification]
#[verifier::external_body]
pub struct ExFxHasher64(fxhash::FxHasher64);

/// The one word of state that a `FxHasher64` holds.
pub uninterp spec fn hasher_state(hasher: fxhash::FxHasher64) -> u64;

/// What one byte does to the state of the hasher: the state is turned left by five
/// bits, the byte is xor-ed in, and the whole is multiplied, modulo 2^64, by a
/// fixed odd word.
pub open spec fn mix(state: u64, byte: u8) -> u64 {
    let turned: u64 = (state << 5) | (state >> 59);
    let stirred: u64 = turned ^ (byte as u64);
    ((stirred as int * 0x517c_c1b7_2722_0a95) % 0x1_0000_0000_0000_0000) as u64
}

/// The hash of a sequence of bytes: the state of a fresh hasher after each byte
/// was fed to it in turn.
pub open spec fn digest(bytes: Seq<u8>) -> u64
    decreases bytes.len(),
{
    if bytes.len() == 0 {
        0
    } else {
        mix(digest(bytes.drop_last()), bytes.last())
    }
}

/// `FxHasher64::default()`. Trusted: a fresh hasher holds the state 0.
#[verifier::external_body]
fn hasher_new() -> (hasher: fxhash::FxHasher64)
    ensures
        hasher_state(hasher) == 0,
{
    fxhash::FxHasher64::default()
}

/// `Hasher::write_u8` of `FxHasher64`. Trusted: the byte is mixed into the state as
/// `mix` says, which is the crate's one hashing step on 64-bit words.
#[verifier::external_body]
fn hasher_feed(hasher: &mut fxhash::FxHasher64, byte: u8)
    ensures
        hasher_state(*final(hasher)) == mix(hasher_state(*old(hasher)), byte),
{
    std::hash::Hasher::write_u8(hasher, byte)
}

/// `Hasher::finish` of `FxHasher64`. Trusted: it hands out the state as it is.
#[verifier::external_body]
fn hasher_finish(hasher: &fxhash::FxHasher64) -> (state: u64)
    ensures
        state == hasher_state(*hasher),
{
    std::hash::Hasher::finish(hasher)
}

/// Hashes a key.
pub fn key_hash(bytes: &[u8]) -> (h: u64)
    ensures
        h == digest(bytes@),
{
    let mut hasher = hasher_new();
    let mut i: usize = 0;
    while i < bytes.len()
        invariant
            i <= bytes.len(),
            hasher_state(hasher) == digest(bytes@.take(i as int)),
        decreases bytes.len() - i,
    {
        hasher_feed(&mut hasher, bytes[i]);
        proof {
            assert(bytes@.take(i + 1).drop_last() == bytes@.take(i as int));
        }
        i += 1;
    }
    proof {
        assert(bytes@.take(bytes.len() as int) == bytes@);
    }
    hasher_finish(&hasher)
}

} // verus!
