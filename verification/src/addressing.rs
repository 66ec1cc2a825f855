//! Slot addressing: the physical storage slot of a logical node key is the
//! keccak-256 digest of the key and the mapping's base slot, both serialized
//! as 32 big-endian bytes, read back as a big-endian 256-bit integer.

use crate::word::{word_be_bytes, word_from_be_seq, Word256};
use vstd::prelude::*;

verus! {

/// The keccak-256 digest of a byte string.
pub uninterp spec fn keccak_of(input: Seq<u8>) -> Seq<u8>;

/// Relies on alloy's keccak256: the digest is a function of the input bytes
/// alone, and a keccak-256 digest is 32 bytes long.
#[verifier::external_body]
pub(crate) fn keccak(bytes: &Vec<u8>) -> (r: Vec<u8>)
    ensures
        r@ == keccak_of(bytes@),
        r@.len() == 32,
{
    alloy::primitives::keccak256(bytes.as_slice()).to_vec()
}

/// The word found at the digest of `key || base`, as a value.
#[verifier::opaque]
pub open spec fn slot_value(key: Word256, base: Word256) -> nat {
    word_from_be_seq(keccak_of(word_be_bytes(key) + word_be_bytes(base))).value()
}

/// Compute the physical slot of `key` under the mapping rooted at `base`.
/// The result is a function of the two arguments alone.
pub fn compute_slot(key: &Word256, base: &Word256) -> (r: Word256)
    ensures
        r == word_from_be_seq(keccak_of(word_be_bytes(*key) + word_be_bytes(*base))),
        r.value() == slot_value(*key, *base),
{
    proof {
        reveal(slot_value);
    }
    let mut buf = key.to_be_bytes();
    let mut tail = base.to_be_bytes();
    buf.append(&mut tail);
    let digest = keccak(&buf);
    Word256::from_be_bytes(&digest)
}

} // verus!
