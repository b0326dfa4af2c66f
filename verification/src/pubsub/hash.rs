//! A hash that is the same in every process.

use vstd::prelude::*;

verus! {

/// The hash of nothing (FNV-1a, 64 bits).
pub const OFFSET_BASIS: u64 = 0xcbf2_9ce4_8422_2325;

/// What the hash is multiplied with at each byte.
pub const PRIME: u64 = 0x0000_0100_0000_01b3;

/// The hash with one more byte.
pub open spec fn mixed(hash: u64, byte: u8) -> u64 {
    (hash ^ (byte as u64)).wrapping_mul(PRIME)
}

/// The hash with more bytes.
pub open spec fn mixed_all(hash: u64, bytes: Seq<u8>) -> u64
    decreases bytes.len(),
{
    if bytes.len() == 0 {
        hash
    } else {
        mixed(mixed_all(hash, bytes.drop_last()), bytes.last())
    }
}

/// The hash of two parts, each closed by the byte 255.
pub open spec fn hash_of(first: Seq<u8>, second: Seq<u8>) -> u64 {
    mixed(mixed_all(mixed(mixed_all(OFFSET_BASIS, first), 0xff), second), 0xff)
}

/// Mixes one part in.
fn mix_part(hash: u64, part: &[u8]) -> (next: u64)
    ensures
        next == mixed(mixed_all(hash, part@), 0xff),
{
    let mut next: u64 = hash;
    let mut i: usize = 0;
    while i < part.len()
        invariant
            i <= part@.len(),
            next == mixed_all(hash, part@.take(i as int)),
        decreases part@.len() - i,
    {
        next = (next ^ (part[i] as u64)).wrapping_mul(PRIME);
        proof {
            let more = part@.take(i + 1);
            assert(more.drop_last() =~= part@.take(i as int));
            assert(more.last() == part@[i as int]);
        }
        i = i + 1;
    }
    assert(part@.take(i as int) =~= part@);
    (next ^ 0xff).wrapping_mul(PRIME)
}

/// The hash of two parts.
pub fn stable_hash(first: &[u8], second: &[u8]) -> (hash: u64)
    ensures
        hash == hash_of(first@, second@),
{
    mix_part(mix_part(OFFSET_BASIS, first), second)
}

} // verus!
