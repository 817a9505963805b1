//! FNV-1a hashing: small, allocation-free, and stable across builds and
//! platforms.

use vstd::prelude::*;

verus! {

pub const OFFSET_BASIS: u64 = 0xcbf2_9ce4_8422_2325;

pub const PRIME: u64 = 0x0000_0100_0000_01b3;

/// One FNV-1a round: fold a byte into the hash.
pub open spec fn fnv_step(hash: u64, byte: u8) -> u64 {
    (hash ^ (byte as u64)).wrapping_mul(PRIME)
}

/// The FNV-1a hash state after folding in `bytes`, in order, from `hash`.
pub open spec fn fnv(hash: u64, bytes: Seq<u8>) -> u64
    decreases bytes.len(),
{
    if bytes.len() == 0 {
        hash
    } else {
        fnv_step(fnv(hash, bytes.drop_last()), bytes.last())
    }
}

/// Hashing a concatenation is hashing the second part from the state the
/// first part leaves.
pub proof fn lemma_fnv_append(hash: u64, a: Seq<u8>, b: Seq<u8>)
    ensures
        fnv(hash, a + b) == fnv(fnv(hash, a), b),
    decreases b.len(),
{
    if b.len() == 0 {
        assert(a + b =~= a);
    } else {
        assert((a + b).drop_last() =~= a + b.drop_last());
        lemma_fnv_append(hash, a, b.drop_last());
    }
}

/// Hashing one byte is one round.
pub proof fn lemma_fnv_single(hash: u64, byte: u8)
    ensures
        fnv(hash, seq![byte]) == fnv_step(hash, byte),
{
    assert(seq![byte].drop_last() =~= Seq::<u8>::empty());
    assert(fnv(hash, Seq::<u8>::empty()) == hash);
    assert(seq![byte].last() == byte);
}

/// Fold a single byte into the hash.
pub fn write_byte(hash: &mut u64, byte: u8)
    ensures
        *final(hash) == fnv_step(*old(hash), byte),
{
    *hash ^= byte as u64;
    *hash = hash.wrapping_mul(PRIME);
}

/// Fold a run of bytes into the hash, in order.
pub fn write(hash: &mut u64, bytes: &[u8])
    ensures
        *final(hash) == fnv(*old(hash), bytes@),
{
    let mut i: usize = 0;
    while i < bytes.len()
        invariant
            i <= bytes@.len(),
            *hash == fnv(*old(hash), bytes@.take(i as int)),
        decreases bytes@.len() - i,
    {
        proof {
            assert(bytes@.take(i + 1).drop_last() =~= bytes@.take(i as int));
        }
        write_byte(hash, bytes[i]);
        i = i + 1;
    }
    assert(bytes@.take(bytes@.len() as int) =~= bytes@);
}

} // verus!
