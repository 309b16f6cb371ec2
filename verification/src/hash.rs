//! The key hash that routes a record to its sub-table and probe start.

use vstd::prelude::*;

verus! {

/// The hash of the empty key.
pub const HASH_SEED: u32 = 5381;

/// One round of the hash: thirty-three times the running value, cut to
/// thirty-two bits, exclusive-or the next byte.
pub open spec fn hash_step(h: u32, b: u8) -> u32 {
    (((h as int * 33) % 0x1_0000_0000) as u32) ^ (b as u32)
}

/// The hash of a key: the rounds applied to its bytes from first to last,
/// starting at the seed.
pub open spec fn hash_of(key: Seq<u8>) -> u32
    decreases key.len(),
{
    if key.len() == 0 {
        HASH_SEED
    } else {
        hash_step(hash_of(key.drop_last()), key.last())
    }
}

/// Hashes a key.
pub fn cdb_hash(key: &[u8]) -> (h: u32)
    ensures
        h == hash_of(key@),
{
    let mut h: u32 = HASH_SEED;
    let mut i: usize = 0;
    while i < key.len()
        invariant
            i <= key@.len(),
            h == hash_of(key@.take(i as int)),
        decreases key@.len() - i,
    {
        let wide: u64 = (h as u64) * 33;
        let low: u32 = (wide % 0x1_0000_0000) as u32;
        proof {
            assert(key@.take(i + 1).drop_last() =~= key@.take(i as int));
        }
        h = low ^ (key[i] as u32);
        i = i + 1;
    }
    proof {
        assert(key@.take(i as int) =~= key@);
    }
    h
}

} // verus!
