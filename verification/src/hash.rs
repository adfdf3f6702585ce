//! The hash of a key: 32 bits, the same for the same bytes wherever it is
//! computed, since existing files depend on it.

use vstd::prelude::*;

verus! {

/// The hash of the empty key.
pub const HASH_START: u32 = 5381;

/// One step of the hash: the old value times 33, reduced modulo 2^32,
/// exclusive-or the next byte.
pub open spec fn hash_step(h: u32, b: u8) -> u32 {
    ((((h << 5) as int + h as int) % 0x1_0000_0000) as u32) ^ (b as u32)
}

/// The hash of a byte string: `HASH_START` for the empty string, and one
/// `hash_step` for each further byte, from the first to the last.
pub open spec fn spec_hash(key: Seq<u8>) -> u32
    decreases key.len(),
{
    if key.len() == 0 {
        HASH_START
    } else {
        hash_step(spec_hash(key.drop_last()), key.last())
    }
}

/// Computes the hash of `key`.
pub fn hash(key: &[u8]) -> (h: u32)
    ensures
        h == spec_hash(key@),
{
    let mut h: u32 = HASH_START;
    let mut i: usize = 0;
    while i < key.len()
        invariant
            i <= key.len(),
            h == spec_hash(key@.take(i as int)),
        decreases key.len() - i,
    {
        assert(key@.take(i + 1).drop_last() =~= key@.take(i as int));
        h = (h << 5).wrapping_add(h) ^ (key[i] as u32);
        i += 1;
    }
    assert(key@.take(i as int) =~= key@);
    h
}

} // verus!
