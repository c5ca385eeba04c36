//! A hash that never changes between builds, fit for names that are kept on disk.
use vstd::prelude::*;

verus! {

pub const OFFSET: u64 = 0xcbf29ce484222325;

pub const PRIME: u64 = 0x100000001b3;

/// The 64-bit FNV-1a hash: the offset basis, to which each byte is added in turn by exclusive
/// or, followed by a multiplication modulo two to the power of 64.
pub open spec fn fnv1a(bytes: Seq<u8>) -> u64
    decreases bytes.len(),
{
    if bytes.len() == 0 {
        OFFSET
    } else {
        (((fnv1a(bytes.drop_last()) ^ (bytes.last() as u64)) * PRIME) % 0x1_0000_0000_0000_0000) as u64
    }
}

/// FNV-1a, 64 bits.
pub fn fnv1a64(bytes: &[u8]) -> (hash: u64)
    ensures
        hash == fnv1a(bytes@),
{
    let mut hash: u64 = OFFSET;
    let mut i: usize = 0;
    while i < bytes.len()
        invariant
            i <= bytes.len(),
            hash == fnv1a(bytes@.take(i as int)),
        decreases bytes.len() - i,
    {
        assert(bytes@.take(i + 1).drop_last() =~= bytes@.take(i as int));
        hash = (hash ^ (bytes[i] as u64)).wrapping_mul(PRIME);
        i += 1;
    }
    assert(bytes@.take(bytes@.len() as int) =~= bytes@);
    hash
}

/// The hash of no bytes is the offset basis of FNV-1a, and each byte more is mixed in with its
/// prime.
pub proof fn law_bytes_are_mixed_in_turn(bytes: Seq<u8>, b: u8)
    ensures
        fnv1a(Seq::empty()) == 0xcbf29ce484222325,
        fnv1a(bytes.push(b)) == ((fnv1a(bytes) ^ (b as u64)) * 0x100000001b3)
            % 0x1_0000_0000_0000_0000,
{
    assert(bytes.push(b).drop_last() =~= bytes);
}

} // verus!
