//! FNV-1a hashing with a result that does not depend on the process or the machine.

use vstd::prelude::*;

verus! {

pub const FNV1A_OFFSET_BASIS: u64 = 0xcbf2_9ce4_8422_2325;

pub const FNV1A_PRIME: u64 = 0x100_0000_01b3;

/// One FNV-1a round.
pub open spec fn fnv_step(hash: u64, byte: u8) -> u64 {
    vstd::wrapping::u64_specs::wrapping_mul(hash ^ (byte as u64), FNV1A_PRIME)
}

/// FNV-1a over a byte string, continuing from `hash`.
pub open spec fn fnv_bytes(bytes: Seq<u8>, hash: u64) -> u64
    decreases bytes.len(),
{
    if bytes.len() == 0 {
        hash
    } else {
        fnv_step(fnv_bytes(bytes.drop_last(), hash), bytes.last())
    }
}

/// The bytes of `value`, least significant first.
pub open spec fn le_bytes(value: u64) -> Seq<u8> {
    Seq::new(8, |i: int| (value >> ((8 * i) as u64)) as u8)
}

/// FNV-1a over the little-endian bytes of an integer.
pub open spec fn fnv_u64(value: u64, hash: u64) -> u64 {
    fnv_bytes(le_bytes(value), hash)
}

/// Hashing a text in two parts is hashing it at once.
pub proof fn parts_hash_like_the_whole(a: Seq<u8>, b: Seq<u8>, hash: u64)
    ensures
        fnv_bytes(a + b, hash) == fnv_bytes(b, fnv_bytes(a, hash)),
    decreases b.len(),
{
    if b.len() == 0 {
        assert(a + b =~= a);
    } else {
        assert((a + b).drop_last() =~= a + b.drop_last());
        assert((a + b).last() == b.last());
        parts_hash_like_the_whole(a, b.drop_last(), hash);
    }
}

/// Fold `bytes` into `hash`.
pub fn mix_bytes(bytes: &[u8], hash: &mut u64)
    ensures
        *final(hash) == fnv_bytes(bytes@, *old(hash)),
{
    let mut i: usize = 0;
    proof {
        assert(bytes@.take(0) =~= Seq::<u8>::empty());
    }
    while i < bytes.len()
        invariant
            i <= bytes@.len(),
            *hash == fnv_bytes(bytes@.take(i as int), *old(hash)),
        decreases bytes@.len() - i,
    {
        *hash = (*hash ^ (bytes[i] as u64)).wrapping_mul(FNV1A_PRIME);
        proof {
            assert(bytes@.take(i + 1).drop_last() =~= bytes@.take(i as int));
        }
        i = i + 1;
    }
    proof {
        assert(bytes@.take(i as int) =~= bytes@);
    }
}

/// Fold an integer into `hash`, least significant byte first.
pub fn mix_u64(value: u64, hash: &mut u64)
    ensures
        *final(hash) == fnv_u64(value, *old(hash)),
{
    let mut i: u64 = 0;
    proof {
        assert(le_bytes(value).take(0) =~= Seq::<u8>::empty());
    }
    while i < 8
        invariant
            i <= 8,
            *hash == fnv_bytes(le_bytes(value).take(i as int), *old(hash)),
        decreases 8 - i,
    {
        let byte: u8 = (value >> (8 * i)) as u8;
        *hash = (*hash ^ (byte as u64)).wrapping_mul(FNV1A_PRIME);
        proof {
            assert(le_bytes(value).take(i + 1).drop_last() =~= le_bytes(value).take(i as int));
        }
        i = i + 1;
    }
    proof {
        assert(le_bytes(value).take(8) =~= le_bytes(value));
    }
}

} // verus!
