use std::collections::hash_map::DefaultHasher;
use std::hash::Hasher;
use vstd::prelude::*;
use vstd::std_specs::hash::DefaultHasherAdditionalSpecFns;

verus! {

/// The 64-bit hash the shard router derives from a key: the standard hasher,
/// freshly created, run over the key's little-endian bytes. A pure function of
/// the key, so every call on every container routes a given key the same way.
pub open spec fn spec_key_hash(k: u64) -> u64 {
    DefaultHasher::spec_finish(seq![vstd::bytes::spec_u64_to_le_bytes(k)])
}

/// The shard index for key `k` in a container of `n` shards: the key's hash
/// reduced modulo the shard count.
pub open spec fn spec_shard_of(k: u64, n: int) -> int {
    spec_key_hash(k) as int % n
}

/// With at least one shard, the router always lands inside the shard sequence.
pub proof fn lemma_shard_of_in_range(k: u64, n: int)
    requires
        1 <= n,
    ensures
        0 <= spec_shard_of(k, n) < n,
{
}

/// `n` is a power of two.
pub open spec fn is_pow2(n: int) -> bool
    decreases n,
{
    if n <= 0 {
        false
    } else if n == 1 {
        true
    } else {
        n % 2 == 0 && is_pow2(n / 2)
    }
}

/// Hash a key exactly as [`spec_key_hash`] describes.
pub fn key_hash(k: u64) -> (h: u64)
    ensures
        h == spec_key_hash(k),
{
    let mut hasher = DefaultHasher::new();
    let bytes = vstd::bytes::u64_to_le_bytes(k);
    hasher.write(bytes.as_slice());
    proof {
        assert(hasher@ =~= seq![vstd::bytes::spec_u64_to_le_bytes(k)]);
    }
    hasher.finish()
}

} // verus!
