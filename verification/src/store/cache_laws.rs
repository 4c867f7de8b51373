//! What the read caches keep and count, and how a budget is shared out.

use vstd::prelude::*;

use crate::errors::{QueryError, Result};
use crate::store::cache::{
    counted_up, decodes_to, hot_part, is_decoded, is_read, probed, ratio_bytes, shards_for, stands_for,
    total_charge, CacheConfig, CachedInner, DecodedCache, StampWeigher, Weighted, Weigher,
};

verus! {

/// A decoded value is charged its payload's bytes and the fixed overhead of an
/// entry; the sum sticks at the largest charge.
pub proof fn law_charge_is_payload_and_overhead<T>(value: Weighted<T>)
    ensures
        value.weight + 64 <= usize::MAX ==> StampWeigher.weight_of(value) == value.weight + 64,
        value.weight + 64 > usize::MAX ==> StampWeigher.weight_of(value) == usize::MAX,
{
}

/// The budget is the share of the total, in whole mebibytes.
pub open spec fn is_share(bytes: usize, total_mib: usize, parts: int) -> bool {
    bytes == (total_mib * parts / 1024) * 1_048_576
}

/// Each cache has its share of the total, in parts of 1024: the rows 480, the
/// fragments of open pages 256, the sealed pages 128, the block headers 64, and
/// so on.
pub proof fn law_budgets_are_their_shares(config: CacheConfig, total_mib: usize)
    requires
        config.is_split_of(total_mib),
        total_mib * 1_048_576 <= usize::MAX,
    ensures
        is_share(config.row_cache_bytes, total_mib, 480),
        is_share(config.bitmap_by_block_cache_bytes, total_mib, 256),
        is_share(config.bitmap_page_blob_cache_bytes, total_mib, 128),
        is_share(config.block_header_cache_bytes, total_mib, 64),
        is_share(config.dir_by_block_cache_bytes, total_mib, 32),
        is_share(config.bitmap_page_counts_cache_bytes, total_mib, 24),
        is_share(config.dir_bucket_cache_bytes, total_mib, 16),
        is_share(config.open_bitmap_stream_cache_bytes, total_mib, 16),
        is_share(config.tx_hash_index_cache_bytes, total_mib, 8),
{
    lemma_share(total_mib, 480);
    lemma_share(total_mib, 256);
    lemma_share(total_mib, 128);
    lemma_share(total_mib, 64);
    lemma_share(total_mib, 32);
    lemma_share(total_mib, 24);
    lemma_share(total_mib, 16);
    lemma_share(total_mib, 8);
}

proof fn lemma_share(total_mib: usize, parts: usize)
    requires
        total_mib * 1_048_576 <= usize::MAX,
        parts <= 1024,
    ensures
        ratio_bytes(total_mib, parts) == (total_mib * parts / 1024) * 1_048_576,
{
    let product = total_mib * parts;
    assert(product <= total_mib * 1024) by (nonlinear_arith)
        requires
            product == total_mib * parts,
            parts <= 1024,
            total_mib >= 0,
    ;
    assert(0 <= product) by (nonlinear_arith)
        requires
            product == total_mib * parts,
            parts >= 0,
            total_mib >= 0,
    ;
    assert(product <= usize::MAX);
    assert(product / 1024 <= total_mib);
}

/// A lookup in an enabled cache counts once: as a hit if the key was held, else
/// as a miss. A disabled cache counts nothing.
pub proof fn law_lookup_counts_once(hits: u64, misses: u64, hit: bool)
    ensures
        probed((hits, misses), false, hit) == (hits, misses),
        hits < u64::MAX && misses < u64::MAX ==> {
            let (h, m) = probed((hits, misses), true, hit);
            &&& h + m == hits + misses + 1
            &&& hit <==> h == hits + 1
            &&& !hit <==> m == misses + 1
        },
        counted_up(u64::MAX) == 0,
{
}

/// Seeding never mixes values up: what is held afterwards is the seeded value
/// under its key or what was held before, the charges stay within the limit, and
/// nothing is held that is larger than the room.
pub proof fn law_seeding_keeps_values_apart<V, W: Weigher<V>>(
    before: CachedInner<V, W>,
    after: CachedInner<V, W>,
    key: Seq<u8>,
    value: V,
    k: Seq<u8>,
)
    requires
        before.enabled(),
        after.is_seeded(before, key, value),
    ensures
        after.contents().contains_key(k) && k == key ==> after.contents()[k] == value
            && after.charges()[k] == before.scales().weight_of(value),
        after.contents().contains_key(k) && k != key ==> before.contents().contains_key(k)
            && after.contents()[k] == before.contents()[k],
        total_charge(after.charges()) <= after.limit(),
        after.limit() == before.limit(),
        before.scales().weight_of(value) > before.room() ==> !after.contents().contains_key(key),
        before.scales().weight_of(value) > before.room() && k != key
            && before.contents().contains_key(k) ==> after.contents().contains_key(k),
{
}

/// A disabled cache takes nothing.
pub proof fn law_disabled_cache_takes_nothing<V, W: Weigher<V>>(
    before: CachedInner<V, W>,
    after: CachedInner<V, W>,
    key: Seq<u8>,
    value: V,
)
    requires
        !before.enabled(),
        after.is_seeded(before, key, value),
    ensures
        !after.enabled(),
        after.contents() == before.contents(),
        after.charges() == before.charges(),
{
}

/// Absence and errors are never cached, and a hit changes nothing: a read alters
/// what is held only where it found a value that was not held.
pub proof fn law_only_found_values_are_cached<V: Clone, D: Fn(Vec<u8>) -> Result<V>>(
    before: DecodedCache<V>,
    after: DecodedCache<V>,
    decode: D,
    key: Seq<u8>,
    stored: Option<Seq<u8>>,
    result: Result<Option<V>>,
)
    requires
        is_read(before, after, decode, key, stored, result),
    ensures
        !(result matches Ok(Some(_))) ==> after.contents() == before.contents()
            && !before.contents().contains_key(key),
        before.contents().contains_key(key) ==> after.contents() == before.contents() && (
        result matches Ok(Some(copy)) && cloned(before.contents()[key].value, copy)),
        (result matches Ok(Some(_))) && !before.contents().contains_key(key) ==> stored is Some,
{
}

/// A cached value answers as the stored bytes do: a copy of it is what decoding
/// them gives, and it is weighed by their number.
pub proof fn law_cached_value_answers_for_the_bytes<V: Clone, D: Fn(Vec<u8>) -> Result<V>>(
    decode: D,
    stored: Option<Seq<u8>>,
    held: Weighted<V>,
    copy: V,
)
    requires
        stands_for(decode, stored, held),
        cloned(held.value, copy),
    ensures
        is_decoded(decode, stored, Ok::<Option<V>, QueryError>(Some(copy))),
        stored matches Some(bytes) && held.weight == bytes.len(),
{
    assert(decodes_to(decode, stored->Some_0, Ok::<V, QueryError>(held.value)));
}

/// What is stored decides a read: nothing stored is nothing read, a value read
/// is a copy of what decoding answered, and an error is that of decoding.
pub proof fn law_read_is_decided_by_what_is_stored<V: Clone, D: Fn(Vec<u8>) -> Result<V>>(
    decode: D,
    stored: Option<Seq<u8>>,
    result: Result<Option<V>>,
)
    requires
        is_decoded(decode, stored, result),
    ensures
        stored is None <==> (result matches Ok(None)),
        result matches Ok(Some(copy)) ==> exists|b: Vec<u8>, value: V|
            b@ == stored->Some_0 && #[trigger] call_ensures(
                decode,
                (b,),
                Ok::<V, QueryError>(value),
            ) && cloned(value, copy),
        result matches Err(error) ==> exists|b: Vec<u8>|
            b@ == stored->Some_0 && #[trigger] call_ensures(
                decode,
                (b,),
                Err::<V, QueryError>(error),
            ),
{
    if let Ok(Some(copy)) = result {
        let bytes = stored->Some_0;
        let value = choose|value: V| #[trigger]
            decodes_to(decode, bytes, Ok::<V, QueryError>(value)) && cloned(value, copy);
        let b = choose|b: Vec<u8>| b@ == bytes && #[trigger] call_ensures(
            decode,
            (b,),
            Ok::<V, QueryError>(value),
        );
        assert(call_ensures(decode, (b,), Ok::<V, QueryError>(value)));
    }
}

/// The part of a share that is assured is the share without a thirty-second of
/// it and two.
pub proof fn law_assured_part_is_almost_all(share: int)
    requires
        share >= 64,
    ensures
        0 < hot_part(share) < share,
        32 * hot_part(share) >= 31 * share - 64,
{
}

/// A cache has one to sixty-four shards, more of them the larger its budget, and
/// none of several has less than four MiB of it.
pub proof fn law_shards_grow_with_the_budget(budget: int, larger: int)
    requires
        0 <= budget <= larger,
    ensures
        1 <= shards_for(budget) <= shards_for(larger) <= 64,
        shards_for(budget) > 1 ==> shards_for(budget) * 4194304 <= budget,
        budget >= 64 * 4194304 ==> shards_for(budget) == 64,
{
    let kib = budget / 1024;
    let parts = kib / 4096;
    assert(kib * 1024 <= budget);
    assert(parts * 4096 <= kib);
    if shards_for(budget) > 1 {
        assert(shards_for(budget) <= parts);
        assert(shards_for(budget) * 4194304 <= parts * 4194304);
    }
}

} // verus!
