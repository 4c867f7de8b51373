//! Read caches: byte budgets and the byte-budgeted cache of decoded values.

use vstd::prelude::*;

use crate::be::{
    be_bytes, lemma_be_bytes_len, lemma_be_limit_values, lemma_be_value_of_bytes, put_u64,
};
use crate::errors::{QueryError, Result};
use crate::rlp::append_bytes;
use crate::store::meta::{
    keys_ascend, lists_key, opt_bytes, KvTable, MetaStore, ScannableKvTable, ScannableTableId,
    TableId,
};

verus! {

pub const DEFAULT_CACHE_TOTAL_MIB: usize = 8192;

/// Fixed per-entry bookkeeping charge (key, policy bookkeeping, `Arc`) added
/// to a [`Weighted`] payload weight, so tiny decoded rows don't let a cache
/// hold far more entries than its byte budget affords.
pub const CACHE_ENTRY_OVERHEAD: usize = 64;

/// A decoded cache value plus the byte weight to charge it at, stamped at
/// decode time from the pre-decode byte length (unrecoverable after decoding).
#[derive(Debug)]
pub struct Weighted<T> {
    pub value: T,
    /// Payload weight in bytes (pre-decode length). [`CACHE_ENTRY_OVERHEAD`]
    /// is added by the weigher, not stored here.
    pub weight: usize,
}

impl<T: Clone> Clone for Weighted<T> {
    fn clone(&self) -> (copy: Self)
        ensures
            cloned(self.value, copy.value),
            copy.weight == self.weight,
    {
        Weighted { value: self.value.clone(), weight: self.weight }
    }
}

/// How much of a cache's budget a value takes.
pub trait Weigher<V> {
    spec fn weight_of(&self, value: V) -> usize;

    fn weigh(&self, value: &V) -> (weight: usize)
        ensures
            weight == self.weight_of(*value),
    ;
}

/// Weighs bytes by their number.
#[derive(Debug, Clone, Copy, PartialEq, Eq, Structural)]
pub struct ByteWeigher;

impl Weigher<Vec<u8>> for ByteWeigher {
    open spec fn weight_of(&self, value: Vec<u8>) -> usize {
        value.len()
    }

    fn weigh(&self, value: &Vec<u8>) -> (weight: usize) {
        value.len()
    }
}

/// Weighs a decoded value by its stamp, with [`weigh_weighted`].
#[derive(Debug, Clone, Copy, PartialEq, Eq, Structural)]
pub struct StampWeigher;

impl<T> Weigher<Weighted<T>> for StampWeigher {
    open spec fn weight_of(&self, value: Weighted<T>) -> usize {
        stamped_weight(value.weight as int)
    }

    fn weigh(&self, value: &Weighted<T>) -> (weight: usize) {
        weigh_weighted(value)
    }
}

/// A sum that sticks at the largest value.
pub open spec fn saturated(n: int) -> int {
    if n > usize::MAX {
        usize::MAX as int
    } else {
        n
    }
}

/// What a payload of a length is charged.
pub open spec fn stamped_weight(len: int) -> usize {
    saturated(len + CACHE_ENTRY_OVERHEAD) as usize
}

/// Stamped payload weight plus per-entry overhead.
pub fn weigh_weighted<T>(value: &Weighted<T>) -> (weight: usize)
    ensures
        weight == stamped_weight(value.weight as int),
{
    value.weight.saturating_add(CACHE_ENTRY_OVERHEAD)
}

/// Decodes a fetched payload, stamping the weight from the byte length before
/// decoding, the one moment it is known. A decoding error passes through.
pub fn decode_weighted<V, D: Fn(Vec<u8>) -> Result<V>>(bytes: Option<Vec<u8>>, decode: &D) -> (result:
    Result<Option<Weighted<V>>>)
    requires
        bytes matches Some(bytes) ==> call_requires(*decode, (bytes,)),
    ensures
        match bytes {
            None => result == Ok::<Option<Weighted<V>>, QueryError>(None),
            Some(bytes) => match result {
                Ok(Some(weighted)) => weighted.weight == bytes@.len() && call_ensures(
                    *decode,
                    (bytes,),
                    Ok::<V, QueryError>(weighted.value),
                ),
                Ok(None) => false,
                Err(error) => call_ensures(*decode, (bytes,), Err::<V, QueryError>(error)),
            },
        },
{
    match bytes {
        Some(bytes) => {
            let weight: usize = bytes.len();
            match decode(bytes) {
                Ok(value) => Ok(Some(Weighted { value, weight })),
                Err(error) => Err(error),
            }
        },
        None => Ok(None),
    }
}

/// Per-cache byte budgets. Caches hold decoded values but weigh them by their
/// pre-decode byte length (plus [`CACHE_ENTRY_OVERHEAD`] per entry), so each
/// budget tracks stored size.
#[derive(Debug, Clone, Copy, PartialEq, Eq, Structural)]
pub struct CacheConfig {
    pub dir_by_block_cache_bytes: usize,
    pub dir_bucket_cache_bytes: usize,
    pub bitmap_by_block_cache_bytes: usize,
    pub bitmap_page_blob_cache_bytes: usize,
    pub bitmap_page_counts_cache_bytes: usize,
    pub open_bitmap_stream_cache_bytes: usize,
    pub block_header_cache_bytes: usize,
    pub tx_hash_index_cache_bytes: usize,
    /// Budget for the per-(family, block, row) decoded-row caches, split
    /// evenly across the three families. Only rows queries actually
    /// materialize are cached, never a whole block's blob.
    pub row_cache_bytes: usize,
}

pub const RATIO_DENOMINATOR: usize = 1024;

pub const RATIO_ROW_CACHE: usize = 480;

pub const RATIO_BITMAP_BY_BLOCK: usize = 256;

pub const RATIO_BITMAP_PAGE_BLOB: usize = 128;

pub const RATIO_DIR_BY_BLOCK: usize = 32;

pub const RATIO_DIR_BUCKET: usize = 16;

pub const RATIO_BITMAP_PAGE_COUNTS: usize = 24;

pub const RATIO_OPEN_BITMAP_STREAM: usize = 16;

/// Block metadata is on every materialization path (one row per touched
/// block), so it gets the share the row cache gives up.
pub const RATIO_BLOCK_HEADER: usize = 64;

pub const RATIO_TX_HASH_INDEX: usize = 8;

/// A ratio of a MiB budget, in bytes.
pub open spec fn ratio_bytes(total_mib: usize, ratio: usize) -> int {
    saturated((saturated(total_mib * ratio) / RATIO_DENOMINATOR as int) * (1024 * 1024))
}

fn saturating_product(a: usize, b: usize) -> (product: usize)
    ensures
        product == saturated(a * b),
{
    match a.checked_mul(b) {
        Some(product) => product,
        None => usize::MAX,
    }
}

impl Default for CacheConfig {
    fn default() -> (config: Self)
        ensures
            config.row_cache_bytes == ratio_bytes(DEFAULT_CACHE_TOTAL_MIB, RATIO_ROW_CACHE),
            config.is_split_of(DEFAULT_CACHE_TOTAL_MIB),
    {
        CacheConfig::from_total_mib(DEFAULT_CACHE_TOTAL_MIB)
    }
}

impl CacheConfig {
    /// Each budget is its ratio of the total.
    pub open spec fn is_split_of(&self, total_mib: usize) -> bool {
        &&& self.dir_by_block_cache_bytes == ratio_bytes(total_mib, RATIO_DIR_BY_BLOCK)
        &&& self.dir_bucket_cache_bytes == ratio_bytes(total_mib, RATIO_DIR_BUCKET)
        &&& self.bitmap_by_block_cache_bytes == ratio_bytes(total_mib, RATIO_BITMAP_BY_BLOCK)
        &&& self.bitmap_page_blob_cache_bytes == ratio_bytes(total_mib, RATIO_BITMAP_PAGE_BLOB)
        &&& self.bitmap_page_counts_cache_bytes == ratio_bytes(total_mib, RATIO_BITMAP_PAGE_COUNTS)
        &&& self.open_bitmap_stream_cache_bytes == ratio_bytes(total_mib, RATIO_OPEN_BITMAP_STREAM)
        &&& self.block_header_cache_bytes == ratio_bytes(total_mib, RATIO_BLOCK_HEADER)
        &&& self.tx_hash_index_cache_bytes == ratio_bytes(total_mib, RATIO_TX_HASH_INDEX)
        &&& self.row_cache_bytes == ratio_bytes(total_mib, RATIO_ROW_CACHE)
    }

    /// Splits a total MiB budget into per-cache byte budgets via the default
    /// ratios. A zero budget disables all caches.
    pub fn from_total_mib(total_mib: usize) -> (config: CacheConfig)
        ensures
            config.is_split_of(total_mib),
    {
        CacheConfig {
            dir_by_block_cache_bytes: CacheConfig::ratio_budget(total_mib, RATIO_DIR_BY_BLOCK),
            dir_bucket_cache_bytes: CacheConfig::ratio_budget(total_mib, RATIO_DIR_BUCKET),
            bitmap_by_block_cache_bytes: CacheConfig::ratio_budget(
                total_mib,
                RATIO_BITMAP_BY_BLOCK,
            ),
            bitmap_page_blob_cache_bytes: CacheConfig::ratio_budget(
                total_mib,
                RATIO_BITMAP_PAGE_BLOB,
            ),
            bitmap_page_counts_cache_bytes: CacheConfig::ratio_budget(
                total_mib,
                RATIO_BITMAP_PAGE_COUNTS,
            ),
            open_bitmap_stream_cache_bytes: CacheConfig::ratio_budget(
                total_mib,
                RATIO_OPEN_BITMAP_STREAM,
            ),
            block_header_cache_bytes: CacheConfig::ratio_budget(total_mib, RATIO_BLOCK_HEADER),
            tx_hash_index_cache_bytes: CacheConfig::ratio_budget(total_mib, RATIO_TX_HASH_INDEX),
            row_cache_bytes: CacheConfig::ratio_budget(total_mib, RATIO_ROW_CACHE),
        }
    }

    fn ratio_budget(total_mib: usize, ratio: usize) -> (bytes: usize)
        ensures
            bytes == ratio_bytes(total_mib, ratio),
    {
        CacheConfig::budget_mib_to_bytes(CacheConfig::ratio_budget_mib(total_mib, ratio))
    }

    pub fn budget_mib_to_bytes(mib: usize) -> (bytes: usize)
        ensures
            bytes == saturated(mib * (1024 * 1024)),
    {
        saturating_product(mib, 1024 * 1024)
    }

    pub fn ratio_budget_mib(total_mib: usize, ratio: usize) -> (mib: usize)
        ensures
            mib == saturated(total_mib * ratio) / RATIO_DENOMINATOR as int,
    {
        saturating_product(total_mib, ratio) / RATIO_DENOMINATOR
    }

    /// Sum of every budget, without a limit.
    pub open spec fn exact_total(&self) -> int {
        self.dir_by_block_cache_bytes + self.dir_bucket_cache_bytes
            + self.bitmap_by_block_cache_bytes + self.bitmap_page_blob_cache_bytes
            + self.bitmap_page_counts_cache_bytes + self.open_bitmap_stream_cache_bytes
            + self.block_header_cache_bytes + self.tx_hash_index_cache_bytes + self.row_cache_bytes
    }

    /// Sum of every per-cache byte budget. Diagnostic only.
    pub fn total_bytes(&self) -> (total: usize)
        ensures
            total == saturated(self.exact_total()),
    {
        self.dir_by_block_cache_bytes.saturating_add(self.dir_bucket_cache_bytes).saturating_add(
            self.bitmap_by_block_cache_bytes,
        ).saturating_add(self.bitmap_page_blob_cache_bytes).saturating_add(
            self.bitmap_page_counts_cache_bytes,
        ).saturating_add(self.open_bitmap_stream_cache_bytes).saturating_add(
            self.block_header_cache_bytes,
        ).saturating_add(self.tx_hash_index_cache_bytes).saturating_add(self.row_cache_bytes)
    }
}

proof fn lemma_ratio_share(total_mib: usize, ratio: usize)
    ensures
        0 <= ratio_bytes(total_mib, ratio) <= (total_mib * ratio) * 1024,
{
    assert(total_mib * ratio >= 0) by (nonlinear_arith);
    let granted = saturated(total_mib * ratio);
    let mib = granted / RATIO_DENOMINATOR as int;
    assert(0 <= mib * 1024 <= granted <= total_mib * ratio);
    assert(mib * (1024 * 1024) == (mib * 1024) * 1024) by (nonlinear_arith);
    assert(ratio_bytes(total_mib, ratio) <= mib * (1024 * 1024));
}

/// The split never hands out more than the total, and nothing of a zero total.
pub proof fn law_split_within_total(config: CacheConfig, total_mib: usize)
    requires
        config.is_split_of(total_mib),
    ensures
        config.exact_total() <= total_mib * (1024 * 1024),
        total_mib == 0 ==> config.exact_total() == 0,
{
    lemma_ratio_share(total_mib, RATIO_DIR_BY_BLOCK);
    lemma_ratio_share(total_mib, RATIO_DIR_BUCKET);
    lemma_ratio_share(total_mib, RATIO_BITMAP_BY_BLOCK);
    lemma_ratio_share(total_mib, RATIO_BITMAP_PAGE_BLOB);
    lemma_ratio_share(total_mib, RATIO_BITMAP_PAGE_COUNTS);
    lemma_ratio_share(total_mib, RATIO_OPEN_BITMAP_STREAM);
    lemma_ratio_share(total_mib, RATIO_BLOCK_HEADER);
    lemma_ratio_share(total_mib, RATIO_TX_HASH_INDEX);
    lemma_ratio_share(total_mib, RATIO_ROW_CACHE);
}

proof fn lemma_exact_share(total_mib: usize, part: int, ratio: usize)
    requires
        total_mib == 128 * part,
        total_mib * (1024 * 1024) <= usize::MAX,
        ratio % 8 == 0,
        ratio <= RATIO_DENOMINATOR,
    ensures
        ratio_bytes(total_mib, ratio) == (total_mib * ratio) * 1024,
{
    let eighth = ratio as int / 8;
    assert(total_mib * ratio == (part * eighth) * 1024) by (nonlinear_arith)
        requires
            total_mib == 128 * part,
            ratio == 8 * eighth,
    ;
    assert(0 <= total_mib * ratio <= total_mib * 1024) by (nonlinear_arith)
        requires
            ratio <= 1024,
    ;
    assert((total_mib * ratio) * 1024 <= total_mib * (1024 * 1024)) by (nonlinear_arith)
        requires
            total_mib * ratio <= total_mib * 1024,
    ;
}

/// The split hands out the whole of a total that is a multiple of 128 MiB and
/// can be counted in bytes.
pub proof fn law_split_hands_out_the_total(config: CacheConfig, total_mib: usize)
    requires
        config.is_split_of(total_mib),
        total_mib % 128 == 0,
        total_mib * (1024 * 1024) <= usize::MAX,
    ensures
        config.exact_total() == total_mib * (1024 * 1024),
{
    let part = total_mib as int / 128;
    lemma_exact_share(total_mib, part, RATIO_DIR_BY_BLOCK);
    assert(config.dir_by_block_cache_bytes == total_mib * 32768);
    lemma_exact_share(total_mib, part, RATIO_DIR_BUCKET);
    assert(config.dir_bucket_cache_bytes == total_mib * 16384);
    lemma_exact_share(total_mib, part, RATIO_BITMAP_BY_BLOCK);
    assert(config.bitmap_by_block_cache_bytes == total_mib * 262144);
    lemma_exact_share(total_mib, part, RATIO_BITMAP_PAGE_BLOB);
    assert(config.bitmap_page_blob_cache_bytes == total_mib * 131072);
    lemma_exact_share(total_mib, part, RATIO_BITMAP_PAGE_COUNTS);
    assert(config.bitmap_page_counts_cache_bytes == total_mib * 24576);
    lemma_exact_share(total_mib, part, RATIO_OPEN_BITMAP_STREAM);
    assert(config.open_bitmap_stream_cache_bytes == total_mib * 16384);
    lemma_exact_share(total_mib, part, RATIO_BLOCK_HEADER);
    assert(config.block_header_cache_bytes == total_mib * 65536);
    lemma_exact_share(total_mib, part, RATIO_TX_HASH_INDEX);
    assert(config.tx_hash_index_cache_bytes == total_mib * 8192);
    lemma_exact_share(total_mib, part, RATIO_ROW_CACHE);
    assert(config.row_cache_bytes == total_mib * 491520);
    assert(config.exact_total() == total_mib * 1_048_576);
}

/// Sizing hint for the cache's internal structures (sharding and the ghost
/// queue): the byte budget over a nominal per-entry footprint. Only an
/// estimate — residency is governed by the byte budget, not this count.
pub fn estimated_entries(budget: usize) -> (entries: usize)
    ensures
        entries == if budget / 1024 < 64 {
            64
        } else if budget / 1024 > 4_000_000 {
            4_000_000
        } else {
            budget / 1024
        },
{
    let entries: usize = budget / 1024;
    if entries < 64 {
        64
    } else if entries > 4_000_000 {
        4_000_000
    } else {
        entries
    }
}

/// Small caches get one shard (a tiny per-shard budget would over-evict);
/// GiB-scale budgets shard for concurrency.
pub fn shard_count(estimated: usize) -> (shards: usize)
    ensures
        shards == if estimated / 4096 < 1 {
            1
        } else if estimated / 4096 > 64 {
            64
        } else {
            estimated / 4096
        },
{
    let shards: usize = estimated / 4096;
    if shards < 1 {
        1
    } else if shards > 64 {
        64
    } else {
        shards
    }
}

/// Where a cached value stands, and the weight it is charged at.
#[derive(Debug, Clone, Copy, PartialEq, Eq, Structural)]
pub struct ChargedSlot {
    pub slot: u64,
    pub charge: u64,
}

/// Charges an entry what it says.
#[derive(Clone, Copy)]
pub struct SlotWeighter;

impl quick_cache::Weighter<Vec<u8>, ChargedSlot> for SlotWeighter {
    fn weight(&self, key: &Vec<u8>, value: &ChargedSlot) -> (weight: u64)
        ensures
            weight == value.charge,
    {
        value.charge
    }
}

/// Collects the slots of the entries that leave the cache during a request.
#[derive(Clone, Copy)]
pub struct SlotLifecycle;

impl quick_cache::Lifecycle<Vec<u8>, ChargedSlot> for SlotLifecycle {
    type RequestState = Vec<u64>;

    fn begin_request(&self) -> (left: Vec<u64>)
        ensures
            left@.len() == 0,
    {
        Vec::new()
    }

    fn on_evict(&self, left: &mut Vec<u64>, key: Vec<u8>, value: ChargedSlot)
        ensures
            final(left)@ == old(left)@.push(value.slot),
    {
        left.push(value.slot);
    }
}

/// The cache type of `quick_cache`.
#[verifier::external_type_specification]
#[verifier::external_body]
#[verifier::reject_recursive_types(Key)]
#[verifier::reject_recursive_types(Val)]
#[verifier::reject_recursive_types(We)]
#[verifier::reject_recursive_types(B)]
#[verifier::reject_recursive_types(L)]
pub struct ExCache<Key, Val, We, B, L>(quick_cache::sync::Cache<Key, Val, We, B, L>);

/// The hasher a cache uses by default.
#[verifier::external_type_specification]
#[verifier::external_body]
pub struct ExHashBuilder(quick_cache::DefaultHashBuilder);

/// A cache of slots: `quick_cache` decides which keys are held, and the slots say
/// where their values stand.
pub type SlotCache = quick_cache::sync::Cache<
    Vec<u8>,
    ChargedSlot,
    SlotWeighter,
    quick_cache::DefaultHashBuilder,
    SlotLifecycle,
>;

/// The slots a cache holds, by key.
pub uninterp spec fn cache_contents(cache: SlotCache) -> Map<Seq<u8>, u64>;

/// What the entries that a cache holds are charged, by key.
pub uninterp spec fn cache_charges(cache: SlotCache) -> Map<Seq<u8>, u64>;

/// The largest charge of one entry that a cache takes: the hot target of one of
/// its shards.
pub uninterp spec fn cache_admits(cache: SlotCache) -> nat;

/// What the charges held can add up to: the weight capacity of all shards.
pub uninterp spec fn cache_limit(cache: SlotCache) -> nat;

/// The sum of charges.
pub open spec fn total_charge(charges: Map<Seq<u8>, u64>) -> nat
    decreases charges.dom().len(),
{
    if charges.dom().finite() && charges.dom().len() > 0 {
        let key = charges.dom().choose();
        charges[key] as nat + total_charge(charges.remove(key))
    } else {
        0
    }
}

/// A charge and the charges under other keys add up to the sum.
pub proof fn lemma_total_charge(charges: Map<Seq<u8>, u64>, key: Seq<u8>)
    requires
        charges.dom().finite(),
        charges.contains_key(key),
    ensures
        total_charge(charges) == charges[key] + total_charge(charges.remove(key)),
    decreases charges.dom().len(),
{
    let first = charges.dom().choose();
    assert(charges.dom().contains(first));
    if first != key {
        let rest = charges.remove(first);
        lemma_total_charge(rest, key);
        lemma_total_charge(charges.remove(key), first);
        assert(rest.remove(key) =~= charges.remove(key).remove(first));
    }
}

/// Charging a key replaces what it was charged before.
pub proof fn law_replaced_charge_is_refunded(
    charges: Map<Seq<u8>, u64>,
    key: Seq<u8>,
    charge: u64,
)
    requires
        charges.dom().finite(),
    ensures
        total_charge(charges.insert(key, charge)) == total_charge(charges.remove(key)) + charge,
        charges.contains_key(key) ==> total_charge(charges.insert(key, charge))
            == total_charge(charges) - charges[key] + charge,
        !charges.contains_key(key) ==> total_charge(charges.insert(key, charge)) == total_charge(
            charges,
        ) + charge,
{
    lemma_total_charge(charges.insert(key, charge), key);
    assert(charges.insert(key, charge).remove(key) =~= charges.remove(key));
    if charges.contains_key(key) {
        lemma_total_charge(charges, key);
    } else {
        assert(charges.remove(key) =~= charges);
    }
}

/// A share of a capacity without a thirty-second part of it, rounded down.
pub open spec fn hot_part(share: int) -> int {
    share - share / 32 - 2
}

/// `quick_cache::sync::Cache::with_options`: an empty cache with the given item
/// estimate, weight capacity and number of shards.
///
/// The shards are rounded up to a power of two and split the capacity evenly,
/// rounded up, so their capacities add up to no more than the one given where
/// that is a multiple of their number. A shard's hot target is ninety-seven
/// hundredths of its capacity, rounded down, but at least one. The number of
/// shards is cut only where one would be meant for fewer than thirty-two items.
/// The bound on the capacity keeps a shard's sums of weights in range.
#[verifier::external_body]
fn cache_new(estimated: usize, capacity: u64, shards: usize) -> (cache: SlotCache)
    requires
        1 <= shards <= 64,
        64 * shards <= estimated <= 4_000_000,
        0 < capacity <= shards * 0x0400_0000_0000_0000,
    ensures
        forall|k: Seq<u8>| !#[trigger] cache_contents(cache).contains_key(k),
        forall|k: Seq<u8>| !#[trigger] cache_charges(cache).contains_key(k),
        cache_limit(cache) <= capacity + 2 * (shards - 1),
        shards == 1 || capacity % 64 == 0 ==> cache_limit(cache) <= capacity,
        cache_admits(cache) >= 1,
        cache_admits(cache) >= hot_part(capacity as int / (2 * shards - 1)),
        cache_admits(cache) <= cache_limit(cache),
{
    let options = quick_cache::OptionsBuilder::new()
        .estimated_items_capacity(estimated)
        .weight_capacity(capacity)
        .shards(shards)
        .build()
        .expect("both capacities are set");
    SlotCache::with_options(options, SlotWeighter, Default::default(), SlotLifecycle)
}

/// `quick_cache::sync::Cache::get`: the entry under `key`, if the cache holds
/// one. The access is recorded with the replacement policy, which does not
/// change what the cache holds.
#[verifier::external_body]
fn cache_get(cache: &SlotCache, key: &Vec<u8>) -> (entry: Option<ChargedSlot>)
    ensures
        match entry {
            Some(entry) => cache_contents(*cache).contains_key(key@)
                && cache_contents(*cache)[key@] == entry.slot,
            None => !cache_contents(*cache).contains_key(key@),
        },
{
    cache.get(key)
}

/// Some key has the slot.
pub open spec fn holds_slot(contents: Map<Seq<u8>, u64>, slot: u64) -> bool {
    exists|key: Seq<u8>| #[trigger] contents.contains_key(key) && contents[key] == slot
}

/// No two keys share a slot.
pub open spec fn slots_differ(contents: Map<Seq<u8>, u64>) -> bool {
    forall|a: Seq<u8>, b: Seq<u8>| #[trigger]
        contents.contains_key(a) && #[trigger] contents.contains_key(b) && a != b ==> contents[a]
            != contents[b]
}

/// `quick_cache::sync::Cache::insert_with_lifecycle`: afterwards the cache holds
/// some of what it held before and possibly the new entry; an older entry under
/// the same key is gone. The charges held never add up to more than the limit.
/// Every entry that is evicted, replaced or refused is handed to the lifecycle's
/// `on_evict`, which collects its slot: the result lists the slots that left, each
/// once.
///
/// While the new charge and those under other keys fit in a shard's hot target,
/// no shard is full, so nothing leaves and the entry is held. An entry over the
/// target is not taken, and only an older one under its key leaves. Which
/// entries leave otherwise is the replacement policy's choice and not stated.
#[verifier::external_body]
fn cache_insert(cache: &mut SlotCache, key: Vec<u8>, entry: ChargedSlot) -> (left: Vec<u64>)
    requires
        slots_differ(cache_contents(*old(cache))),
        !holds_slot(cache_contents(*old(cache)), entry.slot),
    ensures
        cache_admits(*final(cache)) == cache_admits(*old(cache)),
        cache_limit(*final(cache)) == cache_limit(*old(cache)),
        cache_charges(*final(cache)).dom() == cache_contents(*final(cache)).dom(),
        cache_charges(*final(cache)).dom().finite(),
        total_charge(cache_charges(*final(cache))) <= cache_limit(*final(cache)),
        forall|k: Seq<u8>| #[trigger]
            cache_contents(*final(cache)).contains_key(k) ==> if k == key@ {
                cache_contents(*final(cache))[k] == entry.slot && cache_charges(*final(cache))[k]
                    == entry.charge
            } else {
                cache_contents(*old(cache)).contains_key(k) && cache_contents(*final(cache))[k]
                    == cache_contents(*old(cache))[k] && cache_charges(*final(cache))[k]
                    == cache_charges(*old(cache))[k]
            },
        total_charge(cache_charges(*old(cache)).remove(key@)) + entry.charge <= cache_admits(
            *old(cache),
        ) ==> cache_contents(*final(cache)) == cache_contents(*old(cache)).insert(key@, entry.slot)
            && cache_charges(*final(cache)) == cache_charges(*old(cache)).insert(
            key@,
            entry.charge,
        ),
        entry.charge > cache_admits(*old(cache)) ==> cache_contents(*final(cache))
            == cache_contents(*old(cache)).remove(key@) && cache_charges(*final(cache))
            == cache_charges(*old(cache)).remove(key@),
        left@.no_duplicates(),
        forall|slot: u64| #[trigger]
            left@.contains(slot) <==> (slot == entry.slot || holds_slot(
                cache_contents(*old(cache)),
                slot,
            )) && !holds_slot(cache_contents(*final(cache)), slot),
{
    cache.insert_with_lifecycle(key, entry)
}

/// Byte-budgeted cache of decoded values with hit/miss counters.
///
/// Replacement policy is quick_cache's S3-FIFO: new entries enter a small
/// probationary queue and graduate to the main region only when re-referenced
/// (directly or via the ghost queue). One-touch traffic churns the probationary
/// queue without displacing the re-referenced hot set.
///
/// The policy's cache holds slot numbers; the values stand in the slots, and
/// leave them when the policy lets their entries go.
pub struct CachedInner<V, W> {
    index: Option<SlotCache>,
    values: Vec<Option<V>>,
    /// Slots without a value.
    free: Vec<u64>,
    weigher: W,
    hits: u64,
    misses: u64,
}

/// How many shards a cache of a budget is made with.
pub open spec fn shards_for(budget: int) -> int {
    let shards = (if budget / 1024 < 64 {
        64
    } else if budget / 1024 > 4_000_000 {
        4_000_000
    } else {
        budget / 1024
    }) / 4096;
    if shards < 1 {
        1
    } else if shards > 64 {
        64
    } else {
        shards
    }
}

/// The room that a cache of a budget has at least: almost all of it, or almost
/// all of one shard's part.
pub open spec fn assured_room(budget: int) -> int {
    let shards = shards_for(budget);
    if shards == 1 {
        hot_part(budget)
    } else {
        hot_part((budget - budget % 64) / (2 * shards - 1))
    }
}

/// An empty cache of a budget.
fn cache_of(budget: usize) -> (cache: SlotCache)
    requires
        budget > 0,
    ensures
        cache_contents(cache) == Map::<Seq<u8>, u64>::empty(),
        cache_charges(cache) == Map::<Seq<u8>, u64>::empty(),
        cache_limit(cache) <= budget,
        cache_admits(cache) >= 1,
        cache_admits(cache) >= assured_room(budget as int),
        cache_admits(cache) <= cache_limit(cache),
{
    let estimated: usize = estimated_entries(budget);
    let shards: usize = shard_count(estimated);
    // A multiple of every possible number of shards, so that rounding up the
    // shards' parts does not exceed the budget.
    let capacity: u64 = if shards == 1 {
        budget as u64
    } else {
        (budget - budget % 64) as u64
    };
    assert(shards == shards_for(budget as int));
    let cache = cache_new(estimated, capacity, shards);
    if shards == 1 {
        assert(capacity as int / (2 * shards - 1) == capacity) by (nonlinear_arith)
            requires
                shards == 1,
        ;
    }
    assert(cache_contents(cache) =~= Map::<Seq<u8>, u64>::empty());
    assert(cache_charges(cache) =~= Map::<Seq<u8>, u64>::empty());
    cache
}

/// A counter plus one, wrapping around.
pub open spec fn counted_up(n: u64) -> u64 {
    if n == u64::MAX {
        0
    } else {
        (n + 1) as u64
    }
}

/// Hits and misses after a lookup; a disabled cache counts neither.
pub open spec fn probed(stats: (u64, u64), enabled: bool, hit: bool) -> (u64, u64) {
    if !enabled {
        stats
    } else if hit {
        (counted_up(stats.0), stats.1)
    } else {
        (stats.0, counted_up(stats.1))
    }
}

/// The free slots have no value, and none is free twice.
spec fn are_free<V>(free: Seq<u64>, values: Seq<Option<V>>) -> bool {
    &&& forall|i: int|
        0 <= i < free.len() ==> (#[trigger] free[i]) < values.len() && values[free[i] as int]
            is None
    &&& free.no_duplicates()
}

/// Exactly the slots that the cache holds have a value.
spec fn slots_wf<V>(contents: Map<Seq<u8>, u64>, values: Seq<Option<V>>, free: Seq<u64>) -> bool {
    &&& slots_differ(contents)
    &&& forall|slot: u64| #[trigger]
        holds_slot(contents, slot) ==> slot < values.len() && values[slot as int] is Some
    &&& forall|slot: u64|
        slot < values.len() && (#[trigger] values[slot as int]) is Some ==> holds_slot(
            contents,
            slot,
        )
    &&& are_free(free, values)
}

/// The values in the slots that a cache holds.
spec fn slot_values<V>(contents: Map<Seq<u8>, u64>, values: Seq<Option<V>>) -> Map<Seq<u8>, V> {
    Map::new(
        |key: Seq<u8>| contents.contains_key(key),
        |key: Seq<u8>| values[contents[key] as int]->Some_0,
    )
}

impl<V, W: Weigher<V>> CachedInner<V, W> {
    closed spec fn slots(&self) -> Map<Seq<u8>, u64> {
        match self.index {
            Some(index) => cache_contents(index),
            None => Map::empty(),
        }
    }

    /// The values kept are those of the entries that the policy holds.
    pub closed spec fn wf(&self) -> bool {
        slots_wf(self.slots(), self.values@, self.free@)
    }

    /// Whether the cache holds anything at all, ever.
    pub closed spec fn enabled(&self) -> bool {
        self.index is Some
    }

    /// The values held.
    pub closed spec fn contents(&self) -> Map<Seq<u8>, V> {
        slot_values(self.slots(), self.values@)
    }

    /// What the values held are charged.
    pub closed spec fn charges(&self) -> Map<Seq<u8>, u64> {
        match self.index {
            Some(index) => cache_charges(index),
            None => Map::empty(),
        }
    }

    /// The sum of charges up to which nothing leaves.
    pub closed spec fn room(&self) -> nat {
        match self.index {
            Some(index) => cache_admits(index),
            None => 0,
        }
    }

    /// The sum of charges that is never exceeded.
    pub closed spec fn limit(&self) -> nat {
        match self.index {
            Some(index) => cache_limit(index),
            None => 0,
        }
    }

    /// What weighs the values.
    pub closed spec fn scales(&self) -> W {
        self.weigher
    }

    /// Everything but the counters is the same.
    pub open spec fn holds_same(&self, other: CachedInner<V, W>) -> bool {
        &&& self.enabled() == other.enabled()
        &&& self.contents() == other.contents()
        &&& self.charges() == other.charges()
        &&& self.room() == other.room()
        &&& self.limit() == other.limit()
        &&& self.scales() == other.scales()
    }

    /// `before` was seeded with a value: the charges held stay within the limit;
    /// a value that fits beside the others is held and displaces nothing; one
    /// that fits in no shard is not taken; a disabled cache takes nothing. Else
    /// the replacement policy chooses what to keep.
    pub open spec fn is_seeded(
        &self,
        before: CachedInner<V, W>,
        key: Seq<u8>,
        value: V,
    ) -> bool {
        let charge = before.scales().weight_of(value);
        &&& self.enabled() == before.enabled()
        &&& self.room() == before.room()
        &&& self.limit() == before.limit()
        &&& self.scales() == before.scales()
        &&& !before.enabled() ==> self.holds_same(before)
        &&& before.enabled() ==> {
            &&& self.charges().dom() == self.contents().dom()
            &&& self.charges().dom().finite()
            &&& total_charge(self.charges()) <= self.limit()
            &&& forall|k: Seq<u8>| #[trigger]
                self.contents().contains_key(k) ==> if k == key {
                    self.contents()[k] == value && self.charges()[k] == charge
                } else {
                    before.contents().contains_key(k) && self.contents()[k] == before.contents()[k]
                        && self.charges()[k] == before.charges()[k]
                }
            &&& total_charge(before.charges().remove(key)) + charge <= before.room() ==> {
                &&& self.contents() == before.contents().insert(key, value)
                &&& self.charges() == before.charges().insert(key, charge as u64)
            }
            &&& charge > before.room() ==> {
                &&& self.contents() == before.contents().remove(key)
                &&& self.charges() == before.charges().remove(key)
            }
        }
    }

    /// Hits and misses since the counters were last taken.
    pub closed spec fn stats(&self) -> (u64, u64) {
        (self.hits, self.misses)
    }

    /// Byte-budgeted cache: admission/eviction keep the summed `weigher` weight
    /// within `budget` bytes. `budget == 0` disables the cache.
    pub fn with_weigher(budget: usize, weigher: W) -> (cache: CachedInner<V, W>)
        ensures
            cache.wf(),
            cache.enabled() == (budget > 0),
            cache.contents() == Map::<Seq<u8>, V>::empty(),
            cache.charges() == Map::<Seq<u8>, u64>::empty(),
            cache.stats() == (0u64, 0u64),
            cache.scales() == weigher,
            cache.limit() <= budget,
            budget > 0 ==> cache.room() >= 1,
            budget > 0 ==> cache.room() >= assured_room(budget as int),
            cache.room() <= cache.limit(),
    {
        let index = if budget > 0 {
            Some(cache_of(budget))
        } else {
            None
        };
        let cache = CachedInner {
            index,
            values: Vec::new(),
            free: Vec::new(),
            weigher,
            hits: 0,
            misses: 0,
        };
        assert(cache.contents() =~= Map::<Seq<u8>, V>::empty());
        cache
    }

    /// Puts a value in a slot of its own.
    fn occupy(&mut self, value: V) -> (slot: u64)
        requires
            old(self).wf(),
        ensures
            !holds_slot(old(self).slots(), slot),
            slot < final(self).values@.len(),
            final(self).values@[slot as int] == Some(value),
            final(self).values@.len() >= old(self).values@.len(),
            forall|i: int|
                0 <= i < old(self).values@.len() && i != slot ==> (
                #[trigger] final(self).values@[i]) == old(self).values@[i],
            final(self).values@.len() > old(self).values@.len() ==> slot == old(self).values@.len()
                && final(self).values@.len() == slot + 1,
            are_free(final(self).free@, final(self).values@),
            final(self).index == old(self).index,
            final(self).weigher == old(self).weigher,
            final(self).hits == old(self).hits,
            final(self).misses == old(self).misses,
    {
        let ghost before = *self;
        match self.free.pop() {
            Some(slot) => {
                assert(before.free@[before.free@.len() - 1] == slot);
                assert(slot < before.values.len());
                self.values.set(slot as usize, Some(value));
                proof {
                    assert forall|i: int| 0 <= i < self.free@.len() implies (
                    #[trigger] self.free@[i]) != slot by {
                        assert(before.free@[i] == self.free@[i]);
                    }
                }
                slot
            },
            None => {
                let slot: u64 = self.values.len() as u64;
                self.values.push(Some(value));
                slot
            },
        }
    }

    /// Empties the slots that left.
    fn vacate(&mut self, left: &Vec<u64>)
        requires
            left@.no_duplicates(),
            forall|i: int|
                0 <= i < left@.len() ==> (#[trigger] left@[i]) < old(self).values@.len()
                    && old(self).values@[left@[i] as int] is Some,
            are_free(old(self).free@, old(self).values@),
        ensures
            final(self).values@.len() == old(self).values@.len(),
            forall|slot: u64|
                slot < old(self).values@.len() ==> (#[trigger] final(self).values@[slot as int])
                    == if left@.contains(slot) {
                    None
                } else {
                    old(self).values@[slot as int]
                },
            are_free(final(self).free@, final(self).values@),
            final(self).index == old(self).index,
            final(self).weigher == old(self).weigher,
            final(self).hits == old(self).hits,
            final(self).misses == old(self).misses,
    {
        let ghost before = *self;
        let mut i: usize = 0;
        assert(left@.take(0) =~= Seq::empty());
        while i < left.len()
            invariant
                i <= left@.len(),
                left@.no_duplicates(),
                forall|j: int|
                    0 <= j < left@.len() ==> (#[trigger] left@[j]) < before.values@.len()
                        && before.values@[left@[j] as int] is Some,
                self.values@.len() == before.values@.len(),
                forall|slot: u64|
                    slot < before.values@.len() ==> (#[trigger] self.values@[slot as int])
                        == if left@.take(i as int).contains(slot) {
                        None
                    } else {
                        before.values@[slot as int]
                    },
                are_free(self.free@, self.values@),
                self.index == before.index,
                self.weigher == before.weigher,
                self.hits == before.hits,
                self.misses == before.misses,
            decreases left@.len() - i,
        {
            let slot: u64 = left[i];
            let ghost middle = *self;
            proof {
                if left@.take(i as int).contains(slot) {
                    let j = choose|j: int| 0 <= j < i && left@.take(i as int)[j] == slot;
                    assert(left@[j] == left@[i as int]);
                }
                assert(middle.values@[slot as int] is Some);
                assert(slot < self.values.len());
            }
            self.values.set(slot as usize, None);
            self.free.push(slot);
            proof {
                let done = left@.take(i as int);
                let next = left@.take(i + 1);
                assert(next =~= done.push(slot));
                assert forall|s: u64| s < before.values@.len() implies (
                #[trigger] self.values@[s as int]) == if next.contains(s) {
                    None
                } else {
                    before.values@[s as int]
                } by {
                    assert(middle.values@[s as int] == if done.contains(s) {
                        None
                    } else {
                        before.values@[s as int]
                    });
                    if next.contains(s) && s != slot {
                        let j = choose|j: int| 0 <= j < next.len() && next[j] == s;
                        assert(done[j] == s);
                    }
                    if done.contains(s) {
                        let j = choose|j: int| 0 <= j < done.len() && done[j] == s;
                        assert(next[j] == s);
                    }
                    assert(next[i as int] == slot);
                }
                assert forall|j: int| 0 <= j < self.free@.len() implies (
                #[trigger] self.free@[j]) < self.values@.len() && self.values@[self.free@[j] as int]
                    is None by {
                    if j < middle.free@.len() {
                        assert(middle.free@[j] == self.free@[j]);
                    }
                }
                assert forall|j: int, k: int|
                    0 <= j < k < self.free@.len() implies self.free@[j] != self.free@[k] by {
                    assert(middle.free@[j] == self.free@[j]);
                    if k < middle.free@.len() {
                        assert(middle.free@[k] == self.free@[k]);
                    }
                }
            }
            i = i + 1;
        }
        assert(left@.take(i as int) =~= left@);
    }

    /// Seeds the cache with a caller-fetched value; no-op when disabled. Once
    /// the cache is full, admission is the policy's call — a never-referenced
    /// key may be dropped from probation without ever displacing the hot set.
    pub fn insert(&mut self, key: Vec<u8>, value: V)
        requires
            old(self).wf(),
        ensures
            final(self).wf(),
            final(self).stats() == old(self).stats(),
            final(self).is_seeded(*old(self), key@, value),
    {
        if self.index.is_none() {
            return;
        }
        let ghost before = *self;
        let charge: u64 = self.weigher.weigh(&value) as u64;
        let slot: u64 = self.occupy(value);
        let ghost placed = *self;
        let ghost held = before.slots();
        let left = match &mut self.index {
            Some(index) => cache_insert(index, key, ChargedSlot { slot, charge }),
            None => Vec::new(),
        };
        let ghost kept = self.slots();
        proof {
            assert forall|i: int| 0 <= i < left@.len() implies (#[trigger] left@[i])
                < self.values@.len() && self.values@[left@[i] as int] is Some by {
                assert(left@.contains(left@[i]));
                if left@[i] != slot {
                    assert(holds_slot(held, left@[i]));
                    assert(before.values@[left@[i] as int] is Some);
                }
            }
        }
        self.vacate(&left);
        proof {
            lemma_slots_after(
                held,
                kept,
                before.values@,
                placed.values@,
                self.values@,
                slot,
                key@,
                left@,
            );
            let value = placed.values@[slot as int]->Some_0;
            lemma_kept_values(
                held,
                kept,
                before.values@,
                placed.values@,
                self.values@,
                slot,
                key@,
                left@,
            );
            if kept == held.insert(key@, slot) {
                assert(self.contents() =~= before.contents().insert(key@, value));
            }
            if kept == held.remove(key@) {
                assert(self.contents() =~= before.contents().remove(key@));
            }
            assert(self.contents().dom() =~= kept.dom());
        }
    }

    /// Cache-only lookup that records the access with the replacement policy
    /// and counts hit/miss; never fetches. Batch readers probe with this,
    /// fetch misses themselves, then [`Self::insert`] the results.
    pub fn probe(&mut self, key: &Vec<u8>) -> (value: Option<V>) where V: Clone
        requires
            old(self).wf(),
        ensures
            final(self).wf(),
            match value {
                Some(value) => old(self).contents().contains_key(key@) && cloned(
                    old(self).contents()[key@],
                    value,
                ),
                None => !old(self).contents().contains_key(key@),
            },
            final(self).holds_same(*old(self)),
            final(self).stats() == probed(old(self).stats(), old(self).enabled(), value is Some),
    {
        let found = match &self.index {
            None => {
                return None;
            },
            Some(index) => cache_get(index, key),
        };
        match found {
            Some(entry) => {
                assert(self.slots().contains_key(key@));
                assert(holds_slot(self.slots(), entry.slot));
                assert(entry.slot < self.values.len());
                self.hits = self.hits.wrapping_add(1);
                match &self.values[entry.slot as usize] {
                    Some(value) => Some(value.clone()),
                    None => None,
                }
            },
            None => {
                self.misses = self.misses.wrapping_add(1);
                None
            },
        }
    }

    /// Reads and zeroes the (hits, misses) counters since the last call, for
    /// per-window hit-ratio metrics.
    pub fn take_window_stats(&mut self) -> (stats: (u64, u64))
        ensures
            stats == old(self).stats(),
            final(self).stats() == (0u64, 0u64),
            final(self).holds_same(*old(self)),
            old(self).wf() ==> final(self).wf(),
    {
        let stats = (self.hits, self.misses);
        self.hits = 0;
        self.misses = 0;
        stats
    }

    /// Ends a fetch that a miss started: a present value is cached, absence and
    /// errors never are — a key absent now can become present later, and a
    /// stored `None` would mask it until eviction.
    pub fn settle_fetch(&mut self, key: Vec<u8>, fetched: Result<Option<V>>) -> (result: Result<
        Option<V>,
    >) where V: Clone
        requires
            old(self).wf(),
        ensures
            final(self).wf(),
            match (fetched, result) {
                (Ok(Some(value)), Ok(Some(copy))) => cloned(value, copy),
                (Ok(None), Ok(None)) => true,
                (Err(error), Err(same)) => error == same,
                _ => false,
            },
            final(self).stats() == old(self).stats(),
            match fetched {
                Ok(Some(value)) => final(self).is_seeded(*old(self), key@, value),
                _ => final(self).holds_same(*old(self)),
            },
    {
        match fetched {
            Err(error) => Err(error),
            Ok(None) => Ok(None),
            Ok(Some(value)) => {
                let copy = value.clone();
                self.insert(key, value);
                Ok(Some(copy))
            },
        }
    }
}

/// What the slots hold after an insert: the entries that stayed keep theirs.
spec fn is_vacated<V>(
    held: Map<Seq<u8>, u64>,
    kept: Map<Seq<u8>, u64>,
    before: Seq<Option<V>>,
    placed: Seq<Option<V>>,
    after: Seq<Option<V>>,
    slot: u64,
    key: Seq<u8>,
    left: Seq<u64>,
) -> bool {
    &&& slots_differ(held)
    &&& forall|s: u64| #[trigger]
        holds_slot(held, s) ==> s < before.len() && before[s as int] is Some
    &&& forall|s: u64|
        s < before.len() && (#[trigger] before[s as int]) is Some ==> holds_slot(held, s)
    &&& !holds_slot(held, slot)
    &&& before.len() <= placed.len()
    &&& slot < placed.len()
    &&& placed[slot as int] is Some
    &&& forall|i: int|
        0 <= i < before.len() && i != slot ==> (#[trigger] placed[i]) == before[i]
    &&& placed.len() > before.len() ==> slot == before.len() && placed.len() == slot + 1
    &&& after.len() == placed.len()
    &&& forall|s: u64|
        s < placed.len() ==> (#[trigger] after[s as int]) == if left.contains(s) {
            None
        } else {
            placed[s as int]
        }
    &&& forall|k: Seq<u8>| #[trigger]
        kept.contains_key(k) ==> if k == key {
            kept[k] == slot
        } else {
            held.contains_key(k) && kept[k] == held[k]
        }
    &&& forall|s: u64| #[trigger]
        left.contains(s) <==> (s == slot || holds_slot(held, s)) && !holds_slot(kept, s)
}

proof fn lemma_slots_after<V>(
    held: Map<Seq<u8>, u64>,
    kept: Map<Seq<u8>, u64>,
    before: Seq<Option<V>>,
    placed: Seq<Option<V>>,
    after: Seq<Option<V>>,
    slot: u64,
    key: Seq<u8>,
    left: Seq<u64>,
)
    requires
        is_vacated(held, kept, before, placed, after, slot, key, left),
    ensures
        slots_differ(kept),
        forall|s: u64| #[trigger]
            holds_slot(kept, s) ==> s < after.len() && after[s as int] is Some,
        forall|s: u64|
            s < after.len() && (#[trigger] after[s as int]) is Some ==> holds_slot(kept, s),
{
    assert forall|a: Seq<u8>, b: Seq<u8>| #[trigger]
        kept.contains_key(a) && #[trigger] kept.contains_key(b) && a != b implies kept[a]
        != kept[b] by {
        if a != key && b != key {
            assert(held.contains_key(a) && held.contains_key(b));
        } else if a == key {
            assert(held.contains_key(b));
            assert(holds_slot(held, kept[b]));
        } else {
            assert(held.contains_key(a));
            assert(holds_slot(held, kept[a]));
        }
    }
    assert forall|s: u64| #[trigger] holds_slot(kept, s) implies s < after.len()
        && after[s as int] is Some by {
        let k = choose|k: Seq<u8>| #[trigger] kept.contains_key(k) && kept[k] == s;
        if k != key {
            assert(held.contains_key(k));
            assert(holds_slot(held, s));
        }
        assert(!left.contains(s));
    }
    assert forall|s: u64| s < after.len() && (#[trigger] after[s as int]) is Some implies
        holds_slot(kept, s) by {
        assert(!left.contains(s));
        if s != slot {
            assert(s < before.len());
            assert(placed[s as int] == before[s as int]);
        }
    }
}

proof fn lemma_kept_values<V>(
    held: Map<Seq<u8>, u64>,
    kept: Map<Seq<u8>, u64>,
    before: Seq<Option<V>>,
    placed: Seq<Option<V>>,
    after: Seq<Option<V>>,
    slot: u64,
    key: Seq<u8>,
    left: Seq<u64>,
)
    requires
        is_vacated(held, kept, before, placed, after, slot, key, left),
    ensures
        forall|k: Seq<u8>| #[trigger]
            kept.contains_key(k) ==> after[kept[k] as int] == if k == key {
                placed[slot as int]
            } else {
                before[held[k] as int]
            },
{
    assert forall|k: Seq<u8>| #[trigger] kept.contains_key(k) implies after[kept[k] as int]
        == if k == key {
        placed[slot as int]
    } else {
        before[held[k] as int]
    } by {
        assert(holds_slot(kept, kept[k]));
        assert(!left.contains(kept[k]));
        if k != key {
            assert(held.contains_key(k));
            assert(holds_slot(held, held[k]));
            assert(before[held[k] as int] is Some);
        }
    }
}

/// Decoding bytes answers `result`.
pub open spec fn decodes_to<V, D: Fn(Vec<u8>) -> Result<V>>(
    decode: D,
    bytes: Seq<u8>,
    result: Result<V>,
) -> bool {
    exists|b: Vec<u8>| b@ == bytes && #[trigger] call_ensures(decode, (b,), result)
}

/// `result` is a stored value as read: absent, the error that decoding it
/// answers, or a copy of the value that it answers.
pub open spec fn is_decoded<V: Clone, D: Fn(Vec<u8>) -> Result<V>>(
    decode: D,
    stored: Option<Seq<u8>>,
    result: Result<Option<V>>,
) -> bool {
    match (stored, result) {
        (None, Ok(None)) => true,
        (Some(bytes), Ok(Some(copy))) => exists|value: V| #[trigger]
            decodes_to(decode, bytes, Ok::<V, QueryError>(value)) && cloned(value, copy),
        (Some(bytes), Err(error)) => decodes_to(decode, bytes, Err::<V, QueryError>(error)),
        _ => false,
    }
}

/// A cached value is what decoding the stored bytes answered, weighed by their
/// length.
pub open spec fn stands_for<V, D: Fn(Vec<u8>) -> Result<V>>(
    decode: D,
    stored: Option<Seq<u8>>,
    held: Weighted<V>,
) -> bool {
    match stored {
        Some(bytes) => held.weight == bytes.len() && decodes_to(
            decode,
            bytes,
            Ok::<V, QueryError>(held.value),
        ),
        None => false,
    }
}

/// A cache of decoded values, each weighed by its stamp.
pub type DecodedCache<V> = CachedInner<Weighted<V>, StampWeigher>;

/// A cache of a budget that holds nothing yet.
pub open spec fn is_fresh<V>(cache: DecodedCache<V>, budget: usize) -> bool {
    &&& cache.wf()
    &&& cache.enabled() == (budget > 0)
    &&& cache.contents() == Map::<Seq<u8>, Weighted<V>>::empty()
    &&& cache.charges() == Map::<Seq<u8>, u64>::empty()
    &&& cache.stats() == (0u64, 0u64)
    &&& cache.limit() <= budget
    &&& budget > 0 ==> cache.room() >= assured_room(budget as int)
}

/// A read of `stored` through a cache: a hit is a copy of the value held and
/// leaves the cache as it was; a miss is decoded, and what decodes is seeded.
pub open spec fn is_read<V: Clone, D: Fn(Vec<u8>) -> Result<V>>(
    before: DecodedCache<V>,
    after: DecodedCache<V>,
    decode: D,
    key: Seq<u8>,
    stored: Option<Seq<u8>>,
    result: Result<Option<V>>,
) -> bool {
    &&& after.stats() == probed(
        before.stats(),
        before.enabled(),
        before.contents().contains_key(key),
    )
    &&& match result {
        Ok(Some(copy)) => if before.contents().contains_key(key) {
            cloned(before.contents()[key].value, copy) && after.holds_same(before)
        } else {
            exists|held: Weighted<V>| #[trigger]
                stands_for(decode, stored, held) && cloned(held.value, copy) && after.is_seeded(
                    before,
                    key,
                    held,
                )
        },
        _ => !before.contents().contains_key(key) && after.holds_same(before),
    }
}

impl<V: Clone> CachedInner<Weighted<V>, StampWeigher> {
    /// Ends a fetch that a miss started, as [`Self::settle_fetch`] does, where
    /// the bytes are to be decoded: what does not decode is an error and not
    /// cached either.
    pub fn settle_decoded<D: Fn(Vec<u8>) -> Result<V>>(
        &mut self,
        key: Vec<u8>,
        fetched: Result<Option<Vec<u8>>>,
        decode: &D,
    ) -> (result: Result<Option<V>>)
        requires
            old(self).wf(),
            forall|b: Vec<u8>| #[trigger] call_requires(*decode, (b,)),
        ensures
            final(self).wf(),
            final(self).stats() == old(self).stats(),
            match fetched {
                Err(error) => result == Err::<Option<V>, QueryError>(error),
                Ok(value) => is_decoded(*decode, opt_bytes(value), result),
            },
            match (fetched, result) {
                (Ok(stored), Ok(Some(copy))) => exists|held: Weighted<V>| #[trigger]
                    stands_for(*decode, opt_bytes(stored), held) && cloned(held.value, copy)
                        && final(self).is_seeded(*old(self), key@, held),
                _ => final(self).holds_same(*old(self)),
            },
    {
        let bytes = match fetched {
            Err(error) => {
                return Err(error);
            },
            Ok(bytes) => bytes,
        };
        let ghost stored = opt_bytes(bytes);
        match decode_weighted(bytes, decode) {
            Ok(Some(weighted)) => {
                let ghost held = weighted;
                let copy = weighted.value.clone();
                self.insert(key, weighted);
                assert(stands_for(*decode, stored, held));
                assert(cloned(held.value, copy));
                Ok(Some(copy))
            },
            Ok(None) => Ok(None),
            Err(error) => Err(error),
        }
    }
}

/// A value that was read once is served from then on without its bytes: it is
/// cached where it fits beside what is cached, so the next lookup of its key is a
/// hit, and nothing that was cached leaves.
pub proof fn law_read_value_is_served<V, W: Weigher<V>>(
    before: CachedInner<V, W>,
    after: CachedInner<V, W>,
    key: Seq<u8>,
    value: V,
)
    requires
        before.enabled(),
        after.is_seeded(before, key, value),
        total_charge(before.charges().remove(key)) + before.scales().weight_of(value)
            <= before.room(),
    ensures
        after.contents().contains_key(key),
        after.contents()[key] == value,
        forall|k: Seq<u8>|
            k != key && before.contents().contains_key(k) ==> #[trigger]
                after.contents().contains_key(k) && after.contents()[k] == before.contents()[k],
{
}

/// A point-read KV table fronted by a read-populated, byte-budgeted cache.
/// `decode` runs once per miss; the value is cached as [`Weighted`] (stamped with
/// the payload's byte length), so hits skip both the backend read and the
/// decode. Read-populated only — writes never seed it, so nothing needs
/// invalidation on a failed commit. Only present values are cached: misses
/// always re-probe the backend, so a key written later is visible immediately.
pub struct CachedKvTable<M, V, D> {
    pub inner: KvTable<M>,
    pub cache: DecodedCache<V>,
    pub decode: D,
}

impl<M: MetaStore, V: Clone, D: Fn(Vec<u8>) -> Result<V>> CachedKvTable<M, V, D> {
    /// Everything cached stands for what the store holds.
    pub open spec fn coherent(&self) -> bool {
        &&& self.inner.meta_store.wf()
        &&& self.cache.wf()
        &&& forall|k: Seq<u8>| #[trigger]
            self.cache.contents().contains_key(k) ==> stands_for(
                self.decode,
                self.inner.meta_store.kv_at(self.inner.table@, k),
                self.cache.contents()[k],
            )
    }

    /// `decode` accepts every payload, though it may answer with an error.
    pub open spec fn decodes_all(&self) -> bool {
        forall|b: Vec<u8>| #[trigger] call_requires(self.decode, (b,))
    }

    pub fn new(inner: KvTable<M>, budget_bytes: usize, decode: D) -> (table: CachedKvTable<M, V, D>)
        requires
            inner.meta_store.wf(),
        ensures
            table.inner == inner,
            table.decode == decode,
            is_fresh(table.cache, budget_bytes),
            table.coherent(),
    {
        CachedKvTable { inner, cache: CachedInner::with_weigher(budget_bytes, StampWeigher), decode }
    }

    /// A read through the cache: what the store holds, decoded, whether or not
    /// it was cached. A hit reaches neither the store nor `decode`.
    pub fn get(&mut self, key: &Vec<u8>) -> (result: Result<Option<V>>)
        requires
            old(self).coherent(),
            old(self).decodes_all(),
        ensures
            final(self).coherent(),
            final(self).inner == old(self).inner,
            final(self).decode == old(self).decode,
            result is Ok || old(self).inner.meta_store.answers() ==> is_decoded(
                old(self).decode,
                old(self).inner.meta_store.kv_at(old(self).inner.table@, key@),
                result,
            ),
            is_read(
                old(self).cache,
                final(self).cache,
                old(self).decode,
                key@,
                old(self).inner.meta_store.kv_at(old(self).inner.table@, key@),
                result,
            ),
    {
        match self.cache.probe(key) {
            Some(weighted) => {
                assert(cloned(old(self).cache.contents()[key@].value, weighted.value));
                Ok(Some(weighted.value))
            },
            None => {
                let fetched = self.inner.get(key);
                self.cache.settle_decoded(vstd::slice::slice_to_vec(key), fetched, &self.decode)
            },
        }
    }

    pub fn table_id(&self) -> (id: TableId)
        ensures
            id == self.inner.table,
    {
        self.inner.table
    }

    pub fn take_window_stats(&mut self) -> (stats: (u64, u64))
        ensures
            stats == old(self).cache.stats(),
            final(self).cache.stats() == (0u64, 0u64),
            final(self).cache.holds_same(old(self).cache),
            old(self).cache.wf() ==> final(self).cache.wf(),
            final(self).inner == old(self).inner,
            final(self).decode == old(self).decode,
    {
        self.cache.take_window_stats()
    }
}

/// The cache key of a clustering: its partition, length-prefixed, then the
/// clustering.
pub open spec fn scan_cache_key(partition: Seq<u8>, clustering: Seq<u8>) -> Seq<u8> {
    be_bytes(partition.len(), 8) + partition + clustering
}

/// Distinct clusterings have distinct cache keys.
pub proof fn law_scan_cache_keys_distinct(
    partition: Seq<u8>,
    clustering: Seq<u8>,
    other_partition: Seq<u8>,
    other_clustering: Seq<u8>,
)
    requires
        partition.len() <= usize::MAX,
        other_partition.len() <= usize::MAX,
        scan_cache_key(partition, clustering) == scan_cache_key(other_partition, other_clustering),
    ensures
        partition == other_partition,
        clustering == other_clustering,
{
    let a = scan_cache_key(partition, clustering);
    let b = scan_cache_key(other_partition, other_clustering);
    let n = partition.len() as int;
    let m = other_partition.len() as int;
    lemma_be_limit_values();
    lemma_be_bytes_len(partition.len(), 8);
    lemma_be_bytes_len(other_partition.len(), 8);
    assert(a.take(8) =~= be_bytes(partition.len(), 8));
    assert(b.take(8) =~= be_bytes(other_partition.len(), 8));
    lemma_be_value_of_bytes(partition.len(), 8);
    lemma_be_value_of_bytes(other_partition.len(), 8);
    assert(n == m);
    assert(partition =~= a.subrange(8, 8 + n));
    assert(other_partition =~= b.subrange(8, 8 + m));
    assert(clustering =~= a.skip(8 + n));
    assert(other_clustering =~= b.skip(8 + m));
}

/// A scannable table with a read-populated per-clustering point cache; see
/// [`CachedKvTable`]. Scans always bypass the cache.
pub struct CachedScannableKvTable<M, V, D> {
    pub inner: ScannableKvTable<M>,
    pub cache: DecodedCache<V>,
    pub decode: D,
}

impl<M: MetaStore, V: Clone, D: Fn(Vec<u8>) -> Result<V>> CachedScannableKvTable<M, V, D> {
    /// Everything cached stands for what the store holds.
    pub open spec fn coherent(&self) -> bool {
        &&& self.inner.meta_store.wf()
        &&& self.cache.wf()
        &&& forall|p: Seq<u8>, c: Seq<u8>|
            p.len() <= usize::MAX && #[trigger] self.cache.contents().contains_key(
                scan_cache_key(p, c),
            ) ==> stands_for(
                self.decode,
                self.inner.meta_store.row_at(self.inner.table@, p, c),
                self.cache.contents()[scan_cache_key(p, c)],
            )
    }

    /// `decode` accepts every payload, though it may answer with an error.
    pub open spec fn decodes_all(&self) -> bool {
        forall|b: Vec<u8>| #[trigger] call_requires(self.decode, (b,))
    }

    pub fn new(inner: ScannableKvTable<M>, budget_bytes: usize, decode: D) -> (table:
        CachedScannableKvTable<M, V, D>)
        requires
            inner.meta_store.wf(),
        ensures
            table.inner == inner,
            table.decode == decode,
            is_fresh(table.cache, budget_bytes),
            table.coherent(),
    {
        CachedScannableKvTable {
            inner,
            cache: CachedInner::with_weigher(budget_bytes, StampWeigher),
            decode,
        }
    }

    /// Durable put; never seeds the read cache.
    pub fn put(&mut self, partition: &[u8], clustering: &[u8], value: Vec<u8>) -> (result: Result<()>)
        requires
            old(self).inner.meta_store.wf(),
        ensures
            final(self).inner.meta_store.wf(),
            old(self).inner.meta_store.answers() ==> result is Ok
                && final(self).inner.meta_store.answers(),
            final(self).inner.table == old(self).inner.table,
            final(self).cache == old(self).cache,
            final(self).decode == old(self).decode,
            forall|t: Seq<char>, k: Seq<u8>| #[trigger]
                final(self).inner.meta_store.kv_at(t, k) == old(self).inner.meta_store.kv_at(t, k),
            result is Ok ==> forall|t: Seq<char>, p: Seq<u8>, c: Seq<u8>| #[trigger]
                final(self).inner.meta_store.row_at(t, p, c) == if t == old(self).inner.table@ && p
                    == partition@ && c == clustering@ {
                    Some(value@)
                } else {
                    old(self).inner.meta_store.row_at(t, p, c)
                },
    {
        self.inner.put(partition, clustering, value)
    }

    /// A point read through the cache: what the store holds, decoded, whether
    /// or not it was cached. A hit reaches neither the store nor `decode`.
    pub fn get(&mut self, partition: &[u8], clustering: &[u8]) -> (result: Result<Option<V>>)
        requires
            old(self).coherent(),
            old(self).decodes_all(),
        ensures
            final(self).coherent(),
            final(self).inner == old(self).inner,
            final(self).decode == old(self).decode,
            result is Ok || old(self).inner.meta_store.answers() ==> is_decoded(
                old(self).decode,
                old(self).inner.meta_store.row_at(old(self).inner.table@, partition@, clustering@),
                result,
            ),
            is_read(
                old(self).cache,
                final(self).cache,
                old(self).decode,
                scan_cache_key(partition@, clustering@),
                old(self).inner.meta_store.row_at(old(self).inner.table@, partition@, clustering@),
                result,
            ),
    {
        let mut key: Vec<u8> = Vec::new();
        put_u64(&mut key, partition.len() as u64);
        append_bytes(&mut key, partition);
        append_bytes(&mut key, clustering);
        assert(partition.len() <= usize::MAX);
        assert(key@ =~= scan_cache_key(partition@, clustering@));
        match self.cache.probe(&key) {
            Some(weighted) => {
                assert(cloned(old(self).cache.contents()[key@].value, weighted.value));
                Ok(Some(weighted.value))
            },
            None => {
                let ghost probed_cache = self.cache;
                let fetched = self.inner.get(partition, clustering);
                let result = self.cache.settle_decoded(key, fetched, &self.decode);
                proof {
                    let own = scan_cache_key(partition@, clustering@);
                    assert forall|p: Seq<u8>, c: Seq<u8>|
                        p.len() <= usize::MAX && #[trigger] self.cache.contents().contains_key(
                            scan_cache_key(p, c),
                        ) implies stands_for(
                        self.decode,
                        self.inner.meta_store.row_at(self.inner.table@, p, c),
                        self.cache.contents()[scan_cache_key(p, c)],
                    ) by {
                        if scan_cache_key(p, c) == own {
                            law_scan_cache_keys_distinct(p, c, partition@, clustering@);
                        } else {
                            assert(probed_cache.contents().contains_key(scan_cache_key(p, c)));
                        }
                    }
                }
                result
            },
        }
    }

    /// Lists every clustering key in the partition, in clustering order;
    /// bypasses the cache.
    pub fn scan_keys(&self, partition: &[u8]) -> (result: Result<Vec<Vec<u8>>>)
        requires
            self.inner.meta_store.wf(),
        ensures
            self.inner.meta_store.answers() ==> result is Ok,
            result matches Ok(keys) ==> {
                &&& keys_ascend(keys@)
                &&& forall|c: Seq<u8>| #[trigger]
                    lists_key(keys@, c) <==> self.inner.meta_store.row_at(
                        self.inner.table@,
                        partition@,
                        c,
                    ) is Some
            },
    {
        self.inner.scan_keys(partition)
    }

    pub fn table_id(&self) -> (id: ScannableTableId)
        ensures
            id == self.inner.table,
    {
        self.inner.table
    }

    pub fn take_window_stats(&mut self) -> (stats: (u64, u64))
        ensures
            stats == old(self).cache.stats(),
            final(self).cache.stats() == (0u64, 0u64),
            final(self).cache.holds_same(old(self).cache),
            old(self).cache.wf() ==> final(self).cache.wf(),
            final(self).inner == old(self).inner,
            final(self).decode == old(self).decode,
    {
        self.cache.take_window_stats()
    }
}

} // verus!
