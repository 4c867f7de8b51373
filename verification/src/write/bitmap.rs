//! Page bitmaps and the id arithmetic they rest on.
//!
//! A primary id splits into a page start and a page-relative offset. Pages
//! group into page groups, the unit of the page-count manifest.

use vstd::prelude::*;

verus! {

/// Ids per bitmap page.
pub const STREAM_PAGE_ID_SPAN: u32 = 65_536;

pub const PAGE_SPAN: u64 = 65_536;

/// Ids per directory bucket. Sealing relies on pages and buckets sharing one
/// boundary.
pub const BUCKET_SPAN: u64 = 65_536;

/// Ids per page group.
pub const PAGE_GROUP_ID_SPAN: u64 = 16_777_216;

/// The start of the page that holds an id.
pub open spec fn spec_page_start(id: u64) -> u64 {
    (id - id % PAGE_SPAN) as u64
}

/// Where in its page an id stands.
pub open spec fn spec_page_offset(id: u64) -> u32 {
    (id % PAGE_SPAN) as u32
}

/// The start of the page group that holds an id.
pub open spec fn spec_page_group_start(id: u64) -> u64 {
    (id - id % PAGE_GROUP_ID_SPAN) as u64
}

/// A page's start relative to its group.
pub open spec fn spec_page_start_in_group(page: u64) -> u32 {
    (page % PAGE_GROUP_ID_SPAN) as u32
}

#[verifier::when_used_as_spec(spec_page_start)]
pub fn page_start(id: u64) -> (start: u64)
    ensures
        start == spec_page_start(id),
{
    id - id % PAGE_SPAN
}

#[verifier::when_used_as_spec(spec_page_offset)]
pub fn page_offset(id: u64) -> (offset: u32)
    ensures
        offset == spec_page_offset(id),
{
    (id % PAGE_SPAN) as u32
}

#[verifier::when_used_as_spec(spec_page_group_start)]
pub fn page_group_start(id: u64) -> (start: u64)
    ensures
        start == spec_page_group_start(id),
{
    id - id % PAGE_GROUP_ID_SPAN
}

#[verifier::when_used_as_spec(spec_page_start_in_group)]
pub fn page_start_in_group(page: u64) -> (start: u32)
    ensures
        start == spec_page_start_in_group(page),
{
    (page % PAGE_GROUP_ID_SPAN) as u32
}

/// Where the open granule begins: everything below is complete.
pub open spec fn spec_seal_boundary(frontier: u64) -> u64 {
    spec_page_start(frontier)
}

#[verifier::when_used_as_spec(spec_seal_boundary)]
pub fn seal_boundary(frontier: u64) -> (open: u64)
    ensures
        open == spec_seal_boundary(frontier),
{
    page_start(frontier)
}

/// The last span below a seal boundary, if any was sealed.
pub fn last_sealed_span(sealed_id: u64) -> (span: Option<u64>)
    requires
        sealed_id % PAGE_SPAN == 0,
    ensures
        span == if sealed_id == 0 {
            None
        } else {
            Some((sealed_id - PAGE_SPAN) as u64)
        },
{
    if sealed_id == 0 {
        None
    } else {
        Some(sealed_id - PAGE_SPAN)
    }
}

/// A page start and an offset determine the id, and ids in one page differ in
/// their offset.
pub proof fn law_page_and_offset_give_the_id(id: u64)
    ensures
        spec_page_start(id) + spec_page_offset(id) == id,
        spec_page_start(id) % PAGE_SPAN == 0,
        spec_page_offset(id) < STREAM_PAGE_ID_SPAN,
        spec_page_group_start(spec_page_start(id)) + spec_page_start_in_group(spec_page_start(id))
            == spec_page_start(id),
{
}

/// A roaring bitmap of page-relative offsets.
#[verifier::external_type_specification]
#[verifier::external_body]
pub struct ExRoaringBitmap(roaring::RoaringBitmap);

/// The offsets that a bitmap holds.
pub uninterp spec fn bitmap_bits(bitmap: roaring::RoaringBitmap) -> Set<u32>;

/// The portable serialization of a bitmap.
pub uninterp spec fn bitmap_bytes(bitmap: roaring::RoaringBitmap) -> Seq<u8>;

/// The offsets of the bitmap that bytes deserialize to, if they do.
pub uninterp spec fn bitmap_decoded(bytes: Seq<u8>) -> Option<Set<u32>>;

/// `roaring::RoaringBitmap::new` makes a bitmap that holds nothing.
#[verifier::external_body]
pub(crate) fn bitmap_new() -> (bitmap: roaring::RoaringBitmap)
    ensures
        bitmap_bits(bitmap) == Set::<u32>::empty(),
{
    roaring::RoaringBitmap::new()
}

/// `roaring::RoaringBitmap::insert` adds one offset and keeps the others.
#[verifier::external_body]
pub(crate) fn bitmap_insert(bitmap: &mut roaring::RoaringBitmap, offset: u32)
    ensures
        bitmap_bits(*final(bitmap)) == bitmap_bits(*old(bitmap)).insert(offset),
{
    bitmap.insert(offset);
}

/// `|=` on `roaring::RoaringBitmap` takes the union of the two sets.
#[verifier::external_body]
pub(crate) fn bitmap_union(bitmap: &mut roaring::RoaringBitmap, other: &roaring::RoaringBitmap)
    ensures
        bitmap_bits(*final(bitmap)) == bitmap_bits(*old(bitmap)).union(bitmap_bits(*other)),
{
    *bitmap |= other;
}

/// `roaring::RoaringBitmap::remove_range` from a bound upwards keeps exactly
/// the offsets below the bound.
#[verifier::external_body]
pub(crate) fn bitmap_truncate(bitmap: &mut roaring::RoaringBitmap, bound: u32)
    ensures
        bitmap_bits(*final(bitmap)) == bitmap_bits(*old(bitmap)).filter(|o: u32| o < bound),
{
    bitmap.remove_range(bound..);
}

/// `roaring::RoaringBitmap::is_empty` tells whether no offset is held.
#[verifier::external_body]
pub(crate) fn bitmap_is_empty(bitmap: &roaring::RoaringBitmap) -> (empty: bool)
    ensures
        empty == (bitmap_bits(*bitmap) == Set::<u32>::empty()),
{
    bitmap.is_empty()
}

/// `roaring::RoaringBitmap::len` counts the offsets.
#[verifier::external_body]
pub(crate) fn bitmap_len(bitmap: &roaring::RoaringBitmap) -> (len: u64)
    ensures
        len == bitmap_bits(*bitmap).len(),
{
    bitmap.len()
}

/// The least offset of a set is `least`; there is none exactly when the set is
/// empty.
pub open spec fn is_least(bits: Set<u32>, least: Option<u32>) -> bool {
    match least {
        Some(least) => bits.contains(least) && forall|o: u32| bits.contains(o) ==> least <= o,
        None => bits == Set::<u32>::empty(),
    }
}

/// The greatest offset of a set is `greatest`; there is none exactly when the
/// set is empty.
pub open spec fn is_greatest(bits: Set<u32>, greatest: Option<u32>) -> bool {
    match greatest {
        Some(greatest) => bits.contains(greatest) && forall|o: u32|
            bits.contains(o) ==> o <= greatest,
        None => bits == Set::<u32>::empty(),
    }
}

/// `roaring::RoaringBitmap::min` gives the least offset.
#[verifier::external_body]
pub(crate) fn bitmap_min(bitmap: &roaring::RoaringBitmap) -> (least: Option<u32>)
    ensures
        is_least(bitmap_bits(*bitmap), least),
{
    bitmap.min()
}

/// `roaring::RoaringBitmap::max` gives the greatest offset.
#[verifier::external_body]
pub(crate) fn bitmap_max(bitmap: &roaring::RoaringBitmap) -> (greatest: Option<u32>)
    ensures
        is_greatest(bitmap_bits(*bitmap), greatest),
{
    bitmap.max()
}

/// `roaring::RoaringBitmap::serialize_into` into a vector, which cannot fail:
/// deserializing the bytes gives the same offsets back.
#[verifier::external_body]
pub(crate) fn bitmap_serialize(bitmap: &roaring::RoaringBitmap) -> (bytes: Vec<u8>)
    ensures
        bytes@ == bitmap_bytes(*bitmap),
        bitmap_decoded(bytes@) == Some(bitmap_bits(*bitmap)),
{
    let mut bytes = Vec::with_capacity(bitmap.serialized_size());
    bitmap.serialize_into(&mut bytes).expect("writing to a vector is infallible");
    bytes
}

/// `roaring::RoaringBitmap::deserialize_from` a slice: which offsets come out,
/// if any do, depends on the bytes alone.
#[verifier::external_body]
pub(crate) fn bitmap_deserialize(bytes: &[u8]) -> (bitmap: Option<roaring::RoaringBitmap>)
    ensures
        bitmap is Some == bitmap_decoded(bytes@) is Some,
        bitmap is Some ==> bitmap_bits(bitmap->Some_0) == bitmap_decoded(bytes@)->Some_0,
{
    roaring::RoaringBitmap::deserialize_from(bytes).ok()
}

/// What is persisted of a page beside its bits.
#[derive(Debug, Clone, Copy, PartialEq, Eq, Structural)]
pub struct BitmapPageMeta {
    pub min_offset: u32,
    pub max_offset: u32,
    pub count: u32,
}

/// Offsets stay inside one page.
pub open spec fn in_page(bits: Set<u32>) -> bool {
    forall|o: u32| #[trigger] bits.contains(o) ==> o < STREAM_PAGE_ID_SPAN
}

/// `meta` describes a page that holds `bits`: the least and the greatest
/// offset (zero when there is none) and how many there are.
pub open spec fn describes(meta: BitmapPageMeta, bits: Set<u32>) -> bool {
    &&& meta.count == bits.len()
    &&& if bits == Set::<u32>::empty() {
        meta.min_offset == 0 && meta.max_offset == 0
    } else {
        is_least(bits, Some(meta.min_offset)) && is_greatest(bits, Some(meta.max_offset))
    }
}

/// What describes a page that holds `bits`.
pub open spec fn spec_page_meta(bits: Set<u32>) -> BitmapPageMeta {
    choose|meta: BitmapPageMeta| describes(meta, bits)
}

/// A page has one description.
pub proof fn lemma_meta_unique(a: BitmapPageMeta, b: BitmapPageMeta, bits: Set<u32>)
    requires
        describes(a, bits),
        describes(b, bits),
    ensures
        a == b,
{
}

/// A page's offsets number at most one page span.
pub proof fn lemma_in_page_len(bits: Set<u32>)
    requires
        in_page(bits),
    ensures
        bits.finite(),
        bits.len() <= STREAM_PAGE_ID_SPAN,
{
    let all = Set::<int>::new(|i: int| 0 <= i < STREAM_PAGE_ID_SPAN);
    vstd::set_lib::lemma_int_range(0, STREAM_PAGE_ID_SPAN as int);
    assert(all =~= vstd::set_lib::set_int_range(0, STREAM_PAGE_ID_SPAN as int));
    let wide = bits.map(|o: u32| o as int);
    assert(wide.subset_of(all));
    vstd::set_lib::lemma_len_subset(wide, all);
    assert(bits =~= wide.map(|i: int| i as u32)) by {
        assert forall|o: u32| bits.contains(o) implies wide.map(|i: int| i as u32).contains(o) by {
            assert(wide.contains(o as int));
        }
    }
    wide.lemma_map_finite(|i: int| i as u32);
    vstd::set_lib::lemma_map_size(bits, wide, |o: u32| o as int);
}

/// The least and greatest offset and the count of an open bitmap.
pub fn page_meta(bitmap: &roaring::RoaringBitmap) -> (meta: BitmapPageMeta)
    requires
        in_page(bitmap_bits(*bitmap)),
    ensures
        describes(meta, bitmap_bits(*bitmap)),
        meta == spec_page_meta(bitmap_bits(*bitmap)),
{
    proof {
        lemma_in_page_len(bitmap_bits(*bitmap));
    }
    let min_offset: u32 = match bitmap_min(bitmap) {
        Some(least) => least,
        None => 0,
    };
    let max_offset: u32 = match bitmap_max(bitmap) {
        Some(greatest) => greatest,
        None => 0,
    };
    let count: u64 = bitmap_len(bitmap);
    let meta = BitmapPageMeta { min_offset, max_offset, count: count as u32 };
    proof {
        let bits = bitmap_bits(*bitmap);
        assert(describes(meta, bits));
        lemma_meta_unique(meta, spec_page_meta(bits), bits);
    }
    meta
}

} // verus!
