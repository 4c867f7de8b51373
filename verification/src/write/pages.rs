//! Open pages: bitmaps by `(stream, page start)`.

use vstd::prelude::*;

use crate::write::bitmap::{
    bitmap_bits, bitmap_insert, bitmap_new, bitmap_union, in_page, PAGE_SPAN,
};
use crate::write::streams::{
    entries_map, entry_key, from_on, key_lt, keys_sorted, lemma_entry, lemma_entry_push,
    lemma_entry_update, starts_below, StreamKey, StreamMap,
};

verus! {

/// The open pages of one family.
pub type PageMap = StreamMap<roaring::RoaringBitmap>;

/// The offsets each open page holds.
pub open spec fn page_bits(map: Map<(Seq<char>, u64), roaring::RoaringBitmap>) -> Map<
    (Seq<char>, u64),
    Set<u32>,
> {
    map.map_values(|bitmap: roaring::RoaringBitmap| bitmap_bits(bitmap))
}

/// The offsets of a page, none if it is not open.
pub open spec fn bits_at(
    pages: Map<(Seq<char>, u64), Set<u32>>,
    key: (Seq<char>, u64),
) -> Set<u32> {
    if pages.contains_key(key) {
        pages[key]
    } else {
        Set::empty()
    }
}

/// Open pages with some more offsets in one of them.
pub open spec fn with_bits(
    pages: Map<(Seq<char>, u64), Set<u32>>,
    key: (Seq<char>, u64),
    bits: Set<u32>,
) -> Map<(Seq<char>, u64), Set<u32>> {
    pages.insert(key, bits_at(pages, key).union(bits))
}

/// The union of two sets of open pages.
pub open spec fn joined(
    a: Map<(Seq<char>, u64), Set<u32>>,
    b: Map<(Seq<char>, u64), Set<u32>>,
) -> Map<(Seq<char>, u64), Set<u32>> {
    Map::new(
        |key: (Seq<char>, u64)| a.contains_key(key) || b.contains_key(key),
        |key: (Seq<char>, u64)| bits_at(a, key).union(bits_at(b, key)),
    )
}

/// Every page is aligned, not below `floor`, and holds offsets of a page.
pub open spec fn pages_wf(pages: Map<(Seq<char>, u64), Set<u32>>, floor: u64) -> bool {
    forall|key: (Seq<char>, u64)| #[trigger]
        pages.contains_key(key) ==> key.1 % PAGE_SPAN == 0 && key.1 >= floor && in_page(pages[key])
}

/// Adds one offset to a page.
pub fn set_bit(pages: &mut PageMap, stream: &StreamKey, page: u64, offset: u32)
    requires
        old(pages).wf(),
    ensures
        final(pages).wf(),
        page_bits(final(pages).map()) == with_bits(
            page_bits(old(pages).map()),
            (stream@, page),
            set![offset],
        ),
{
    let ghost before = pages.map();
    let ghost key = (stream@, page);
    let fresh = bitmap_new();
    let at: usize = pages.slot(stream, page, fresh);
    let ghost middle = pages.entries@;
    proof {
        lemma_entry(middle, at as int);
    }
    bitmap_insert(&mut pages.entries[at].value, offset);
    proof {
        lemma_entry_update(middle, pages.entries@, at as int);
        let bits = bitmap_bits(pages.entries@[at as int].value);
        assert(bits =~= bits_at(page_bits(before), key).union(set![offset]));
        assert(page_bits(pages.map()) =~= with_bits(page_bits(before), key, set![offset]));
    }
}

/// Adds a bitmap's offsets to a page.
pub fn merge_page(
    pages: &mut PageMap,
    stream: &StreamKey,
    page: u64,
    bitmap: &roaring::RoaringBitmap,
)
    requires
        old(pages).wf(),
    ensures
        final(pages).wf(),
        page_bits(final(pages).map()) == with_bits(
            page_bits(old(pages).map()),
            (stream@, page),
            bitmap_bits(*bitmap),
        ),
{
    let ghost before = pages.map();
    let ghost key = (stream@, page);
    let fresh = bitmap_new();
    let at: usize = pages.slot(stream, page, fresh);
    let ghost middle = pages.entries@;
    proof {
        lemma_entry(middle, at as int);
    }
    bitmap_union(&mut pages.entries[at].value, bitmap);
    proof {
        lemma_entry_update(middle, pages.entries@, at as int);
        let bits = bitmap_bits(pages.entries@[at as int].value);
        assert(bits =~= bits_at(page_bits(before), key).union(bitmap_bits(*bitmap)));
        assert(page_bits(pages.map()) =~= with_bits(
            page_bits(before),
            key,
            bitmap_bits(*bitmap),
        ));
    }
}

/// Joining with nothing changes nothing.
pub proof fn lemma_joined_empty(pages: Map<(Seq<char>, u64), Set<u32>>)
    ensures
        joined(pages, Map::empty()) == pages,
{
    let both = joined(pages, Map::empty());
    assert forall|key: (Seq<char>, u64)| #[trigger] both.contains_key(key) implies both[key]
        == pages[key] by {
        assert(both[key] =~= pages[key]);
    }
    assert(both =~= pages);
}

/// Merges the second set of pages into the first.
pub fn join_pages(pages: &mut PageMap, more: PageMap)
    requires
        old(pages).wf(),
        more.wf(),
    ensures
        final(pages).wf(),
        page_bits(final(pages).map()) == joined(
            page_bits(old(pages).map()),
            page_bits(more.map()),
        ),
{
    let ghost all = more.entries@;
    let ghost base = page_bits(pages.map());
    assert(entries_map(all.take(0)) =~= Map::empty());
    proof {
        assert(page_bits(entries_map(all.take(0))) =~= Map::empty());
        lemma_joined_empty(base);
    }
    for entry in iter: more.entries
        invariant
            iter.seq() == all,
            keys_sorted(all),
            pages.wf(),
            page_bits(pages.map()) == joined(
                base,
                page_bits(entries_map(all.take(iter.index() as int))),
            ),
    {
        let ghost n = iter.index() as int;
        let ghost now = page_bits(pages.map());
        merge_page(pages, &entry.stream, entry.start, &entry.value);
        proof {
            assert(entry == all[n]);
            let done = all.take(n);
            assert(all.take(n + 1) =~= done.push(entry));
            assert(keys_sorted(done));
            assert forall|i: int| 0 <= i < done.len() implies key_lt(
                #[trigger] entry_key(done[i]),
                entry_key(entry),
            ) by {
                assert(key_lt(entry_key(all[i]), entry_key(all[n])));
            }
            lemma_entry_push(done, entry);
            let key = entry_key(entry);
            let left = page_bits(pages.map());
            let right = joined(base, page_bits(entries_map(all.take(n + 1))));
            assert(left.dom() =~= right.dom());
            assert forall|k: (Seq<char>, u64)| #[trigger] left.contains_key(k) implies left[k]
                == right[k] by {
                assert(left[k] =~= right[k]);
            }
            assert(left =~= right);
        }
    }
    assert(all.take(all.len() as int) =~= all);
}

/// Parting by start and reading the bits commute.
pub proof fn lemma_part_bits(
    map: Map<(Seq<char>, u64), roaring::RoaringBitmap>,
    bound: u64,
)
    ensures
        page_bits(starts_below(map, bound)) == starts_below(page_bits(map), bound),
        page_bits(from_on(map, bound)) == from_on(page_bits(map), bound),
{
    assert(page_bits(starts_below(map, bound)) =~= starts_below(page_bits(map), bound));
    assert(page_bits(from_on(map, bound)) =~= from_on(page_bits(map), bound));
}

/// Parting by start and joining commute.
pub proof fn lemma_part_joined(
    a: Map<(Seq<char>, u64), Set<u32>>,
    b: Map<(Seq<char>, u64), Set<u32>>,
    bound: u64,
)
    ensures
        joined(starts_below(a, bound), starts_below(b, bound)) == starts_below(joined(a, b), bound),
        joined(from_on(a, bound), from_on(b, bound)) == from_on(joined(a, b), bound),
{
    assert(joined(starts_below(a, bound), starts_below(b, bound)) =~= starts_below(
        joined(a, b),
        bound,
    ));
    assert(joined(from_on(a, bound), from_on(b, bound)) =~= from_on(joined(a, b), bound));
}

/// The union of well-formed pages is well-formed.
pub proof fn lemma_joined_wf(
    a: Map<(Seq<char>, u64), Set<u32>>,
    b: Map<(Seq<char>, u64), Set<u32>>,
    floor: u64,
)
    requires
        pages_wf(a, floor),
        pages_wf(b, floor),
    ensures
        pages_wf(joined(a, b), floor),
{
    let both = joined(a, b);
    assert forall|key: (Seq<char>, u64)| #[trigger] both.contains_key(key) implies key.1
        % PAGE_SPAN == 0 && key.1 >= floor && in_page(both[key]) by {
        assert(a.contains_key(key) || b.contains_key(key));
        assert(in_page(bits_at(a, key)));
        assert(in_page(bits_at(b, key)));
    }
}

} // verus!
