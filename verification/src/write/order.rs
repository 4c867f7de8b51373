//! Whether a recovered working set is in order.
//!
//! A checkpoint and the artifacts of a rebuild come from storage, so nothing
//! says by itself that their pages are aligned and open. Indexing goes on only
//! from a working set that is in order.

use vstd::prelude::*;

use crate::write::bitmap::{
    bitmap_bits, bitmap_max, in_page, page_group_start, spec_page_group_start, spec_seal_boundary,
    PAGE_SPAN, STREAM_PAGE_ID_SPAN,
};
use crate::write::engine::{pages_below, track_wf, IndexCore};
use crate::write::index::{FamilyState, FamilyTail, SealedPageCounts};
use crate::write::pages::{page_bits, pages_wf, PageMap};
use crate::write::recover::{
    clamped_bits, count_listing, count_listings, is_rebuilt, rebuilt_pages, FamilyArtifacts,
    SealedPageListing,
};
use crate::write::seal::{count_pairs, counts_open};
use crate::write::streams::{entry_key, has_key, key_index, lemma_entry};

verus! {

/// Pages are ordered, aligned, not below `floor`, below `frontier`, and hold
/// offsets of a page.
pub open spec fn pages_in_order(pages: PageMap, floor: u64, frontier: u64) -> bool {
    &&& pages.wf()
    &&& pages_wf(page_bits(pages.map()), floor)
    &&& pages_below(page_bits(pages.map()), frontier)
}

/// One open page is in order.
spec fn page_ok(start: u64, bits: Set<u32>, floor: u64, frontier: u64) -> bool {
    start % PAGE_SPAN == 0 && floor <= start < frontier && in_page(bits)
}

fn are_pages_in_order(pages: &PageMap, floor: u64, frontier: u64) -> (ok: bool)
    ensures
        ok == pages_in_order(*pages, floor, frontier),
{
    if !pages.is_sorted() {
        return false;
    }
    let ghost entries = pages.entries@;
    let ghost bits = page_bits(pages.map());
    let mut n: usize = 0;
    while n < pages.entries.len()
        invariant
            pages.wf(),
            entries == pages.entries@,
            bits == page_bits(pages.map()),
            n <= entries.len(),
            forall|i: int|
                0 <= i < n ==> page_ok(
                    (#[trigger] entries[i]).start,
                    bitmap_bits(entries[i].value),
                    floor,
                    frontier,
                ),
        decreases entries.len() - n,
    {
        let entry = &pages.entries[n];
        let inside: bool = match bitmap_max(&entry.value) {
            Some(greatest) => greatest < STREAM_PAGE_ID_SPAN,
            None => true,
        };
        assert(inside == in_page(bitmap_bits(entry.value)));
        if entry.start % PAGE_SPAN != 0 || entry.start < floor || entry.start >= frontier
            || !inside {
            proof {
                lemma_entry(entries, n as int);
                let key = entry_key(entries[n as int]);
                assert(bits.contains_key(key));
                assert(bits[key] == bitmap_bits(entries[n as int].value));
            }
            return false;
        }
        n = n + 1;
    }
    proof {
        assert forall|key: (Seq<char>, u64)| #[trigger] bits.contains_key(key) implies page_ok(
            key.1,
            bits[key],
            floor,
            frontier,
        ) by {
            assert(has_key(entries, key));
            let i = key_index(entries, key);
            assert(0 <= i < entries.len() && entry_key(entries[i]) == key);
            assert(bits[key] == bitmap_bits(entries[i].value));
        }
    }
    true
}

fn are_counts_open(counts: &SealedPageCounts, sealed_id: u64) -> (ok: bool)
    ensures
        ok == (counts.wf() && counts_open(counts.map(), sealed_id)),
{
    if !counts.is_sorted() {
        return false;
    }
    let ghost entries = counts.entries@;
    let group: u64 = page_group_start(sealed_id);
    let mut n: usize = 0;
    while n < counts.entries.len()
        invariant
            counts.wf(),
            entries == counts.entries@,
            group == spec_page_group_start(sealed_id),
            n <= entries.len(),
            forall|i: int| 0 <= i < n ==> (#[trigger] entries[i]).start == group,
        decreases entries.len() - n,
    {
        if counts.entries[n].start != group {
            proof {
                lemma_entry(entries, n as int);
                assert(counts.map().contains_key(entry_key(entries[n as int])));
            }
            return false;
        }
        n = n + 1;
    }
    proof {
        assert forall|key: (Seq<char>, u64)| #[trigger] counts.map().contains_key(key) implies key.1
            == group by {
            assert(has_key(entries, key));
            let i = key_index(entries, key);
            assert(0 <= i < entries.len() && entry_key(entries[i]) == key);
        }
    }
    true
}

/// Whether one family's working set is in order and fits its frontier.
pub fn is_track_in_order(state: &FamilyState, tail: &FamilyTail, frontier: u64) -> (ok: bool)
    ensures
        ok == track_wf(*state, *tail, frontier),
{
    state.sealed_id % PAGE_SPAN == 0 && state.sealed_id <= frontier && are_pages_in_order(
        &state.pages,
        state.sealed_id,
        frontier,
    ) && are_pages_in_order(&tail.pages, state.sealed_id, frontier) && are_counts_open(
        &state.sealed_page_counts,
        state.sealed_id,
    )
}

impl IndexCore {
    /// Whether the working set of every family is in order.
    pub fn is_in_order(&self) -> (ok: bool)
        ensures
            ok == self.wf(),
    {
        is_track_in_order(&self.state.log, &self.tail.log, self.frontier.log) && is_track_in_order(
            &self.state.tx,
            &self.tail.tx,
            self.frontier.tx,
        ) && is_track_in_order(&self.state.trace, &self.tail.trace, self.frontier.trace)
    }
}

/// The sealed pages listed are pages of the group that is open at `bound`.
pub open spec fn lists_open_group(artifacts: FamilyArtifacts, bound: u64) -> bool {
    forall|i: int|
        0 <= i < artifacts.sealed_pages@.len() ==> spec_page_group_start(
            (#[trigger] artifacts.sealed_pages@[i]).page,
        ) == spec_page_group_start(spec_seal_boundary(bound))
}

/// A rebuilt family is in order: with an empty tail it can be sealed, flushed
/// and accumulated into at once.
pub proof fn law_rebuilt_family_is_in_order(
    artifacts: FamilyArtifacts,
    bound: u64,
    state: FamilyState,
    tail: FamilyTail,
)
    requires
        is_rebuilt(artifacts, bound, state),
        lists_open_group(artifacts, bound),
        tail.is_new(),
    ensures
        track_wf(state, tail, bound),
{
    let sealed_id = spec_seal_boundary(bound);
    let cutoff = (bound - sealed_id) as u32;
    if bound > sealed_id {
        lemma_rebuilt_pages(
            artifacts.streams@,
            artifacts.streams@.len() as int,
            sealed_id,
            cutoff,
        );
    }
    assert(tail.bits() =~= Map::empty());
    let group = spec_page_group_start(sealed_id);
    lemma_count_listings(artifacts.sealed_pages@, artifacts.sealed_pages@.len() as int, group);
    let pairs = count_pairs(state.sealed_page_counts.map());
    assert forall|key: (Seq<char>, u64)| #[trigger]
        state.sealed_page_counts.map().contains_key(key) implies key.1 == group by {
        assert(pairs.contains_key(key));
    }
}

proof fn lemma_rebuilt_pages(
    streams: Seq<(String, Vec<roaring::RoaringBitmap>)>,
    n: int,
    page: u64,
    cutoff: u32,
)
    requires
        0 <= n <= streams.len(),
        cutoff <= STREAM_PAGE_ID_SPAN,
    ensures
        forall|key: (Seq<char>, u64)| #[trigger]
            rebuilt_pages(streams, n, page, cutoff).contains_key(key) ==> key.1 == page && in_page(
                rebuilt_pages(streams, n, page, cutoff)[key],
            ),
    decreases n,
{
    if n > 0 {
        lemma_rebuilt_pages(streams, n - 1, page, cutoff);
        assert(in_page(clamped_bits(streams[n - 1].1@, cutoff)));
        let before = rebuilt_pages(streams, n - 1, page, cutoff);
        let after = rebuilt_pages(streams, n, page, cutoff);
        assert forall|key: (Seq<char>, u64)| #[trigger] after.contains_key(key) implies key.1
            == page && in_page(after[key]) by {
            assert(before.contains_key(key) ==> key.1 == page && in_page(before[key]));
        }
    }
}

proof fn lemma_count_listings(pages: Seq<SealedPageListing>, n: int, group: u64)
    requires
        0 <= n <= pages.len(),
        forall|i: int|
            0 <= i < pages.len() ==> spec_page_group_start((#[trigger] pages[i]).page) == group,
    ensures
        forall|key: (Seq<char>, u64)| #[trigger]
            count_listings(pages, n).contains_key(key) ==> key.1 == group,
    decreases n,
{
    if n > 0 {
        lemma_count_listings(pages, n - 1, group);
        lemma_count_listing(
            count_listings(pages, n - 1),
            pages[n - 1].page,
            pages[n - 1].streams@,
            pages[n - 1].streams@.len() as int,
            group,
        );
    }
}

proof fn lemma_count_listing(
    counts: Map<(Seq<char>, u64), Seq<(u32, u32)>>,
    page: u64,
    streams: Seq<(String, Option<u32>)>,
    n: int,
    group: u64,
)
    requires
        0 <= n <= streams.len(),
        spec_page_group_start(page) == group,
        forall|key: (Seq<char>, u64)| #[trigger] counts.contains_key(key) ==> key.1 == group,
    ensures
        forall|key: (Seq<char>, u64)| #[trigger]
            count_listing(counts, page, streams, n).contains_key(key) ==> key.1 == group,
    decreases n,
{
    if n > 0 {
        lemma_count_listing(counts, page, streams, n - 1, group);
        let before = count_listing(counts, page, streams, n - 1);
        let after = count_listing(counts, page, streams, n);
        assert forall|key: (Seq<char>, u64)| #[trigger] after.contains_key(key) implies key.1
            == group by {
            assert(before.contains_key(key) ==> key.1 == group);
        }
    }
}

} // verus!
