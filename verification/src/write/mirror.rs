//! Recovery from fragments gives the live state back.
//!
//! While blocks are accumulated, sealed and flushed, the rows written so far
//! mirror the working set; at a flush boundary the mirror is complete, and
//! reading it back rebuilds the state that a checkpoint would carry.

use vstd::prelude::*;

use crate::write::bitmap::{
    spec_page_group_start, spec_page_start_in_group, spec_seal_boundary, PAGE_GROUP_ID_SPAN,
    PAGE_SPAN,
};
use crate::write::durable::{listed, FamilyRows};
use crate::write::engine::track_wf;
use crate::write::index::{is_empty_digest, FamilyState, FamilyTail};
use crate::write::pages::bits_at;
use crate::write::recover::{
    clamped_bits, count_listing, count_listings, ids_valid, is_rebuilt, listing_ok, rebuilt_dir,
    rebuilt_pages, rebuilt_seen, stream_ok, union_bits, unrebuildable, FamilyArtifacts,
    SealedPageListing,
};
use crate::write::seal::count_pairs;
use crate::write::streams::is_stream_id;

verus! {

/// A page holds some id, and its ids lie between two bounds.
pub open spec fn page_within(page: u64, bits: Set<u32>, low: u64, high: u64) -> bool {
    &&& exists|o: u32| #[trigger] bits.contains(o)
    &&& forall|o: u32| #[trigger] bits.contains(o) ==> low <= page + o < high
}

/// Every page belongs to a valid stream, and its ids lie between two bounds.
pub open spec fn pages_within(
    pages: Map<(Seq<char>, u64), Set<u32>>,
    low: u64,
    high: u64,
) -> bool {
    forall|key: (Seq<char>, u64)| #[trigger]
        pages.contains_key(key) ==> is_stream_id(key.0) && page_within(
            key.1,
            pages[key],
            low,
            high,
        )
}

/// Directory entries ascend, cover some id each, and lie between two bounds.
pub open spec fn dir_within(dir: Seq<(u64, u64, u64)>, low: u64, high: u64) -> bool {
    &&& forall|i: int| 0 <= i < dir.len() ==> low <= (#[trigger] dir[i]).1 < dir[i].2 <= high
    &&& forall|i: int, j: int|
        0 <= i < j < dir.len() ==> (#[trigger] dir[i]).2 <= (#[trigger] dir[j]).2
}

/// The directory entries that reach past a seal boundary.
pub open spec fn open_entries(dir: Seq<(u64, u64, u64)>, open: u64) -> Seq<(u64, u64, u64)>
    decreases dir.len(),
{
    if dir.len() == 0 {
        Seq::empty()
    } else if dir.last().2 > open {
        open_entries(dir.drop_last(), open).push(dir.last())
    } else {
        open_entries(dir.drop_last(), open)
    }
}

/// How many pages of a group lie below a seal boundary.
pub open spec fn pages_below_boundary(group: u64, sealed_id: u64) -> int {
    if sealed_id <= group {
        0
    } else {
        (sealed_id - group) / PAGE_SPAN as int
    }
}

/// The page contributes a count to an accumulator entry.
pub open spec fn contributes(rows: FamilyRows, page: u64, key: (Seq<char>, u64)) -> bool {
    key.1 == spec_page_group_start(page) && listed(rows, page).contains(key.0)
}

pub open spec fn pairs_at(
    counts: Map<(Seq<char>, u64), Seq<(u32, u32)>>,
    key: (Seq<char>, u64),
) -> Seq<(u32, u32)> {
    if counts.contains_key(key) {
        counts[key]
    } else {
        Seq::empty()
    }
}

/// The accumulator with one more page, by its inventory and stored counts.
pub open spec fn with_page(
    counts: Map<(Seq<char>, u64), Seq<(u32, u32)>>,
    rows: FamilyRows,
    page: u64,
) -> Map<(Seq<char>, u64), Seq<(u32, u32)>> {
    Map::new(
        |key: (Seq<char>, u64)| counts.contains_key(key) || contributes(rows, page, key),
        |key: (Seq<char>, u64)|
            if contributes(rows, page, key) {
                pairs_at(counts, key).push(
                    (spec_page_start_in_group(page), rows.counts[(key.0, page)]),
                )
            } else {
                counts[key]
            },
    )
}

/// The accumulator that the first `n` pages of a group give.
pub open spec fn stored_counts(rows: FamilyRows, group: u64, n: int) -> Map<
    (Seq<char>, u64),
    Seq<(u32, u32)>,
>
    decreases n,
{
    if n <= 0 {
        Map::empty()
    } else {
        with_page(
            stored_counts(rows, group, n - 1),
            rows,
            (group + (n - 1) * PAGE_SPAN) as u64,
        )
    }
}

/// The fragments of a stream's open page are the state's bits of it.
pub open spec fn fragments_match(rows: FamilyRows, state: FamilyState, id: Seq<char>) -> bool {
    bits_at(rows.fragments, (id, state.sealed_id)) == bits_at(state.bits(), (id, state.sealed_id))
}

/// The rows mirror the state; what the tail adds has ids from `flushed` on,
/// the frontier of the last flush.
pub open spec fn mirrors(
    rows: FamilyRows,
    state: FamilyState,
    tail: FamilyTail,
    flushed: u64,
    frontier: u64,
) -> bool {
    let sealed_id = state.sealed_id;
    let group = spec_page_group_start(sealed_id);
    &&& track_wf(state, tail, frontier)
    &&& flushed <= frontier
    &&& pages_within(state.bits(), 0, flushed)
    &&& pages_within(tail.bits(), flushed, frontier)
    &&& forall|key: (Seq<char>, u64)| #[trigger]
        state.bits().contains_key(key) ==> key.1 == sealed_id
    &&& forall|key: (Seq<char>, u64)| #[trigger]
        rows.fragments.contains_key(key) ==> key.1 <= sealed_id
    &&& forall|id: Seq<char>| #[trigger] fragments_match(rows, state, id)
    &&& forall|page: u64|
        page > sealed_id ==> #[trigger] listed(rows, page) == Set::<Seq<char>>::empty()
    &&& listed(rows, sealed_id) == state.open_streams_seen.set()
    &&& forall|id: Seq<char>| #[trigger]
        state.open_streams_seen.set().contains(id) <==> state.bits().contains_key((id, sealed_id))
    &&& forall|page: u64, id: Seq<char>| #[trigger]
        listed(rows, page).contains(id) ==> is_stream_id(id)
    &&& forall|page: u64, id: Seq<char>|
        page < sealed_id && #[trigger] listed(rows, page).contains(id)
            ==> rows.counts.contains_key((id, page))
    &&& open_entries(rows.dir, sealed_id) == state.dir@
    &&& dir_within(state.dir@, 0, flushed)
    &&& dir_within(tail.dir@, flushed, frontier)
    &&& open_entries(tail.dir@, sealed_id) == tail.dir@
    &&& if sealed_id == 0 {
        is_empty_digest(state.seal_chain)
    } else {
        rows.chains.contains_key((sealed_id - PAGE_SPAN) as u64)
            && rows.chains[(sealed_id - PAGE_SPAN) as u64] == state.seal_chain
    }
    &&& count_pairs(state.sealed_page_counts.map()) == stored_counts(
        rows,
        group,
        pages_below_boundary(group, sealed_id),
    )
}

/// Rows that were written later agree with earlier ones on everything below
/// an id cutoff at which the earlier ones had been flushed.
pub open spec fn agrees_below(earlier: FamilyRows, later: FamilyRows, bound: u64) -> bool {
    let sealed_id = spec_seal_boundary(bound);
    &&& forall|id: Seq<char>, o: u32|
        sealed_id + o < bound ==> (#[trigger] bits_at(later.fragments, (id, sealed_id)).contains(o)
            <==> bits_at(earlier.fragments, (id, sealed_id)).contains(o))
    &&& forall|page: u64|
        page < sealed_id ==> #[trigger] listed(later, page) == listed(earlier, page)
    &&& listed(earlier, sealed_id).subset_of(listed(later, sealed_id))
    &&& forall|page: u64, id: Seq<char>| #[trigger]
        listed(later, page).contains(id) ==> is_stream_id(id)
    &&& forall|key: (Seq<char>, u64)|
        key.1 < sealed_id ==> (#[trigger] later.counts.contains_key(key)
            <==> earlier.counts.contains_key(key)) && later.counts[key] == earlier.counts[key]
    &&& forall|start: u64|
        start < sealed_id ==> (#[trigger] later.chains.contains_key(start)
            <==> earlier.chains.contains_key(start)) && later.chains[start]
            == earlier.chains[start]
    &&& earlier.dir.len() <= later.dir.len()
    &&& later.dir.take(earlier.dir.len() as int) == earlier.dir
    &&& forall|i: int|
        earlier.dir.len() <= i < later.dir.len() ==> (#[trigger] later.dir[i]).1 >= bound
}

/// A listing names the stream.
pub open spec fn names<T>(streams: Seq<(String, T)>, id: Seq<char>) -> bool {
    exists|i: int| 0 <= i < streams.len() && (#[trigger] streams[i]).0@ == id
}

/// A listing names each stream of a set once, and no other.
pub open spec fn lists_once<T>(streams: Seq<(String, T)>, ids: Set<Seq<char>>) -> bool {
    &&& forall|i: int, j: int|
        0 <= i < j < streams.len() ==> (#[trigger] streams[i]).0@ != (#[trigger] streams[j]).0@
    &&& forall|id: Seq<char>| #[trigger] ids.contains(id) <==> names(streams, id)
}

/// The count stored for a page, if it is.
pub open spec fn stored_count(rows: FamilyRows, id: Seq<char>, page: u64) -> Option<u32> {
    if rows.counts.contains_key((id, page)) {
        Some(rows.counts[(id, page)])
    } else {
        None
    }
}

/// What a sealed page's inventory and artifacts read as.
pub open spec fn is_page_listing(rows: FamilyRows, listing: SealedPageListing) -> bool {
    &&& lists_once(listing.streams@, listed(rows, listing.page))
    &&& forall|i: int|
        0 <= i < listing.streams@.len() ==> (#[trigger] listing.streams@[i]).1 == stored_count(
            rows,
            listing.streams@[i].0@,
            listing.page,
        )
}

/// `artifacts` is what reading the rows back at the id cutoff `bound` gives,
/// streams and fragments in any order.
pub open spec fn reads_back(rows: FamilyRows, bound: u64, artifacts: FamilyArtifacts) -> bool {
    let sealed_id = spec_seal_boundary(bound);
    let group = spec_page_group_start(sealed_id);
    &&& sealed_id > 0 ==> artifacts.chain == if rows.chains.contains_key(
        (sealed_id - PAGE_SPAN) as u64,
    ) {
        Some(rows.chains[(sealed_id - PAGE_SPAN) as u64])
    } else {
        None
    }
    &&& artifacts.sealed_pages@.len() == pages_below_boundary(group, sealed_id)
    &&& forall|i: int|
        0 <= i < artifacts.sealed_pages@.len() ==> (#[trigger] artifacts.sealed_pages@[i]).page
            == group + i * PAGE_SPAN && is_page_listing(rows, artifacts.sealed_pages@[i])
    &&& lists_once(artifacts.streams@, listed(rows, sealed_id))
    &&& forall|i: int|
        0 <= i < artifacts.streams@.len() ==> union_bits((#[trigger] artifacts.streams@[i]).1@)
            == bits_at(rows.fragments, (artifacts.streams@[i].0@, sealed_id))
    &&& artifacts.dir@ == open_entries(rows.dir, sealed_id)
}

/// Two states hold the same, but for the inventoried streams.
pub open spec fn same_state(a: FamilyState, b: FamilyState) -> bool {
    &&& a.bits() == b.bits()
    &&& a.dir@ == b.dir@
    &&& a.sealed_id == b.sealed_id
    &&& a.seal_chain == b.seal_chain
    &&& count_pairs(a.sealed_page_counts.map()) == count_pairs(b.sealed_page_counts.map())
}

proof fn lemma_names_drop_last<T>(streams: Seq<(String, T)>, id: Seq<char>)
    requires
        streams.len() > 0,
    ensures
        names(streams, id) <==> names(streams.drop_last(), id) || streams.last().0@ == id,
{
    let rest = streams.drop_last();
    if names(rest, id) {
        let i = choose|i: int| 0 <= i < rest.len() && (#[trigger] rest[i]).0@ == id;
        assert(streams[i].0@ == id);
    }
    if names(streams, id) && streams.last().0@ != id {
        let i = choose|i: int| 0 <= i < streams.len() && (#[trigger] streams[i]).0@ == id;
        assert(rest[i].0@ == id);
    }
    if streams.last().0@ == id {
        assert(streams[streams.len() - 1].0@ == id);
    }
}

/// A page's listing adds what its inventory and counts add.
proof fn lemma_count_listing(
    counts: Map<(Seq<char>, u64), Seq<(u32, u32)>>,
    page: u64,
    streams: Seq<(String, Option<u32>)>,
    n: int,
    key: (Seq<char>, u64),
)
    requires
        0 <= n <= streams.len(),
        forall|i: int, j: int|
            0 <= i < j < streams.len() ==> (#[trigger] streams[i]).0@ != (#[trigger] streams[j]).0@,
    ensures
        ({
            let after = count_listing(counts, page, streams, n);
            let own = key.1 == spec_page_group_start(page) && names(streams.take(n), key.0);
            &&& after.contains_key(key) <==> counts.contains_key(key) || own
            &&& !own ==> after[key] == counts[key]
            &&& forall|i: int|
                0 <= i < n && key == ((#[trigger] streams[i]).0@, spec_page_group_start(page))
                    ==> after[key] == pairs_at(counts, key).push(
                    (spec_page_start_in_group(page), streams[i].1->Some_0),
                )
        }),
    decreases n,
{
    if n > 0 {
        lemma_count_listing(counts, page, streams, n - 1, key);
        assert(streams.take(n).drop_last() =~= streams.take(n - 1));
        lemma_names_drop_last(streams.take(n), key.0);
        if key == (streams[n - 1].0@, spec_page_group_start(page)) {
            assert(!names(streams.take(n - 1), key.0)) by {
                if names(streams.take(n - 1), key.0) {
                    let i = choose|i: int|
                        0 <= i < n - 1 && (#[trigger] streams.take(n - 1)[i]).0@ == key.0;
                    assert(streams[i].0@ != streams[n - 1].0@);
                }
            }
        }
    }
}

proof fn lemma_page_listing(
    rows: FamilyRows,
    counts: Map<(Seq<char>, u64), Seq<(u32, u32)>>,
    listing: SealedPageListing,
)
    requires
        is_page_listing(rows, listing),
        listing_ok(listing),
    ensures
        count_listing(counts, listing.page, listing.streams@, listing.streams@.len() as int)
            == with_page(counts, rows, listing.page),
{
    let streams = listing.streams@;
    let n = streams.len() as int;
    let page = listing.page;
    let left = count_listing(counts, page, streams, n);
    let right = with_page(counts, rows, page);
    assert(streams.take(n) =~= streams);
    assert forall|key: (Seq<char>, u64)|
        (#[trigger] left.contains_key(key) <==> right.contains_key(key)) && (right.contains_key(key)
            ==> left[key] == right[key]) by {
        lemma_count_listing(counts, page, streams, n, key);
        assert(listed(rows, page).contains(key.0) <==> names(streams, key.0));
        if contributes(rows, page, key) {
            let i = choose|i: int| 0 <= i < n && (#[trigger] streams[i]).0@ == key.0;
            assert(stream_ok(streams[i]));
            assert(streams[i].1 == stored_count(rows, streams[i].0@, page));
            assert(key == (streams[i].0@, spec_page_group_start(page)));
        }
    }
    assert(left =~= right);
}

/// Two stores with the same inventories and counts below a page give the same
/// accumulator.
pub proof fn lemma_stored_counts_agree(
    a: FamilyRows,
    b: FamilyRows,
    group: u64,
    n: int,
    bound: u64,
)
    requires
        group + n * PAGE_SPAN <= bound,
        forall|page: u64| page < bound ==> #[trigger] listed(a, page) == listed(b, page),
        forall|key: (Seq<char>, u64)| key.1 < bound ==> #[trigger] a.counts[key] == b.counts[key],
    ensures
        stored_counts(a, group, n) == stored_counts(b, group, n),
    decreases n,
{
    if n > 0 {
        lemma_stored_counts_agree(a, b, group, n - 1, bound);
        let page = (group + (n - 1) * PAGE_SPAN) as u64;
        assert(page < bound);
        assert(listed(a, page) == listed(b, page));
        let base = stored_counts(a, group, n - 1);
        let left = with_page(base, a, page);
        let right = with_page(base, b, page);
        assert forall|key: (Seq<char>, u64)| #[trigger] left.contains_key(key) implies left[key]
            == right[key] by {
            assert(a.counts[(key.0, page)] == b.counts[(key.0, page)]);
        }
        assert(left =~= right);
    }
}

proof fn lemma_listings(
    rows: FamilyRows,
    pages: Seq<SealedPageListing>,
    group: u64,
    n: int,
)
    requires
        0 <= n <= pages.len(),
        group + pages.len() * PAGE_SPAN <= u64::MAX,
        forall|i: int|
            0 <= i < pages.len() ==> (#[trigger] pages[i]).page == group + i * PAGE_SPAN
                && is_page_listing(rows, pages[i]) && listing_ok(pages[i]),
    ensures
        count_listings(pages, n) == stored_counts(rows, group, n),
    decreases n,
{
    if n > 0 {
        lemma_listings(rows, pages, group, n - 1);
        lemma_page_listing(rows, stored_counts(rows, group, n - 1), pages[n - 1]);
    }
}

/// Rebuilt pages by key.
proof fn lemma_rebuilt_pages(
    streams: Seq<(String, Vec<roaring::RoaringBitmap>)>,
    n: int,
    page: u64,
    cutoff: u32,
    key: (Seq<char>, u64),
)
    requires
        0 <= n <= streams.len(),
        forall|i: int, j: int|
            0 <= i < j < streams.len() ==> (#[trigger] streams[i]).0@ != (#[trigger] streams[j]).0@,
    ensures
        ({
            let pages = rebuilt_pages(streams, n, page, cutoff);
            &&& pages.contains_key(key) ==> key.1 == page && names(streams.take(n), key.0)
            &&& forall|i: int|
                0 <= i < n && key == ((#[trigger] streams[i]).0@, page) ==> {
                    let bits = clamped_bits(streams[i].1@, cutoff);
                    &&& pages.contains_key(key) <==> bits != Set::<u32>::empty()
                    &&& pages.contains_key(key) ==> pages[key] == bits
                }
        }),
    decreases n,
{
    if n > 0 {
        lemma_rebuilt_pages(streams, n - 1, page, cutoff, key);
        assert(streams.take(n).drop_last() =~= streams.take(n - 1));
        lemma_names_drop_last(streams.take(n), key.0);
        if key == (streams[n - 1].0@, page) && names(streams.take(n - 1), key.0) {
            let i = choose|i: int|
                0 <= i < n - 1 && (#[trigger] streams.take(n - 1)[i]).0@ == key.0;
            assert(streams[i].0@ != streams[n - 1].0@);
        }
    }
}

proof fn lemma_rebuilt_seen(
    streams: Seq<(String, Vec<roaring::RoaringBitmap>)>,
    n: int,
    id: Seq<char>,
)
    requires
        0 <= n <= streams.len(),
    ensures
        rebuilt_seen(streams, n).contains(id) <==> names(streams.take(n), id),
    decreases n,
{
    if n > 0 {
        lemma_rebuilt_seen(streams, n - 1, id);
        assert(streams.take(n).drop_last() =~= streams.take(n - 1));
        lemma_names_drop_last(streams.take(n), id);
    }
}

/// Entries below the cutoff come back, those above are dropped.
proof fn lemma_rebuilt_dir(
    earlier: Seq<(u64, u64, u64)>,
    later: Seq<(u64, u64, u64)>,
    open: u64,
    bound: u64,
)
    requires
        earlier.len() <= later.len(),
        later.take(earlier.len() as int) == earlier,
        forall|i: int| earlier.len() <= i < later.len() ==> (#[trigger] later[i]).1 >= bound,
        dir_within(open_entries(earlier, open), 0, bound),
    ensures
        rebuilt_dir(open_entries(later, open), bound) == open_entries(earlier, open),
    decreases later.len(),
{
    if later.len() == earlier.len() {
        assert(later =~= earlier);
        lemma_rebuilt_dir_keeps(open_entries(earlier, open), bound);
    } else {
        let rest = later.drop_last();
        assert(rest.take(earlier.len() as int) =~= earlier);
        assert forall|i: int| earlier.len() <= i < rest.len() implies (#[trigger] rest[i]).1
            >= bound by {
            assert(later[i].1 >= bound);
        }
        lemma_rebuilt_dir(earlier, rest, open, bound);
        assert(later[later.len() - 1].1 >= bound);
        let kept = open_entries(rest, open);
        assert(kept.push(later.last()).drop_last() =~= kept);
    }
}

proof fn lemma_rebuilt_dir_keeps(dir: Seq<(u64, u64, u64)>, bound: u64)
    requires
        forall|i: int| 0 <= i < dir.len() ==> (#[trigger] dir[i]).1 < dir[i].2 <= bound,
    ensures
        rebuilt_dir(dir, bound) == dir,
    decreases dir.len(),
{
    if dir.len() > 0 {
        let rest = dir.drop_last();
        assert forall|i: int| 0 <= i < rest.len() implies (#[trigger] rest[i]).1 < rest[i].2
            <= bound by {
            assert(dir[i].2 <= bound);
        }
        lemma_rebuilt_dir_keeps(rest, bound);
        assert(dir[dir.len() - 1] == dir.last());
        assert(rest.push(dir.last()) =~= dir);
    }
}

/// The sealed pages of the open group read back as they were counted.
proof fn lemma_sealed_pages_read_back(
    rows: FamilyRows,
    later: FamilyRows,
    state: FamilyState,
    tail: FamilyTail,
    bound: u64,
    artifacts: FamilyArtifacts,
)
    requires
        mirrors(rows, state, tail, bound, bound),
        state.sealed_id == spec_seal_boundary(bound),
        agrees_below(rows, later, bound),
        reads_back(later, bound, artifacts),
    ensures
        forall|i: int|
            0 <= i < artifacts.sealed_pages@.len() ==> listing_ok(
                #[trigger] artifacts.sealed_pages@[i],
            ),
        count_listings(artifacts.sealed_pages@, artifacts.sealed_pages@.len() as int)
            == count_pairs(state.sealed_page_counts.map()),
{
    let sealed_id = state.sealed_id;
    let group = spec_page_group_start(sealed_id);
    let n = pages_below_boundary(group, sealed_id);
    assert(group + n * PAGE_SPAN == sealed_id) by {
        assert(sealed_id % PAGE_SPAN == 0);
        assert(PAGE_GROUP_ID_SPAN % PAGE_SPAN == 0);
        assert(group % PAGE_SPAN == 0);
    }
    assert forall|i: int| 0 <= i < artifacts.sealed_pages@.len() implies listing_ok(
        #[trigger] artifacts.sealed_pages@[i],
    ) by {
        let listing = artifacts.sealed_pages@[i];
        assert(listing.page < sealed_id) by {
            assert(listing.page == group + i * PAGE_SPAN);
        }
        assert forall|k: int| 0 <= k < listing.streams@.len() implies stream_ok(
            #[trigger] listing.streams@[k],
        ) by {
            let id = listing.streams@[k].0@;
            assert(names(listing.streams@, id));
            assert(listed(later, listing.page).contains(id));
            assert(listed(rows, listing.page).contains(id));
            assert(later.counts.contains_key((id, listing.page)));
        }
    }
    lemma_listings(later, artifacts.sealed_pages@, group, n);
    assert forall|key: (Seq<char>, u64)| key.1 < sealed_id implies #[trigger] later.counts[key]
        == rows.counts[key] by {
        assert(later.counts.contains_key(key) <==> rows.counts.contains_key(key));
    }
    lemma_stored_counts_agree(later, rows, group, n, sealed_id);
}

/// The open page and bucket read back as they were flushed.
proof fn lemma_open_granule_reads_back(
    rows: FamilyRows,
    later: FamilyRows,
    state: FamilyState,
    tail: FamilyTail,
    bound: u64,
    artifacts: FamilyArtifacts,
)
    requires
        mirrors(rows, state, tail, bound, bound),
        state.sealed_id == spec_seal_boundary(bound),
        bound > state.sealed_id,
        agrees_below(rows, later, bound),
        reads_back(later, bound, artifacts),
    ensures
        ({
            let streams = artifacts.streams@;
            let n = streams.len() as int;
            &&& rebuilt_pages(streams, n, state.sealed_id, (bound - state.sealed_id) as u32)
                == state.bits()
            &&& rebuilt_seen(streams, n) == listed(later, state.sealed_id)
            &&& rebuilt_dir(artifacts.dir@, bound) == state.dir@
        }),
{
    let sealed_id = state.sealed_id;
    let streams = artifacts.streams@;
    let n = streams.len() as int;
    let cutoff = (bound - sealed_id) as u32;
    let left = rebuilt_pages(streams, n, sealed_id, cutoff);
    let right = state.bits();
    assert(streams.take(n) =~= streams);
    assert forall|key: (Seq<char>, u64)|
        (#[trigger] left.contains_key(key) <==> right.contains_key(key)) && (right.contains_key(key)
            ==> left[key] == right[key]) by {
        lemma_rebuilt_pages(streams, n, sealed_id, cutoff, key);
        lemma_open_page(rows, later, state, tail, bound, artifacts, key);
    }
    assert(left =~= right);
    assert forall|id: Seq<char>| #[trigger]
        rebuilt_seen(streams, n).contains(id) <==> listed(later, sealed_id).contains(id) by {
        lemma_rebuilt_seen(streams, n, id);
    }
    assert(rebuilt_seen(streams, n) =~= listed(later, sealed_id));
    lemma_rebuilt_dir(rows.dir, later.dir, sealed_id, bound);
}

/// An empty open granule holds nothing.
proof fn lemma_empty_granule(rows: FamilyRows, state: FamilyState, tail: FamilyTail, bound: u64)
    requires
        mirrors(rows, state, tail, bound, bound),
        bound == state.sealed_id,
    ensures
        state.bits() == Map::<(Seq<char>, u64), Set<u32>>::empty(),
        state.open_streams_seen.set() == Set::<Seq<char>>::empty(),
        state.dir@.len() == 0,
{
    assert forall|key: (Seq<char>, u64)| !(#[trigger] state.bits().contains_key(key)) by {
        if state.bits().contains_key(key) {
            let bits = state.bits()[key];
            let o = choose|o: u32| #[trigger] bits.contains(o);
            assert(key.1 + o < bound);
        }
    }
    assert(state.bits() =~= Map::empty());
    assert(state.open_streams_seen.set() =~= Set::empty());
    if state.dir@.len() > 0 {
        lemma_open_entries(rows.dir, state.sealed_id, 0);
        assert(state.dir@[0].2 <= bound);
    }
}

/// Rebuilding at a flush boundary gives the live state back. The rows may hold
/// more than the boundary covers, since the index can run ahead of the
/// published head: what lies above the cutoff is clamped away, and only the
/// set of inventoried streams may then be larger than it was.
pub proof fn law_rebuild_gives_the_state_back(
    rows: FamilyRows,
    later: FamilyRows,
    state: FamilyState,
    tail: FamilyTail,
    bound: u64,
    artifacts: FamilyArtifacts,
    rebuilt: FamilyState,
)
    requires
        mirrors(rows, state, tail, bound, bound),
        state.sealed_id == spec_seal_boundary(bound),
        agrees_below(rows, later, bound),
        reads_back(later, bound, artifacts),
        is_rebuilt(artifacts, bound, rebuilt),
    ensures
        !unrebuildable(artifacts, bound),
        same_state(rebuilt, state),
        bound > state.sealed_id ==> state.open_streams_seen.set().subset_of(
            rebuilt.open_streams_seen.set(),
        ),
        later == rows ==> rebuilt.open_streams_seen.set() == state.open_streams_seen.set(),
{
    let sealed_id = state.sealed_id;
    let streams = artifacts.streams@;
    lemma_sealed_pages_read_back(rows, later, state, tail, bound, artifacts);
    if sealed_id > 0 {
        let span = (sealed_id - PAGE_SPAN) as u64;
        assert(later.chains.contains_key(span));
        assert(artifacts.chain == Some(rows.chains[span]));
    }
    assert(rebuilt.seal_chain =~= state.seal_chain);
    assert(ids_valid(streams)) by {
        assert forall|i: int| 0 <= i < streams.len() implies is_stream_id(
            (#[trigger] streams[i]).0@,
        ) by {
            assert(names(streams, streams[i].0@));
            assert(listed(later, sealed_id).contains(streams[i].0@));
        }
    }
    if bound > sealed_id {
        lemma_open_granule_reads_back(rows, later, state, tail, bound, artifacts);
    } else {
        lemma_empty_granule(rows, state, tail, bound);
        assert(rebuilt.dir@ =~= state.dir@);
    }
}

pub proof fn lemma_open_entries(dir: Seq<(u64, u64, u64)>, open: u64, i: int)
    requires
        0 <= i < open_entries(dir, open).len(),
    ensures
        open_entries(dir, open)[i].2 > open,
    decreases dir.len(),
{
    if i < open_entries(dir.drop_last(), open).len() {
        lemma_open_entries(dir.drop_last(), open, i);
    }
}

/// A stream's open page as rebuilt and as it was.
proof fn lemma_open_page(
    rows: FamilyRows,
    later: FamilyRows,
    state: FamilyState,
    tail: FamilyTail,
    bound: u64,
    artifacts: FamilyArtifacts,
    key: (Seq<char>, u64),
)
    requires
        mirrors(rows, state, tail, bound, bound),
        state.sealed_id == spec_seal_boundary(bound),
        bound > state.sealed_id,
        agrees_below(rows, later, bound),
        reads_back(later, bound, artifacts),
    ensures
        state.bits().contains_key(key) ==> key.1 == state.sealed_id && names(
            artifacts.streams@,
            key.0,
        ),
        forall|i: int|
            0 <= i < artifacts.streams@.len() && key == (
                (#[trigger] artifacts.streams@[i]).0@,
                state.sealed_id,
            ) ==> {
                let bits = clamped_bits(artifacts.streams@[i].1@, (bound - state.sealed_id) as u32);
                &&& state.bits().contains_key(key) <==> bits != Set::<u32>::empty()
                &&& state.bits().contains_key(key) ==> state.bits()[key] == bits
            },
{
    let sealed_id = state.sealed_id;
    let cutoff = (bound - sealed_id) as u32;
    if state.bits().contains_key(key) {
        assert(state.open_streams_seen.set().contains(key.0));
        assert(listed(later, sealed_id).contains(key.0));
    }
    assert forall|i: int|
        0 <= i < artifacts.streams@.len() && key == (
            (#[trigger] artifacts.streams@[i]).0@,
            sealed_id,
        ) implies {
        let bits = clamped_bits(artifacts.streams@[i].1@, cutoff);
        &&& state.bits().contains_key(key) <==> bits != Set::<u32>::empty()
        &&& state.bits().contains_key(key) ==> state.bits()[key] == bits
    } by {
        let bits = clamped_bits(artifacts.streams@[i].1@, cutoff);
        let live = bits_at(state.bits(), key);
        assert(fragments_match(rows, state, key.0));
        assert forall|o: u32| #[trigger] bits.contains(o) <==> live.contains(o) by {
            assert(bits.contains(o) <==> o < cutoff && bits_at(later.fragments, key).contains(o));
            if live.contains(o) {
                assert(page_within(key.1, state.bits()[key], 0, bound));
                assert(sealed_id + o < bound);
            }
            if o < cutoff {
                assert(sealed_id + o < bound);
                assert(bits_at(later.fragments, (key.0, sealed_id)).contains(o) <==> bits_at(
                    rows.fragments,
                    (key.0, sealed_id),
                ).contains(o));
            }
        }
        assert(bits =~= live);
        if state.bits().contains_key(key) {
            let o = choose|o: u32| #[trigger] state.bits()[key].contains(o);
            assert(bits.contains(o));
        }
    }
}

} // verus!
