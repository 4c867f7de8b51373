//! Sealing: completed pages and buckets leave the open working set.
//!
//! A seal takes everything below the frontier's boundary out of the state and
//! the tail together, span by span. What it emits depends on the union of the
//! two only, never on how often the tail was flushed before.

use vstd::prelude::*;

use crate::errors::Result;
use crate::text::name_lt;
use crate::write::bitmap::{
    bitmap_bits, describes, in_page, page_group_start, page_meta, page_start_in_group,
    seal_boundary, spec_page_group_start, spec_page_start_in_group, spec_seal_boundary,
    BitmapPageMeta, BUCKET_SPAN, PAGE_SPAN,
};
use crate::write::dir::{
    bucket_fails, drop_sealed, is_compaction, overlapping, seal_family_dir, span_starts,
    PrimaryDirBucket,
};
use crate::write::index::{ChainDigest, FamilyState, FamilyTail, SealedPageCounts};
use crate::write::pages::{
    join_pages, joined, lemma_joined_wf, lemma_part_bits, lemma_part_joined, page_bits, pages_wf,
    PageMap,
};
use crate::write::streams::{
    entries_map, entry_key, from_on, has_key, key_index, key_lt, lemma_entry, lemma_entry_update,
    starts_below, StreamKey, StreamMap, StreamSet,
};

verus! {

/// A page of one stream, complete.
pub struct SealedPage {
    pub stream: StreamKey,
    pub meta: BitmapPageMeta,
    pub bitmap: roaring::RoaringBitmap,
}

/// One span of ids, complete: its pages by stream id, its directory bucket,
/// and the seal chain through it.
pub struct SealedSpan {
    pub start: u64,
    pub pages: Vec<SealedPage>,
    pub bucket: PrimaryDirBucket,
    pub chain: ChainDigest,
}

/// One `(stream, page group)` row of the page-count manifest.
pub struct PageCountsRow {
    pub stream: StreamKey,
    pub group_start: u64,
    pub pairs: Vec<(u32, u32)>,
}

/// What one seal emits.
pub struct SealBurst {
    pub spans: Vec<SealedSpan>,
    pub manifest: Vec<PageCountsRow>,
}

/// A page of a stream at `start` is among `all`.
pub open spec fn is_page(
    all: Map<(Seq<char>, u64), Set<u32>>,
    id: Seq<char>,
    start: u64,
) -> bool {
    all.contains_key((id, start))
}

/// The page is the one that `all` holds for its stream at `start`.
pub open spec fn holds_page(
    page: SealedPage,
    all: Map<(Seq<char>, u64), Set<u32>>,
    start: u64,
) -> bool {
    &&& is_page(all, page.stream@, start)
    &&& bitmap_bits(page.bitmap) == all[(page.stream@, start)]
    &&& describes(page.meta, all[(page.stream@, start)])
}

/// A page of the stream is listed.
pub open spec fn lists_stream(pages: Seq<SealedPage>, id: Seq<char>) -> bool {
    exists|i: int| 0 <= i < pages.len() && (#[trigger] pages[i]).stream@ == id
}

/// Streams ascend by id.
pub open spec fn streams_ascend(pages: Seq<SealedPage>) -> bool {
    forall|i: int, j: int|
        0 <= i < j < pages.len() ==> name_lt(
            (#[trigger] pages[i]).stream@,
            (#[trigger] pages[j]).stream@,
        )
}

/// `pages` are exactly the pages that `all` holds at `start`, by stream id.
pub open spec fn lists_span(
    pages: Seq<SealedPage>,
    all: Map<(Seq<char>, u64), Set<u32>>,
    start: u64,
) -> bool {
    &&& streams_ascend(pages)
    &&& forall|i: int| 0 <= i < pages.len() ==> holds_page(#[trigger] pages[i], all, start)
    &&& forall|id: Seq<char>| #[trigger] is_page(all, id, start) ==> lists_stream(pages, id)
}

/// The pairs of each accumulator entry.
pub open spec fn count_pairs(map: Map<(Seq<char>, u64), Vec<(u32, u32)>>) -> Map<
    (Seq<char>, u64),
    Seq<(u32, u32)>,
> {
    map.map_values(|pairs: Vec<(u32, u32)>| pairs@)
}

/// The accumulator with one more sealed page.
pub open spec fn add_count(
    counts: Map<(Seq<char>, u64), Seq<(u32, u32)>>,
    id: Seq<char>,
    page: u64,
    count: u32,
) -> Map<(Seq<char>, u64), Seq<(u32, u32)>> {
    let key = (id, spec_page_group_start(page));
    let pairs = if counts.contains_key(key) {
        counts[key]
    } else {
        Seq::empty()
    };
    counts.insert(key, pairs.push((spec_page_start_in_group(page), count)))
}

/// The accumulator after the pages of one span.
pub open spec fn count_pages(
    counts: Map<(Seq<char>, u64), Seq<(u32, u32)>>,
    pages: Seq<SealedPage>,
    start: u64,
) -> Map<(Seq<char>, u64), Seq<(u32, u32)>>
    decreases pages.len(),
{
    if pages.len() == 0 {
        counts
    } else {
        add_count(
            count_pages(counts, pages.drop_last(), start),
            pages.last().stream@,
            start,
            pages.last().meta.count,
        )
    }
}

/// The accumulator after several spans.
pub open spec fn count_spans(
    counts: Map<(Seq<char>, u64), Seq<(u32, u32)>>,
    spans: Seq<SealedSpan>,
) -> Map<(Seq<char>, u64), Seq<(u32, u32)>>
    decreases spans.len(),
{
    if spans.len() == 0 {
        counts
    } else {
        count_pages(
            count_spans(counts, spans.drop_last()),
            spans.last().pages@,
            spans.last().start,
        )
    }
}

/// The chain value that span `k` continues.
pub open spec fn chain_before(spans: Seq<SealedSpan>, k: int, seed: ChainDigest) -> ChainDigest {
    if k == 0 {
        seed
    } else {
        spans[k - 1].chain
    }
}

/// Span `k` seals what `all` and the directory chain hold at its start, and
/// its chain value folds exactly its own pages and bucket.
pub open spec fn is_span<
    F: Fn(ChainDigest, u64, &Vec<SealedPage>, &PrimaryDirBucket) -> ChainDigest,
>(
    spans: Seq<SealedSpan>,
    k: int,
    start: u64,
    all: Map<(Seq<char>, u64), Set<u32>>,
    dir: Seq<(u64, u64, u64)>,
    seed: ChainDigest,
    fold: F,
) -> bool {
    let span = spans[k];
    &&& span.start == start
    &&& lists_span(span.pages@, all, start)
    &&& is_compaction(overlapping(dir, start), Ok(span.bucket))
    &&& call_ensures(
        fold,
        (chain_before(spans, k, seed), start, &span.pages, &span.bucket),
        span.chain,
    )
}

/// A manifest row holds the accumulated pairs of its stream and group.
pub open spec fn is_row(
    row: PageCountsRow,
    counted: Map<(Seq<char>, u64), Seq<(u32, u32)>>,
) -> bool {
    &&& counted.contains_key((row.stream@, row.group_start))
    &&& row.pairs@ == counted[(row.stream@, row.group_start)]
}

/// A manifest row exists for the key.
pub open spec fn lists_row(rows: Seq<PageCountsRow>, key: (Seq<char>, u64)) -> bool {
    exists|i: int|
        0 <= i < rows.len() && ((#[trigger] rows[i]).stream@, rows[i].group_start) == key
}

/// `rows` are exactly the accumulator entries of the groups below `bound`, in
/// key order.
pub open spec fn is_manifest(
    rows: Seq<PageCountsRow>,
    counted: Map<(Seq<char>, u64), Seq<(u32, u32)>>,
    bound: u64,
) -> bool {
    &&& forall|i: int, j: int|
        0 <= i < j < rows.len() ==> key_lt(
            ((#[trigger] rows[i]).stream@, rows[i].group_start),
            ((#[trigger] rows[j]).stream@, rows[j].group_start),
        )
    &&& forall|i: int|
        0 <= i < rows.len() ==> is_row(#[trigger] rows[i], counted) && rows[i].group_start < bound
    &&& forall|key: (Seq<char>, u64)| #[trigger]
        counted.contains_key(key) && key.1 < bound ==> lists_row(rows, key)
}

/// Accumulated counts belong to the page group that is open at `sealed_id`.
pub open spec fn counts_open(
    counts: Map<(Seq<char>, u64), Vec<(u32, u32)>>,
    sealed_id: u64,
) -> bool {
    forall|key: (Seq<char>, u64)| #[trigger]
        counts.contains_key(key) ==> key.1 == spec_page_group_start(sealed_id)
}

/// The working set of one family is in order: ordered maps, pages aligned and
/// open, counts of the open group only.
pub open spec fn family_wf(state: FamilyState, tail: FamilyTail) -> bool {
    &&& state.pages.wf()
    &&& tail.pages.wf()
    &&& state.sealed_page_counts.wf()
    &&& state.sealed_id % PAGE_SPAN == 0
    &&& pages_wf(state.bits(), state.sealed_id)
    &&& pages_wf(tail.bits(), state.sealed_id)
    &&& counts_open(state.sealed_page_counts.map(), state.sealed_id)
}

/// The spans of a burst.
pub open spec fn are_spans<
    F: Fn(ChainDigest, u64, &Vec<SealedPage>, &PrimaryDirBucket) -> ChainDigest,
>(
    spans: Seq<SealedSpan>,
    starts: Seq<u64>,
    all: Map<(Seq<char>, u64), Set<u32>>,
    dir: Seq<(u64, u64, u64)>,
    seed: ChainDigest,
    fold: F,
) -> bool {
    &&& spans.len() == starts.len()
    &&& forall|k: int|
        0 <= k < starts.len() ==> #[trigger] is_span(spans, k, starts[k], all, dir, seed, fold)
}

/// What a seal at a frontier emits for a working set.
pub open spec fn is_burst<
    F: Fn(ChainDigest, u64, &Vec<SealedPage>, &PrimaryDirBucket) -> ChainDigest,
>(
    state: FamilyState,
    tail: FamilyTail,
    frontier: u64,
    fold: F,
    burst: SealBurst,
) -> bool {
    let from = state.sealed_id;
    let open = spec_seal_boundary(frontier);
    let counted = count_spans(count_pairs(state.sealed_page_counts.map()), burst.spans@);
    &&& are_spans(
        burst.spans@,
        span_starts(from, open),
        joined(state.bits(), tail.bits()),
        state.dir@ + tail.dir@,
        state.seal_chain,
        fold,
    )
    &&& if spec_page_group_start(from) < spec_page_group_start(open) {
        is_manifest(burst.manifest@, counted, spec_page_group_start(open))
    } else {
        burst.manifest@.len() == 0
    }
}

/// What a seal that emitted `burst` leaves behind.
pub open spec fn is_left(
    state: FamilyState,
    tail: FamilyTail,
    frontier: u64,
    burst: SealBurst,
    state_after: FamilyState,
    tail_after: FamilyTail,
) -> bool {
    let from = state.sealed_id;
    let open = spec_seal_boundary(frontier);
    let counted = count_spans(count_pairs(state.sealed_page_counts.map()), burst.spans@);
    if open <= from {
        state_after == state && tail_after == tail
    } else {
        &&& state_after.bits() == from_on(state.bits(), open)
        &&& tail_after.bits() == from_on(tail.bits(), open)
        &&& state_after.dir@ == drop_sealed(state.dir@, open)
        &&& tail_after.dir@ == if state_after.dir@.len() == 0 {
            drop_sealed(tail.dir@, open)
        } else {
            tail.dir@
        }
        &&& state_after.sealed_id == open
        &&& state_after.open_streams_seen.set() == Set::<Seq<char>>::empty()
        &&& state_after.seal_chain == burst.spans@.last().chain
        &&& count_pairs(state_after.sealed_page_counts.map()) == if spec_page_group_start(from)
            < spec_page_group_start(open) {
            from_on(counted, spec_page_group_start(open))
        } else {
            counted
        }
    }
}

/// Counts a sealed page under its stream and group.
pub fn push_count(counts: &mut SealedPageCounts, stream: &StreamKey, page: u64, count: u32)
    requires
        old(counts).wf(),
    ensures
        final(counts).wf(),
        count_pairs(final(counts).map()) == add_count(
            count_pairs(old(counts).map()),
            stream@,
            page,
            count,
        ),
{
    let ghost before = counts.map();
    let group: u64 = page_group_start(page);
    let pair: (u32, u32) = (page_start_in_group(page), count);
    let at: usize = counts.slot(stream, group, Vec::new());
    let ghost middle = counts.entries@;
    proof {
        lemma_entry(middle, at as int);
    }
    counts.entries[at].value.push(pair);
    proof {
        lemma_entry_update(middle, counts.entries@, at as int);
        let key = (stream@, group);
        assert(count_pairs(counts.map()) =~= add_count(count_pairs(before), stream@, page, count));
    }
}

/// Turns the pages of one span into sealed pages and counts them.
fn seal_pages(entries: PageMap, start: u64, counts: &mut SealedPageCounts) -> (pages: Vec<
    SealedPage,
>)
    requires
        entries.wf(),
        forall|i: int|
            0 <= i < entries.entries@.len() ==> (#[trigger] entries.entries@[i]).start == start
                && in_page(bitmap_bits(entries.entries@[i].value)),
        old(counts).wf(),
    ensures
        lists_span(pages@, page_bits(entries.map()), start),
        final(counts).wf(),
        count_pairs(final(counts).map()) == count_pages(
            count_pairs(old(counts).map()),
            pages@,
            start,
        ),
{
    let ghost all = entries.entries@;
    let ghost map = entries.map();
    let ghost before = count_pairs(counts.map());
    let mut pages: Vec<SealedPage> = Vec::new();
    for entry in iter: entries.entries
        invariant
            iter.seq() == all,
            map == entries_map(all),
            crate::write::streams::keys_sorted(all),
            forall|i: int|
                0 <= i < all.len() ==> (#[trigger] all[i]).start == start && in_page(
                    bitmap_bits(all[i].value),
                ),
            pages@.len() == iter.index(),
            forall|i: int|
                0 <= i < pages@.len() ==> (#[trigger] pages@[i]).stream@ == all[i].stream@
                    && holds_page(pages@[i], page_bits(map), start),
            counts.wf(),
            count_pairs(counts.map()) == count_pages(before, pages@, start),
    {
        proof {
            let n = iter.index() as int;
            assert(entry == all[n]);
            lemma_entry(all, n);
        }
        let meta = page_meta(&entry.value);
        push_count(counts, &entry.stream, start, meta.count);
        let ghost held = pages@;
        pages.push(SealedPage { stream: entry.stream, meta, bitmap: entry.value });
        assert(pages@.drop_last() =~= held);
    }
    proof {
        assert forall|i: int, j: int| 0 <= i < j < pages@.len() implies name_lt(
            (#[trigger] pages@[i]).stream@,
            (#[trigger] pages@[j]).stream@,
        ) by {
            assert(key_lt(entry_key(all[i]), entry_key(all[j])));
        }
        assert forall|id: Seq<char>| #[trigger] is_page(page_bits(map), id, start) implies lists_stream(
            pages@,
            id,
        ) by {
            assert(has_key(all, (id, start)));
            let i = key_index(all, (id, start));
            assert(entry_key(all[i]) == (id, start));
            assert(pages@[i].stream@ == id);
        }
    }
    pages
}

/// Reads off a manifest from accumulator entries.
fn manifest_rows(counts: SealedPageCounts) -> (rows: Vec<PageCountsRow>)
    requires
        counts.wf(),
    ensures
        forall|i: int, j: int|
            0 <= i < j < rows@.len() ==> key_lt(
                ((#[trigger] rows@[i]).stream@, rows@[i].group_start),
                ((#[trigger] rows@[j]).stream@, rows@[j].group_start),
            ),
        forall|i: int|
            0 <= i < rows@.len() ==> is_row(#[trigger] rows@[i], count_pairs(counts.map())),
        forall|key: (Seq<char>, u64)| #[trigger]
            counts.map().contains_key(key) ==> lists_row(rows@, key),
{
    let ghost all = counts.entries@;
    let ghost map = counts.map();
    let mut rows: Vec<PageCountsRow> = Vec::new();
    for entry in iter: counts.entries
        invariant
            iter.seq() == all,
            map == entries_map(all),
            crate::write::streams::keys_sorted(all),
            rows@.len() == iter.index(),
            forall|i: int|
                0 <= i < rows@.len() ==> ((#[trigger] rows@[i]).stream@, rows@[i].group_start)
                    == entry_key(all[i]) && is_row(rows@[i], count_pairs(map)),
    {
        proof {
            let n = iter.index() as int;
            assert(entry == all[n]);
            lemma_entry(all, n);
        }
        rows.push(
            PageCountsRow { stream: entry.stream, group_start: entry.start, pairs: entry.value },
        );
    }
    proof {
        assert forall|i: int, j: int| 0 <= i < j < rows@.len() implies key_lt(
            ((#[trigger] rows@[i]).stream@, rows@[i].group_start),
            ((#[trigger] rows@[j]).stream@, rows@[j].group_start),
        ) by {
            assert(key_lt(entry_key(all[i]), entry_key(all[j])));
        }
        assert forall|key: (Seq<char>, u64)| #[trigger] map.contains_key(key) implies lists_row(
            rows@,
            key,
        ) by {
            let i = key_index(all, key);
            assert(entry_key(all[i]) == key);
            assert((rows@[i].stream@, rows@[i].group_start) == key);
        }
    }
    rows
}

/// Page groups do not overtake each other.
proof fn lemma_groups_ascend(a: u64, b: u64)
    requires
        a <= b,
    ensures
        spec_page_group_start(a) <= spec_page_group_start(b),
{
}

proof fn lemma_count_pages_keys(
    counts: Map<(Seq<char>, u64), Seq<(u32, u32)>>,
    pages: Seq<SealedPage>,
    start: u64,
    key: (Seq<char>, u64),
)
    ensures
        count_pages(counts, pages, start).contains_key(key) ==> counts.contains_key(key) || key.1
            == spec_page_group_start(start),
    decreases pages.len(),
{
    if pages.len() > 0 {
        lemma_count_pages_keys(counts, pages.drop_last(), start, key);
    }
}

/// Counts are kept for the groups of the sealed spans, beside those kept
/// before.
pub proof fn lemma_count_spans_keys(
    counts: Map<(Seq<char>, u64), Seq<(u32, u32)>>,
    spans: Seq<SealedSpan>,
    low: u64,
    high: u64,
    key: (Seq<char>, u64),
)
    requires
        counts.contains_key(key) ==> low <= key.1 <= high,
        forall|k: int|
            0 <= k < spans.len() ==> low <= spec_page_group_start((#[trigger] spans[k]).start)
                <= high,
    ensures
        count_spans(counts, spans).contains_key(key) ==> low <= key.1 <= high,
    decreases spans.len(),
{
    if spans.len() > 0 {
        let rest = spans.drop_last();
        assert forall|k: int| 0 <= k < rest.len() implies low <= spec_page_group_start(
            (#[trigger] rest[k]).start,
        ) <= high by {
            assert(rest[k] == spans[k]);
        }
        lemma_count_spans_keys(counts, rest, low, high, key);
        lemma_count_pages_keys(
            count_spans(counts, rest),
            spans.last().pages@,
            spans.last().start,
            key,
        );
        assert(spans[spans.len() - 1] == spans.last());
    }
}

/// Pages parted off at the end of a span are the pages of that span.
proof fn lemma_span_pages(
    all: Map<(Seq<char>, u64), Set<u32>>,
    part: Map<(Seq<char>, u64), Set<u32>>,
    pages: Seq<SealedPage>,
    start: u64,
    open: u64,
)
    requires
        start % PAGE_SPAN == 0,
        start + PAGE_SPAN <= open,
        part == starts_below(from_on(starts_below(all, open), start), (start + PAGE_SPAN) as u64),
        lists_span(pages, part, start),
    ensures
        lists_span(pages, all, start),
{
    assert forall|i: int| 0 <= i < pages.len() implies holds_page(#[trigger] pages[i], all, start) by {
        assert(holds_page(pages[i], part, start));
    }
    assert forall|id: Seq<char>| #[trigger] is_page(all, id, start) implies lists_stream(
        pages,
        id,
    ) by {
        assert(is_page(part, id, start));
    }
}

/// Parts the counts at a boundary: the rows of the groups that it leaves, and
/// what stays for the open one.
fn part_counts(counts: SealedPageCounts, from: u64, open: u64) -> (parts: (
    Vec<PageCountsRow>,
    SealedPageCounts,
))
    requires
        counts.wf(),
        forall|key: (Seq<char>, u64)| #[trigger]
            count_pairs(counts.map()).contains_key(key) ==> spec_page_group_start(from) <= key.1
                <= spec_page_group_start(open),
    ensures
        parts.1.wf(),
        counts_open(parts.1.map(), open),
        ({
            let counted = count_pairs(counts.map());
            let group = spec_page_group_start(open);
            if spec_page_group_start(from) < group {
                is_manifest(parts.0@, counted, group) && count_pairs(parts.1.map()) == from_on(
                    counted,
                    group,
                )
            } else {
                parts.0@.len() == 0 && parts.1 == counts
            }
        }),
{
    let open_group: u64 = page_group_start(open);
    let ghost counted = count_pairs(counts.map());
    if page_group_start(from) >= open_group {
        proof {
            assert forall|key: (Seq<char>, u64)| #[trigger]
                counts.map().contains_key(key) implies key.1 == spec_page_group_start(open) by {
                assert(counted.contains_key(key));
            }
        }
        return (Vec::new(), counts);
    }
    let (done, kept) = counts.split_below(open_group);
    proof {
        assert(count_pairs(done.map()) =~= starts_below(counted, open_group));
        assert(count_pairs(kept.map()) =~= from_on(counted, open_group));
    }
    let ghost finished = done.map();
    let manifest = manifest_rows(done);
    proof {
        assert forall|i: int| 0 <= i < manifest@.len() implies is_row(
            #[trigger] manifest@[i],
            counted,
        ) && manifest@[i].group_start < open_group by {
            assert(is_row(manifest@[i], count_pairs(finished)));
        }
        assert forall|key: (Seq<char>, u64)| #[trigger] counted.contains_key(key) && key.1
            < open_group implies lists_row(manifest@, key) by {
            assert(finished.contains_key(key));
        }
        assert forall|key: (Seq<char>, u64)| #[trigger] kept.map().contains_key(key) implies key.1
            == spec_page_group_start(open) by {
            assert(count_pairs(kept.map()).contains_key(key));
            assert(counted.contains_key(key));
        }
    }
    (manifest, kept)
}

/// Seals one family's completed granules: the union of state and tail below
/// the boundary becomes spans, removed from both. Each sealed page's count
/// accumulates; when the boundary leaves one or more page groups, the
/// completed groups' rows are emitted and their accumulator entries dropped.
///
/// `fold` continues the seal chain by one span: from the value so far, the
/// span's start, its pages by stream id, and its bucket. An inconsistent
/// directory is an error and changes nothing.
#[verifier::rlimit(50)]
pub fn seal_spans<
    F: Fn(ChainDigest, u64, &Vec<SealedPage>, &PrimaryDirBucket) -> ChainDigest,
>(
    state: &mut FamilyState,
    tail: &mut FamilyTail,
    frontier: u64,
    fold: &F,
) -> (result: Result<SealBurst>)
    requires
        family_wf(*old(state), *old(tail)),
        forall|chain: ChainDigest, start: u64, pages: &Vec<SealedPage>, bucket: &PrimaryDirBucket|
            call_requires(*fold, (chain, start, pages, bucket)),
    ensures
        family_wf(*final(state), *final(tail)),
        match result {
            Ok(burst) => {
                &&& is_burst(*old(state), *old(tail), frontier, *fold, burst)
                &&& is_left(*old(state), *old(tail), frontier, burst, *final(state), *final(tail))
            },
            Err(error) => {
                &&& bucket_fails(
                    old(state).dir@ + old(tail).dir@,
                    span_starts(old(state).sealed_id, spec_seal_boundary(frontier)),
                    error,
                )
                &&& *final(state) == *old(state)
                &&& *final(tail) == *old(tail)
            },
        },
{
    let from: u64 = state.sealed_id;
    let open: u64 = seal_boundary(frontier);
    let mut spans: Vec<SealedSpan> = Vec::new();
    if open <= from {
        return Ok(SealBurst { spans, manifest: Vec::new() });
    }
    let ghost all = joined(state.bits(), tail.bits());
    let ghost dir = state.dir@ + tail.dir@;
    let ghost seed = state.seal_chain;
    let ghost starts = span_starts(from, open);
    let ghost counts0 = count_pairs(state.sealed_page_counts.map());
    let buckets = match seal_family_dir(&mut state.dir, &mut tail.dir, from, open) {
        Ok(buckets) => buckets,
        Err(error) => {
            return Err(error);
        },
    };
    let mut ready: PageMap = StreamMap::new();
    let mut more: PageMap = StreamMap::new();
    std::mem::swap(&mut state.pages, &mut ready);
    std::mem::swap(&mut tail.pages, &mut more);
    proof {
        lemma_part_bits(ready.map(), open);
        lemma_part_bits(more.map(), open);
        lemma_part_joined(page_bits(ready.map()), page_bits(more.map()), open);
        lemma_joined_wf(page_bits(ready.map()), page_bits(more.map()), from);
    }
    let (mut ready, kept) = ready.split_below(open);
    state.pages = kept;
    let (more, kept) = more.split_below(open);
    tail.pages = kept;
    join_pages(&mut ready, more);
    assert(page_bits(ready.map()) == starts_below(all, open));
    assert(page_bits(ready.map()) =~= from_on(starts_below(all, open), from));
    let ghost kept_state = *state;
    let ghost kept_tail = *tail;
    let mut rest: PageMap = ready;
    let mut chain: ChainDigest = state.seal_chain;
    let mut counts: SealedPageCounts = StreamMap::new();
    std::mem::swap(&mut state.sealed_page_counts, &mut counts);
    let ghost listed = buckets@;
    for pair in iter: buckets
        invariant
            iter.seq() == listed,
            from % PAGE_SPAN == 0,
            open % PAGE_SPAN == 0,
            from < open,
            starts == span_starts(from, open),
            crate::write::dir::are_buckets(dir, starts, listed),
            pages_wf(all, from),
            rest.wf(),
            page_bits(rest.map()) == from_on(
                starts_below(all, open),
                (from + iter.index() * BUCKET_SPAN) as u64,
            ),
            counts.wf(),
            count_pairs(counts.map()) == count_spans(counts0, spans@),
            spans@.len() == iter.index(),
            forall|k: int|
                0 <= k < spans@.len() ==> #[trigger] is_span(
                    spans@,
                    k,
                    starts[k],
                    all,
                    dir,
                    seed,
                    *fold,
                ),
            chain == chain_before(spans@, spans@.len() as int, seed),
            forall|chain: ChainDigest, start: u64, pages: &Vec<SealedPage>, bucket: &PrimaryDirBucket|
                call_requires(*fold, (chain, start, pages, bucket)),
    {
        let ghost n = iter.index() as int;
        let (start, bucket) = pair;
        assert((start, bucket) == listed[n]);
        assert(start == starts[n]);
        assert(start == from + n * BUCKET_SPAN);
        assert(start + PAGE_SPAN <= open);
        let ghost whole = page_bits(rest.map());
        proof {
            lemma_part_bits(rest.map(), (start + PAGE_SPAN) as u64);
        }
        let (here, later) = rest.split_below(start + PAGE_SPAN);
        rest = later;
        assert(page_bits(rest.map()) =~= from_on(
            starts_below(all, open),
            (start + PAGE_SPAN) as u64,
        ));
        proof {
            assert forall|i: int| 0 <= i < here.entries@.len() implies (
            #[trigger] here.entries@[i]).start == start && in_page(
                bitmap_bits(here.entries@[i].value),
            ) by {
                lemma_entry(here.entries@, i);
                let key = entry_key(here.entries@[i]);
                assert(here.map().contains_key(key));
                let bits = page_bits(here.map());
                assert(bits.contains_key(key) && bits[key] == bitmap_bits(here.entries@[i].value));
                assert(bits == starts_below(whole, (start + PAGE_SPAN) as u64));
                assert(whole.contains_key(key) && whole[key] == bits[key]);
                assert(all.contains_key(key) && all[key] == whole[key]);
                assert(key.1 >= start);
                assert(key.1 % PAGE_SPAN == 0 && in_page(all[key]));
                assert(start % PAGE_SPAN == 0);
                assert(key.1 == start);
            }
        }
        let pages = seal_pages(here, start, &mut counts);
        proof {
            lemma_span_pages(all, page_bits(here.map()), pages@, start, open);
        }
        let ghost before = chain;
        chain = fold(chain, start, &pages, &bucket);
        let ghost held = spans@;
        spans.push(SealedSpan { start, pages, bucket, chain });
        proof {
            assert(spans@.drop_last() =~= held);
            assert forall|k: int| 0 <= k < spans@.len() implies #[trigger] is_span(
                spans@,
                k,
                starts[k],
                all,
                dir,
                seed,
                *fold,
            ) by {
                if k < n {
                    assert(is_span(held, k, starts[k], all, dir, seed, *fold));
                }
            }
        }
    }
    assert(spans@.len() == starts.len());
    assert(starts.len() > 0);
    let ghost counted = count_pairs(counts.map());
    proof {
        assert forall|k: int| 0 <= k < spans@.len() implies spec_page_group_start(from)
            <= spec_page_group_start((#[trigger] spans@[k]).start) <= spec_page_group_start(open) by {
            assert(is_span(spans@, k, starts[k], all, dir, seed, *fold));
            assert(starts[k] == from + k * BUCKET_SPAN);
            lemma_groups_ascend(from, starts[k]);
            lemma_groups_ascend(starts[k], open);
        }
        lemma_groups_ascend(from, open);
        assert forall|key: (Seq<char>, u64)| #[trigger] counted.contains_key(key) implies
            spec_page_group_start(from) <= key.1 <= spec_page_group_start(open) by {
            if counts0.contains_key(key) {
                assert(old(state).sealed_page_counts.map().contains_key(key));
            }
            lemma_count_spans_keys(
                counts0,
                spans@,
                spec_page_group_start(from),
                spec_page_group_start(open),
                key,
            );
        }
    }
    let (manifest, counts) = part_counts(counts, from, open);
    state.sealed_page_counts = counts;
    state.sealed_id = open;
    state.open_streams_seen = StreamSet::new();
    state.seal_chain = chain;
    proof {
        assert forall|key: (Seq<char>, u64)| #[trigger] state.bits().contains_key(key) implies key.1
            % PAGE_SPAN == 0 && key.1 >= open && in_page(state.bits()[key]) by {
            assert(old(state).bits().contains_key(key));
        }
        assert forall|key: (Seq<char>, u64)| #[trigger] tail.bits().contains_key(key) implies key.1
            % PAGE_SPAN == 0 && key.1 >= open && in_page(tail.bits()[key]) by {
            assert(old(tail).bits().contains_key(key));
        }
    }
    Ok(SealBurst { spans, manifest })
}

} // verus!
