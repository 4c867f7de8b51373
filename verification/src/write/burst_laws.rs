//! What a seal gives and what it leaves, id by id: every completed page leaves
//! with its bits and its count, and everything else stays.

use vstd::prelude::*;

use crate::write::artifacts::burst_contents;
use crate::write::bitmap::{
    bitmap_bits, describes, in_page, lemma_in_page_len, spec_page_group_start, spec_page_offset,
    spec_page_start, spec_page_start_in_group, spec_seal_boundary, BitmapPageMeta, PAGE_SPAN,
};
use crate::write::dir::{span_starts, PrimaryDirBucket};
use crate::write::dir_laws::law_spans_tile_what_is_sealed;
use crate::write::family::Family;
use crate::write::index::{ChainDigest, FamilyState, FamilyTail};
use crate::write::pages::{joined, pages_wf};
use crate::write::seal::{
    add_count, count_pages, count_pairs, count_spans, family_wf, holds_page, is_burst, is_left,
    is_manifest, is_page, is_row, is_span, lists_row, lists_stream, streams_ascend, PageCountsRow,
    SealBurst, SealedPage, SealedSpan,
};
use crate::write::stage::StagedRow;
use crate::write::stage_laws::{
    are_staged, law_sealed_pages_are_read_back, put_all, RowKey, RowValue,
};

verus! {

/// The boundary is the last page start at or below the frontier, and ids lie in
/// the page and the page group that start at or below them.
pub proof fn law_ids_lie_in_their_page(id: u64)
    ensures
        spec_seal_boundary(id) % 65_536 == 0,
        spec_seal_boundary(id) <= id < spec_seal_boundary(id) + 65_536,
        spec_page_start(id) % 65_536 == 0,
        spec_page_start(id) <= id < spec_page_start(id) + 65_536,
        spec_page_offset(id) == id - spec_page_start(id),
        spec_page_group_start(id) % 16_777_216 == 0,
        spec_page_group_start(id) <= id < spec_page_group_start(id) + 16_777_216,
        spec_page_start_in_group(id) == id - spec_page_group_start(id),
{
}

/// A page's description is what its bits make it: how many there are, and the
/// least and the greatest of them.
pub proof fn law_description_is_the_bits(bits: Set<u32>, meta: BitmapPageMeta)
    requires
        describes(meta, bits),
        in_page(bits),
    ensures
        meta.count == bits.len(),
        meta.count <= 65_536,
        forall|o: u32| #[trigger] bits.contains(o) ==> meta.min_offset <= o <= meta.max_offset,
        meta.count > 0 ==> bits.contains(meta.min_offset) && bits.contains(meta.max_offset),
        meta.count == 0 ==> meta.min_offset == 0 && meta.max_offset == 0,
{
    lemma_in_page_len(bits);
    if meta.count > 0 {
        assert(bits != Set::<u32>::empty());
    } else {
        assert(bits =~= Set::<u32>::empty());
    }
}

/// The offsets that a page has, whether they were flushed or not.
pub open spec fn open_bits(
    state: FamilyState,
    tail: FamilyTail,
    key: (Seq<char>, u64),
) -> Set<u32> {
    Set::new(
        |o: u32|
            (state.bits().contains_key(key) && state.bits()[key].contains(o)) || (
            tail.bits().contains_key(key) && tail.bits()[key].contains(o)),
    )
}

/// The page is open, in the state or in the tail.
pub open spec fn is_open(state: FamilyState, tail: FamilyTail, key: (Seq<char>, u64)) -> bool {
    state.bits().contains_key(key) || tail.bits().contains_key(key)
}

/// A page is sealed at its place with all its bits.
pub open spec fn is_sealed_at(
    spans: Seq<SealedSpan>,
    k: int,
    i: int,
    key: (Seq<char>, u64),
    bits: Set<u32>,
) -> bool {
    &&& 0 <= k < spans.len()
    &&& 0 <= i < spans[k].pages@.len()
    &&& spans[k].start == key.1
    &&& spans[k].pages@[i].stream@ == key.0
    &&& bitmap_bits(spans[k].pages@[i].bitmap) == bits
    &&& spans[k].pages@[i].meta.count == bits.len()
}

proof fn lemma_start_at(from: u64, open: u64, page: u64) -> (k: int)
    requires
        from % PAGE_SPAN == 0,
        open % PAGE_SPAN == 0,
        page % PAGE_SPAN == 0,
        from <= page < open,
    ensures
        0 <= k < span_starts(from, open).len(),
        span_starts(from, open)[k] == page,
{
    let k = (page - from) / 65_536;
    law_spans_tile_what_is_sealed(from, open, page);
    assert((open - from) % 65_536 == 0);
    assert((page - from) % 65_536 == 0);
    assert(from + k * 65_536 == page);
    assert(span_starts(from, open)[k] == page);
    k
}

/// Every page that the frontier has passed is sealed, under its stream and its
/// start, with the bits that the state and the tail have of it.
pub proof fn law_completed_page_is_sealed<
    F: Fn(ChainDigest, u64, &Vec<SealedPage>, &PrimaryDirBucket) -> ChainDigest,
>(
    state: FamilyState,
    tail: FamilyTail,
    frontier: u64,
    fold: F,
    burst: SealBurst,
    key: (Seq<char>, u64),
) -> (at: (int, int))
    requires
        family_wf(state, tail),
        is_burst(state, tail, frontier, fold, burst),
        is_open(state, tail, key),
        key.1 + 65_536 <= frontier,
    ensures
        is_sealed_at(burst.spans@, at.0, at.1, key, open_bits(state, tail, key)),
{
    let from = state.sealed_id;
    let open = spec_seal_boundary(frontier);
    let all = joined(state.bits(), tail.bits());
    assert(all.contains_key(key));
    assert(key.1 % PAGE_SPAN == 0 && key.1 >= from);
    assert(key.1 < open);
    let k = lemma_start_at(from, open, key.1);
    let span = burst.spans@[k];
    assert(is_span(
        burst.spans@,
        k,
        span_starts(from, open)[k],
        all,
        state.dir@ + tail.dir@,
        state.seal_chain,
        fold,
    ));
    assert(is_page(all, key.0, key.1));
    assert(lists_stream(span.pages@, key.0));
    let i = choose|i: int| 0 <= i < span.pages@.len() && (#[trigger] span.pages@[i]).stream@
        == key.0;
    assert(holds_page(span.pages@[i], all, key.1));
    assert(all[key] =~= open_bits(state, tail, key));
    (k, i)
}

/// Nothing else is sealed: a sealed page is one that the frontier has passed
/// and that was open, once, with its own bits; its description is theirs.
pub proof fn law_sealed_page_was_complete<
    F: Fn(ChainDigest, u64, &Vec<SealedPage>, &PrimaryDirBucket) -> ChainDigest,
>(
    state: FamilyState,
    tail: FamilyTail,
    frontier: u64,
    fold: F,
    burst: SealBurst,
    k: int,
    i: int,
)
    requires
        family_wf(state, tail),
        is_burst(state, tail, frontier, fold, burst),
        0 <= k < burst.spans@.len(),
        0 <= i < burst.spans@[k].pages@.len(),
    ensures
        ({
            let span = burst.spans@[k];
            let page = span.pages@[i];
            let key = (page.stream@, span.start);
            let bits = open_bits(state, tail, key);
            &&& span.start >= state.sealed_id
            &&& span.start % 65_536 == 0
            &&& span.start + 65_536 <= frontier
            &&& is_open(state, tail, key)
            &&& bitmap_bits(page.bitmap) == bits
            &&& page.meta.count == bits.len()
            &&& forall|o: u32| #[trigger]
                bits.contains(o) ==> page.meta.min_offset <= o <= page.meta.max_offset
            &&& page.meta.count > 0 ==> bits.contains(page.meta.min_offset) && bits.contains(
                page.meta.max_offset,
            )
        }),
{
    let from = state.sealed_id;
    let open = spec_seal_boundary(frontier);
    let all = joined(state.bits(), tail.bits());
    let starts = span_starts(from, open);
    let span = burst.spans@[k];
    let page = span.pages@[i];
    let key = (page.stream@, span.start);
    assert(is_span(
        burst.spans@,
        k,
        starts[k],
        all,
        state.dir@ + tail.dir@,
        state.seal_chain,
        fold,
    ));
    assert(holds_page(page, all, span.start));
    assert(all[key] =~= open_bits(state, tail, key));
    law_spans_tile_what_is_sealed(from, open, from);
    lemma_starts_up_to(from, open, k);
    assert(in_page(all[key])) by {
        assert(all.contains_key(key));
        assert forall|o: u32| #[trigger] all[key].contains(o) implies o < 65_536 by {
            if state.bits().contains_key(key) {
                assert(in_page(state.bits()[key]));
            }
            if tail.bits().contains_key(key) {
                assert(in_page(tail.bits()[key]));
            }
        }
    }
    law_description_is_the_bits(all[key], page.meta);
}

proof fn lemma_starts_up_to(from: u64, open: u64, k: int)
    requires
        from % PAGE_SPAN == 0,
        open % PAGE_SPAN == 0,
        0 <= k < span_starts(from, open).len(),
    ensures
        span_starts(from, open)[k] % 65_536 == 0,
        span_starts(from, open)[k] >= from,
        span_starts(from, open)[k] + 65_536 <= open,
{
    let n = (open - from) / 65_536;
    assert(n * 65_536 == open - from);
    assert(k * 65_536 <= (n - 1) * 65_536);
    assert(span_starts(from, open)[k] == from + k * 65_536);
}

/// Spans ascend, and the pages of each by stream.
pub proof fn lemma_burst_is_in_order<
    F: Fn(ChainDigest, u64, &Vec<SealedPage>, &PrimaryDirBucket) -> ChainDigest,
>(state: FamilyState, tail: FamilyTail, frontier: u64, fold: F, burst: SealBurst)
    requires
        family_wf(state, tail),
        is_burst(state, tail, frontier, fold, burst),
    ensures
        forall|a: int, b: int|
            0 <= a < b < burst.spans@.len() ==> (#[trigger] burst.spans@[a]).start < (
            #[trigger] burst.spans@[b]).start,
        forall|a: int|
            0 <= a < burst.spans@.len() ==> streams_ascend((#[trigger] burst.spans@[a]).pages@),
{
    let from = state.sealed_id;
    let open = spec_seal_boundary(frontier);
    let all = joined(state.bits(), tail.bits());
    let starts = span_starts(from, open);
    assert forall|a: int| 0 <= a < burst.spans@.len() implies streams_ascend(
        (#[trigger] burst.spans@[a]).pages@,
    ) && burst.spans@[a].start == starts[a] by {
        assert(is_span(
            burst.spans@,
            a,
            starts[a],
            all,
            state.dir@ + tail.dir@,
            state.seal_chain,
            fold,
        ));
    }
    assert forall|a: int, b: int| 0 <= a < b < burst.spans@.len() implies (
    #[trigger] burst.spans@[a]).start < (#[trigger] burst.spans@[b]).start by {
        lemma_starts_up_to(from, open, a);
        lemma_starts_up_to(from, open, b);
        assert(starts[a] == from + a * 65_536);
        assert(starts[b] == from + b * 65_536);
        assert(a * 65_536 < b * 65_536);
    }
}

/// From the working set to the store: once the writes of a seal are put, every
/// page that the frontier has passed is read back under its stream and its
/// start, with all the bits that it had.
pub proof fn law_completed_page_is_read_back<
    F: Fn(ChainDigest, u64, &Vec<SealedPage>, &PrimaryDirBucket) -> ChainDigest,
>(
    store: Map<RowKey, RowValue>,
    family: Family,
    seal_block: u64,
    state: FamilyState,
    tail: FamilyTail,
    frontier: u64,
    fold: F,
    burst: SealBurst,
    target: usize,
    staged: Seq<Seq<StagedRow>>,
    key: (Seq<char>, u64),
)
    requires
        family_wf(state, tail),
        is_burst(state, tail, frontier, fold, burst),
        are_staged(staged, burst_contents(family, seal_block, burst), target),
        is_open(state, tail, key),
        key.1 + 65_536 <= frontier,
    ensures
        ({
            let row = RowKey::Page { family, stream: key.0, page_start: key.1 };
            let after = put_all(store, staged);
            &&& after.contains_key(row)
            &&& after[row] matches RowValue::Bits { meta, bits } && bits == open_bits(
                state,
                tail,
                key,
            ) && meta.count == bits.len()
        }),
{
    let at = law_completed_page_is_sealed(state, tail, frontier, fold, burst, key);
    lemma_burst_is_in_order(state, tail, frontier, fold, burst);
    law_sealed_pages_are_read_back(
        store,
        family,
        seal_block,
        burst,
        target,
        staged,
        at.0,
        at.1,
    );
}

/// What a seal leaves is what was open at or above the boundary, bit for bit;
/// what lies below is gone, and the boundary moved to the frontier's page.
pub proof fn law_seal_leaves_what_is_open(
    state: FamilyState,
    tail: FamilyTail,
    frontier: u64,
    burst: SealBurst,
    state_after: FamilyState,
    tail_after: FamilyTail,
    key: (Seq<char>, u64),
)
    requires
        family_wf(state, tail),
        is_left(state, tail, frontier, burst, state_after, tail_after),
    ensures
        state_after.bits().contains_key(key) <==> state.bits().contains_key(key) && (key.1
            + 65_536 > frontier),
        tail_after.bits().contains_key(key) <==> tail.bits().contains_key(key) && (key.1 + 65_536
            > frontier),
        state_after.bits().contains_key(key) ==> state_after.bits()[key] == state.bits()[key],
        tail_after.bits().contains_key(key) ==> tail_after.bits()[key] == tail.bits()[key],
        state_after.sealed_id % 65_536 == 0,
        state.sealed_id <= frontier ==> state_after.sealed_id <= frontier
            < state_after.sealed_id + 65_536,
        state.sealed_id > frontier ==> state_after == state && tail_after == tail,
        state_after.sealed_id != state.sealed_id ==> state_after.open_streams_seen.set()
            == Set::<Seq<char>>::empty(),
        state_after.sealed_id == state.sealed_id ==> state_after == state && tail_after == tail,
{
    let open = spec_seal_boundary(frontier);
    if state.bits().contains_key(key) {
        assert(key.1 % PAGE_SPAN == 0 && key.1 >= state.sealed_id);
    }
    if tail.bits().contains_key(key) {
        assert(key.1 % PAGE_SPAN == 0 && key.1 >= state.sealed_id);
    }
}

/// A pair tells of a sealed page: its place in the group that the row is of,
/// and its count.
pub open spec fn tells_of(
    spans: Seq<SealedSpan>,
    k: int,
    i: int,
    key: (Seq<char>, u64),
    pair: (u32, u32),
) -> bool {
    &&& 0 <= k < spans.len()
    &&& 0 <= i < spans[k].pages@.len()
    &&& spans[k].pages@[i].stream@ == key.0
    &&& spans[k].start == key.1 + pair.0
    &&& key.1 % 16_777_216 == 0
    &&& pair.0 < 16_777_216
    &&& spans[k].pages@[i].meta.count == pair.1
}

/// The pair is filed under the key.
pub open spec fn has_pair(
    counts: Map<(Seq<char>, u64), Seq<(u32, u32)>>,
    key: (Seq<char>, u64),
    pair: (u32, u32),
) -> bool {
    counts.contains_key(key) && counts[key].contains(pair)
}

pub proof fn lemma_add_count_pairs(
    counts: Map<(Seq<char>, u64), Seq<(u32, u32)>>,
    id: Seq<char>,
    page: u64,
    count: u32,
    key: (Seq<char>, u64),
    pair: (u32, u32),
)
    ensures
        has_pair(add_count(counts, id, page, count), key, pair) <==> has_pair(counts, key, pair)
            || (key.0 == id && key.1 + pair.0 == page && key.1 % 16_777_216 == 0 && pair.0
            < 16_777_216 && pair.1 == count),
{
    let own = (id, spec_page_group_start(page));
    let pairs = if counts.contains_key(own) {
        counts[own]
    } else {
        Seq::empty()
    };
    let new = (spec_page_start_in_group(page), count);
    let pushed = pairs.push(new);
    if key == own {
        assert(pushed.contains(pair) <==> pairs.contains(pair) || pair == new) by {
            assert(pushed[pairs.len() as int] == new);
            if pairs.contains(pair) {
                let j = choose|j: int| 0 <= j < pairs.len() && pairs[j] == pair;
                assert(pushed[j] == pair);
            }
            if pushed.contains(pair) {
                let j = choose|j: int| 0 <= j < pushed.len() && pushed[j] == pair;
                if j < pairs.len() {
                    assert(pairs[j] == pair);
                }
            }
        }
    }
}

proof fn lemma_count_pages_pairs(
    counts: Map<(Seq<char>, u64), Seq<(u32, u32)>>,
    pages: Seq<SealedPage>,
    start: u64,
    key: (Seq<char>, u64),
    pair: (u32, u32),
)
    ensures
        has_pair(count_pages(counts, pages, start), key, pair) <==> has_pair(counts, key, pair)
            || (key.1 + pair.0 == start && key.1 % 16_777_216 == 0 && pair.0 < 16_777_216
            && exists|i: int|
            0 <= i < pages.len() && (#[trigger] pages[i]).stream@ == key.0 && pages[i].meta.count
                == pair.1),
    decreases pages.len(),
{
    if pages.len() > 0 {
        let rest = pages.drop_last();
        let n = pages.len() - 1;
        lemma_count_pages_pairs(counts, rest, start, key, pair);
        lemma_add_count_pairs(
            count_pages(counts, rest, start),
            pages.last().stream@,
            start,
            pages.last().meta.count,
            key,
            pair,
        );
        if exists|i: int|
            0 <= i < rest.len() && (#[trigger] rest[i]).stream@ == key.0 && rest[i].meta.count
                == pair.1 {
            let i = choose|i: int|
                0 <= i < rest.len() && (#[trigger] rest[i]).stream@ == key.0 && rest[i].meta.count
                    == pair.1;
            assert(pages[i].stream@ == key.0);
        }
        if exists|i: int|
            0 <= i < pages.len() && (#[trigger] pages[i]).stream@ == key.0 && pages[i].meta.count
                == pair.1 {
            let i = choose|i: int|
                0 <= i < pages.len() && (#[trigger] pages[i]).stream@ == key.0
                    && pages[i].meta.count == pair.1;
            if i < n {
                assert(rest[i].stream@ == key.0);
            }
        }
        assert(pages[n] == pages.last());
    }
}

/// The accumulator files exactly the sealed pages beside what it had: each
/// under its stream and group, by its place in the group, with its count.
pub proof fn law_counts_are_the_sealed_pages(
    counts: Map<(Seq<char>, u64), Seq<(u32, u32)>>,
    spans: Seq<SealedSpan>,
    key: (Seq<char>, u64),
    pair: (u32, u32),
)
    ensures
        has_pair(count_spans(counts, spans), key, pair) <==> has_pair(counts, key, pair) || exists|
            k: int,
            i: int,
        | #[trigger] tells_of(spans, k, i, key, pair),
    decreases spans.len(),
{
    if spans.len() > 0 {
        let rest = spans.drop_last();
        let n = spans.len() - 1;
        let last = spans.last();
        law_counts_are_the_sealed_pages(counts, rest, key, pair);
        lemma_count_pages_pairs(
            count_spans(counts, rest),
            last.pages@,
            last.start,
            key,
            pair,
        );
        if exists|k: int, i: int| #[trigger] tells_of(rest, k, i, key, pair) {
            let (k, i) = choose|k: int, i: int| #[trigger] tells_of(rest, k, i, key, pair);
            assert(tells_of(spans, k, i, key, pair));
        }
        if exists|k: int, i: int| #[trigger] tells_of(spans, k, i, key, pair) {
            let (k, i) = choose|k: int, i: int| #[trigger] tells_of(spans, k, i, key, pair);
            if k < n {
                assert(tells_of(rest, k, i, key, pair));
            } else {
                assert(last.pages@[i].stream@ == key.0);
            }
        }
        if key.1 + pair.0 == last.start && key.1 % 16_777_216 == 0 && pair.0 < 16_777_216 && exists|
            i: int,
        |
            0 <= i < last.pages@.len() && (#[trigger] last.pages@[i]).stream@ == key.0
                && last.pages@[i].meta.count == pair.1 {
            let i = choose|i: int|
                0 <= i < last.pages@.len() && (#[trigger] last.pages@[i]).stream@ == key.0
                    && last.pages@[i].meta.count == pair.1;
            assert(tells_of(spans, n, i, key, pair));
        }
    }
}

/// No count is lost: a page sealed now is told of in the manifest, if the
/// frontier left its group, and else in what the state goes on accumulating.
pub proof fn law_sealed_page_is_counted<
    F: Fn(ChainDigest, u64, &Vec<SealedPage>, &PrimaryDirBucket) -> ChainDigest,
>(
    state: FamilyState,
    tail: FamilyTail,
    frontier: u64,
    fold: F,
    burst: SealBurst,
    state_after: FamilyState,
    tail_after: FamilyTail,
    key: (Seq<char>, u64),
    group: u64,
)
    requires
        family_wf(state, tail),
        is_burst(state, tail, frontier, fold, burst),
        is_left(state, tail, frontier, burst, state_after, tail_after),
        is_open(state, tail, key),
        key.1 + 65_536 <= frontier,
        group == key.1 - key.1 % 16_777_216,
    ensures
        ({
            let pair = ((key.1 - group) as u32, open_bits(state, tail, key).len() as u32);
            if frontier - frontier % 65_536 >= group + 16_777_216 {
                exists|r: int|
                    {
                        &&& 0 <= r < burst.manifest@.len()
                        &&& (#[trigger] burst.manifest@[r]).stream@ == key.0
                        &&& burst.manifest@[r].group_start == group
                        &&& burst.manifest@[r].pairs@.contains(pair)
                    }
            } else {
                has_pair(count_pairs(state_after.sealed_page_counts.map()), (key.0, group), pair)
            }
        }),
{
    let at = law_completed_page_is_sealed(state, tail, frontier, fold, burst, key);
    let pair = ((key.1 - group) as u32, open_bits(state, tail, key).len() as u32);
    let own = (key.0, group);
    let from = state.sealed_id;
    let open = spec_seal_boundary(frontier);
    assert(key.1 >= from) by {
        assert(pages_wf(state.bits(), from));
        assert(pages_wf(tail.bits(), from));
    }
    lemma_group_place(from, key.1, frontier, group);
    assert(tells_of(burst.spans@, at.0, at.1, own, pair));
    let counts = count_pairs(state.sealed_page_counts.map());
    let counted = count_spans(counts, burst.spans@);
    law_counts_are_the_sealed_pages(counts, burst.spans@, own, pair);
    assert(has_pair(counted, own, pair));
    if frontier - frontier % 65_536 >= group + 16_777_216 {
        lemma_row_has_pair(burst.manifest@, counted, spec_page_group_start(open), own, pair);
    }
}

/// Where a completed page's group stands to the boundaries.
proof fn lemma_group_place(from: u64, page: u64, frontier: u64, group: u64)
    requires
        from <= page,
        page + 65_536 <= frontier,
        group == page - page % 16_777_216,
    ensures
        from < spec_seal_boundary(frontier),
        spec_page_group_start(from) <= group,
        group % 16_777_216 == 0,
        frontier - frontier % 65_536 >= group + 16_777_216 ==> spec_page_group_start(
            spec_seal_boundary(frontier),
        ) > group,
        frontier - frontier % 65_536 < group + 16_777_216 ==> spec_page_group_start(
            spec_seal_boundary(frontier),
        ) == group,
{
}

proof fn lemma_row_has_pair(
    rows: Seq<PageCountsRow>,
    counted: Map<(Seq<char>, u64), Seq<(u32, u32)>>,
    bound: u64,
    key: (Seq<char>, u64),
    pair: (u32, u32),
)
    requires
        is_manifest(rows, counted, bound),
        has_pair(counted, key, pair),
        key.1 < bound,
    ensures
        exists|r: int|
            {
                &&& 0 <= r < rows.len()
                &&& (#[trigger] rows[r]).stream@ == key.0
                &&& rows[r].group_start == key.1
                &&& rows[r].pairs@.contains(pair)
            },
{
    assert(lists_row(rows, key));
    let r = choose|r: int|
        0 <= r < rows.len() && ((#[trigger] rows[r]).stream@, rows[r].group_start) == key;
    assert(is_row(rows[r], counted));
}

/// A manifest tells of sealed pages only: each pair of a row is of a page sealed
/// now, or was accumulated before.
pub proof fn law_manifest_tells_of_sealed_pages<
    F: Fn(ChainDigest, u64, &Vec<SealedPage>, &PrimaryDirBucket) -> ChainDigest,
>(
    state: FamilyState,
    tail: FamilyTail,
    frontier: u64,
    fold: F,
    burst: SealBurst,
    r: int,
    pair: (u32, u32),
)
    requires
        family_wf(state, tail),
        is_burst(state, tail, frontier, fold, burst),
        0 <= r < burst.manifest@.len(),
        burst.manifest@[r].pairs@.contains(pair),
    ensures
        ({
            let row = burst.manifest@[r];
            let key = (row.stream@, row.group_start);
            &&& row.group_start < frontier
            &&& has_pair(count_pairs(state.sealed_page_counts.map()), key, pair) || exists|
                k: int,
                i: int,
            | #[trigger] tells_of(burst.spans@, k, i, key, pair)
        }),
{
    let row = burst.manifest@[r];
    let key = (row.stream@, row.group_start);
    let counts = count_pairs(state.sealed_page_counts.map());
    let counted = count_spans(counts, burst.spans@);
    assert(is_row(row, counted));
    assert(has_pair(counted, key, pair));
    law_counts_are_the_sealed_pages(counts, burst.spans@, key, pair);
}

/// Of the directory a seal drops the leading entries that end at or below the
/// boundary and keeps the rest, whether state or tail held them.
pub proof fn law_seal_drops_the_sealed_directory(
    state: FamilyState,
    tail: FamilyTail,
    frontier: u64,
    burst: SealBurst,
    state_after: FamilyState,
    tail_after: FamilyTail,
) -> (n: int)
    requires
        is_left(state, tail, frontier, burst, state_after, tail_after),
        state.sealed_id < frontier - frontier % 65_536,
    ensures
        ({
            let chain = state.dir@ + tail.dir@;
            let open = frontier - frontier % 65_536;
            &&& 0 <= n <= chain.len()
            &&& state_after.dir@ + tail_after.dir@ == chain.subrange(n, chain.len() as int)
            &&& forall|i: int| 0 <= i < n ==> (#[trigger] chain[i]).2 <= open
            &&& n < chain.len() ==> chain[n].2 > open
        }),
{
    let open = spec_seal_boundary(frontier);
    crate::write::dir::law_drain_ignores_the_seam(state.dir@, tail.dir@, open);
    crate::write::dir_laws::law_drain_drops_what_is_sealed(state.dir@ + tail.dir@, open)
}

/// The seal chain runs through the spans: each span's value continues the one
/// before by the span's own start, pages and bucket, the first that of the state,
/// and the state goes on from the last.
pub proof fn law_seal_chain_runs_through_the_spans<
    F: Fn(ChainDigest, u64, &Vec<SealedPage>, &PrimaryDirBucket) -> ChainDigest,
>(
    state: FamilyState,
    tail: FamilyTail,
    frontier: u64,
    fold: F,
    burst: SealBurst,
    state_after: FamilyState,
    tail_after: FamilyTail,
    k: int,
)
    requires
        family_wf(state, tail),
        is_burst(state, tail, frontier, fold, burst),
        is_left(state, tail, frontier, burst, state_after, tail_after),
        0 <= k < burst.spans@.len(),
    ensures
        ({
            let span = burst.spans@[k];
            let before = if k == 0 {
                state.seal_chain
            } else {
                burst.spans@[k - 1].chain
            };
            call_ensures(fold, (before, span.start, &span.pages, &span.bucket), span.chain)
        }),
        k == burst.spans@.len() - 1 ==> state_after.seal_chain == burst.spans@[k].chain,
        burst.spans@[k].start == state.sealed_id + 65_536 * k,
        burst.spans@.len() * 65_536 == frontier - frontier % 65_536 - state.sealed_id,
{
    let from = state.sealed_id;
    let open = spec_seal_boundary(frontier);
    let starts = span_starts(from, open);
    assert(is_span(
        burst.spans@,
        k,
        starts[k],
        joined(state.bits(), tail.bits()),
        state.dir@ + tail.dir@,
        state.seal_chain,
        fold,
    ));
    assert(from < open);
    lemma_starts_up_to(from, open, k);
    law_spans_tile_what_is_sealed(from, open, from);
    assert(starts[k] == from + k * 65_536);
}

/// No count is forgotten: what was accumulated before is told of in the manifest,
/// if the frontier left its group, and else goes on being accumulated.
pub proof fn law_accumulated_counts_stay<
    F: Fn(ChainDigest, u64, &Vec<SealedPage>, &PrimaryDirBucket) -> ChainDigest,
>(
    state: FamilyState,
    tail: FamilyTail,
    frontier: u64,
    fold: F,
    burst: SealBurst,
    state_after: FamilyState,
    tail_after: FamilyTail,
    key: (Seq<char>, u64),
    pair: (u32, u32),
)
    requires
        family_wf(state, tail),
        state.sealed_id <= frontier,
        is_burst(state, tail, frontier, fold, burst),
        is_left(state, tail, frontier, burst, state_after, tail_after),
        has_pair(count_pairs(state.sealed_page_counts.map()), key, pair),
    ensures
        if frontier - frontier % 65_536 >= key.1 + 16_777_216 {
            exists|r: int|
                {
                    &&& 0 <= r < burst.manifest@.len()
                    &&& (#[trigger] burst.manifest@[r]).stream@ == key.0
                    &&& burst.manifest@[r].group_start == key.1
                    &&& burst.manifest@[r].pairs@.contains(pair)
                }
        } else {
            has_pair(count_pairs(state_after.sealed_page_counts.map()), key, pair)
        },
{
    let from = state.sealed_id;
    let open = spec_seal_boundary(frontier);
    let counts = count_pairs(state.sealed_page_counts.map());
    let counted = count_spans(counts, burst.spans@);
    law_counts_are_the_sealed_pages(counts, burst.spans@, key, pair);
    assert(has_pair(counted, key, pair));
    assert(state.sealed_page_counts.map().contains_key(key));
    assert(key.1 == spec_page_group_start(from));
    lemma_open_group(from, frontier);
    if frontier - frontier % 65_536 >= key.1 + 16_777_216 {
        lemma_row_has_pair(burst.manifest@, counted, spec_page_group_start(open), key, pair);
    }
}

proof fn lemma_open_group(from: u64, frontier: u64)
    requires
        from % 65_536 == 0,
        from <= frontier,
    ensures
        ({
            let group = spec_page_group_start(from);
            let open = spec_seal_boundary(frontier);
            &&& from <= open
            &&& open >= group + 16_777_216 ==> spec_page_group_start(open) > group
            &&& open < group + 16_777_216 ==> spec_page_group_start(open) == group
        }),
{
}

proof fn lemma_count_pages_append(
    counts: Map<(Seq<char>, u64), Seq<(u32, u32)>>,
    pages: Seq<SealedPage>,
    start: u64,
    key: (Seq<char>, u64),
)
    requires
        counts.contains_key(key),
    ensures
        count_pages(counts, pages, start).contains_key(key),
        counts[key].len() <= count_pages(counts, pages, start)[key].len(),
        counts[key] == count_pages(counts, pages, start)[key].take(counts[key].len() as int),
    decreases pages.len(),
{
    let had = counts[key];
    if pages.len() > 0 {
        lemma_count_pages_append(counts, pages.drop_last(), start, key);
        let before = count_pages(counts, pages.drop_last(), start)[key];
        let after = count_pages(counts, pages, start)[key];
        assert(after.take(had.len() as int) =~= before.take(had.len() as int));
    } else {
        assert(had =~= had.take(had.len() as int));
    }
}

/// Counts are appended: the pairs that a stream and group had keep their places,
/// in front of those of the pages sealed since.
pub proof fn law_counts_are_appended(
    counts: Map<(Seq<char>, u64), Seq<(u32, u32)>>,
    spans: Seq<SealedSpan>,
    key: (Seq<char>, u64),
)
    requires
        counts.contains_key(key),
    ensures
        count_spans(counts, spans).contains_key(key),
        counts[key].len() <= count_spans(counts, spans)[key].len(),
        counts[key] == count_spans(counts, spans)[key].take(counts[key].len() as int),
    decreases spans.len(),
{
    let had = counts[key];
    if spans.len() > 0 {
        law_counts_are_appended(counts, spans.drop_last(), key);
        let before = count_spans(counts, spans.drop_last());
        lemma_count_pages_append(before, spans.last().pages@, spans.last().start, key);
        let after = count_spans(counts, spans)[key];
        assert(after.take(had.len() as int) =~= before[key].take(had.len() as int));
    } else {
        assert(had =~= had.take(had.len() as int));
    }
}

/// Keys sort by the bytes of the stream's id, then by the start.
pub proof fn law_keys_sort_by_stream_then_start(a: (Seq<char>, u64), b: (Seq<char>, u64))
    ensures
        crate::write::streams::key_lt(a, b) <==> crate::be::lex_lt(
            vstd::utf8::encode_utf8(a.0),
            vstd::utf8::encode_utf8(b.0),
        ) || (a.0 == b.0 && a.1 < b.1),
{
}

} // verus!
