//! Every step of the index keeps the rows a mirror of the working set.

use vstd::prelude::*;

use crate::write::artifacts::{
    all_page_contents, all_span_contents, burst_contents, row_content, span_stream_ids,
    WriteContent,
};
use crate::write::bitmap::{
    bitmap_bits, spec_page_group_start, spec_page_offset, spec_page_start,
    spec_page_start_in_group, spec_seal_boundary, PAGE_GROUP_ID_SPAN, PAGE_SPAN,
};
use crate::write::dir::{drop_sealed, span_starts, PrimaryDirBucket};
use crate::write::durable::{
    all_written, count_stored, counts_kept, counts_stored, entry_bits, inventory_stored,
    lemma_all_pages_written, lemma_dir_written, lemma_fragments_written, lemma_manifest_written,
    lemma_spans_written, lemma_written_append, listed, no_rows, spans_within, starts_at, written,
    FamilyRows,
};
use crate::write::engine::{is_accumulated, is_sealed, law_one_open_page, track_wf};
use crate::write::family::Family;
use crate::write::flush::{
    dir_content, entry_streams, flush_contents, fragment_content, is_flushed, seen_after, unseen,
};
use crate::write::index::{after_record, after_records, ChainDigest, FamilyState, FamilyTail};
use crate::write::mirror::{
    agrees_below, contributes, dir_within, fragments_match, lemma_open_entries,
    lemma_stored_counts_agree, mirrors, open_entries, page_within, pages_below_boundary,
    pages_within, pairs_at, stored_counts, with_page,
};
use crate::write::pages::{bits_at, joined, page_bits};
use crate::write::seal::{
    count_pages, count_pairs, count_spans, holds_page, is_page, is_span, is_burst, lists_span,
    lists_stream, streams_ascend, PageCountsRow, SealBurst, SealedPage, SealedSpan,
};
use crate::write::seal_laws::lemma_lists_drop_last;
use crate::write::streams::{
    entries_map, entry_key, from_on, has_key, is_stream_id, key_lt, keys_sorted, lemma_entry,
    lemma_entry_push, StreamEntry,
};

verus! {

/// An empty store mirrors the state before any block.
pub proof fn law_new_rows_mirror(state: FamilyState, tail: FamilyTail)
    requires
        state.is_new(),
        tail.is_new(),
    ensures
        mirrors(no_rows(), state, tail, 0, 0),
{
    assert(state.bits() =~= Map::empty());
    assert(tail.bits() =~= Map::empty());
    assert(state.sealed_page_counts.map() =~= Map::empty());
    assert(count_pairs(state.sealed_page_counts.map()) =~= Map::empty());
    assert(open_entries(Seq::empty(), 0) =~= state.dir@);
    assert(open_entries(tail.dir@, 0) =~= tail.dir@);
    assert forall|id: Seq<char>| #[trigger] fragments_match(no_rows(), state, id) by {}
}

proof fn lemma_after_record_within(
    pages: Map<(Seq<char>, u64), Set<u32>>,
    id: u64,
    streams: Seq<Seq<char>>,
    low: u64,
    high: u64,
)
    requires
        pages_within(pages, low, high),
        low <= id < high,
        forall|i: int| 0 <= i < streams.len() ==> is_stream_id(#[trigger] streams[i]),
    ensures
        pages_within(after_record(pages, id, streams), low, high),
    decreases streams.len(),
{
    if streams.len() > 0 {
        let rest = streams.drop_last();
        assert forall|i: int| 0 <= i < rest.len() implies is_stream_id(#[trigger] rest[i]) by {
            assert(is_stream_id(streams[i]));
        }
        lemma_after_record_within(pages, id, rest, low, high);
        let before = after_record(pages, id, rest);
        let after = after_record(pages, id, streams);
        let key = (streams.last(), spec_page_start(id));
        assert(is_stream_id(streams[streams.len() - 1]));
        assert forall|k: (Seq<char>, u64)| #[trigger] after.contains_key(k) implies is_stream_id(
            k.0,
        ) && page_within(k.1, after[k], low, high) by {
            if k == key {
                assert(after[k].contains(spec_page_offset(id)));
                assert forall|o: u32| #[trigger] after[k].contains(o) implies low <= k.1 + o
                    < high by {
                    if o != spec_page_offset(id) {
                        assert(bits_at(before, key).contains(o));
                        assert(before.contains_key(key));
                        assert(page_within(key.1, before[key], low, high));
                    }
                }
            } else {
                assert(before.contains_key(k));
            }
        }
    }
}

/// Every stream of every record is a stream id.
pub open spec fn records_valid(records: Seq<Seq<Seq<char>>>) -> bool {
    forall|i: int, k: int|
        0 <= i < records.len() && 0 <= k < records[i].len() ==> is_stream_id(
            #[trigger] records[i][k],
        )
}

proof fn lemma_after_records_within(
    pages: Map<(Seq<char>, u64), Set<u32>>,
    first: u64,
    records: Seq<Seq<Seq<char>>>,
    low: u64,
    high: u64,
)
    requires
        pages_within(pages, low, high),
        low <= first,
        first + records.len() <= high,
        records_valid(records),
    ensures
        pages_within(after_records(pages, first, records), low, high),
    decreases records.len(),
{
    if records.len() > 0 {
        let rest = records.drop_last();
        assert forall|i: int, k: int|
            0 <= i < rest.len() && 0 <= k < rest[i].len() implies is_stream_id(
            #[trigger] rest[i][k],
        ) by {
            assert(is_stream_id(records[i][k]));
        }
        lemma_after_records_within(pages, first, rest, low, high);
        assert forall|k: int| 0 <= k < records.last().len() implies is_stream_id(
            #[trigger] records.last()[k],
        ) by {
            assert(is_stream_id(records[records.len() - 1][k]));
        }
        lemma_after_record_within(
            after_records(pages, first, rest),
            (first + records.len() - 1) as u64,
            records.last(),
            low,
            high,
        );
    }
}

/// Accumulating a block whose ids continue at the frontier keeps the mirror.
pub proof fn law_accumulate_keeps_the_mirror(
    rows: FamilyRows,
    state: FamilyState,
    tail: FamilyTail,
    after: FamilyTail,
    flushed: u64,
    frontier: u64,
    count: u32,
    block: u64,
    records: Seq<Seq<Seq<char>>>,
)
    requires
        mirrors(rows, state, tail, flushed, frontier),
        frontier + count <= u64::MAX,
        records.len() == count,
        records_valid(records),
        is_accumulated(tail, after, frontier, count, block, records),
        track_wf(state, after, (frontier + count) as u64),
    ensures
        mirrors(rows, state, after, flushed, (frontier + count) as u64),
{
    let high = (frontier + count) as u64;
    assert(pages_within(tail.bits(), flushed, high)) by {
        assert forall|key: (Seq<char>, u64)| #[trigger]
            tail.bits().contains_key(key) implies is_stream_id(key.0) && page_within(
            key.1,
            tail.bits()[key],
            flushed,
            high,
        ) by {
            assert(page_within(key.1, tail.bits()[key], flushed, frontier));
        }
    }
    lemma_after_records_within(tail.bits(), frontier, records, flushed, high);
    if count > 0 {
        assert(after.dir@.drop_last() =~= tail.dir@);
        assert forall|i: int, j: int| 0 <= i < j < after.dir@.len() implies (
        #[trigger] after.dir@[i]).2 <= (#[trigger] after.dir@[j]).2 by {
            assert(after.dir@[i] == tail.dir@[i]);
            if j < tail.dir@.len() {
                assert(after.dir@[j] == tail.dir@[j]);
            }
        }
    }
}

/// Dropping the sealed prefix keeps exactly the entries that reach past the
/// boundary.
proof fn lemma_drop_sealed(dir: Seq<(u64, u64, u64)>, open: u64)
    requires
        forall|i: int, j: int|
            0 <= i < j < dir.len() ==> (#[trigger] dir[i]).2 <= (#[trigger] dir[j]).2,
    ensures
        drop_sealed(dir, open) == open_entries(dir, open),
    decreases dir.len(),
{
    if dir.len() > 0 {
        let rest = dir.drop_first();
        assert forall|i: int, j: int| 0 <= i < j < rest.len() implies (#[trigger] rest[i]).2 <= (
        #[trigger] rest[j]).2 by {
            assert(dir[i + 1].2 <= dir[j + 1].2);
        }
        if dir[0].2 > open {
            lemma_all_open(dir, open);
        } else {
            lemma_drop_sealed(rest, open);
            lemma_open_entries_append(dir.take(1), rest, open);
            assert(dir.take(1) + rest =~= dir);
            assert(dir.take(1).drop_last() =~= Seq::empty());
            assert(open_entries(dir.take(1), open) =~= Seq::empty()) by {
                reveal_with_fuel(open_entries, 2);
            }
            assert(Seq::empty() + open_entries(rest, open) =~= open_entries(rest, open));
        }
    }
}

proof fn lemma_all_open(dir: Seq<(u64, u64, u64)>, open: u64)
    requires
        forall|i: int| 0 <= i < dir.len() ==> (#[trigger] dir[i]).2 > open,
    ensures
        open_entries(dir, open) == dir,
    decreases dir.len(),
{
    if dir.len() > 0 {
        let rest = dir.drop_last();
        assert forall|i: int| 0 <= i < rest.len() implies (#[trigger] rest[i]).2 > open by {
            assert(dir[i].2 > open);
        }
        lemma_all_open(rest, open);
        assert(dir[dir.len() - 1] == dir.last());
        assert(rest.push(dir.last()) =~= dir);
    } else {
        assert(open_entries(dir, open) =~= dir);
    }
}

proof fn lemma_open_entries_append(
    a: Seq<(u64, u64, u64)>,
    b: Seq<(u64, u64, u64)>,
    open: u64,
)
    ensures
        open_entries(a + b, open) == open_entries(a, open) + open_entries(b, open),
    decreases b.len(),
{
    if b.len() == 0 {
        assert(a + b =~= a);
        assert(open_entries(a, open) + Seq::empty() =~= open_entries(a, open));
    } else {
        assert((a + b).drop_last() =~= a + b.drop_last());
        lemma_open_entries_append(a, b.drop_last(), open);
        let left = open_entries(a, open);
        let right = open_entries(b.drop_last(), open);
        assert((left + right).push(b.last()) =~= left + right.push(b.last()));
    }
}

/// A later boundary keeps a part of what an earlier one keeps.
proof fn lemma_open_entries_twice(dir: Seq<(u64, u64, u64)>, low: u64, high: u64)
    requires
        low <= high,
    ensures
        open_entries(open_entries(dir, low), high) == open_entries(dir, high),
    decreases dir.len(),
{
    if dir.len() > 0 {
        lemma_open_entries_twice(dir.drop_last(), low, high);
        let kept = open_entries(dir.drop_last(), low);
        assert(kept.push(dir.last()).drop_last() =~= kept);
    }
}

/// What the pages of a span add to the accumulator, by key.
proof fn lemma_count_pages_at(
    counts: Map<(Seq<char>, u64), Seq<(u32, u32)>>,
    pages: Seq<SealedPage>,
    start: u64,
    key: (Seq<char>, u64),
)
    requires
        streams_ascend(pages),
    ensures
        ({
            let after = count_pages(counts, pages, start);
            let own = key.1 == spec_page_group_start(start) && lists_stream(pages, key.0);
            &&& after.contains_key(key) <==> counts.contains_key(key) || own
            &&& !own ==> after[key] == counts[key]
            &&& forall|i: int|
                0 <= i < pages.len() && key == (
                    (#[trigger] pages[i]).stream@,
                    spec_page_group_start(start),
                ) ==> after[key] == pairs_at(counts, key).push(
                    (spec_page_start_in_group(start), pages[i].meta.count),
                )
        }),
    decreases pages.len(),
{
    if pages.len() > 0 {
        let rest = pages.drop_last();
        let n = rest.len() as int;
        lemma_lists_drop_last(pages, key.0);
        lemma_count_pages_at(counts, rest, start, key);
        assert(pages[n] == pages.last());
        assert(lists_stream(pages, pages.last().stream@));
        assert forall|i: int|
            0 <= i < pages.len() && key == (
                (#[trigger] pages[i]).stream@,
                spec_page_group_start(start),
            ) implies count_pages(counts, pages, start)[key] == pairs_at(counts, key).push(
            (spec_page_start_in_group(start), pages[i].meta.count),
        ) by {
            if i < n {
                assert(rest[i] == pages[i]);
                assert(lists_stream(rest, key.0));
            } else {
                assert(!lists_stream(rest, key.0));
            }
        }
    }
}

/// The pages of a span add what their inventory and counts add.
proof fn lemma_span_counts(
    rows: FamilyRows,
    counts: Map<(Seq<char>, u64), Seq<(u32, u32)>>,
    span: SealedSpan,
)
    requires
        streams_ascend(span.pages@),
        counts_stored(rows, span.start, span.pages@),
        listed(rows, span.start) == span_stream_ids(span.pages@).to_set(),
    ensures
        count_pages(counts, span.pages@, span.start) == with_page(counts, rows, span.start),
{
    let pages = span.pages@;
    let start = span.start;
    let left = count_pages(counts, pages, start);
    let right = with_page(counts, rows, start);
    assert forall|key: (Seq<char>, u64)|
        (#[trigger] left.contains_key(key) <==> right.contains_key(key)) && (right.contains_key(key)
            ==> left[key] == right[key]) by {
        lemma_count_pages_at(counts, pages, start, key);
        lemma_listed_streams(pages, key.0);
        if contributes(rows, start, key) {
            let i = choose|i: int| 0 <= i < pages.len() && (#[trigger] pages[i]).stream@ == key.0;
            assert(count_stored(rows, start, pages[i]));
            assert(key == (pages[i].stream@, spec_page_group_start(start)));
        }
    }
    assert(left =~= right);
}

proof fn lemma_listed_streams(pages: Seq<SealedPage>, id: Seq<char>)
    ensures
        span_stream_ids(pages).to_set().contains(id) <==> lists_stream(pages, id),
{
    let ids = span_stream_ids(pages);
    if ids.contains(id) {
        let i = choose|i: int| 0 <= i < ids.len() && ids[i] == id;
        assert(pages[i].stream@ == id);
    }
    if lists_stream(pages, id) {
        let i = choose|i: int| 0 <= i < pages.len() && (#[trigger] pages[i]).stream@ == id;
        assert(ids[i] == id);
    }
}

/// Span `k` of a burst starts where it should, and lists its page's streams.
pub open spec fn span_in_place(after: FamilyRows, span: SealedSpan, start: int) -> bool {
    &&& span.start == start
    &&& streams_ascend(span.pages@)
    &&& counts_stored(after, span.start, span.pages@)
    &&& listed(after, span.start) == span_stream_ids(span.pages@).to_set()
    &&& forall|id: Seq<char>| #[trigger]
        listed(after, span.start).contains(id) ==> is_stream_id(id)
}

/// The accumulator entries of the group that a boundary opens, after the first
/// `k` spans.
#[verifier::rlimit(40)]
proof fn lemma_spans_counts(
    rows: FamilyRows,
    counts: Map<(Seq<char>, u64), Seq<(u32, u32)>>,
    spans: Seq<SealedSpan>,
    from: u64,
    group: u64,
    k: int,
)
    requires
        0 <= k <= spans.len(),
        from % PAGE_SPAN == 0,
        group % PAGE_GROUP_ID_SPAN == 0,
        from + spans.len() * PAGE_SPAN < group + PAGE_GROUP_ID_SPAN,
        from + spans.len() * PAGE_SPAN <= u64::MAX,
        forall|j: int|
            0 <= j < spans.len() ==> span_in_place(
                rows,
                #[trigger] spans[j],
                from + j * PAGE_SPAN,
            ),
        from_on(counts, group) == stored_counts(rows, group, pages_below_boundary(group, from)),
    ensures
        from_on(count_spans(counts, spans.take(k)), group) == stored_counts(
            rows,
            group,
            pages_below_boundary(group, (from + k * PAGE_SPAN) as u64),
        ),
    decreases k,
{
    if k == 0 {
        assert(spans.take(0) =~= Seq::empty());
    } else {
        lemma_spans_counts(rows, counts, spans, from, group, k - 1);
        assert(spans.take(k).drop_last() =~= spans.take(k - 1));
        let span = spans[k - 1];
        let start = span.start;
        assert(span_in_place(rows, span, from + (k - 1) * PAGE_SPAN));
        let before = count_spans(counts, spans.take(k - 1));
        let after = count_spans(counts, spans.take(k));
        lemma_span_counts(rows, before, span);
        assert(after == with_page(before, rows, start));
        assert(start == from + (k - 1) * PAGE_SPAN);
        assert(from + k * PAGE_SPAN == start + PAGE_SPAN) by (nonlinear_arith)
            requires
                start == from + (k - 1) * PAGE_SPAN,
        ;
        assert(start + PAGE_SPAN <= from + spans.len() * PAGE_SPAN) by (nonlinear_arith)
            requires
                start == from + (k - 1) * PAGE_SPAN,
                k <= spans.len(),
        ;
        assert(start % PAGE_SPAN == 0);
        let at = stored_counts(rows, group, pages_below_boundary(group, start));
        let n = pages_below_boundary(group, start);
        assert(group % PAGE_SPAN == 0);
        if start < group {
            assert(spec_page_group_start(start) < group);
            assert(start + PAGE_SPAN <= group);
            assert(from_on(after, group) =~= from_on(before, group));
        } else {
            assert(spec_page_group_start(start) == group);
            assert(group + n * PAGE_SPAN == start);
            assert(pages_below_boundary(group, (start + PAGE_SPAN) as u64) == n + 1);
            assert(from_on(after, group) =~= with_page(from_on(before, group), rows, start));
        }
    }
}

/// Pages of one group count into that group only.
proof fn lemma_counts_group(
    counts: Map<(Seq<char>, u64), Seq<(u32, u32)>>,
    spans: Seq<SealedSpan>,
    group: u64,
)
    requires
        forall|key: (Seq<char>, u64)| #[trigger] counts.contains_key(key) ==> key.1 == group,
        forall|j: int|
            0 <= j < spans.len() ==> streams_ascend((#[trigger] spans[j]).pages@)
                && spec_page_group_start(spans[j].start) == group,
    ensures
        forall|key: (Seq<char>, u64)| #[trigger]
            count_spans(counts, spans).contains_key(key) ==> key.1 == group,
    decreases spans.len(),
{
    if spans.len() > 0 {
        let rest = spans.drop_last();
        let last = spans.last();
        assert(spans[spans.len() - 1] == last);
        assert forall|j: int| 0 <= j < rest.len() implies streams_ascend(
            (#[trigger] rest[j]).pages@,
        ) && spec_page_group_start(rest[j].start) == group by {
            assert(spans[j] == rest[j]);
        }
        lemma_counts_group(counts, rest, group);
        assert forall|key: (Seq<char>, u64)| #[trigger]
            count_spans(counts, spans).contains_key(key) implies key.1 == group by {
            lemma_count_pages_at(count_spans(counts, rest), last.pages@, last.start, key);
        }
    }
}

/// The rows that a seal of completed spans leaves.
pub open spec fn is_seal_of(
    rows: FamilyRows,
    after: FamilyRows,
    spans: Seq<SealedSpan>,
    from: u64,
    open: u64,
) -> bool {
    &&& after.fragments == rows.fragments
    &&& after.dir == rows.dir
    &&& counts_kept(rows, after, from)
    &&& forall|page: u64|
        page < from || page >= open ==> #[trigger] listed(after, page) == listed(rows, page)
    &&& forall|page: u64| #[trigger] listed(rows, page).subset_of(listed(after, page))
    &&& forall|page: u64, id: Seq<char>| #[trigger]
        listed(after, page).contains(id) ==> is_stream_id(id)
    &&& forall|k: int|
        0 <= k < spans.len() ==> span_in_place(after, #[trigger] spans[k], from + k * PAGE_SPAN)
    &&& forall|page: u64, id: Seq<char>|
        from <= page < open && #[trigger] listed(after, page).contains(id)
            ==> after.counts.contains_key((id, page))
    &&& forall|start: u64|
        start < from ==> (#[trigger] after.chains.contains_key(start)
            <==> rows.chains.contains_key(start)) && after.chains[start] == rows.chains[start]
    &&& spans.len() == (open - from) / PAGE_SPAN as int
    &&& after.chains.contains_key((open - PAGE_SPAN) as u64)
    &&& after.chains[(open - PAGE_SPAN) as u64] == spans.last().chain
}

/// The spans of a burst: where they start, and what they list.
proof fn lemma_burst_spans<
    F: Fn(ChainDigest, u64, &Vec<SealedPage>, &PrimaryDirBucket) -> ChainDigest,
>(state: FamilyState, tail: FamilyTail, frontier: u64, fold: F, burst: SealBurst)
    requires
        is_burst(state, tail, frontier, fold, burst),
        state.sealed_id % PAGE_SPAN == 0,
        state.sealed_id < spec_seal_boundary(frontier),
    ensures
        spans_within(burst.spans@, state.sealed_id, spec_seal_boundary(frontier)),
        burst.spans@.len() == (spec_seal_boundary(frontier) - state.sealed_id) / PAGE_SPAN as int,
        forall|k: int|
            0 <= k < burst.spans@.len() ==> (#[trigger] burst.spans@[k]).start == state.sealed_id
                + k * PAGE_SPAN && lists_span(
                burst.spans@[k].pages@,
                joined(state.bits(), tail.bits()),
                burst.spans@[k].start,
            ),
{
    let from = state.sealed_id;
    let open = spec_seal_boundary(frontier);
    let spans = burst.spans@;
    let starts = span_starts(from, open);
    let all = joined(state.bits(), tail.bits());
    assert forall|k: int| 0 <= k < spans.len() implies (#[trigger] spans[k]).start == from + k
        * PAGE_SPAN && from <= spans[k].start < open && lists_span(
        spans[k].pages@,
        all,
        spans[k].start,
    ) by {
        assert(is_span(spans, k, starts[k], all, state.dir@ + tail.dir@, state.seal_chain, fold));
        assert(k * PAGE_SPAN < open - from);
    }
    assert forall|i: int, j: int| 0 <= i < j < spans.len() implies (#[trigger] spans[i]).start < (
    #[trigger] spans[j]).start by {
        assert(i * PAGE_SPAN < j * PAGE_SPAN);
    }
    assert forall|i: int| 0 <= i < spans.len() implies streams_ascend(
        (#[trigger] spans[i]).pages@,
    ) by {
        assert(lists_span(spans[i].pages@, all, spans[i].start));
    }
}

/// The rows of a burst whose spans lie between two boundaries.
pub open spec fn is_burst_of(
    rows: FamilyRows,
    after: FamilyRows,
    spans: Seq<SealedSpan>,
    low: u64,
) -> bool {
    &&& after.fragments == rows.fragments
    &&& after.dir == rows.dir
    &&& counts_kept(rows, after, low)
    &&& forall|page: u64|
        !starts_at(spans, page) ==> #[trigger] listed(after, page) == listed(rows, page)
    &&& forall|k: int|
        0 <= k < spans.len() ==> inventory_stored(rows, after, #[trigger] spans[k])
            && counts_stored(after, spans[k].start, spans[k].pages@)
    &&& forall|start: u64|
        start < low ==> (#[trigger] after.chains.contains_key(start)
            <==> rows.chains.contains_key(start)) && after.chains[start] == rows.chains[start]
    &&& spans.len() > 0 ==> after.chains.contains_key(spans.last().start)
        && after.chains[spans.last().start] == spans.last().chain
}

proof fn lemma_burst_written(
    rows: FamilyRows,
    family: Family,
    seal_block: u64,
    burst: SealBurst,
    low: u64,
    high: u64,
)
    requires
        spans_within(burst.spans@, low, high),
    ensures
        is_burst_of(
            rows,
            all_written(rows, burst_contents(family, seal_block, burst)),
            burst.spans@,
            low,
        ),
{
    let spans = burst.spans@;
    let pages = all_page_contents(family, spans);
    let own = all_span_contents(family, seal_block, spans);
    let manifest = burst.manifest@.map_values(|row: PageCountsRow| row_content(family, row));
    let after = all_written(rows, burst_contents(family, seal_block, burst));
    let one = all_written(rows, pages);
    let two = all_written(one, own);
    lemma_written_append(rows, pages, own);
    lemma_written_append(rows, pages + own, manifest);
    lemma_manifest_written(two, family, burst.manifest@);
    assert(after == two);
    lemma_all_pages_written(rows, family, spans, low, high);
    lemma_spans_written(one, family, seal_block, spans, low, high);
    assert forall|page: u64| #[trigger] listed(one, page) == listed(rows, page) by {}
    assert forall|page: u64| !starts_at(spans, page) implies #[trigger] listed(after, page)
        == listed(rows, page) by {
        assert(listed(two, page) == listed(one, page));
    }
    assert forall|k: int| 0 <= k < spans.len() implies inventory_stored(
        rows,
        after,
        #[trigger] spans[k],
    ) && counts_stored(after, spans[k].start, spans[k].pages@) by {
        let span = spans[k];
        assert(inventory_stored(one, two, span));
        assert(listed(one, span.start) == listed(rows, span.start));
        assert(counts_stored(one, span.start, span.pages@));
        assert forall|i: int| 0 <= i < span.pages@.len() implies count_stored(
            after,
            span.start,
            #[trigger] span.pages@[i],
        ) by {
            assert(count_stored(one, span.start, span.pages@[i]));
        }
    }
    assert forall|start: u64| start < low implies (#[trigger] after.chains.contains_key(start)
        <==> rows.chains.contains_key(start)) && after.chains[start] == rows.chains[start] by {
        assert(two.chains.contains_key(start) <==> one.chains.contains_key(start));
    }
    assert forall|key: (Seq<char>, u64)| key.1 < low implies (
    #[trigger] after.counts.contains_key(key) <==> rows.counts.contains_key(key))
        && after.counts[key] == rows.counts[key] by {
        assert(one.counts.contains_key(key) <==> rows.counts.contains_key(key));
    }
}

/// The inventory of a sealed page lists exactly the streams of its span.
proof fn lemma_sealed_inventory(
    rows: FamilyRows,
    after: FamilyRows,
    state: FamilyState,
    tail: FamilyTail,
    flushed: u64,
    frontier: u64,
    span: SealedSpan,
)
    requires
        mirrors(rows, state, tail, flushed, frontier),
        lists_span(span.pages@, joined(state.bits(), tail.bits()), span.start),
        span.start >= state.sealed_id,
        inventory_stored(rows, after, span),
    ensures
        listed(after, span.start) == span_stream_ids(span.pages@).to_set(),
        forall|id: Seq<char>| #[trigger]
            listed(after, span.start).contains(id) ==> is_stream_id(id),
{
    let all = joined(state.bits(), tail.bits());
    let ids = span_stream_ids(span.pages@).to_set();
    assert forall|id: Seq<char>| #[trigger] listed(rows, span.start).contains(id) implies
        ids.contains(id) by {
        if span.start > state.sealed_id {
            assert(listed(rows, span.start) == Set::<Seq<char>>::empty());
        } else {
            assert(state.open_streams_seen.set().contains(id));
            assert(all.contains_key((id, span.start)));
            assert(is_page(all, id, span.start));
            lemma_listed_streams(span.pages@, id);
        }
    }
    assert(listed(after, span.start) =~= ids);
    assert forall|id: Seq<char>| #[trigger] listed(after, span.start).contains(id) implies
        is_stream_id(id) by {
        lemma_listed_streams(span.pages@, id);
        let i = choose|i: int|
            0 <= i < span.pages@.len() && (#[trigger] span.pages@[i]).stream@ == id;
        let key = (id, span.start);
        assert(holds_page(span.pages@[i], all, span.start));
        assert(state.bits().contains_key(key) || tail.bits().contains_key(key));
    }
}

proof fn lemma_listed_counted(after: FamilyRows, span: SealedSpan, start: int, id: Seq<char>)
    requires
        span_in_place(after, span, start),
        listed(after, span.start).contains(id),
    ensures
        is_stream_id(id),
        after.counts.contains_key((id, span.start)),
{
    lemma_listed_streams(span.pages@, id);
    let i = choose|i: int|
        0 <= i < span.pages@.len() && (#[trigger] span.pages@[i]).stream@ == id;
    assert(count_stored(after, span.start, span.pages@[i]));
}

proof fn lemma_spans_in_place(
    rows: FamilyRows,
    after: FamilyRows,
    spans: Seq<SealedSpan>,
    from: u64,
    open: u64,
)
    requires
        from < open,
        from % PAGE_SPAN == 0,
        open % PAGE_SPAN == 0,
        spans.len() == (open - from) / PAGE_SPAN as int,
        spans_within(spans, from, open),
        is_burst_of(rows, after, spans, from),
        forall|k: int|
            0 <= k < spans.len() ==> span_in_place(
                after,
                #[trigger] spans[k],
                from + k * PAGE_SPAN,
            ),
        forall|page: u64|
            page > from ==> #[trigger] listed(rows, page) == Set::<Seq<char>>::empty(),
        forall|page: u64, id: Seq<char>| #[trigger]
            listed(rows, page).contains(id) ==> is_stream_id(id),
    ensures
        is_seal_of(rows, after, spans, from, open),
{
    let n = spans.len() as int;
    assert(from + n * PAGE_SPAN == open);
    assert(n > 0);
    assert(span_in_place(after, spans[n - 1], from + (n - 1) * PAGE_SPAN));
    assert(from + (n - 1) * PAGE_SPAN == open - PAGE_SPAN) by (nonlinear_arith)
        requires
            from + n * PAGE_SPAN == open,
    ;
    assert(span_in_place(after, spans[0], from as int));
    assert forall|page: u64| page < from || page >= open implies #[trigger] listed(after, page)
        == listed(rows, page) by {
        assert(!starts_at(spans, page));
    }
    assert forall|page: u64| #[trigger] listed(rows, page).subset_of(listed(after, page)) by {
        if starts_at(spans, page) {
            let k = choose|k: int| 0 <= k < spans.len() && (#[trigger] spans[k]).start == page;
            assert(inventory_stored(rows, after, spans[k]));
        } else {
            assert(listed(after, page) == listed(rows, page));
        }
    }
    assert forall|page: u64, id: Seq<char>| #[trigger]
        listed(after, page).contains(id) implies is_stream_id(id) && (from <= page < open
        ==> after.counts.contains_key((id, page))) by {
        if starts_at(spans, page) {
            let k = choose|k: int| 0 <= k < spans.len() && (#[trigger] spans[k]).start == page;
            lemma_listed_counted(after, spans[k], from + k * PAGE_SPAN, id);
        } else {
            assert(listed(after, page) == listed(rows, page));
            assert(listed(rows, page).contains(id));
            assert(spans[0].start == from);
            if page > from {
                assert(listed(rows, page) == Set::<Seq<char>>::empty());
            }
        }
    }
}

proof fn lemma_seal_rows<
    F: Fn(ChainDigest, u64, &Vec<SealedPage>, &PrimaryDirBucket) -> ChainDigest,
>(
    rows: FamilyRows,
    state: FamilyState,
    tail: FamilyTail,
    flushed: u64,
    frontier: u64,
    family: Family,
    seal_block: u64,
    fold: F,
    burst: SealBurst,
)
    requires
        mirrors(rows, state, tail, flushed, frontier),
        is_burst(state, tail, frontier, fold, burst),
        state.sealed_id < spec_seal_boundary(frontier),
    ensures
        is_seal_of(
            rows,
            all_written(rows, burst_contents(family, seal_block, burst)),
            burst.spans@,
            state.sealed_id,
            spec_seal_boundary(frontier),
        ),
{
    let from = state.sealed_id;
    let open = spec_seal_boundary(frontier);
    let spans = burst.spans@;
    let after = all_written(rows, burst_contents(family, seal_block, burst));
    lemma_burst_spans(state, tail, frontier, fold, burst);
    lemma_burst_written(rows, family, seal_block, burst, from, open);
    assert forall|k: int| 0 <= k < spans.len() implies span_in_place(
        after,
        #[trigger] spans[k],
        from + k * PAGE_SPAN,
    ) by {
        assert(inventory_stored(rows, after, spans[k]));
        lemma_sealed_inventory(rows, after, state, tail, flushed, frontier, spans[k]);
    }
    lemma_spans_in_place(rows, after, spans, from, open);
}

/// A suffix of ascending entries keeps their bounds.
proof fn lemma_drop_sealed_within(dir: Seq<(u64, u64, u64)>, open: u64, low: u64, high: u64)
    requires
        dir_within(dir, low, high),
    ensures
        dir_within(drop_sealed(dir, open), low, high),
    decreases dir.len(),
{
    if dir.len() > 0 && dir[0].2 <= open {
        let rest = dir.drop_first();
        assert forall|i: int| 0 <= i < rest.len() implies low <= (#[trigger] rest[i]).1 < rest[i].2
            <= high by {
            assert(dir[i + 1].1 < dir[i + 1].2);
        }
        assert forall|i: int, j: int| 0 <= i < j < rest.len() implies (#[trigger] rest[i]).2 <= (
        #[trigger] rest[j]).2 by {
            assert(dir[i + 1].2 <= dir[j + 1].2);
        }
        lemma_drop_sealed_within(rest, open, low, high);
    }
}

/// The directory after a seal.
proof fn lemma_seal_dir(
    rows_dir: Seq<(u64, u64, u64)>,
    state_dir: Seq<(u64, u64, u64)>,
    tail_dir: Seq<(u64, u64, u64)>,
    from: u64,
    open: u64,
    flushed: u64,
    frontier: u64,
)
    requires
        from <= open,
        open_entries(rows_dir, from) == state_dir,
        dir_within(state_dir, 0, flushed),
        dir_within(tail_dir, flushed, frontier),
    ensures
        ({
            let state_after = drop_sealed(state_dir, open);
            let tail_after = if state_after.len() == 0 {
                drop_sealed(tail_dir, open)
            } else {
                tail_dir
            };
            &&& open_entries(rows_dir, open) == state_after
            &&& dir_within(state_after, 0, flushed)
            &&& dir_within(tail_after, flushed, frontier)
            &&& open_entries(tail_after, open) == tail_after
        }),
{
    let state_after = drop_sealed(state_dir, open);
    lemma_drop_sealed(state_dir, open);
    lemma_open_entries_twice(rows_dir, from, open);
    lemma_drop_sealed_within(state_dir, open, 0, flushed);
    if state_after.len() == 0 {
        lemma_drop_sealed(tail_dir, open);
        lemma_open_entries_twice(tail_dir, open, open);
        lemma_drop_sealed_within(tail_dir, open, flushed, frontier);
    } else {
        lemma_open_entries(rows_dir, open, 0);
        assert(state_after[0].2 > open);
        assert(state_after[0].2 <= flushed);
        lemma_all_open(tail_dir, open);
    }
}

/// The pages of a group below a boundary end at the boundary.
proof fn lemma_pages_below(group: u64, boundary: u64)
    requires
        group % PAGE_SPAN == 0,
        boundary % PAGE_SPAN == 0,
        group <= boundary,
    ensures
        group + pages_below_boundary(group, boundary) * PAGE_SPAN == boundary,
{
}

/// The accumulator of the open group before the first span of a seal.
proof fn lemma_counts_before(
    rows: FamilyRows,
    after: FamilyRows,
    counts: Map<(Seq<char>, u64), Seq<(u32, u32)>>,
    from: u64,
    open: u64,
)
    requires
        counts_kept(rows, after, from),
        forall|page: u64| page < from ==> #[trigger] listed(after, page) == listed(rows, page),
        from < open,
        from % PAGE_SPAN == 0,
        forall|key: (Seq<char>, u64)| #[trigger]
            counts.contains_key(key) ==> key.1 == spec_page_group_start(from),
        counts == stored_counts(
            rows,
            spec_page_group_start(from),
            pages_below_boundary(spec_page_group_start(from), from),
        ),
    ensures
        from_on(counts, spec_page_group_start(open)) == stored_counts(
            after,
            spec_page_group_start(open),
            pages_below_boundary(spec_page_group_start(open), from),
        ),
{
    let group = spec_page_group_start(open);
    let old_group = spec_page_group_start(from);
    if old_group == group {
        assert(from_on(counts, group) =~= counts);
        lemma_pages_below(group, from);
        let n = pages_below_boundary(group, from);
        assert forall|key: (Seq<char>, u64)| key.1 < from implies #[trigger] rows.counts[key]
            == after.counts[key] by {
            assert(after.counts.contains_key(key) <==> rows.counts.contains_key(key));
        }
        assert forall|page: u64| page < from implies #[trigger] listed(rows, page) == listed(
            after,
            page,
        ) by {
            assert(listed(after, page) == listed(rows, page));
        }
        lemma_stored_counts_agree(rows, after, group, n, from);
    } else {
        assert(old_group < group);
        assert(from < group);
        assert(from_on(counts, group) =~= Map::empty());
    }
}

/// The counts of the open group after a seal.
proof fn lemma_seal_counts(
    rows: FamilyRows,
    after: FamilyRows,
    counts: Map<(Seq<char>, u64), Seq<(u32, u32)>>,
    spans: Seq<SealedSpan>,
    from: u64,
    open: u64,
)
    requires
        counts_kept(rows, after, from),
        forall|page: u64| page < from ==> #[trigger] listed(after, page) == listed(rows, page),
        forall|k: int|
            0 <= k < spans.len() ==> span_in_place(
                after,
                #[trigger] spans[k],
                from + k * PAGE_SPAN,
            ),
        from < open,
        from % PAGE_SPAN == 0,
        open % PAGE_SPAN == 0,
        spans.len() == (open - from) / PAGE_SPAN as int,
        forall|key: (Seq<char>, u64)| #[trigger]
            counts.contains_key(key) ==> key.1 == spec_page_group_start(from),
        counts == stored_counts(
            rows,
            spec_page_group_start(from),
            pages_below_boundary(spec_page_group_start(from), from),
        ),
    ensures
        (if spec_page_group_start(from) < spec_page_group_start(open) {
            from_on(count_spans(counts, spans), spec_page_group_start(open))
        } else {
            count_spans(counts, spans)
        }) == stored_counts(
            after,
            spec_page_group_start(open),
            pages_below_boundary(spec_page_group_start(open), open),
        ),
{
    let group = spec_page_group_start(open);
    let old_group = spec_page_group_start(from);
    let n = spans.len() as int;
    lemma_boundaries(from, open, n);
    lemma_counts_before(rows, after, counts, from, open);
    lemma_spans_counts(after, counts, spans, from, group, n);
    assert(spans.take(n) =~= spans);
    if old_group >= group {
        assert(old_group == group);
        assert forall|j: int| 0 <= j < spans.len() implies streams_ascend(
            (#[trigger] spans[j]).pages@,
        ) && spec_page_group_start(spans[j].start) == group by {
            assert(span_in_place(after, spans[j], from + j * PAGE_SPAN));
            lemma_span_group(from, open, spans[j].start, j, n);
        }
        lemma_counts_group(counts, spans, group);
        let counted = count_spans(counts, spans);
        assert(from_on(counted, group) =~= counted);
    }
}

proof fn lemma_boundaries(from: u64, open: u64, n: int)
    requires
        from < open,
        from % PAGE_SPAN == 0,
        open % PAGE_SPAN == 0,
        n == (open - from) / PAGE_SPAN as int,
    ensures
        from + n * PAGE_SPAN == open,
        spec_page_group_start(from) <= spec_page_group_start(open),
        spec_page_group_start(open) % PAGE_GROUP_ID_SPAN == 0,
        open < spec_page_group_start(open) + PAGE_GROUP_ID_SPAN,
{
}

proof fn lemma_span_group(from: u64, open: u64, start: u64, j: int, n: int)
    requires
        0 <= j < n,
        start == from + j * PAGE_SPAN,
        from + n * PAGE_SPAN == open,
        spec_page_group_start(from) == spec_page_group_start(open),
    ensures
        spec_page_group_start(start) == spec_page_group_start(open),
{
    assert(from <= start < open);
}

/// Sealing what the frontier completed keeps the mirror.
pub proof fn law_seal_keeps_the_mirror<
    F: Fn(ChainDigest, u64, &Vec<SealedPage>, &PrimaryDirBucket) -> ChainDigest,
>(
    rows: FamilyRows,
    before: (FamilyState, FamilyTail),
    after: (FamilyState, FamilyTail),
    flushed: u64,
    frontier: u64,
    family: Family,
    seal_block: u64,
    fold: F,
    burst: SealBurst,
)
    requires
        mirrors(rows, before.0, before.1, flushed, frontier),
        is_sealed(before, after, frontier, fold, burst),
        track_wf(after.0, after.1, frontier),
    ensures
        mirrors(
            all_written(rows, burst_contents(family, seal_block, burst)),
            after.0,
            after.1,
            flushed,
            frontier,
        ),
{
    let (state, tail) = before;
    let from = state.sealed_id;
    let open = spec_seal_boundary(frontier);
    let spans = burst.spans@;
    let new_rows = all_written(rows, burst_contents(family, seal_block, burst));
    if open <= from {
        lemma_empty_burst(rows, family, seal_block, burst);
        return ;
    }
    lemma_seal_rows(rows, state, tail, flushed, frontier, family, seal_block, fold, burst);
    assert(is_seal_of(rows, new_rows, spans, from, open));
    let (next, rest) = after;
    assert(next.bits() =~= Map::empty());
    assert forall|key: (Seq<char>, u64)| #[trigger] rest.bits().contains_key(key) implies
        is_stream_id(key.0) && page_within(key.1, rest.bits()[key], flushed, frontier) by {
        assert(tail.bits().contains_key(key));
    }
    assert forall|id: Seq<char>| #[trigger] fragments_match(new_rows, next, id) by {
        assert(!rows.fragments.contains_key((id, open)));
    }
    assert(listed(new_rows, open) =~= Set::empty()) by {
        assert(listed(rows, open) == Set::<Seq<char>>::empty());
    }
    assert forall|page: u64| page > open implies #[trigger] listed(new_rows, page) == Set::<
        Seq<char>,
    >::empty() by {
        assert(listed(rows, page) == Set::<Seq<char>>::empty());
    }
    assert forall|page: u64, id: Seq<char>|
        page < open && #[trigger] listed(new_rows, page).contains(id) implies
        new_rows.counts.contains_key((id, page)) by {
        if page < from {
            assert(listed(rows, page).contains(id));
            assert(rows.counts.contains_key((id, page)));
        }
    }
    lemma_seal_dir(rows.dir, state.dir@, tail.dir@, from, open, flushed, frontier);
    lemma_seal_counts(
        rows,
        new_rows,
        count_pairs(state.sealed_page_counts.map()),
        spans,
        from,
        open,
    );
}

/// A seal that completes nothing writes nothing.
proof fn lemma_empty_burst(rows: FamilyRows, family: Family, seal_block: u64, burst: SealBurst)
    requires
        burst.spans@.len() == 0,
        burst.manifest@.len() == 0,
    ensures
        all_written(rows, burst_contents(family, seal_block, burst)) == rows,
{
    assert(burst_contents(family, seal_block, burst) =~= Seq::empty());
}

/// The fragments of a flush hold the bits of the tail.
proof fn lemma_entry_bits(
    entries: Seq<StreamEntry<roaring::RoaringBitmap>>,
    key: (Seq<char>, u64),
)
    requires
        keys_sorted(entries),
    ensures
        entry_bits(entries, key) == bits_at(page_bits(entries_map(entries)), key),
    decreases entries.len(),
{
    if entries.len() == 0 {
        assert(!has_key(entries, key));
    } else {
        let rest = entries.drop_last();
        let last = entries.last();
        let n = rest.len() as int;
        assert(entries =~= rest.push(last));
        assert forall|i: int, j: int| 0 <= i < j < rest.len() implies key_lt(
            #[trigger] entry_key(rest[i]),
            #[trigger] entry_key(rest[j]),
        ) by {
            assert(key_lt(entry_key(entries[i]), entry_key(entries[j])));
        }
        assert forall|i: int| 0 <= i < rest.len() implies key_lt(
            #[trigger] entry_key(rest[i]),
            entry_key(last),
        ) by {
            assert(key_lt(entry_key(entries[i]), entry_key(entries[n])));
        }
        lemma_entry_bits(rest, key);
        lemma_entry_push(rest, last);
        if entry_key(last) == key {
            assert(Set::<u32>::empty().union(bitmap_bits(last.value)) =~= bitmap_bits(last.value));
        }
    }
}

proof fn lemma_seen_after(ids: Seq<Seq<char>>, seen: Set<Seq<char>>, id: Seq<char>)
    ensures
        seen_after(ids, seen).contains(id) <==> seen.contains(id) || ids.contains(id),
        seen_after(ids, seen).contains(id) <==> seen.contains(id) || unseen(ids, seen).contains(id),
    decreases ids.len(),
{
    if ids.len() == 0 {
    } else {
        let rest = ids.drop_last();
        lemma_seen_after(rest, seen, id);
        assert(ids =~= rest.push(ids.last()));
        assert(rest.push(ids.last()).contains(id) <==> rest.contains(id) || ids.last() == id) by {
            if rest.contains(id) {
                let i = choose|i: int| 0 <= i < rest.len() && rest[i] == id;
                assert(ids[i] == id);
            }
            assert(ids[ids.len() - 1] == ids.last());
        }
        let kept = unseen(rest, seen);
        assert(kept.push(ids.last()).contains(id) <==> kept.contains(id) || ids.last() == id) by {
            if kept.contains(id) {
                let i = choose|i: int| 0 <= i < kept.len() && kept[i] == id;
                assert(kept.push(ids.last())[i] == id);
            }
            assert(kept.push(ids.last())[kept.len() as int] == ids.last());
        }
    }
}

/// The rows that a flush leaves: fragments and an inventory for the open page,
/// and the tail's directory entries.
pub open spec fn is_flush_of(
    rows: FamilyRows,
    after: FamilyRows,
    tail: FamilyTail,
    seen: Set<Seq<char>>,
    sealed_id: u64,
) -> bool {
    &&& after.counts == rows.counts
    &&& after.chains == rows.chains
    &&& after.dir == rows.dir + tail.dir@
    &&& forall|key: (Seq<char>, u64)| #[trigger]
        bits_at(after.fragments, key) == bits_at(rows.fragments, key).union(
            bits_at(tail.bits(), key),
        )
    &&& forall|key: (Seq<char>, u64)| #[trigger]
        after.fragments.contains_key(key) ==> rows.fragments.contains_key(key) || key.1
            == sealed_id
    &&& forall|page: u64|
        page != sealed_id ==> #[trigger] listed(after, page) == listed(rows, page)
    &&& listed(after, sealed_id) == listed(rows, sealed_id).union(
        seen_after(entry_streams(tail.pages.entries@), seen),
    )
}

proof fn lemma_flush_rows(
    rows: FamilyRows,
    tail: FamilyTail,
    seen: Set<Seq<char>>,
    sealed_id: u64,
    family: Family,
    flush_block: u64,
)
    requires
        tail.pages.wf(),
        forall|key: (Seq<char>, u64)| #[trigger]
            tail.bits().contains_key(key) ==> key.1 == sealed_id,
        listed(rows, sealed_id) == seen,
    ensures
        is_flush_of(
            rows,
            all_written(
                rows,
                flush_contents(family, flush_block, tail.pages.entries@, seen, tail.dir@),
            ),
            tail,
            seen,
            sealed_id,
        ),
{
    let entries = tail.pages.entries@;
    let ids = entry_streams(entries);
    let fresh = unseen(ids, seen);
    let fragments = entries.map_values(
        |entry: StreamEntry<roaring::RoaringBitmap>| fragment_content(family, flush_block, entry),
    );
    let inventory = if fresh.len() == 0 {
        Seq::empty()
    } else {
        seq![
            WriteContent::OpenStreams {
                family,
                page_start: entries.last().start,
                marker_block: flush_block,
                streams: fresh,
            },
        ]
    };
    let dir = tail.dir@.map_values(|entry: (u64, u64, u64)| dir_content(family, entry));
    let one = all_written(rows, fragments);
    let two = all_written(one, inventory);
    let after = all_written(two, dir);
    assert(all_written(
        rows,
        flush_contents(family, flush_block, entries, seen, tail.dir@),
    ) == after) by {
        lemma_written_append(rows, fragments, inventory);
        lemma_written_append(rows, fragments + inventory, dir);
    }
    assert forall|i: int| 0 <= i < entries.len() implies (#[trigger] entries[i]).start
        == sealed_id by {
        lemma_entry(entries, i);
        assert(tail.bits().contains_key(entry_key(entries[i])));
    }
    lemma_fragments_written(rows, family, flush_block, entries);
    lemma_dir_written(two, family, tail.dir@);
    assert forall|id: Seq<char>| #[trigger]
        listed(two, sealed_id).contains(id) <==> seen_after(ids, seen).contains(id) by {
        lemma_seen_after(ids, seen, id);
        if fresh.len() == 0 {
            assert(inventory =~= Seq::empty());
            assert(two == one);
        } else {
            assert(entries.len() > 0) by {
                if entries.len() == 0 {
                    assert(ids.len() == 0);
                }
            }
            assert(entries[entries.len() - 1].start == sealed_id);
            assert(inventory.drop_last() =~= Seq::empty());
            reveal_with_fuel(all_written, 2);
            assert(two == written(one, inventory[0]));
        }
    }
    assert forall|page: u64| page != sealed_id implies #[trigger] listed(two, page) == listed(
        rows,
        page,
    ) by {
        if fresh.len() == 0 {
            assert(inventory =~= Seq::empty());
        } else {
            assert(entries.len() > 0) by {
                if entries.len() == 0 {
                    assert(ids.len() == 0);
                }
            }
            assert(entries[entries.len() - 1].start == sealed_id);
            assert(inventory.drop_last() =~= Seq::empty());
            reveal_with_fuel(all_written, 2);
            assert(two == written(one, inventory[0]));
        }
    }
    assert(two.fragments == one.fragments && two.counts == one.counts && two.chains == one.chains
        && two.dir == one.dir) by {
        if fresh.len() == 0 {
            assert(inventory =~= Seq::empty());
        } else {
            assert(inventory.drop_last() =~= Seq::empty());
            reveal_with_fuel(all_written, 2);
            assert(two == written(one, inventory[0]));
        }
    }
    assert forall|page: u64| #[trigger] listed(after, page) == listed(two, page) by {}
    assert(listed(after, sealed_id) =~= listed(rows, sealed_id).union(seen_after(ids, seen))) by {
        assert forall|id: Seq<char>| #[trigger]
            listed(rows, sealed_id).contains(id) implies seen_after(ids, seen).contains(id) by {
            lemma_seen_after(ids, seen, id);
        }
    }
    assert forall|key: (Seq<char>, u64)| #[trigger]
        bits_at(after.fragments, key) == bits_at(rows.fragments, key).union(
            bits_at(tail.bits(), key),
        ) by {
        lemma_entry_bits(entries, key);
        assert(bits_at(one.fragments, key) == bits_at(rows.fragments, key).union(
            entry_bits(entries, key),
        ));
    }
    assert forall|key: (Seq<char>, u64)| #[trigger]
        after.fragments.contains_key(key) implies rows.fragments.contains_key(key) || key.1
        == sealed_id by {
        assert(one.fragments.contains_key(key));
    }
}

/// A flush of a sealed working set completes the mirror: everything below the
/// frontier is in the rows.
pub proof fn law_flush_completes_the_mirror(
    rows: FamilyRows,
    before: (FamilyState, FamilyTail),
    after: (FamilyState, FamilyTail),
    flushed: u64,
    frontier: u64,
    family: Family,
    flush_block: u64,
)
    requires
        mirrors(rows, before.0, before.1, flushed, frontier),
        before.0.sealed_id == spec_seal_boundary(frontier),
        is_flushed(before, after),
        track_wf(after.0, after.1, frontier),
    ensures
        mirrors(
            all_written(
                rows,
                flush_contents(
                    family,
                    flush_block,
                    before.1.pages.entries@,
                    before.0.open_streams_seen.set(),
                    before.1.dir@,
                ),
            ),
            after.0,
            after.1,
            frontier,
            frontier,
        ),
{
    let (state, tail) = before;
    let sealed_id = state.sealed_id;
    let seen = state.open_streams_seen.set();
    let entries = tail.pages.entries@;
    let ids = entry_streams(entries);
    let new_rows = all_written(
        rows,
        flush_contents(family, flush_block, entries, seen, tail.dir@),
    );
    assert forall|key: (Seq<char>, u64)| #[trigger] tail.bits().contains_key(key) implies key.1
        == sealed_id by {
        law_one_open_page(state, tail, frontier, key);
    }
    lemma_flush_rows(rows, tail, seen, sealed_id, family, flush_block);
    assert(is_flush_of(rows, new_rows, tail, seen, sealed_id));
    let (next, rest) = after;
    assert(rest.bits() =~= Map::empty());
    // Pages.
    assert forall|key: (Seq<char>, u64)| #[trigger] next.bits().contains_key(key) implies key.1
        == sealed_id && is_stream_id(key.0) && page_within(
        key.1,
        next.bits()[key],
        0,
        frontier,
    ) by {
        let bits = next.bits()[key];
        assert(bits == bits_at(state.bits(), key).union(bits_at(tail.bits(), key)));
        assert forall|o: u32| #[trigger] bits.contains(o) implies 0 <= key.1 + o < frontier by {
            if state.bits().contains_key(key) && state.bits()[key].contains(o) {
                assert(page_within(key.1, state.bits()[key], 0, flushed));
            } else {
                assert(page_within(key.1, tail.bits()[key], flushed, frontier));
            }
        }
        if state.bits().contains_key(key) {
            let o = choose|o: u32| #[trigger] state.bits()[key].contains(o);
            assert(bits.contains(o));
        } else {
            assert(tail.bits().contains_key(key));
            let o = choose|o: u32| #[trigger] tail.bits()[key].contains(o);
            assert(bits.contains(o));
        }
    }
    assert forall|id: Seq<char>| #[trigger] fragments_match(new_rows, next, id) by {
        let key = (id, sealed_id);
        assert(fragments_match(rows, state, id));
        assert(bits_at(next.bits(), key) =~= bits_at(state.bits(), key).union(
            bits_at(tail.bits(), key),
        ));
        assert(bits_at(new_rows.fragments, key) == bits_at(rows.fragments, key).union(
            bits_at(tail.bits(), key),
        ));
    }
    // The inventory.
    assert forall|id: Seq<char>| #[trigger]
        next.open_streams_seen.set().contains(id) <==> next.bits().contains_key(
            (id, sealed_id),
        ) by {
        lemma_seen_after(ids, seen, id);
        lemma_entry_streams(tail, id, sealed_id);
        assert(seen.contains(id) <==> state.bits().contains_key((id, sealed_id)));
    }
    assert(listed(new_rows, sealed_id) =~= next.open_streams_seen.set()) by {
        assert forall|id: Seq<char>| #[trigger] seen.contains(id) implies seen_after(
            ids,
            seen,
        ).contains(id) by {
            lemma_seen_after(ids, seen, id);
        }
    }
    assert forall|page: u64, id: Seq<char>| #[trigger]
        listed(new_rows, page).contains(id) implies is_stream_id(id) && (page < sealed_id
        ==> new_rows.counts.contains_key((id, page))) by {
        if page == sealed_id {
            assert(next.open_streams_seen.set().contains(id));
            assert(next.bits().contains_key((id, sealed_id)));
        } else {
            assert(listed(rows, page).contains(id));
        }
    }
    // The directory.
    lemma_open_entries_append(rows.dir, tail.dir@, sealed_id);
    assert forall|i: int, j: int| 0 <= i < j < next.dir@.len() implies (#[trigger] next.dir@[i]).2
        <= (#[trigger] next.dir@[j]).2 by {
        let m = state.dir@.len();
        if j < m {
            assert(state.dir@[i].2 <= state.dir@[j].2);
        } else if i >= m {
            assert(tail.dir@[i - m].2 <= tail.dir@[j - m].2);
        } else {
            assert(state.dir@[i].2 <= flushed);
            assert(tail.dir@[j - m].1 >= flushed);
        }
    }
    assert forall|i: int| 0 <= i < next.dir@.len() implies 0 <= (#[trigger] next.dir@[i]).1
        < next.dir@[i].2 <= frontier by {
        let m = state.dir@.len();
        if i < m {
            assert(state.dir@[i].1 < state.dir@[i].2);
        } else {
            assert(tail.dir@[i - m].1 < tail.dir@[i - m].2);
        }
    }
    assert(open_entries(rest.dir@, sealed_id) =~= rest.dir@);
    // The counts.
    let group = spec_page_group_start(sealed_id);
    let n = pages_below_boundary(group, sealed_id);
    assert(group + n * PAGE_SPAN == sealed_id) by {
        assert(sealed_id % PAGE_SPAN == 0);
        assert(group % PAGE_SPAN == 0);
    }
    assert forall|page: u64| page < sealed_id implies #[trigger] listed(rows, page) == listed(
        new_rows,
        page,
    ) by {
        assert(listed(new_rows, page) == listed(rows, page));
    }
    lemma_stored_counts_agree(rows, new_rows, group, n, sealed_id);
}

proof fn lemma_entry_streams(tail: FamilyTail, id: Seq<char>, page: u64)
    requires
        tail.pages.wf(),
        forall|key: (Seq<char>, u64)| #[trigger]
            tail.bits().contains_key(key) ==> key.1 == page,
    ensures
        entry_streams(tail.pages.entries@).contains(id) <==> tail.bits().contains_key((id, page)),
{
    let entries = tail.pages.entries@;
    let ids = entry_streams(entries);
    if ids.contains(id) {
        let i = choose|i: int| 0 <= i < ids.len() && ids[i] == id;
        lemma_entry(entries, i);
        assert(tail.bits().contains_key(entry_key(entries[i])));
    }
    if tail.bits().contains_key((id, page)) {
        assert(has_key(entries, (id, page)));
        let i = choose|i: int| 0 <= i < entries.len() && #[trigger] entry_key(entries[i]) == (
            id,
            page,
        );
        assert(ids[i] == id);
    }
}

/// Rows agree with themselves.
pub proof fn law_rows_agree_with_themselves(
    rows: FamilyRows,
    state: FamilyState,
    tail: FamilyTail,
    bound: u64,
)
    requires
        mirrors(rows, state, tail, bound, bound),
    ensures
        agrees_below(rows, rows, bound),
{
    assert(rows.dir.take(rows.dir.len() as int) =~= rows.dir);
}

/// A seal after a flush boundary leaves what lies below the boundary alone.
pub proof fn law_later_seal_agrees<
    F: Fn(ChainDigest, u64, &Vec<SealedPage>, &PrimaryDirBucket) -> ChainDigest,
>(
    earlier: FamilyRows,
    bound: u64,
    rows: FamilyRows,
    state: FamilyState,
    tail: FamilyTail,
    flushed: u64,
    frontier: u64,
    family: Family,
    seal_block: u64,
    fold: F,
    burst: SealBurst,
)
    requires
        agrees_below(earlier, rows, bound),
        spec_seal_boundary(bound) <= state.sealed_id,
        mirrors(rows, state, tail, flushed, frontier),
        is_burst(state, tail, frontier, fold, burst),
    ensures
        agrees_below(
            earlier,
            all_written(rows, burst_contents(family, seal_block, burst)),
            bound,
        ),
{
    let from = state.sealed_id;
    let open = spec_seal_boundary(frontier);
    let after = all_written(rows, burst_contents(family, seal_block, burst));
    if open <= from {
        lemma_empty_burst(rows, family, seal_block, burst);
        return ;
    }
    lemma_seal_rows(rows, state, tail, flushed, frontier, family, seal_block, fold, burst);
    let sealed_id = spec_seal_boundary(bound);
    assert forall|key: (Seq<char>, u64)| key.1 < sealed_id implies (
    #[trigger] after.counts.contains_key(key) <==> earlier.counts.contains_key(key))
        && after.counts[key] == earlier.counts[key] by {
        assert(rows.counts.contains_key(key) <==> earlier.counts.contains_key(key));
    }
    assert forall|start: u64| start < sealed_id implies (
    #[trigger] after.chains.contains_key(start) <==> earlier.chains.contains_key(start))
        && after.chains[start] == earlier.chains[start] by {
        assert(rows.chains.contains_key(start) <==> earlier.chains.contains_key(start));
    }
    assert(listed(rows, sealed_id).subset_of(listed(after, sealed_id)));
    assert forall|page: u64| page < sealed_id implies #[trigger] listed(after, page) == listed(
        earlier,
        page,
    ) by {
        assert(listed(rows, page) == listed(earlier, page));
    }
}

/// A flush after a flush boundary leaves what lies below the boundary alone.
pub proof fn law_later_flush_agrees(
    earlier: FamilyRows,
    bound: u64,
    rows: FamilyRows,
    state: FamilyState,
    tail: FamilyTail,
    flushed: u64,
    frontier: u64,
    family: Family,
    flush_block: u64,
)
    requires
        agrees_below(earlier, rows, bound),
        bound <= flushed,
        spec_seal_boundary(bound) <= state.sealed_id,
        mirrors(rows, state, tail, flushed, frontier),
        state.sealed_id == spec_seal_boundary(frontier),
    ensures
        agrees_below(
            earlier,
            all_written(
                rows,
                flush_contents(
                    family,
                    flush_block,
                    tail.pages.entries@,
                    state.open_streams_seen.set(),
                    tail.dir@,
                ),
            ),
            bound,
        ),
{
    let seen = state.open_streams_seen.set();
    let entries = tail.pages.entries@;
    let ids = entry_streams(entries);
    let after = all_written(
        rows,
        flush_contents(family, flush_block, entries, seen, tail.dir@),
    );
    assert forall|key: (Seq<char>, u64)| #[trigger] tail.bits().contains_key(key) implies key.1
        == state.sealed_id by {
        law_one_open_page(state, tail, frontier, key);
    }
    lemma_flush_rows(rows, tail, seen, state.sealed_id, family, flush_block);
    assert(is_flush_of(rows, after, tail, seen, state.sealed_id));
    let sealed_id = spec_seal_boundary(bound);
    assert forall|id: Seq<char>, o: u32| sealed_id + o < bound implies (
    #[trigger] bits_at(after.fragments, (id, sealed_id)).contains(o) <==> bits_at(
        earlier.fragments,
        (id, sealed_id),
    ).contains(o)) by {
        let key = (id, sealed_id);
        assert(bits_at(after.fragments, key) == bits_at(rows.fragments, key).union(
            bits_at(tail.bits(), key),
        ));
        assert(bits_at(rows.fragments, (id, sealed_id)).contains(o) <==> bits_at(
            earlier.fragments,
            (id, sealed_id),
        ).contains(o));
        if bits_at(tail.bits(), key).contains(o) {
            assert(page_within(key.1, tail.bits()[key], flushed, frontier));
        }
    }
    assert forall|page: u64| page < sealed_id implies #[trigger] listed(after, page) == listed(
        earlier,
        page,
    ) by {
        assert(listed(rows, page) == listed(earlier, page));
    }
    assert forall|page: u64, id: Seq<char>| #[trigger]
        listed(after, page).contains(id) implies is_stream_id(id) by {
        if page == state.sealed_id {
            lemma_seen_after(ids, seen, id);
            lemma_entry_streams(tail, id, state.sealed_id);
            if !listed(rows, page).contains(id) {
                assert(ids.contains(id));
                assert(tail.bits().contains_key((id, state.sealed_id)));
            }
        } else {
            assert(listed(rows, page).contains(id));
        }
    }
    assert(listed(earlier, sealed_id).subset_of(listed(after, sealed_id))) by {
        if sealed_id != state.sealed_id {
            assert(listed(after, sealed_id) == listed(rows, sealed_id));
        }
    }
    assert(after.dir.take(earlier.dir.len() as int) =~= earlier.dir) by {
        assert(rows.dir.take(earlier.dir.len() as int) == earlier.dir);
        assert forall|i: int| 0 <= i < earlier.dir.len() implies after.dir[i]
            == earlier.dir[i] by {
            assert(rows.dir.take(earlier.dir.len() as int)[i] == rows.dir[i]);
        }
    }
    assert forall|i: int| earlier.dir.len() <= i < after.dir.len() implies (
    #[trigger] after.dir[i]).1 >= bound by {
        if i < rows.dir.len() {
            assert(rows.dir[i].1 >= bound);
        } else {
            assert(tail.dir@[i - rows.dir.len()].1 >= flushed);
        }
    }
}

} // verus!
