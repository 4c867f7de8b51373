//! What holds of seals as a whole.

use vstd::prelude::*;

use crate::text::{lemma_name_irreflexive, lemma_name_transitive, name_lt};
use crate::write::bitmap::{
    bitmap_bits, lemma_meta_unique, spec_page_group_start, spec_seal_boundary, PAGE_SPAN,
};
use crate::write::dir::{span_starts, PrimaryDirBucket};
use crate::write::index::{ChainDigest, FamilyState, FamilyTail};
use crate::write::pages::joined;
use crate::write::seal::{
    are_spans, chain_before, count_pages, count_pairs, count_spans, holds_page, is_burst,
    is_manifest, is_page, is_row, is_span, lists_row, lists_span, lists_stream, streams_ascend,
    PageCountsRow, SealBurst, SealedPage, SealedSpan,
};
use crate::write::streams::{key_lt, lemma_key_irreflexive, lemma_key_transitive};

verus! {

/// Two sealed pages have the same stream, bits and description.
pub open spec fn same_page(a: SealedPage, b: SealedPage) -> bool {
    a.stream@ == b.stream@ && a.meta == b.meta && bitmap_bits(a.bitmap) == bitmap_bits(b.bitmap)
}

/// Two lists hold the same sealed pages.
pub open spec fn same_pages(a: Seq<SealedPage>, b: Seq<SealedPage>) -> bool {
    a.len() == b.len() && forall|i: int| 0 <= i < a.len() ==> same_page(#[trigger] a[i], b[i])
}

/// Two buckets list the same entries.
pub open spec fn same_bucket(a: PrimaryDirBucket, b: PrimaryDirBucket) -> bool {
    a.entries@ == b.entries@ && a.end_primary_id_exclusive == b.end_primary_id_exclusive
}

/// Two spans are the same artifacts under the same chain value.
pub open spec fn same_span(a: SealedSpan, b: SealedSpan) -> bool {
    &&& a.start == b.start
    &&& same_pages(a.pages@, b.pages@)
    &&& same_bucket(a.bucket, b.bucket)
    &&& a.chain == b.chain
}

/// Two manifest rows are the same.
pub open spec fn same_row(a: PageCountsRow, b: PageCountsRow) -> bool {
    a.stream@ == b.stream@ && a.group_start == b.group_start && a.pairs@ == b.pairs@
}

/// Two bursts hold the same spans and the same manifest rows.
pub open spec fn same_burst(a: SealBurst, b: SealBurst) -> bool {
    &&& a.spans@.len() == b.spans@.len()
    &&& forall|k: int| 0 <= k < a.spans@.len() ==> same_span(#[trigger] a.spans@[k], b.spans@[k])
    &&& a.manifest@.len() == b.manifest@.len()
    &&& forall|i: int|
        0 <= i < a.manifest@.len() ==> same_row(#[trigger] a.manifest@[i], b.manifest@[i])
}

/// `fold` answers the same for the same chain value, start, pages and bucket.
pub open spec fn folds_content<
    F: Fn(ChainDigest, u64, &Vec<SealedPage>, &PrimaryDirBucket) -> ChainDigest,
>(fold: F) -> bool {
    forall|
        chain: ChainDigest,
        start: u64,
        p: &Vec<SealedPage>,
        q: &Vec<SealedPage>,
        b: &PrimaryDirBucket,
        c: &PrimaryDirBucket,
        r: ChainDigest,
        s: ChainDigest,
    |
        #[trigger] call_ensures(fold, (chain, start, p, b), r) && #[trigger] call_ensures(
            fold,
            (chain, start, q, c),
            s,
        ) && same_pages(p@, q@) && same_bucket(*b, *c) ==> r == s
}

/// Two working sets hold the same open content: the same union of pages, the
/// same directory chain, and the same seal position.
pub open spec fn same_content(
    state: FamilyState,
    tail: FamilyTail,
    other_state: FamilyState,
    other_tail: FamilyTail,
) -> bool {
    &&& joined(state.bits(), tail.bits()) == joined(other_state.bits(), other_tail.bits())
    &&& state.dir@ + tail.dir@ == other_state.dir@ + other_tail.dir@
    &&& state.sealed_id == other_state.sealed_id
    &&& state.seal_chain == other_state.seal_chain
    &&& count_pairs(state.sealed_page_counts.map()) == count_pairs(
        other_state.sealed_page_counts.map(),
    )
}

proof fn lemma_last_is_greatest(pages: Seq<SealedPage>, id: Seq<char>)
    requires
        streams_ascend(pages),
        lists_stream(pages, id),
    ensures
        id == pages.last().stream@ || name_lt(id, pages.last().stream@),
{
    let i = choose|i: int| 0 <= i < pages.len() && (#[trigger] pages[i]).stream@ == id;
    if i < pages.len() - 1 {
        assert(name_lt(pages[i].stream@, pages[pages.len() - 1].stream@));
    }
}

pub proof fn lemma_lists_drop_last(pages: Seq<SealedPage>, id: Seq<char>)
    requires
        streams_ascend(pages),
        pages.len() > 0,
    ensures
        lists_stream(pages.drop_last(), id) <==> lists_stream(pages, id) && id
            != pages.last().stream@,
        streams_ascend(pages.drop_last()),
{
    let rest = pages.drop_last();
    let n = rest.len() as int;
    if lists_stream(rest, id) {
        let i = choose|i: int| 0 <= i < rest.len() && (#[trigger] rest[i]).stream@ == id;
        assert(pages[i].stream@ == id);
        assert(name_lt(pages[i].stream@, pages[n].stream@));
        lemma_name_irreflexive(id);
    }
    if lists_stream(pages, id) && id != pages.last().stream@ {
        let i = choose|i: int| 0 <= i < pages.len() && (#[trigger] pages[i]).stream@ == id;
        assert(rest[i].stream@ == id);
    }
    assert forall|i: int, j: int| 0 <= i < j < rest.len() implies name_lt(
        (#[trigger] rest[i]).stream@,
        (#[trigger] rest[j]).stream@,
    ) by {
        assert(rest[i] == pages[i] && rest[j] == pages[j]);
    }
}

/// Ascending lists of the same streams agree.
proof fn lemma_ascending_unique(a: Seq<SealedPage>, b: Seq<SealedPage>)
    requires
        streams_ascend(a),
        streams_ascend(b),
        forall|id: Seq<char>| #[trigger] lists_stream(a, id) <==> lists_stream(b, id),
    ensures
        a.len() == b.len(),
        forall|i: int| 0 <= i < a.len() ==> (#[trigger] a[i]).stream@ == b[i].stream@,
    decreases a.len(),
{
    if a.len() == 0 {
        if b.len() > 0 {
            assert(lists_stream(b, b[0].stream@));
            assert(lists_stream(a, b[0].stream@));
        }
    } else {
        let x = a.last().stream@;
        assert(a[a.len() - 1].stream@ == x);
        assert(lists_stream(a, x));
        assert(lists_stream(b, x));
        let y = b.last().stream@;
        assert(b[b.len() - 1].stream@ == y);
        assert(lists_stream(b, y));
        assert(lists_stream(a, y));
        lemma_last_is_greatest(a, y);
        lemma_last_is_greatest(b, x);
        if x != y {
            lemma_name_transitive(x, y, x);
            lemma_name_irreflexive(x);
        }
        assert forall|id: Seq<char>| #[trigger] lists_stream(a.drop_last(), id) <==> lists_stream(
            b.drop_last(),
            id,
        ) by {
            lemma_lists_drop_last(a, id);
            lemma_lists_drop_last(b, id);
            assert(lists_stream(a, id) <==> lists_stream(b, id));
        }
        lemma_lists_drop_last(a, x);
        lemma_lists_drop_last(b, x);
        lemma_ascending_unique(a.drop_last(), b.drop_last());
        assert forall|i: int| 0 <= i < a.len() implies (#[trigger] a[i]).stream@
            == b[i].stream@ by {
            if i < a.len() - 1 {
                assert(a.drop_last()[i] == a[i] && b.drop_last()[i] == b[i]);
            }
        }
    }
}

/// The pages of a span are determined by the open pages.
proof fn lemma_span_unique(
    a: Seq<SealedPage>,
    b: Seq<SealedPage>,
    all: Map<(Seq<char>, u64), Set<u32>>,
    start: u64,
)
    requires
        lists_span(a, all, start),
        lists_span(b, all, start),
    ensures
        same_pages(a, b),
{
    assert forall|id: Seq<char>| #[trigger] lists_stream(a, id) <==> lists_stream(b, id) by {
        if lists_stream(a, id) {
            let i = choose|i: int| 0 <= i < a.len() && (#[trigger] a[i]).stream@ == id;
            assert(holds_page(a[i], all, start));
            assert(is_page(all, id, start));
        }
        if lists_stream(b, id) {
            let i = choose|i: int| 0 <= i < b.len() && (#[trigger] b[i]).stream@ == id;
            assert(holds_page(b[i], all, start));
            assert(is_page(all, id, start));
        }
    }
    lemma_ascending_unique(a, b);
    assert forall|i: int| 0 <= i < a.len() implies same_page(#[trigger] a[i], b[i]) by {
        assert(holds_page(a[i], all, start));
        assert(holds_page(b[i], all, start));
        lemma_meta_unique(a[i].meta, b[i].meta, all[(a[i].stream@, start)]);
    }
}

proof fn lemma_same_counts(
    counts: Map<(Seq<char>, u64), Seq<(u32, u32)>>,
    a: Seq<SealedPage>,
    b: Seq<SealedPage>,
    start: u64,
)
    requires
        same_pages(a, b),
    ensures
        count_pages(counts, a, start) == count_pages(counts, b, start),
    decreases a.len(),
{
    if a.len() > 0 {
        assert(same_page(a[a.len() - 1], b[a.len() - 1]));
        assert forall|i: int| 0 <= i < a.drop_last().len() implies same_page(
            #[trigger] a.drop_last()[i],
            b.drop_last()[i],
        ) by {
            assert(same_page(a[i], b[i]));
        }
        lemma_same_counts(counts, a.drop_last(), b.drop_last(), start);
    }
}

pub proof fn lemma_same_span_counts(
    counts: Map<(Seq<char>, u64), Seq<(u32, u32)>>,
    a: Seq<SealedSpan>,
    b: Seq<SealedSpan>,
)
    requires
        a.len() == b.len(),
        forall|k: int| 0 <= k < a.len() ==> same_span(#[trigger] a[k], b[k]),
    ensures
        count_spans(counts, a) == count_spans(counts, b),
    decreases a.len(),
{
    if a.len() > 0 {
        assert(same_span(a[a.len() - 1], b[a.len() - 1]));
        assert forall|k: int| 0 <= k < a.drop_last().len() implies same_span(
            #[trigger] a.drop_last()[k],
            b.drop_last()[k],
        ) by {
            assert(same_span(a[k], b[k]));
        }
        lemma_same_span_counts(counts, a.drop_last(), b.drop_last());
        lemma_same_counts(
            count_spans(counts, a.drop_last()),
            a.last().pages@,
            b.last().pages@,
            a.last().start,
        );
    }
}

/// The key of a manifest row.
spec fn row_key(row: PageCountsRow) -> (Seq<char>, u64) {
    (row.stream@, row.group_start)
}

spec fn rows_ascend(rows: Seq<PageCountsRow>) -> bool {
    forall|i: int, j: int|
        0 <= i < j < rows.len() ==> key_lt(row_key(#[trigger] rows[i]), row_key(#[trigger] rows[j]))
}

proof fn lemma_rows_drop_last(rows: Seq<PageCountsRow>, key: (Seq<char>, u64))
    requires
        rows_ascend(rows),
        rows.len() > 0,
    ensures
        lists_row(rows.drop_last(), key) <==> lists_row(rows, key) && key != row_key(rows.last()),
        rows_ascend(rows.drop_last()),
{
    let rest = rows.drop_last();
    let n = rest.len() as int;
    if lists_row(rest, key) {
        let i = choose|i: int| 0 <= i < rest.len() && row_key(#[trigger] rest[i]) == key;
        assert(row_key(rows[i]) == key);
        assert(key_lt(row_key(rows[i]), row_key(rows[n])));
        lemma_key_irreflexive(key);
    }
    if lists_row(rows, key) && key != row_key(rows.last()) {
        let i = choose|i: int| 0 <= i < rows.len() && row_key(#[trigger] rows[i]) == key;
        assert(row_key(rest[i]) == key);
    }
    assert forall|i: int, j: int| 0 <= i < j < rest.len() implies key_lt(
        row_key(#[trigger] rest[i]),
        row_key(#[trigger] rest[j]),
    ) by {
        assert(rest[i] == rows[i] && rest[j] == rows[j]);
    }
}

proof fn lemma_rows_unique(a: Seq<PageCountsRow>, b: Seq<PageCountsRow>)
    requires
        rows_ascend(a),
        rows_ascend(b),
        forall|key: (Seq<char>, u64)| #[trigger] lists_row(a, key) <==> lists_row(b, key),
    ensures
        a.len() == b.len(),
        forall|i: int| 0 <= i < a.len() ==> row_key(#[trigger] a[i]) == row_key(b[i]),
    decreases a.len(),
{
    if a.len() == 0 {
        if b.len() > 0 {
            assert(row_key(b[0]) == row_key(b[0]));
            assert(lists_row(b, row_key(b[0])));
            assert(lists_row(a, row_key(b[0])));
        }
    } else {
        let x = row_key(a.last());
        let n = a.len() - 1;
        assert(row_key(a[n]) == x);
        assert(lists_row(a, x));
        assert(lists_row(b, x));
        let m = b.len() - 1;
        let y = row_key(b.last());
        assert(row_key(b[m]) == y);
        assert(lists_row(b, y));
        assert(lists_row(a, y));
        let i = choose|i: int| 0 <= i < a.len() && row_key(#[trigger] a[i]) == y;
        let j = choose|j: int| 0 <= j < b.len() && row_key(#[trigger] b[j]) == x;
        if x != y {
            assert(key_lt(row_key(a[i]), row_key(a[n])));
            assert(key_lt(row_key(b[j]), row_key(b[m])));
            lemma_key_transitive(x, y, x);
            lemma_key_irreflexive(x);
        }
        assert forall|key: (Seq<char>, u64)| #[trigger] lists_row(a.drop_last(), key) <==> lists_row(
            b.drop_last(),
            key,
        ) by {
            lemma_rows_drop_last(a, key);
            lemma_rows_drop_last(b, key);
            assert(lists_row(a, key) <==> lists_row(b, key));
        }
        lemma_rows_drop_last(a, x);
        lemma_rows_drop_last(b, x);
        lemma_rows_unique(a.drop_last(), b.drop_last());
        assert forall|i: int| 0 <= i < a.len() implies row_key(#[trigger] a[i]) == row_key(b[i]) by {
            if i < n {
                assert(a.drop_last()[i] == a[i] && b.drop_last()[i] == b[i]);
            }
        }
    }
}

/// A manifest is determined by the accumulator.
proof fn lemma_manifest_unique(
    a: Seq<PageCountsRow>,
    b: Seq<PageCountsRow>,
    counted: Map<(Seq<char>, u64), Seq<(u32, u32)>>,
    bound: u64,
)
    requires
        is_manifest(a, counted, bound),
        is_manifest(b, counted, bound),
    ensures
        a.len() == b.len(),
        forall|i: int| 0 <= i < a.len() ==> same_row(#[trigger] a[i], b[i]),
{
    assert forall|key: (Seq<char>, u64)| #[trigger] lists_row(a, key) <==> lists_row(b, key) by {
        if lists_row(a, key) {
            let i = choose|i: int| 0 <= i < a.len() && row_key(#[trigger] a[i]) == key;
            assert(is_row(a[i], counted));
            assert(counted.contains_key(key));
        }
        if lists_row(b, key) {
            let i = choose|i: int| 0 <= i < b.len() && row_key(#[trigger] b[i]) == key;
            assert(is_row(b[i], counted));
            assert(counted.contains_key(key));
        }
    }
    assert(rows_ascend(a)) by {
        assert forall|i: int, j: int| 0 <= i < j < a.len() implies key_lt(
            row_key(#[trigger] a[i]),
            row_key(#[trigger] a[j]),
        ) by {}
    }
    assert(rows_ascend(b)) by {
        assert forall|i: int, j: int| 0 <= i < j < b.len() implies key_lt(
            row_key(#[trigger] b[i]),
            row_key(#[trigger] b[j]),
        ) by {}
    }
    lemma_rows_unique(a, b);
    assert forall|i: int| 0 <= i < a.len() implies same_row(#[trigger] a[i], b[i]) by {
        assert(row_key(a[i]) == row_key(b[i]));
        assert(is_row(a[i], counted));
        assert(is_row(b[i], counted));
    }
}

proof fn lemma_spans_unique<
    F: Fn(ChainDigest, u64, &Vec<SealedPage>, &PrimaryDirBucket) -> ChainDigest,
>(
    a: Seq<SealedSpan>,
    b: Seq<SealedSpan>,
    starts: Seq<u64>,
    all: Map<(Seq<char>, u64), Set<u32>>,
    dir: Seq<(u64, u64, u64)>,
    seed: ChainDigest,
    fold: F,
    k: int,
)
    requires
        are_spans(a, starts, all, dir, seed, fold),
        are_spans(b, starts, all, dir, seed, fold),
        folds_content(fold),
        0 <= k < starts.len(),
    ensures
        same_span(a[k], b[k]),
    decreases k,
{
    if k > 0 {
        lemma_spans_unique(a, b, starts, all, dir, seed, fold, k - 1);
    }
    assert(is_span(a, k, starts[k], all, dir, seed, fold));
    assert(is_span(b, k, starts[k], all, dir, seed, fold));
    lemma_span_unique(a[k].pages@, b[k].pages@, all, starts[k]);
    assert(same_bucket(a[k].bucket, b[k].bucket));
    let before = chain_before(a, k, seed);
    assert(before == chain_before(b, k, seed));
    assert(call_ensures(fold, (before, starts[k], &a[k].pages, &a[k].bucket), a[k].chain));
    assert(call_ensures(fold, (before, starts[k], &b[k].pages, &b[k].bucket), b[k].chain));
    assert(same_pages((&a[k].pages)@, (&b[k].pages)@));
}

/// What a seal emits is independent of how the open content is spread over
/// state and tail, that is of how many flushes came before: the same pages,
/// buckets, chain values and manifest rows, so a replay rewrites identical
/// artifacts.
pub proof fn law_seal_is_cadence_independent<
    F: Fn(ChainDigest, u64, &Vec<SealedPage>, &PrimaryDirBucket) -> ChainDigest,
>(
    state: FamilyState,
    tail: FamilyTail,
    other_state: FamilyState,
    other_tail: FamilyTail,
    frontier: u64,
    fold: F,
    burst: SealBurst,
    other_burst: SealBurst,
)
    requires
        same_content(state, tail, other_state, other_tail),
        folds_content(fold),
        is_burst(state, tail, frontier, fold, burst),
        is_burst(other_state, other_tail, frontier, fold, other_burst),
    ensures
        same_burst(burst, other_burst),
{
    let from = state.sealed_id;
    let open = spec_seal_boundary(frontier);
    let starts = span_starts(from, open);
    let all = joined(state.bits(), tail.bits());
    let dir = state.dir@ + tail.dir@;
    assert forall|k: int| 0 <= k < burst.spans@.len() implies same_span(
        #[trigger] burst.spans@[k],
        other_burst.spans@[k],
    ) by {
        lemma_spans_unique(
            burst.spans@,
            other_burst.spans@,
            starts,
            all,
            dir,
            state.seal_chain,
            fold,
            k,
        );
    }
    let counts = count_pairs(state.sealed_page_counts.map());
    lemma_same_span_counts(counts, burst.spans@, other_burst.spans@);
    if spec_page_group_start(from) < spec_page_group_start(open) {
        lemma_manifest_unique(
            burst.manifest@,
            other_burst.manifest@,
            count_spans(counts, burst.spans@),
            spec_page_group_start(open),
        );
    }
}

/// A `(stream, group)` manifest row is emitted by one seal only: a seal emits
/// rows of groups from its old position's group up to, but without, its new
/// position's group, and a later seal starts at the new position.
pub proof fn law_manifest_rows_are_emitted_once<
    F: Fn(ChainDigest, u64, &Vec<SealedPage>, &PrimaryDirBucket) -> ChainDigest,
>(
    state: FamilyState,
    tail: FamilyTail,
    frontier: u64,
    burst: SealBurst,
    later_state: FamilyState,
    later_tail: FamilyTail,
    later_frontier: u64,
    later_burst: SealBurst,
    fold: F,
    i: int,
    j: int,
)
    requires
        crate::write::seal::family_wf(state, tail),
        crate::write::seal::family_wf(later_state, later_tail),
        is_burst(state, tail, frontier, fold, burst),
        is_burst(later_state, later_tail, later_frontier, fold, later_burst),
        spec_seal_boundary(frontier) <= later_state.sealed_id,
        0 <= i < burst.manifest@.len(),
        0 <= j < later_burst.manifest@.len(),
    ensures
        spec_page_group_start(state.sealed_id) <= burst.manifest@[i].group_start
            < spec_page_group_start(spec_seal_boundary(frontier)),
        burst.manifest@[i].group_start < later_burst.manifest@[j].group_start,
{
    lemma_row_groups(state, tail, frontier, fold, burst, i);
    lemma_row_groups(later_state, later_tail, later_frontier, fold, later_burst, j);
    let a = spec_seal_boundary(frontier);
    let b = later_state.sealed_id;
    assert(spec_page_group_start(a) <= spec_page_group_start(b));
}

/// No span of a seal lies in a group below the one that the seal starts in.
proof fn lemma_groups_from(from: u64, open: u64, k: int)
    requires
        from % PAGE_SPAN == 0,
        open % PAGE_SPAN == 0,
        0 <= k < span_starts(from, open).len(),
    ensures
        spec_page_group_start(from) <= spec_page_group_start(span_starts(from, open)[k]),
{
    let start = span_starts(from, open)[k];
    assert(k * PAGE_SPAN <= open - from);
    assert(from <= start);
}

#[verifier::spinoff_prover]
#[verifier::rlimit(50)]
proof fn lemma_row_groups<
    F: Fn(ChainDigest, u64, &Vec<SealedPage>, &PrimaryDirBucket) -> ChainDigest,
>(
    state: FamilyState,
    tail: FamilyTail,
    frontier: u64,
    fold: F,
    burst: SealBurst,
    i: int,
)
    requires
        crate::write::seal::family_wf(state, tail),
        is_burst(state, tail, frontier, fold, burst),
        0 <= i < burst.manifest@.len(),
    ensures
        spec_page_group_start(state.sealed_id) <= burst.manifest@[i].group_start
            < spec_page_group_start(spec_seal_boundary(frontier)),
{
    let from = state.sealed_id;
    let open = spec_seal_boundary(frontier);
    let counts = count_pairs(state.sealed_page_counts.map());
    let key = row_key(burst.manifest@[i]);
    let starts = span_starts(from, open);
    assert(is_row(burst.manifest@[i], count_spans(counts, burst.spans@)));
    assert forall|k: int| 0 <= k < burst.spans@.len() implies spec_page_group_start(from)
        <= spec_page_group_start((#[trigger] burst.spans@[k]).start) <= u64::MAX by {
        assert(is_span(
            burst.spans@,
            k,
            starts[k],
            joined(state.bits(), tail.bits()),
            state.dir@ + tail.dir@,
            state.seal_chain,
            fold,
        ));
        lemma_groups_from(from, open, k);
    }
    if counts.contains_key(key) {
        assert(state.sealed_page_counts.map().contains_key(key));
    }
    crate::write::seal::lemma_count_spans_keys(
        counts,
        burst.spans@,
        spec_page_group_start(from),
        u64::MAX,
        key,
    );
}

} // verus!
