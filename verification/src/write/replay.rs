//! Replay is deterministic: two working sets that hold the same open content
//! stay so over the same blocks, whatever the flushes and restarts between,
//! and their seals emit the same artifacts.

use vstd::prelude::*;

use crate::write::artifacts::{
    all_page_contents, all_span_contents, burst_contents, row_content, span_contents,
    span_page_contents, span_stream_ids,
};
use crate::write::bitmap::{spec_seal_boundary, PAGE_SPAN};
use crate::write::dir::{law_drain_ignores_the_seam, span_starts, PrimaryDirBucket};
use crate::write::engine::{is_accumulated, is_sealed};
use crate::write::family::Family;
use crate::write::flush::is_flushed;
use crate::write::index::{after_record, after_records, ChainDigest, FamilyState, FamilyTail};
use crate::write::mirror::same_state;
use crate::write::pages::{joined, lemma_joined_empty, lemma_part_joined};
use crate::write::seal::{count_pairs, PageCountsRow, SealBurst, SealedPage, SealedSpan};
use crate::write::seal_laws::{
    folds_content, law_seal_is_cadence_independent, lemma_same_span_counts, same_burst,
    same_content, same_page, same_row, same_span,
};
use crate::write::snapshot_codec::{state_content, tail_content};
use crate::write::streams::from_on;

verus! {

proof fn lemma_joined_assoc(
    a: Map<(Seq<char>, u64), Set<u32>>,
    b: Map<(Seq<char>, u64), Set<u32>>,
    c: Map<(Seq<char>, u64), Set<u32>>,
)
    ensures
        joined(a, joined(b, c)) == joined(joined(a, b), c),
{
    let left = joined(a, joined(b, c));
    let right = joined(joined(a, b), c);
    assert forall|key: (Seq<char>, u64)| #[trigger] left.contains_key(key) implies left[key]
        == right[key] by {
        assert(left[key] =~= right[key]);
    }
    assert(left =~= right);
}

proof fn lemma_after_record_joined(
    pages: Map<(Seq<char>, u64), Set<u32>>,
    delta: Map<(Seq<char>, u64), Set<u32>>,
    id: u64,
    streams: Seq<Seq<char>>,
)
    ensures
        after_record(joined(pages, delta), id, streams) == joined(
            pages,
            after_record(delta, id, streams),
        ),
    decreases streams.len(),
{
    if streams.len() > 0 {
        let rest = streams.drop_last();
        lemma_after_record_joined(pages, delta, id, rest);
        let left = after_record(joined(pages, delta), id, streams);
        let right = joined(pages, after_record(delta, id, streams));
        assert forall|key: (Seq<char>, u64)| #[trigger] left.contains_key(key) implies left[key]
            == right[key] by {
            assert(left[key] =~= right[key]);
        }
        assert(left =~= right);
    }
}

/// A block adds the same to whatever pages are open.
proof fn lemma_after_records_joined(
    pages: Map<(Seq<char>, u64), Set<u32>>,
    first: u64,
    records: Seq<Seq<Seq<char>>>,
)
    ensures
        after_records(pages, first, records) == joined(
            pages,
            after_records(Map::empty(), first, records),
        ),
    decreases records.len(),
{
    if records.len() == 0 {
        lemma_joined_empty(pages);
    } else {
        let rest = records.drop_last();
        lemma_after_records_joined(pages, first, rest);
        lemma_after_record_joined(
            pages,
            after_records(Map::empty(), first, rest),
            (first + records.len() - 1) as u64,
            records.last(),
        );
    }
}

/// The same block keeps two working sets with the same content the same.
pub proof fn law_same_blocks_keep_the_content(
    state: FamilyState,
    tail: FamilyTail,
    tail_after: FamilyTail,
    other_state: FamilyState,
    other_tail: FamilyTail,
    other_after: FamilyTail,
    first: u64,
    count: u32,
    block: u64,
    records: Seq<Seq<Seq<char>>>,
)
    requires
        same_content(state, tail, other_state, other_tail),
        is_accumulated(tail, tail_after, first, count, block, records),
        is_accumulated(other_tail, other_after, first, count, block, records),
    ensures
        same_content(state, tail_after, other_state, other_after),
{
    let delta = after_records(Map::empty(), first, records);
    lemma_after_records_joined(tail.bits(), first, records);
    lemma_after_records_joined(other_tail.bits(), first, records);
    lemma_joined_assoc(state.bits(), tail.bits(), delta);
    lemma_joined_assoc(other_state.bits(), other_tail.bits(), delta);
    if count > 0 {
        let entry = (block, first, (first + count) as u64);
        assert(state.dir@ + tail.dir@.push(entry) =~= (state.dir@ + tail.dir@).push(entry));
        assert(other_state.dir@ + other_tail.dir@.push(entry) =~= (other_state.dir@
            + other_tail.dir@).push(entry));
    }
}

/// Two working sets with the same content seal the same artifacts, and hold
/// the same content afterwards.
pub proof fn law_seals_keep_the_content<
    F: Fn(ChainDigest, u64, &Vec<SealedPage>, &PrimaryDirBucket) -> ChainDigest,
>(
    before: (FamilyState, FamilyTail),
    after: (FamilyState, FamilyTail),
    other_before: (FamilyState, FamilyTail),
    other_after: (FamilyState, FamilyTail),
    frontier: u64,
    fold: F,
    burst: SealBurst,
    other_burst: SealBurst,
)
    requires
        same_content(before.0, before.1, other_before.0, other_before.1),
        before.0.sealed_id % PAGE_SPAN == 0,
        folds_content(fold),
        is_sealed(before, after, frontier, fold, burst),
        is_sealed(other_before, other_after, frontier, fold, other_burst),
    ensures
        same_burst(burst, other_burst),
        same_content(after.0, after.1, other_after.0, other_after.1),
{
    let (state, tail) = before;
    let (other_state, other_tail) = other_before;
    let from = state.sealed_id;
    let open = spec_seal_boundary(frontier);
    law_seal_is_cadence_independent(
        state,
        tail,
        other_state,
        other_tail,
        frontier,
        fold,
        burst,
        other_burst,
    );
    if open > from {
        lemma_part_joined(state.bits(), tail.bits(), open);
        lemma_part_joined(other_state.bits(), other_tail.bits(), open);
        law_drain_ignores_the_seam(state.dir@, tail.dir@, open);
        law_drain_ignores_the_seam(other_state.dir@, other_tail.dir@, open);
        let counts = count_pairs(state.sealed_page_counts.map());
        lemma_same_span_counts(counts, burst.spans@, other_burst.spans@);
        let n = span_starts(from, open).len();
        assert(n > 0);
        assert(burst.spans@.len() == n && other_burst.spans@.len() == n);
        assert(same_span(burst.spans@[n - 1], other_burst.spans@[n - 1]));
    }
}

proof fn lemma_same_spans_write_the_same(
    family: Family,
    seal_block: u64,
    a: Seq<SealedSpan>,
    b: Seq<SealedSpan>,
)
    requires
        a.len() == b.len(),
        forall|k: int| 0 <= k < a.len() ==> same_span(#[trigger] a[k], b[k]),
    ensures
        all_page_contents(family, a) == all_page_contents(family, b),
        all_span_contents(family, seal_block, a) == all_span_contents(family, seal_block, b),
    decreases a.len(),
{
    if a.len() > 0 {
        let (x, y) = (a.last(), b.last());
        assert(same_span(a[a.len() - 1], b[b.len() - 1]));
        assert forall|k: int| 0 <= k < a.drop_last().len() implies same_span(
            #[trigger] a.drop_last()[k],
            b.drop_last()[k],
        ) by {
            assert(same_span(a[k], b[k]));
        }
        lemma_same_spans_write_the_same(family, seal_block, a.drop_last(), b.drop_last());
        let left = span_page_contents(family, x);
        let right = span_page_contents(family, y);
        assert forall|i: int| 0 <= i < left.len() implies left[i] == right[i] by {
            assert(same_page(x.pages@[i], y.pages@[i]));
        }
        assert(left =~= right);
        let ids = span_stream_ids(x.pages@);
        let other = span_stream_ids(y.pages@);
        assert forall|i: int| 0 <= i < ids.len() implies ids[i] == other[i] by {
            assert(same_page(x.pages@[i], y.pages@[i]));
        }
        assert(ids =~= other);
        assert(span_contents(family, seal_block, x) =~= span_contents(family, seal_block, y));
    }
}

/// The records of one family that a block brings: the first id, how many ids,
/// the block number, and the streams of each record.
pub struct BlockRecords {
    pub first: u64,
    pub count: u32,
    pub block: u64,
    pub records: Seq<Seq<Seq<char>>>,
}

/// `tails` are what a tail becomes over blocks, one after the other.
pub open spec fn accumulates(tails: Seq<FamilyTail>, blocks: Seq<BlockRecords>) -> bool {
    &&& tails.len() == blocks.len() + 1
    &&& forall|i: int|
        0 <= i < blocks.len() ==> is_accumulated(
            tails[i],
            tails[i + 1],
            (#[trigger] blocks[i]).first,
            blocks[i].count,
            blocks[i].block,
            blocks[i].records,
        )
}

proof fn lemma_same_blocks(
    state: FamilyState,
    tails: Seq<FamilyTail>,
    other_state: FamilyState,
    other_tails: Seq<FamilyTail>,
    blocks: Seq<BlockRecords>,
    n: int,
)
    requires
        accumulates(tails, blocks),
        accumulates(other_tails, blocks),
        same_content(state, tails[0], other_state, other_tails[0]),
        0 <= n <= blocks.len(),
    ensures
        same_content(state, tails[n], other_state, other_tails[n]),
    decreases n,
{
    if n > 0 {
        lemma_same_blocks(state, tails, other_state, other_tails, blocks, n - 1);
        let b = blocks[n - 1];
        law_same_blocks_keep_the_content(
            state,
            tails[n - 1],
            tails[n],
            other_state,
            other_tails[n - 1],
            other_tails[n],
            b.first,
            b.count,
            b.block,
            b.records,
        );
    }
}

/// A flush does not show in the next seal: with it or without, the same blocks
/// afterwards seal with the same writes and leave the same position, chain
/// value and page counts.
pub proof fn law_flush_does_not_show_in_the_seal<
    F: Fn(ChainDigest, u64, &Vec<SealedPage>, &PrimaryDirBucket) -> ChainDigest,
>(
    state: FamilyState,
    tails: Seq<FamilyTail>,
    flushed: FamilyState,
    flushed_tails: Seq<FamilyTail>,
    blocks: Seq<BlockRecords>,
    after: (FamilyState, FamilyTail),
    flushed_after: (FamilyState, FamilyTail),
    frontier: u64,
    fold: F,
    burst: SealBurst,
    flushed_burst: SealBurst,
    family: Family,
    seal_block: u64,
)
    requires
        state.sealed_id % PAGE_SPAN == 0,
        accumulates(tails, blocks),
        accumulates(flushed_tails, blocks),
        is_flushed((state, tails[0]), (flushed, flushed_tails[0])),
        folds_content(fold),
        is_sealed((state, tails.last()), after, frontier, fold, burst),
        is_sealed((flushed, flushed_tails.last()), flushed_after, frontier, fold, flushed_burst),
    ensures
        burst_contents(family, seal_block, burst) == burst_contents(
            family,
            seal_block,
            flushed_burst,
        ),
        after.0.sealed_id == flushed_after.0.sealed_id,
        after.0.seal_chain == flushed_after.0.seal_chain,
        count_pairs(after.0.sealed_page_counts.map()) == count_pairs(
            flushed_after.0.sealed_page_counts.map(),
        ),
{
    let n = blocks.len() as int;
    let all = joined(state.bits(), tails[0].bits());
    assert(flushed_tails[0].bits() =~= Map::empty());
    lemma_joined_empty(all);
    assert(flushed.dir@ + flushed_tails[0].dir@ =~= state.dir@ + tails[0].dir@);
    lemma_same_blocks(state, tails, flushed, flushed_tails, blocks, n);
    law_seals_keep_the_content(
        (state, tails.last()),
        after,
        (flushed, flushed_tails.last()),
        flushed_after,
        frontier,
        fold,
        burst,
        flushed_burst,
    );
    lemma_same_spans_write_the_same(family, seal_block, burst.spans@, flushed_burst.spans@);
    let rows = burst.manifest@.map_values(|row: PageCountsRow| row_content(family, row));
    let other = flushed_burst.manifest@.map_values(|row: PageCountsRow| row_content(family, row));
    assert forall|i: int| 0 <= i < rows.len() implies rows[i] == other[i] by {
        assert(same_row(burst.manifest@[i], flushed_burst.manifest@[i]));
    }
    assert(rows =~= other);
}

/// A restart from a rebuilt state continues with the content that the
/// uninterrupted run has at that flush boundary.
pub proof fn law_restart_has_the_content(
    state: FamilyState,
    tail: FamilyTail,
    rebuilt: FamilyState,
    rebuilt_tail: FamilyTail,
)
    requires
        same_state(rebuilt, state),
        tail.is_new(),
        rebuilt_tail.is_new(),
    ensures
        same_content(state, tail, rebuilt, rebuilt_tail),
{
    assert(tail.bits() =~= Map::empty());
    assert(rebuilt_tail.bits() =~= Map::empty());
    assert(tail.dir@ =~= rebuilt_tail.dir@);
}

/// A restart from a restored checkpoint continues with the content that was
/// checkpointed.
pub proof fn law_restored_has_the_content(
    state: FamilyState,
    tail: FamilyTail,
    restored: FamilyState,
    restored_tail: FamilyTail,
)
    requires
        state_content(restored) == state_content(state),
        tail_content(restored_tail) == tail_content(tail),
    ensures
        same_content(state, tail, restored, restored_tail),
{
    let own = state_content(state);
    assert(own.seal_chain == state.seal_chain@);
    assert(state_content(restored).seal_chain == restored.seal_chain@);
    assert(restored.seal_chain =~= state.seal_chain);
    assert(state_content(restored).pages == restored.bits() && own.pages == state.bits());
    assert(state_content(restored).dir == restored.dir@ && own.dir == state.dir@);
    assert(tail_content(restored_tail).pages == restored_tail.bits());
    assert(tail_content(tail).pages == tail.bits());
    assert(tail_content(restored_tail).dir == restored_tail.dir@);
    assert(tail_content(tail).dir == tail.dir@);
}

} // verus!
