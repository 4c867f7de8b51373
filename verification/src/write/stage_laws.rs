//! What staged rows leave in the store: every write is found again under its
//! own key, and what recovery reads of the rows is what sealing counts on.

use vstd::prelude::*;

use crate::write::artifacts::{
    all_page_contents, all_span_contents, burst_contents, is_page_of,
    law_pages_are_written_by_stream, page_key, row_content, sealed_page_content, span_contents,
    span_page_contents, texts, ArtifactWrite, WriteContent,
};
use crate::write::bitmap::{bitmap_bits, BitmapPageMeta};
use crate::write::dir::PrimaryDirEntry;
use crate::write::durable::{all_written, listed, written, FamilyRows};
use crate::write::family::Family;
use crate::write::index::ChainDigest;
use crate::write::pages::bits_at;
use crate::write::seal::{streams_ascend, PageCountsRow, SealBurst, SealedSpan};
use crate::write::stage::{
    are_chunk_rows, are_rows_of, chunk_bytes, chunk_fits, chunked_ids, is_chunk_row, is_chunking,
    is_row_of, StagedRow,
};
use crate::write::streams::{key_lt, lemma_key_irreflexive};

verus! {

/// The table and key parts that a row stands under.
pub enum RowKey {
    Page { family: Family, stream: Seq<char>, page_start: u64 },
    Bucket { family: Family, bucket_start: u64 },
    PageFragment { family: Family, stream: Seq<char>, page_start: u64, flush_block: u64 },
    BlockFragment { family: Family, block: u64 },
    OpenStreams { family: Family, page_start: u64, marker_block: u64, chunk_idx: u32 },
    SealChain { family: Family, span_start: u64 },
    PageCounts { family: Family, stream: Seq<char>, group_start: u64 },
}

/// What a row holds beside its key.
pub enum RowValue {
    Bits { meta: BitmapPageMeta, bits: Set<u32> },
    Bucket { entries: Seq<PrimaryDirEntry>, end: u64 },
    Ids { first_id: u64, count: u32 },
    Streams { streams: Seq<Seq<char>> },
    Chain { value: ChainDigest },
    Counts { pairs: Seq<(u32, u32)> },
}

pub open spec fn row_key(row: StagedRow) -> RowKey {
    match row {
        StagedRow::PageArtifact { family, stream_id, page_start, .. } => RowKey::Page {
            family,
            stream: stream_id@,
            page_start,
        },
        StagedRow::DirBucket { family, bucket_start, .. } => RowKey::Bucket { family, bucket_start },
        StagedRow::PageFragment { family, stream_id, page_start, flush_block, .. } =>
            RowKey::PageFragment { family, stream: stream_id@, page_start, flush_block },
        StagedRow::BlockFragment { family, block, .. } => RowKey::BlockFragment { family, block },
        StagedRow::OpenStreamsDelta { family, page_start, marker_block, chunk_idx, .. } =>
            RowKey::OpenStreams { family, page_start, marker_block, chunk_idx },
        StagedRow::SealChain { family, span_start, .. } => RowKey::SealChain { family, span_start },
        StagedRow::PageCounts { family, stream_id, group_start, .. } => RowKey::PageCounts {
            family,
            stream: stream_id@,
            group_start,
        },
    }
}

pub open spec fn row_value(row: StagedRow) -> RowValue {
    match row {
        StagedRow::PageArtifact { meta, bitmap, .. } => RowValue::Bits {
            meta,
            bits: bitmap_bits(bitmap),
        },
        StagedRow::DirBucket { bucket, .. } => RowValue::Bucket {
            entries: bucket.entries@,
            end: bucket.end_primary_id_exclusive,
        },
        StagedRow::PageFragment { meta, bitmap, .. } => RowValue::Bits {
            meta,
            bits: bitmap_bits(bitmap),
        },
        StagedRow::BlockFragment { first_id, count, .. } => RowValue::Ids { first_id, count },
        StagedRow::OpenStreamsDelta { streams, .. } => RowValue::Streams {
            streams: texts(streams@),
        },
        StagedRow::SealChain { value, .. } => RowValue::Chain { value },
        StagedRow::PageCounts { pairs, .. } => RowValue::Counts { pairs: pairs@ },
    }
}

/// The store after rows were put, a later row over an earlier one of its key.
pub open spec fn put_rows(store: Map<RowKey, RowValue>, rows: Seq<StagedRow>) -> Map<
    RowKey,
    RowValue,
>
    decreases rows.len(),
{
    if rows.len() == 0 {
        store
    } else {
        put_rows(store, rows.drop_last()).insert(row_key(rows.last()), row_value(rows.last()))
    }
}

/// The store after the rows of several writes were put.
pub open spec fn put_all(store: Map<RowKey, RowValue>, staged: Seq<Seq<StagedRow>>) -> Map<
    RowKey,
    RowValue,
>
    decreases staged.len(),
{
    if staged.len() == 0 {
        store
    } else {
        put_rows(put_all(store, staged.drop_last()), staged.last())
    }
}

/// Each write is staged as its own rows.
pub open spec fn are_staged(
    staged: Seq<Seq<StagedRow>>,
    writes: Seq<WriteContent>,
    target: usize,
) -> bool {
    &&& staged.len() == writes.len()
    &&& forall|i: int|
        0 <= i < writes.len() ==> are_rows_of(#[trigger] staged[i], writes[i], target)
}

/// Staging any write but an inventory puts exactly one row: under the write's
/// own family, stream and start, with the write's own payload. Every other row
/// of the store stays.
pub proof fn law_write_is_put_under_its_own_key(
    store: Map<RowKey, RowValue>,
    write: ArtifactWrite,
    target: usize,
    rows: Seq<StagedRow>,
)
    requires
        are_rows_of(rows, write@, target),
    ensures
        match write {
            ArtifactWrite::Page { family, stream_id, page_start, meta, bitmap } => put_rows(
                store,
                rows,
            ) == store.insert(
                RowKey::Page { family, stream: stream_id@, page_start },
                RowValue::Bits { meta, bits: bitmap_bits(bitmap) },
            ),
            ArtifactWrite::Bucket { family, bucket_start, bucket } => put_rows(store, rows)
                == store.insert(
                RowKey::Bucket { family, bucket_start },
                RowValue::Bucket {
                    entries: bucket.entries@,
                    end: bucket.end_primary_id_exclusive,
                },
            ),
            ArtifactWrite::PageFragment {
                family,
                stream_id,
                page_start,
                flush_block,
                meta,
                bitmap,
            } => put_rows(store, rows) == store.insert(
                RowKey::PageFragment { family, stream: stream_id@, page_start, flush_block },
                RowValue::Bits { meta, bits: bitmap_bits(bitmap) },
            ),
            ArtifactWrite::DirFragment { family, block, first_id, end_id } => first_id <= end_id
                && end_id - first_id <= u32::MAX && put_rows(store, rows) == store.insert(
                RowKey::BlockFragment { family, block },
                RowValue::Ids { first_id, count: (end_id - first_id) as u32 },
            ),
            ArtifactWrite::SealChain { family, span_start, value } => put_rows(store, rows)
                == store.insert(
                RowKey::SealChain { family, span_start },
                RowValue::Chain { value },
            ),
            ArtifactWrite::PageCounts { family, stream_id, group_start, pairs } => put_rows(
                store,
                rows,
            ) == store.insert(
                RowKey::PageCounts { family, stream: stream_id@, group_start },
                RowValue::Counts { pairs: pairs@ },
            ),
            ArtifactWrite::OpenStreams { .. } => true,
        },
{
    if !(write is OpenStreams) {
        assert(rows.drop_last() =~= Seq::empty());
        assert(put_rows(store, rows.drop_last()) == store);
        assert(rows.last() == rows[0]);
    }
}

/// Sealed pages of different page starts, streams or families never share a
/// row: written one after the other, each is read back with its own bits.
pub proof fn law_pages_never_share_a_row(
    store: Map<RowKey, RowValue>,
    target: usize,
    a: ArtifactWrite,
    b: ArtifactWrite,
    a_rows: Seq<StagedRow>,
    b_rows: Seq<StagedRow>,
)
    requires
        are_rows_of(a_rows, a@, target),
        are_rows_of(b_rows, b@, target),
    ensures
        a matches ArtifactWrite::Page {
            family,
            stream_id,
            page_start,
            meta,
            bitmap,
        } ==> b matches ArtifactWrite::Page {
            family: f,
            stream_id: s,
            page_start: p,
            meta: m,
            bitmap: c,
        } ==> (family != f || stream_id@ != s@ || page_start != p) ==> {
            let after = put_rows(put_rows(store, a_rows), b_rows);
            &&& row_key(a_rows[0]) != row_key(b_rows[0])
            &&& after[RowKey::Page { family, stream: stream_id@, page_start }]
                == (RowValue::Bits { meta, bits: bitmap_bits(bitmap) })
            &&& after[RowKey::Page { family: f, stream: s@, page_start: p }] == (RowValue::Bits {
                meta: m,
                bits: bitmap_bits(c),
            })
        },
{
    law_write_is_put_under_its_own_key(store, a, target, a_rows);
    law_write_is_put_under_its_own_key(put_rows(store, a_rows), b, target, b_rows);
}

/// The streams that the rows of an inventory list, row after row.
pub open spec fn listed_streams(rows: Seq<StagedRow>) -> Seq<Seq<char>>
    decreases rows.len(),
{
    if rows.len() == 0 {
        Seq::empty()
    } else {
        listed_streams(rows.drop_last()) + match rows.last() {
            StagedRow::OpenStreamsDelta { streams, .. } => texts(streams@),
            _ => Seq::empty(),
        }
    }
}

/// An inventory is put whole: its rows stand under the write's own page and
/// marker, no two under one key, and list its streams in order, each once as
/// often as the write does. A row of more than one stream fits the target.
pub proof fn law_inventory_is_put_whole(
    write: ArtifactWrite,
    target: usize,
    rows: Seq<StagedRow>,
    k: int,
    l: int,
)
    requires
        are_rows_of(rows, write@, target),
        write is OpenStreams,
    ensures
        write matches ArtifactWrite::OpenStreams {
            family,
            page_start,
            marker_block,
            streams,
        } ==> {
            &&& listed_streams(rows) == texts(streams@)
            &&& 0 <= k < rows.len() ==> {
                &&& row_key(rows[k]) == (RowKey::OpenStreams {
                    family,
                    page_start,
                    marker_block,
                    chunk_idx: k as u32,
                })
                &&& rows[k] matches StagedRow::OpenStreamsDelta { streams: part, .. } && {
                    &&& part@.len() > 0
                    &&& part@.len() == 1 || chunk_bytes(texts(part@)) <= target
                }
            }
            &&& 0 <= k < l < rows.len() ==> row_key(rows[k]) != row_key(rows[l])
        },
{
    if let ArtifactWrite::OpenStreams { family, page_start, marker_block, streams } = write {
        let chunks = choose|chunks: Seq<Vec<String>>|
            #[trigger] is_chunking(chunks, texts(streams@), target) && are_chunk_rows(
                rows,
                family,
                page_start,
                marker_block,
                chunks,
            );
        lemma_listed(rows, family, page_start, marker_block, chunks);
        if 0 <= k < rows.len() {
            assert(is_chunk_row(rows[k], family, page_start, marker_block, k, chunks[k]@));
            assert(chunk_fits(chunks[k]@, target));
            if let StagedRow::OpenStreamsDelta { streams: part, .. } = rows[k] {
                assert(texts(part@).len() == part@.len());
                assert(texts(chunks[k]@).len() == chunks[k]@.len());
            }
        }
        if 0 <= l < rows.len() {
            assert(is_chunk_row(rows[l], family, page_start, marker_block, l, chunks[l]@));
        }
    }
}

proof fn lemma_listed(
    rows: Seq<StagedRow>,
    family: Family,
    page_start: u64,
    marker_block: u64,
    chunks: Seq<Vec<String>>,
)
    requires
        are_chunk_rows(rows, family, page_start, marker_block, chunks),
    ensures
        listed_streams(rows) == chunked_ids(chunks),
    decreases rows.len(),
{
    if rows.len() > 0 {
        let n = rows.len() - 1;
        let r = rows.drop_last();
        let c = chunks.drop_last();
        assert(is_chunk_row(rows[n], family, page_start, marker_block, n, chunks[n]@));
        assert forall|k: int| 0 <= k < r.len() implies is_chunk_row(
            #[trigger] r[k],
            family,
            page_start,
            marker_block,
            k,
            c[k]@,
        ) by {
            assert(is_chunk_row(rows[k], family, page_start, marker_block, k, chunks[k]@));
        }
        lemma_listed(r, family, page_start, marker_block, c);
    }
}

/// What a row is to recovery, which reads rows by their keys.
pub open spec fn stored(rows: FamilyRows, row: StagedRow) -> FamilyRows {
    match row {
        StagedRow::PageArtifact { stream_id, page_start, meta, .. } => FamilyRows {
            counts: rows.counts.insert((stream_id@, page_start), meta.count),
            ..rows
        },
        StagedRow::PageFragment { stream_id, page_start, bitmap, .. } => FamilyRows {
            fragments: rows.fragments.insert(
                (stream_id@, page_start),
                bits_at(rows.fragments, (stream_id@, page_start)).union(bitmap_bits(bitmap)),
            ),
            ..rows
        },
        StagedRow::BlockFragment { block, first_id, count, .. } => FamilyRows {
            dir: rows.dir.push((block, first_id, (first_id + count) as u64)),
            ..rows
        },
        StagedRow::OpenStreamsDelta { page_start, streams, .. } => FamilyRows {
            inventory: rows.inventory.insert(
                page_start,
                listed(rows, page_start).union(texts(streams@).to_set()),
            ),
            ..rows
        },
        StagedRow::SealChain { span_start, value, .. } => FamilyRows {
            chains: rows.chains.insert(span_start, value),
            ..rows
        },
        StagedRow::DirBucket { .. } => rows,
        StagedRow::PageCounts { .. } => rows,
    }
}

pub open spec fn stored_rows(rows: FamilyRows, staged: Seq<StagedRow>) -> FamilyRows
    decreases staged.len(),
{
    if staged.len() == 0 {
        rows
    } else {
        stored(stored_rows(rows, staged.drop_last()), staged.last())
    }
}

pub open spec fn all_stored(rows: FamilyRows, staged: Seq<Seq<StagedRow>>) -> FamilyRows
    decreases staged.len(),
{
    if staged.len() == 0 {
        rows
    } else {
        stored_rows(all_stored(rows, staged.drop_last()), staged.last())
    }
}

/// An inventory without streams puts no row, so it needs one to be seen.
pub open spec fn puts_something(write: WriteContent) -> bool {
    write matches WriteContent::OpenStreams { streams, .. } ==> streams.len() > 0
}

/// What recovery reads of the rows that were staged for a write is what sealing
/// takes the write to leave.
pub proof fn law_staged_rows_leave_what_is_written(
    rows: FamilyRows,
    write: WriteContent,
    target: usize,
    staged: Seq<StagedRow>,
)
    requires
        are_rows_of(staged, write, target),
        puts_something(write),
    ensures
        stored_rows(rows, staged) == written(rows, write),
{
    match write {
        WriteContent::OpenStreams { family, page_start, marker_block, streams } => {
            let chunks = choose|chunks: Seq<Vec<String>>|
                #[trigger] is_chunking(chunks, streams, target) && are_chunk_rows(
                    staged,
                    family,
                    page_start,
                    marker_block,
                    chunks,
                );
            if chunks.len() == 0 {
                assert(chunked_ids(chunks).len() == 0);
            }
            lemma_inventory_stored(rows, staged, family, page_start, marker_block, chunks);
            assert(stored_rows(rows, staged).inventory =~= written(rows, write).inventory);
        },
        _ => {
            assert(staged.drop_last() =~= Seq::empty());
            assert(stored_rows(rows, staged.drop_last()) == rows);
            assert(staged.last() == staged[0]);
            assert(is_row_of(staged[0], write));
        },
    }
}

proof fn lemma_inventory_stored(
    rows: FamilyRows,
    staged: Seq<StagedRow>,
    family: Family,
    page_start: u64,
    marker_block: u64,
    chunks: Seq<Vec<String>>,
)
    requires
        are_chunk_rows(staged, family, page_start, marker_block, chunks),
    ensures
        stored_rows(rows, staged) == (FamilyRows {
            inventory: if staged.len() == 0 {
                rows.inventory
            } else {
                rows.inventory.insert(
                    page_start,
                    listed(rows, page_start).union(chunked_ids(chunks).to_set()),
                )
            },
            ..rows
        }),
    decreases staged.len(),
{
    if staged.len() > 0 {
        let n = staged.len() - 1;
        let r = staged.drop_last();
        let c = chunks.drop_last();
        assert(is_chunk_row(staged[n], family, page_start, marker_block, n, chunks[n]@));
        assert forall|k: int| 0 <= k < r.len() implies is_chunk_row(
            #[trigger] r[k],
            family,
            page_start,
            marker_block,
            k,
            c[k]@,
        ) by {
            assert(is_chunk_row(staged[k], family, page_start, marker_block, k, chunks[k]@));
        }
        lemma_inventory_stored(rows, r, family, page_start, marker_block, c);
        let before = stored_rows(rows, r);
        let last = texts(chunks[n]@);
        if r.len() == 0 {
            assert(chunked_ids(c) =~= Seq::empty());
            assert(Seq::<Seq<char>>::empty() + last =~= last);
        }
        lemma_union_to_set(chunked_ids(c), last);
        assert(listed(before, page_start).union(last.to_set()) =~= listed(rows, page_start).union(
            chunked_ids(chunks).to_set(),
        ));
        assert(stored(before, staged[n]).inventory =~= rows.inventory.insert(
            page_start,
            listed(rows, page_start).union(chunked_ids(chunks).to_set()),
        ));
    }
}

proof fn lemma_union_to_set(a: Seq<Seq<char>>, b: Seq<Seq<char>>)
    ensures
        (a + b).to_set() == a.to_set().union(b.to_set()),
{
    assert forall|id: Seq<char>| (a + b).to_set().contains(id) <==> a.to_set().union(
        b.to_set(),
    ).contains(id) by {
        if a.contains(id) {
            let i = choose|i: int| 0 <= i < a.len() && a[i] == id;
            assert((a + b)[i] == id);
        }
        if b.contains(id) {
            let i = choose|i: int| 0 <= i < b.len() && b[i] == id;
            assert((a + b)[a.len() + i] == id);
        }
        if (a + b).contains(id) {
            let i = choose|i: int| 0 <= i < (a + b).len() && (a + b)[i] == id;
            if i < a.len() {
                assert(a[i] == id);
            } else {
                assert(b[i - a.len()] == id);
            }
        }
    }
    assert((a + b).to_set() =~= a.to_set().union(b.to_set()));
}

/// So it is for any number of writes of one family.
pub proof fn law_all_staged_rows_leave_what_is_written(
    rows: FamilyRows,
    writes: Seq<WriteContent>,
    target: usize,
    staged: Seq<Seq<StagedRow>>,
)
    requires
        are_staged(staged, writes, target),
        forall|i: int| 0 <= i < writes.len() ==> puts_something(#[trigger] writes[i]),
    ensures
        all_stored(rows, staged) == all_written(rows, writes),
    decreases writes.len(),
{
    if writes.len() > 0 {
        let n = writes.len() - 1;
        assert forall|i: int| 0 <= i < n implies are_rows_of(
            #[trigger] staged.drop_last()[i],
            writes.drop_last()[i],
            target,
        ) by {
            assert(are_rows_of(staged[i], writes[i], target));
        }
        assert forall|i: int| 0 <= i < n implies puts_something(
            #[trigger] writes.drop_last()[i],
        ) by {
            assert(puts_something(writes[i]));
        }
        law_all_staged_rows_leave_what_is_written(
            rows,
            writes.drop_last(),
            target,
            staged.drop_last(),
        );
        assert(are_rows_of(staged[n], writes[n], target));
        law_staged_rows_leave_what_is_written(
            all_written(rows, writes.drop_last()),
            writes.last(),
            target,
            staged.last(),
        );
    }
}

/// The write is of the page of a stream that starts at `page_start`.
pub open spec fn writes_page(
    write: WriteContent,
    family: Family,
    stream: Seq<char>,
    page_start: u64,
) -> bool {
    write matches WriteContent::Page { family: f, stream_id: s, page_start: p, .. } && f == family
        && s == stream && p == page_start
}

/// Rows that are staged for other writes leave a page's row alone.
proof fn lemma_page_row_stays(
    store: Map<RowKey, RowValue>,
    write: WriteContent,
    target: usize,
    rows: Seq<StagedRow>,
    family: Family,
    stream: Seq<char>,
    page_start: u64,
)
    requires
        are_rows_of(rows, write, target),
        !writes_page(write, family, stream, page_start),
    ensures
        ({
            let key = RowKey::Page { family, stream, page_start };
            &&& put_rows(store, rows).contains_key(key) == store.contains_key(key)
            &&& put_rows(store, rows)[key] == store[key]
        }),
{
    match write {
        WriteContent::OpenStreams { family: f, page_start: p, marker_block, streams } => {
            let chunks = choose|chunks: Seq<Vec<String>>|
                #[trigger] is_chunking(chunks, streams, target) && are_chunk_rows(
                    rows,
                    f,
                    p,
                    marker_block,
                    chunks,
                );
            assert forall|k: int| 0 <= k < rows.len() implies (#[trigger] rows[k])
                is OpenStreamsDelta by {
                assert(is_chunk_row(rows[k], f, p, marker_block, k, chunks[k]@));
            }
            lemma_deltas_leave_pages(store, rows, family, stream, page_start);
        },
        _ => {
            assert(rows.drop_last() =~= Seq::empty());
            assert(put_rows(store, rows.drop_last()) == store);
            assert(is_row_of(rows[0], write));
            assert(rows.last() == rows[0]);
        },
    }
}

proof fn lemma_deltas_leave_pages(
    store: Map<RowKey, RowValue>,
    rows: Seq<StagedRow>,
    family: Family,
    stream: Seq<char>,
    page_start: u64,
)
    requires
        forall|k: int| 0 <= k < rows.len() ==> (#[trigger] rows[k]) is OpenStreamsDelta,
    ensures
        ({
            let key = RowKey::Page { family, stream, page_start };
            &&& put_rows(store, rows).contains_key(key) == store.contains_key(key)
            &&& put_rows(store, rows)[key] == store[key]
        }),
    decreases rows.len(),
{
    if rows.len() > 0 {
        assert(rows[rows.len() - 1] is OpenStreamsDelta);
        assert forall|k: int| 0 <= k < rows.len() - 1 implies (#[trigger] rows.drop_last()[k])
            is OpenStreamsDelta by {
            assert(rows[k] is OpenStreamsDelta);
        }
        lemma_deltas_leave_pages(store, rows.drop_last(), family, stream, page_start);
    }
}

/// A page that is written once among many writes is read back under its own
/// key.
proof fn lemma_page_read_back(
    store: Map<RowKey, RowValue>,
    writes: Seq<WriteContent>,
    target: usize,
    staged: Seq<Seq<StagedRow>>,
    i: int,
)
    requires
        are_staged(staged, writes, target),
        0 <= i < writes.len(),
        writes[i] is Page,
        forall|j: int|
            i < j < writes.len() ==> !writes_page(
                #[trigger] writes[j],
                writes[i]->Page_family,
                writes[i]->Page_stream_id,
                writes[i]->Page_page_start,
            ),
    ensures
        writes[i] matches WriteContent::Page { family, stream_id, page_start, meta, bits } ==> {
            let key = RowKey::Page { family, stream: stream_id, page_start };
            &&& put_all(store, staged).contains_key(key)
            &&& put_all(store, staged)[key] == (RowValue::Bits { meta, bits })
        },
    decreases writes.len(),
{
    let n = writes.len() - 1;
    assert(are_rows_of(staged[n], writes[n], target));
    let before = put_all(store, staged.drop_last());
    if i == n {
        let rows = staged[n];
        assert(rows.drop_last() =~= Seq::empty());
        assert(put_rows(before, rows.drop_last()) == before);
        assert(is_row_of(rows[0], writes[n]));
        assert(rows.last() == rows[0]);
    } else {
        let w = writes.drop_last();
        assert forall|k: int| 0 <= k < n implies are_rows_of(
            #[trigger] staged.drop_last()[k],
            w[k],
            target,
        ) by {
            assert(are_rows_of(staged[k], writes[k], target));
        }
        assert forall|j: int| i < j < w.len() implies !writes_page(
            #[trigger] w[j],
            w[i]->Page_family,
            w[i]->Page_stream_id,
            w[i]->Page_page_start,
        ) by {
            assert(w[j] == writes[j]);
        }
        lemma_page_read_back(store, w, target, staged.drop_last(), i);
        lemma_page_row_stays(
            before,
            writes[n],
            target,
            staged[n],
            writes[i]->Page_family,
            writes[i]->Page_stream_id,
            writes[i]->Page_page_start,
        );
    }
}

/// Once the writes of a seal are put, every sealed page is read back under its
/// stream and its span's start, with its own bits.
pub proof fn law_sealed_pages_are_read_back(
    store: Map<RowKey, RowValue>,
    family: Family,
    seal_block: u64,
    burst: SealBurst,
    target: usize,
    staged: Seq<Seq<StagedRow>>,
    k: int,
    i: int,
)
    requires
        are_staged(staged, burst_contents(family, seal_block, burst), target),
        forall|a: int, b: int|
            0 <= a < b < burst.spans@.len() ==> (#[trigger] burst.spans@[a]).start
                < (#[trigger] burst.spans@[b]).start,
        forall|a: int|
            0 <= a < burst.spans@.len() ==> streams_ascend((#[trigger] burst.spans@[a]).pages@),
        0 <= k < burst.spans@.len(),
        0 <= i < burst.spans@[k].pages@.len(),
    ensures
        ({
            let span = burst.spans@[k];
            let page = span.pages@[i];
            let key = RowKey::Page { family, stream: page.stream@, page_start: span.start };
            let after = put_all(store, staged);
            &&& after.contains_key(key)
            &&& after[key] == (RowValue::Bits { meta: page.meta, bits: bitmap_bits(page.bitmap) })
        }),
{
    let spans = burst.spans@;
    let span = spans[k];
    let page = span.pages@[i];
    let write = sealed_page_content(family, span.start, page);
    let pages = all_page_contents(family, spans);
    let others = all_span_contents(family, seal_block, spans);
    let rows = burst.manifest@.map_values(|row: PageCountsRow| row_content(family, row));
    let writes = burst_contents(family, seal_block, burst);
    law_pages_are_written_by_stream(family, spans);
    let of_span = span_page_contents(family, span);
    assert(of_span[i] == write);
    assert(of_span.contains(write));
    assert(is_page_of(write, family, spans));
    assert(pages.contains(write));
    let at = choose|at: int| 0 <= at < pages.len() && pages[at] == write;
    assert(writes[at] == write);
    lemma_span_contents_are_no_pages(family, seal_block, spans);
    assert forall|j: int| at < j < writes.len() implies !writes_page(
        #[trigger] writes[j],
        family,
        page.stream@,
        span.start,
    ) by {
        if j < pages.len() {
            assert(pages[j] == writes[j]);
            assert(key_lt(page_key(pages[at]), page_key(pages[j])));
            lemma_key_irreflexive(page_key(write));
        } else if j < pages.len() + others.len() {
            assert(writes[j] == others[j - pages.len()]);
        } else {
            assert(writes[j] == rows[j - pages.len() - others.len()]);
        }
    }
    lemma_page_read_back(store, writes, target, staged, at);
}

proof fn lemma_span_contents_are_no_pages(
    family: Family,
    seal_block: u64,
    spans: Seq<SealedSpan>,
)
    ensures
        forall|j: int|
            0 <= j < all_span_contents(family, seal_block, spans).len() ==> !((
            #[trigger] all_span_contents(family, seal_block, spans)[j]) is Page),
    decreases spans.len(),
{
    if spans.len() > 0 {
        lemma_span_contents_are_no_pages(family, seal_block, spans.drop_last());
        let a = all_span_contents(family, seal_block, spans.drop_last());
        let b = span_contents(family, seal_block, spans.last());
        assert forall|j: int| 0 <= j < (a + b).len() implies !((#[trigger] (a + b)[j]) is Page) by {
            if j < a.len() {
                assert((a + b)[j] == a[j]);
            } else {
                assert((a + b)[j] == b[j - a.len()]);
            }
        }
    }
}

/// The key of a write that is put as one row.
pub open spec fn single_key(write: WriteContent) -> Option<RowKey> {
    match write {
        WriteContent::Page { family, stream_id, page_start, .. } => Some(
            RowKey::Page { family, stream: stream_id, page_start },
        ),
        WriteContent::Bucket { family, bucket_start, .. } => Some(
            RowKey::Bucket { family, bucket_start },
        ),
        WriteContent::PageFragment { family, stream_id, page_start, flush_block, .. } => Some(
            RowKey::PageFragment { family, stream: stream_id, page_start, flush_block },
        ),
        WriteContent::DirFragment { family, block, .. } => Some(
            RowKey::BlockFragment { family, block },
        ),
        WriteContent::SealChain { family, span_start, .. } => Some(
            RowKey::SealChain { family, span_start },
        ),
        WriteContent::PageCounts { family, stream_id, group_start, .. } => Some(
            RowKey::PageCounts { family, stream: stream_id, group_start },
        ),
        WriteContent::OpenStreams { .. } => None,
    }
}

/// The store holds what a write carries under the key of the write.
pub open spec fn holds_write(store: Map<RowKey, RowValue>, write: WriteContent) -> bool {
    match write {
        WriteContent::Page { family, stream_id, page_start, meta, bits } => {
            let key = RowKey::Page { family, stream: stream_id, page_start };
            store.contains_key(key) && store[key] == (RowValue::Bits { meta, bits })
        },
        WriteContent::Bucket { family, bucket_start, entries, end } => {
            let key = RowKey::Bucket { family, bucket_start };
            store.contains_key(key) && store[key] == (RowValue::Bucket { entries, end })
        },
        WriteContent::PageFragment { family, stream_id, page_start, flush_block, meta, bits } => {
            let key = RowKey::PageFragment { family, stream: stream_id, page_start, flush_block };
            store.contains_key(key) && store[key] == (RowValue::Bits { meta, bits })
        },
        WriteContent::DirFragment { family, block, first_id, end_id } => {
            let key = RowKey::BlockFragment { family, block };
            store.contains_key(key) && (store[key] matches RowValue::Ids {
                first_id: first,
                count,
            } && first == first_id && first + count == end_id)
        },
        WriteContent::SealChain { family, span_start, value } => {
            let key = RowKey::SealChain { family, span_start };
            store.contains_key(key) && store[key] == (RowValue::Chain { value })
        },
        WriteContent::PageCounts { family, stream_id, group_start, pairs } => {
            let key = RowKey::PageCounts { family, stream: stream_id, group_start };
            store.contains_key(key) && store[key] == (RowValue::Counts { pairs })
        },
        WriteContent::OpenStreams { .. } => true,
    }
}

proof fn lemma_deltas_leave_others(
    store: Map<RowKey, RowValue>,
    rows: Seq<StagedRow>,
    key: RowKey,
)
    requires
        forall|k: int| 0 <= k < rows.len() ==> (#[trigger] rows[k]) is OpenStreamsDelta,
        !(key is OpenStreams),
    ensures
        put_rows(store, rows).contains_key(key) == store.contains_key(key),
        put_rows(store, rows)[key] == store[key],
    decreases rows.len(),
{
    if rows.len() > 0 {
        assert(rows[rows.len() - 1] is OpenStreamsDelta);
        assert forall|k: int| 0 <= k < rows.len() - 1 implies (#[trigger] rows.drop_last()[k])
            is OpenStreamsDelta by {
            assert(rows[k] is OpenStreamsDelta);
        }
        lemma_deltas_leave_others(store, rows.drop_last(), key);
    }
}

proof fn lemma_other_row_stays(
    store: Map<RowKey, RowValue>,
    write: WriteContent,
    target: usize,
    rows: Seq<StagedRow>,
    key: RowKey,
)
    requires
        are_rows_of(rows, write, target),
        !(key is OpenStreams),
        single_key(write) != Some(key),
    ensures
        put_rows(store, rows).contains_key(key) == store.contains_key(key),
        put_rows(store, rows)[key] == store[key],
{
    match write {
        WriteContent::OpenStreams { family: f, page_start: p, marker_block, streams } => {
            let chunks = choose|chunks: Seq<Vec<String>>|
                #[trigger] is_chunking(chunks, streams, target) && are_chunk_rows(
                    rows,
                    f,
                    p,
                    marker_block,
                    chunks,
                );
            assert forall|k: int| 0 <= k < rows.len() implies (#[trigger] rows[k])
                is OpenStreamsDelta by {
                assert(is_chunk_row(rows[k], f, p, marker_block, k, chunks[k]@));
            }
            lemma_deltas_leave_others(store, rows, key);
        },
        _ => {
            assert(rows.drop_last() =~= Seq::empty());
            assert(put_rows(store, rows.drop_last()) == store);
            assert(is_row_of(rows[0], write));
            assert(rows.last() == rows[0]);
        },
    }
}

/// A write whose key no later write has is read back, whatever else is written.
pub proof fn law_last_write_of_a_key_is_read_back(
    store: Map<RowKey, RowValue>,
    writes: Seq<WriteContent>,
    target: usize,
    staged: Seq<Seq<StagedRow>>,
    i: int,
)
    requires
        are_staged(staged, writes, target),
        0 <= i < writes.len(),
        single_key(writes[i]) is Some,
        forall|j: int|
            i < j < writes.len() ==> single_key(#[trigger] writes[j]) != single_key(writes[i]),
    ensures
        holds_write(put_all(store, staged), writes[i]),
    decreases writes.len(),
{
    let n = writes.len() - 1;
    assert(are_rows_of(staged[n], writes[n], target));
    let before = put_all(store, staged.drop_last());
    if i == n {
        let rows = staged[n];
        assert(rows.drop_last() =~= Seq::empty());
        assert(put_rows(before, rows.drop_last()) == before);
        assert(is_row_of(rows[0], writes[n]));
        assert(rows.last() == rows[0]);
    } else {
        let w = writes.drop_last();
        assert forall|k: int| 0 <= k < n implies are_rows_of(
            #[trigger] staged.drop_last()[k],
            w[k],
            target,
        ) by {
            assert(are_rows_of(staged[k], writes[k], target));
        }
        assert forall|j: int| i < j < w.len() implies single_key(#[trigger] w[j]) != single_key(
            w[i],
        ) by {
            assert(w[j] == writes[j]);
        }
        law_last_write_of_a_key_is_read_back(store, w, target, staged.drop_last(), i);
        lemma_other_row_stays(
            before,
            writes[n],
            target,
            staged[n],
            single_key(writes[i])->Some_0,
        );
    }
}

/// Where the writes of span `k` stand among those of all spans.
proof fn lemma_span_writes_at(
    family: Family,
    seal_block: u64,
    spans: Seq<SealedSpan>,
    k: int,
) -> (at: int)
    requires
        0 <= k < spans.len(),
        forall|a: int, b: int|
            0 <= a < b < spans.len() ==> (#[trigger] spans[a]).start < (#[trigger] spans[b]).start,
    ensures
        ({
            let all = all_span_contents(family, seal_block, spans);
            let own = span_contents(family, seal_block, spans[k]);
            &&& 0 <= at
            &&& at + own.len() <= all.len()
            &&& forall|j: int| 0 <= j < own.len() ==> #[trigger] own[j] == all[at + j]
            &&& forall|j: int|
                at + own.len() <= j < all.len() ==> starts_later(
                    #[trigger] all[j],
                    family,
                    spans[k].start,
                )
        }),
    decreases spans.len(),
{
    let rest = spans.drop_last();
    let a = all_span_contents(family, seal_block, rest);
    let last = spans.last();
    let b = span_contents(family, seal_block, last);
    let own = span_contents(family, seal_block, spans[k]);
    if k == spans.len() - 1 {
        assert forall|j: int| 0 <= j < own.len() implies #[trigger] own[j] == (a + b)[a.len()
            + j] by {}
        a.len() as int
    } else {
        let at = lemma_span_writes_at(family, seal_block, rest, k);
        assert(rest[k] == spans[k]);
        assert(spans[k].start < spans[spans.len() - 1].start);
        let all = a + b;
        assert forall|j: int| 0 <= j < own.len() implies #[trigger] own[j] == all[at + j] by {
            assert(own[j] == a[at + j]);
        }
        assert forall|j: int| at + own.len() <= j < all.len() implies starts_later(
            #[trigger] all[j],
            family,
            spans[k].start,
        ) by {
            if j < a.len() {
                assert(all[j] == a[j]);
            } else {
                assert(all[j] == b[j - a.len()]);
            }
        }
        at
    }
}

/// A bucket, a chain value or an inventory of a later span.
spec fn starts_later(write: WriteContent, family: Family, start: u64) -> bool {
    match write {
        WriteContent::Bucket { family: f, bucket_start, .. } => f == family && bucket_start
            > start,
        WriteContent::SealChain { family: f, span_start, .. } => f == family && span_start > start,
        WriteContent::OpenStreams { .. } => true,
        _ => false,
    }
}

/// Once the writes of a seal are put, every span's bucket and chain value are
/// read back under the span's start, and every manifest row under its stream and
/// group.
pub proof fn law_sealed_spans_are_read_back(
    store: Map<RowKey, RowValue>,
    family: Family,
    seal_block: u64,
    burst: SealBurst,
    target: usize,
    staged: Seq<Seq<StagedRow>>,
    k: int,
)
    requires
        are_staged(staged, burst_contents(family, seal_block, burst), target),
        forall|a: int, b: int|
            0 <= a < b < burst.spans@.len() ==> (#[trigger] burst.spans@[a]).start
                < (#[trigger] burst.spans@[b]).start,
        0 <= k < burst.spans@.len(),
    ensures
        ({
            let span = burst.spans@[k];
            let after = put_all(store, staged);
            let bucket = RowKey::Bucket { family, bucket_start: span.start };
            let chain = RowKey::SealChain { family, span_start: span.start };
            &&& after.contains_key(bucket)
            &&& after[bucket] == (RowValue::Bucket {
                entries: span.bucket.entries@,
                end: span.bucket.end_primary_id_exclusive,
            })
            &&& after.contains_key(chain)
            &&& after[chain] == (RowValue::Chain { value: span.chain })
        }),
{
    let spans = burst.spans@;
    let pages = all_page_contents(family, spans);
    let others = all_span_contents(family, seal_block, spans);
    let rows = burst.manifest@.map_values(|row: PageCountsRow| row_content(family, row));
    let writes = burst_contents(family, seal_block, burst);
    let at = lemma_span_writes_at(family, seal_block, spans, k);
    let own = span_contents(family, seal_block, spans[k]);
    let first = pages.len() + at;
    assert(own[0] == others[at]);
    assert(own[1] == others[at + 1]);
    assert(writes[first] == own[0]);
    assert(writes[first + 1] == own[1]);
    assert forall|j: int| first < j < writes.len() implies single_key(#[trigger] writes[j])
        != single_key(writes[first]) by {
        lemma_behind_a_span(family, seal_block, burst, k, at, j);
    }
    assert forall|j: int| first + 1 < j < writes.len() implies single_key(#[trigger] writes[j])
        != single_key(writes[first + 1]) by {
        lemma_behind_a_span(family, seal_block, burst, k, at, j);
    }
    law_last_write_of_a_key_is_read_back(store, writes, target, staged, first);
    law_last_write_of_a_key_is_read_back(store, writes, target, staged, first + 1);
}

/// Behind the bucket of a span come its chain value, its inventory, rows of later
/// spans and manifest rows.
proof fn lemma_behind_a_span(
    family: Family,
    seal_block: u64,
    burst: SealBurst,
    k: int,
    at: int,
    j: int,
)
    requires
        0 <= k < burst.spans@.len(),
        ({
            let all = all_span_contents(family, seal_block, burst.spans@);
            let own = span_contents(family, seal_block, burst.spans@[k]);
            let pages = all_page_contents(family, burst.spans@);
            &&& 0 <= at
            &&& at + own.len() <= all.len()
            &&& forall|i: int| 0 <= i < own.len() ==> #[trigger] own[i] == all[at + i]
            &&& forall|i: int|
                at + own.len() <= i < all.len() ==> starts_later(
                    #[trigger] all[i],
                    family,
                    burst.spans@[k].start,
                )
            &&& pages.len() + at < j < burst_contents(family, seal_block, burst).len()
        }),
    ensures
        ({
            let write = burst_contents(family, seal_block, burst)[j];
            let first = all_page_contents(family, burst.spans@).len() + at;
            &&& single_key(write) != Some(
                RowKey::Bucket { family, bucket_start: burst.spans@[k].start },
            )
            &&& j > first + 1 ==> single_key(write) != Some(
                RowKey::SealChain { family, span_start: burst.spans@[k].start },
            )
        }),
{
    let all = all_span_contents(family, seal_block, burst.spans@);
    let own = span_contents(family, seal_block, burst.spans@[k]);
    let pages = all_page_contents(family, burst.spans@);
    let rows = burst.manifest@.map_values(|row: PageCountsRow| row_content(family, row));
    let writes = burst_contents(family, seal_block, burst);
    let i = j - pages.len();
    if i < at + own.len() {
        assert(own[i - at] == all[at + (i - at)]);
        assert(writes[j] == all[i]);
    } else if i < all.len() {
        assert(starts_later(all[i], family, burst.spans@[k].start));
        assert(writes[j] == all[i]);
    } else {
        assert(writes[j] == rows[i - all.len()]);
    }
}

/// Once the writes of a seal are put, every manifest row is read back under its
/// stream and group, pair for pair.
pub proof fn law_manifest_rows_are_read_back(
    store: Map<RowKey, RowValue>,
    family: Family,
    seal_block: u64,
    burst: SealBurst,
    target: usize,
    staged: Seq<Seq<StagedRow>>,
    r: int,
)
    requires
        are_staged(staged, burst_contents(family, seal_block, burst), target),
        forall|a: int, b: int|
            0 <= a < b < burst.manifest@.len() ==> key_lt(
                ((#[trigger] burst.manifest@[a]).stream@, burst.manifest@[a].group_start),
                ((#[trigger] burst.manifest@[b]).stream@, burst.manifest@[b].group_start),
            ),
        0 <= r < burst.manifest@.len(),
    ensures
        ({
            let row = burst.manifest@[r];
            let key = RowKey::PageCounts {
                family,
                stream: row.stream@,
                group_start: row.group_start,
            };
            let after = put_all(store, staged);
            &&& after.contains_key(key)
            &&& after[key] == (RowValue::Counts { pairs: row.pairs@ })
        }),
{
    let pages = all_page_contents(family, burst.spans@);
    let others = all_span_contents(family, seal_block, burst.spans@);
    let rows = burst.manifest@.map_values(|row: PageCountsRow| row_content(family, row));
    let writes = burst_contents(family, seal_block, burst);
    let at = pages.len() + others.len() + r;
    assert(writes[at] == rows[r]);
    assert forall|j: int| at < j < writes.len() implies single_key(#[trigger] writes[j])
        != single_key(writes[at]) by {
        let b = j - pages.len() - others.len();
        assert(writes[j] == rows[b]);
        let x = (burst.manifest@[r].stream@, burst.manifest@[r].group_start);
        let y = (burst.manifest@[b].stream@, burst.manifest@[b].group_start);
        assert(key_lt(x, y));
        lemma_key_irreflexive(x);
    }
    law_last_write_of_a_key_is_read_back(store, writes, target, staged, at);
}

/// Every sealed page's stream is in the inventory that the seal writes for its
/// span, under the seal block; the inventory lists one stream per page.
pub proof fn law_sealed_streams_are_listed(
    family: Family,
    seal_block: u64,
    burst: SealBurst,
    k: int,
    i: int,
)
    requires
        forall|a: int, b: int|
            0 <= a < b < burst.spans@.len() ==> (#[trigger] burst.spans@[a]).start
                < (#[trigger] burst.spans@[b]).start,
        0 <= k < burst.spans@.len(),
        0 <= i < burst.spans@[k].pages@.len(),
    ensures
        exists|j: int|
            {
                &&& 0 <= j < burst_contents(family, seal_block, burst).len()
                &&& (#[trigger] burst_contents(family, seal_block, burst)[j])
                    matches WriteContent::OpenStreams {
                    family: f,
                    page_start,
                    marker_block,
                    streams,
                } && f == family && page_start == burst.spans@[k].start && marker_block
                    == seal_block && streams.len() == burst.spans@[k].pages@.len() && streams[i]
                    == burst.spans@[k].pages@[i].stream@
            },
{
    let pages = all_page_contents(family, burst.spans@);
    let others = all_span_contents(family, seal_block, burst.spans@);
    let writes = burst_contents(family, seal_block, burst);
    let at = lemma_span_writes_at(family, seal_block, burst.spans@, k);
    let own = span_contents(family, seal_block, burst.spans@[k]);
    assert(own.len() == 3);
    assert(own[2] == others[at + 2]);
    let j = pages.len() + at + 2;
    assert(writes[j] == own[2]);
}

/// A chunk takes five bytes, and each stream id in it four and its own.
pub proof fn law_chunk_takes_its_ids(ids: Seq<Seq<char>>, id: Seq<char>)
    ensures
        chunk_bytes(Seq::<Seq<char>>::empty()) == 5,
        chunk_bytes(ids.push(id)) == chunk_bytes(ids) + 4 + vstd::utf8::encode_utf8(id).len(),
{
    assert(ids.push(id).drop_last() =~= ids);
}

/// Rows of an inventory are filled: the next row's first stream would not have
/// fit.
pub proof fn law_inventory_rows_are_filled(
    write: ArtifactWrite,
    target: usize,
    rows: Seq<StagedRow>,
    k: int,
)
    requires
        are_rows_of(rows, write@, target),
        write is OpenStreams,
        0 <= k < rows.len() - 1,
    ensures
        rows[k] matches StagedRow::OpenStreamsDelta { streams: part, .. } ==> rows[k + 1]
            matches StagedRow::OpenStreamsDelta { streams: next, .. } ==> next@.len() > 0
            && chunk_bytes(texts(part@)) + 4 + vstd::utf8::encode_utf8(next@[0]@).len() > target,
{
    if let ArtifactWrite::OpenStreams { family, page_start, marker_block, streams } = write {
        let chunks = choose|chunks: Seq<Vec<String>>|
            #[trigger] is_chunking(chunks, texts(streams@), target) && are_chunk_rows(
                rows,
                family,
                page_start,
                marker_block,
                chunks,
            );
        assert(is_chunk_row(rows[k], family, page_start, marker_block, k, chunks[k]@));
        let n = k + 1;
        assert(is_chunk_row(rows[n], family, page_start, marker_block, n, chunks[n]@));
        assert(crate::write::stage::chunk_full(chunks, k, target));
        assert(chunk_fits(chunks[n]@, target));
        if let StagedRow::OpenStreamsDelta { streams: next, .. } = rows[n] {
            assert(texts(next@).len() == next@.len());
            assert(texts(chunks[n]@).len() == chunks[n]@.len());
            assert(texts(next@)[0] == next@[0]@);
            assert(texts(chunks[n]@)[0] == chunks[n]@[0]@);
        }
    }
}

} // verus!
