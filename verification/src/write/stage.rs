//! Staging: which rows an index write puts.

use vstd::prelude::*;
use vstd::utf8::encode_utf8;

use crate::errors::{QueryError, Result};
use crate::write::artifacts::{texts, ArtifactWrite, WriteContent};
use crate::write::bitmap::{bitmap_bits, BitmapPageMeta};
use crate::write::dir::PrimaryDirBucket;
use crate::write::family::Family;
use crate::write::index::ChainDigest;

verus! {

/// Bytes of a chunk of stream ids before its first id: a version and a count.
pub const OPEN_STREAMS_HEADER_BYTES: usize = 5;

/// What an id takes in a chunk: a length prefix and its UTF-8 bytes.
pub open spec fn id_bytes(id: Seq<char>) -> nat {
    encode_utf8(id).len() + 4
}

/// What a chunk of ids takes.
pub open spec fn chunk_bytes(ids: Seq<Seq<char>>) -> nat
    decreases ids.len(),
{
    if ids.len() == 0 {
        OPEN_STREAMS_HEADER_BYTES as nat
    } else {
        chunk_bytes(ids.drop_last()) + id_bytes(ids.last())
    }
}

/// The ids of all chunks, in order.
pub open spec fn chunked_ids(chunks: Seq<Vec<String>>) -> Seq<Seq<char>>
    decreases chunks.len(),
{
    if chunks.len() == 0 {
        Seq::empty()
    } else {
        chunked_ids(chunks.drop_last()) + texts(chunks.last()@)
    }
}

/// A chunk holds something, and exceeds the target only as a single id that is
/// larger than the whole target.
pub open spec fn chunk_fits(chunk: Seq<String>, target: usize) -> bool {
    chunk.len() > 0 && (chunk.len() == 1 || chunk_bytes(texts(chunk)) <= target)
}

/// Chunk `k` is full: the first id of the next one would not have fit.
pub open spec fn chunk_full(chunks: Seq<Vec<String>>, k: int, target: usize) -> bool {
    chunk_bytes(texts(chunks[k]@)) + id_bytes(chunks[k + 1]@[0]@) > target
}

/// `chunks` hold the ids in order, each filled as far as the target allows.
pub open spec fn is_chunking(
    chunks: Seq<Vec<String>>,
    ids: Seq<Seq<char>>,
    target: usize,
) -> bool {
    &&& chunked_ids(chunks) == ids
    &&& forall|k: int| 0 <= k < chunks.len() ==> chunk_fits(#[trigger] chunks[k]@, target)
    &&& forall|k: int| 0 <= k < chunks.len() - 1 ==> #[trigger] chunk_full(chunks, k, target)
}

proof fn lemma_chunk_bytes_grow(ids: Seq<Seq<char>>, n: int, m: int)
    requires
        0 <= n <= m <= ids.len(),
    ensures
        chunk_bytes(ids.subrange(n, m)) <= chunk_bytes(ids.take(m)),
        chunk_bytes(ids.take(m)) <= chunk_bytes(ids),
    decreases ids.len() - n + m,
{
    if m < ids.len() {
        lemma_chunk_bytes_tail(ids, m);
    } else {
        assert(ids.take(m) =~= ids);
    }
    if n == m {
        assert(ids.subrange(n, m) =~= Seq::empty());
        lemma_chunk_bytes_tail(ids.take(m), 0);
    } else {
        lemma_chunk_bytes_grow(ids, n, m - 1);
        assert(ids.subrange(n, m).drop_last() =~= ids.subrange(n, m - 1));
        assert(ids.take(m).drop_last() =~= ids.take(m - 1));
    }
}

proof fn lemma_chunk_bytes_tail(ids: Seq<Seq<char>>, m: int)
    requires
        0 <= m <= ids.len(),
    ensures
        chunk_bytes(ids.take(m)) <= chunk_bytes(ids),
    decreases ids.len(),
{
    if m < ids.len() {
        lemma_chunk_bytes_tail(ids.drop_last(), m);
        assert(ids.drop_last().take(m) =~= ids.take(m));
    } else {
        assert(ids.take(m) =~= ids);
    }
}

/// Parts a page's stream ids into chunks of at most `target` bytes.
pub fn split_open_streams(streams: Vec<String>, target: usize) -> (chunks: Vec<Vec<String>>)
    requires
        chunk_bytes(texts(streams@)) <= usize::MAX,
    ensures
        is_chunking(chunks@, texts(streams@), target),
        chunks@.len() <= streams@.len(),
{
    let ghost all = streams@;
    let ghost ids = texts(all);
    let mut chunks: Vec<Vec<String>> = Vec::new();
    let mut chunk: Vec<String> = Vec::new();
    let mut held: usize = OPEN_STREAMS_HEADER_BYTES;
    let ghost mut done: int = 0;
    assert(texts(chunk@) =~= Seq::empty());
    assert(ids.subrange(0, 0) =~= Seq::empty());
    assert(ids.take(0) =~= Seq::empty());
    for stream_id in iter: streams
        invariant
            iter.seq() == all,
            ids == texts(all),
            chunk_bytes(ids) <= usize::MAX,
            0 <= done <= iter.index(),
            texts(chunk@) == ids.subrange(done, iter.index() as int),
            chunk@.len() == iter.index() - done,
            held == chunk_bytes(texts(chunk@)),
            chunked_ids(chunks@) == ids.take(done),
            chunks@.len() <= done,
            chunk@.len() == 0 ==> chunks@.len() == 0,
            chunk@.len() == 0 || chunk_fits(chunk@, target),
            forall|k: int| 0 <= k < chunks@.len() ==> chunk_fits(#[trigger] chunks@[k]@, target),
            forall|k: int|
                0 <= k < chunks@.len() - 1 ==> #[trigger] chunk_full(chunks@, k, target),
            chunks@.len() > 0 ==> chunk_bytes(texts(chunks@.last()@)) + id_bytes(chunk@[0]@)
                > target,
    {
        let ghost n = iter.index() as int;
        assert(stream_id == all[n]);
        proof {
            lemma_chunk_bytes_grow(ids, done, n + 1);
            assert(ids.subrange(done, n + 1).drop_last() =~= ids.subrange(done, n));
            assert(ids.subrange(done, n + 1).last() == ids[n]);
            assert(ids[n] == stream_id@);
        }
        let entry_bytes: usize = stream_id.as_str().as_bytes().len() + 4;
        if chunk.len() > 0 && (target < entry_bytes || held > target - entry_bytes) {
            let mut full: Vec<String> = Vec::new();
            std::mem::swap(&mut chunk, &mut full);
            let ghost before = chunks@;
            let ghost closing = full@;
            chunks.push(full);
            proof {
                assert(chunks@.drop_last() =~= before);
                assert(ids.take(done) + ids.subrange(done, n) =~= ids.take(n));
                assert forall|k: int| 0 <= k < chunks@.len() - 1 implies #[trigger] chunk_full(
                    chunks@,
                    k,
                    target,
                ) by {
                    if k < before.len() - 1 {
                        assert(chunk_full(before, k, target));
                    }
                }
                done = n;
                assert(ids.subrange(n, n) =~= Seq::empty());
                assert(texts(chunk@) =~= Seq::empty());
                lemma_chunk_bytes_grow(ids, n, n + 1);
                assert(ids.subrange(n, n + 1).drop_last() =~= ids.subrange(n, n));
            }
            held = OPEN_STREAMS_HEADER_BYTES;
            assert(held == chunk_bytes(ids.subrange(done, n)));
        }
        assert(held == chunk_bytes(ids.subrange(done, n)));
        let ghost listed = chunk@;
        proof {
            assert(entry_bytes == id_bytes(ids[n]));
            lemma_chunk_bytes_grow(ids, done, n + 1);
            assert(ids.subrange(done, n + 1).drop_last() =~= ids.subrange(done, n));
            assert(ids.subrange(done, n + 1).last() == ids[n]);
            assert(chunk_bytes(ids.subrange(done, n + 1)) == held + entry_bytes);
        }
        held = held + entry_bytes;
        chunk.push(stream_id);
        proof {
            assert(texts(chunk@) =~= texts(listed).push(ids[n]));
            assert(texts(chunk@).drop_last() =~= texts(listed));
            assert(ids.subrange(done, n + 1) =~= ids.subrange(done, n).push(ids[n]));
        }
    }
    if chunk.len() > 0 {
        let ghost before = chunks@;
        let ghost n = ids.len() as int;
        chunks.push(chunk);
        proof {
            assert(chunks@.drop_last() =~= before);
            assert(ids.take(done) + ids.subrange(done, n) =~= ids);
            assert forall|k: int| 0 <= k < chunks@.len() - 1 implies #[trigger] chunk_full(
                chunks@,
                k,
                target,
            ) by {
                if k < before.len() - 1 {
                    assert(chunk_full(before, k, target));
                }
            }
        }
    } else {
        assert(ids =~= Seq::empty());
    }
    chunks
}

/// One row that an index write puts, addressed by table and key parts.
pub enum StagedRow {
    PageArtifact {
        family: Family,
        stream_id: String,
        page_start: u64,
        meta: BitmapPageMeta,
        bitmap: roaring::RoaringBitmap,
    },
    DirBucket { family: Family, bucket_start: u64, bucket: PrimaryDirBucket },
    PageFragment {
        family: Family,
        stream_id: String,
        page_start: u64,
        flush_block: u64,
        meta: BitmapPageMeta,
        bitmap: roaring::RoaringBitmap,
    },
    BlockFragment { family: Family, block: u64, first_id: u64, count: u32 },
    OpenStreamsDelta {
        family: Family,
        page_start: u64,
        marker_block: u64,
        chunk_idx: u32,
        streams: Vec<String>,
    },
    SealChain { family: Family, span_start: u64, value: ChainDigest },
    PageCounts { family: Family, stream_id: String, group_start: u64, pairs: Vec<(u32, u32)> },
}

/// The row puts what the write carries. Inventories are chunked, so they have
/// rows of their own kind.
pub open spec fn is_row_of(row: StagedRow, write: WriteContent) -> bool {
    match (row, write) {
        (
            StagedRow::PageArtifact { family, stream_id, page_start, meta, bitmap },
            WriteContent::Page { family: f, stream_id: s, page_start: p, meta: m, bits },
        ) => family == f && stream_id@ == s && page_start == p && meta == m && bitmap_bits(bitmap)
            == bits,
        (
            StagedRow::DirBucket { family, bucket_start, bucket },
            WriteContent::Bucket { family: f, bucket_start: s, entries, end },
        ) => family == f && bucket_start == s && bucket.entries@ == entries
            && bucket.end_primary_id_exclusive == end,
        (
            StagedRow::PageFragment { family, stream_id, page_start, flush_block, meta, bitmap },
            WriteContent::PageFragment {
                family: f,
                stream_id: s,
                page_start: p,
                flush_block: b,
                meta: m,
                bits,
            },
        ) => family == f && stream_id@ == s && page_start == p && flush_block == b && meta == m
            && bitmap_bits(bitmap) == bits,
        (
            StagedRow::BlockFragment { family, block, first_id, count },
            WriteContent::DirFragment { family: f, block: b, first_id: first, end_id },
        ) => family == f && block == b && first_id == first && first_id + count == end_id,
        (
            StagedRow::SealChain { family, span_start, value },
            WriteContent::SealChain { family: f, span_start: s, value: v },
        ) => family == f && span_start == s && value == v,
        (
            StagedRow::PageCounts { family, stream_id, group_start, pairs },
            WriteContent::PageCounts { family: f, stream_id: s, group_start: g, pairs: p },
        ) => family == f && stream_id@ == s && group_start == g && pairs@ == p,
        _ => false,
    }
}

/// Row `k` puts chunk `k` of an inventory.
pub open spec fn is_chunk_row(
    row: StagedRow,
    family: Family,
    page_start: u64,
    marker_block: u64,
    k: int,
    chunk: Seq<String>,
) -> bool {
    row matches StagedRow::OpenStreamsDelta {
        family: f,
        page_start: p,
        marker_block: m,
        chunk_idx,
        streams,
    } && f == family && p == page_start && m == marker_block && chunk_idx == k && texts(streams@)
        == texts(chunk)
}

/// `rows` put the chunks of an inventory, numbered from zero.
pub open spec fn are_chunk_rows(
    rows: Seq<StagedRow>,
    family: Family,
    page_start: u64,
    marker_block: u64,
    chunks: Seq<Vec<String>>,
) -> bool {
    &&& rows.len() == chunks.len()
    &&& forall|k: int|
        0 <= k < rows.len() ==> is_chunk_row(
            #[trigger] rows[k],
            family,
            page_start,
            marker_block,
            k,
            chunks[k]@,
        )
}

/// Stages one burst's stream inventory as chunked delta rows, keyed by
/// `(marker_block, chunk_idx)`.
pub fn stage_open_streams_chunks(
    family: Family,
    page_start: u64,
    marker_block: u64,
    streams: Vec<String>,
    target: usize,
) -> (rows: Vec<StagedRow>)
    requires
        chunk_bytes(texts(streams@)) <= usize::MAX,
        streams@.len() <= u32::MAX,
    ensures
        exists|chunks: Seq<Vec<String>>|
            #[trigger] is_chunking(chunks, texts(streams@), target) && are_chunk_rows(
                rows@,
                family,
                page_start,
                marker_block,
                chunks,
            ),
{
    let ghost ids = texts(streams@);
    let chunks = split_open_streams(streams, target);
    let ghost all = chunks@;
    let mut rows: Vec<StagedRow> = Vec::new();
    let mut chunk_idx: u32 = 0;
    for chunk in iter: chunks
        invariant
            iter.seq() == all,
            all.len() <= u32::MAX,
            chunk_idx == iter.index(),
            rows@.len() == iter.index(),
            forall|k: int|
                0 <= k < rows@.len() ==> is_chunk_row(
                    #[trigger] rows@[k],
                    family,
                    page_start,
                    marker_block,
                    k,
                    all[k]@,
                ),
    {
        rows.push(
            StagedRow::OpenStreamsDelta {
                family,
                page_start,
                marker_block,
                chunk_idx,
                streams: chunk,
            },
        );
        chunk_idx = chunk_idx + 1;
    }
    assert(is_chunking(all, ids, target));
    rows
}

/// A write can be staged: a directory entry does not end before it starts, and
/// an inventory can be measured and numbered.
pub open spec fn stageable(write: WriteContent) -> bool {
    match write {
        WriteContent::DirFragment { first_id, end_id, .. } => first_id <= end_id,
        WriteContent::OpenStreams { streams, .. } => chunk_bytes(streams) <= usize::MAX
            && streams.len() <= u32::MAX,
        _ => true,
    }
}

/// `rows` put what the write carries: an inventory in chunks of at most
/// `target` bytes, anything else as one row.
pub open spec fn are_rows_of(rows: Seq<StagedRow>, write: WriteContent, target: usize) -> bool {
    match write {
        WriteContent::OpenStreams { family, page_start, marker_block, streams } => exists|
            chunks: Seq<Vec<String>>,
        |
            #[trigger] is_chunking(chunks, streams, target) && are_chunk_rows(
                rows,
                family,
                page_start,
                marker_block,
                chunks,
            ),
        content => rows.len() == 1 && is_row_of(rows[0], content),
    }
}

/// Gives the rows that one index write puts: an inventory in chunks of at most
/// `target` bytes, anything else as one row. A directory entry of more than
/// `u32::MAX` ids is an error.
pub fn stage_artifact_write(write: ArtifactWrite, target: usize) -> (result: Result<
    Vec<StagedRow>,
>)
    requires
        stageable(write@),
    ensures
        match result {
            Ok(rows) => are_rows_of(rows@, write@, target),
            Err(error) => {
                &&& write@ matches WriteContent::DirFragment { first_id, end_id, .. } && end_id
                    - first_id > u32::MAX
                &&& error == QueryError::Decode("primary directory fragment count exceeds u32")
            },
        },
{
    let mut rows: Vec<StagedRow> = Vec::new();
    match write {
        ArtifactWrite::Page { family, stream_id, page_start, meta, bitmap } => {
            rows.push(StagedRow::PageArtifact { family, stream_id, page_start, meta, bitmap });
        },
        ArtifactWrite::Bucket { family, bucket_start, bucket } => {
            rows.push(StagedRow::DirBucket { family, bucket_start, bucket });
        },
        ArtifactWrite::PageFragment { family, stream_id, page_start, flush_block, meta, bitmap } => {
            rows.push(
                StagedRow::PageFragment { family, stream_id, page_start, flush_block, meta, bitmap },
            );
        },
        ArtifactWrite::DirFragment { family, block, first_id, end_id } => {
            let ids: u64 = end_id - first_id;
            if ids > 0xffff_ffff {
                return Err(QueryError::Decode("primary directory fragment count exceeds u32"));
            }
            rows.push(StagedRow::BlockFragment { family, block, first_id, count: ids as u32 });
        },
        ArtifactWrite::OpenStreams { family, page_start, marker_block, streams } => {
            assert(texts(streams@).len() == streams@.len());
            return Ok(
                stage_open_streams_chunks(family, page_start, marker_block, streams, target),
            );
        },
        ArtifactWrite::SealChain { family, span_start, value } => {
            rows.push(StagedRow::SealChain { family, span_start, value });
        },
        ArtifactWrite::PageCounts { family, stream_id, group_start, pairs } => {
            rows.push(StagedRow::PageCounts { family, stream_id, group_start, pairs });
        },
    }
    Ok(rows)
}

} // verus!
