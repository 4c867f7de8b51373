//! Index writes: what sealing and flushing hand to the store.

use vstd::prelude::*;

use crate::errors::Result;
use crate::text::{name_lt, str_eq, str_lt};
use crate::write::bitmap::{bitmap_bits, spec_seal_boundary, BitmapPageMeta};
use crate::write::dir::{bucket_fails, span_starts, PrimaryDirBucket, PrimaryDirEntry};
use crate::write::family::Family;
use crate::write::index::{ChainDigest, FamilyState, FamilyTail};
use crate::write::seal::{
    family_wf, is_burst, is_left, seal_spans, streams_ascend, PageCountsRow, SealBurst, SealedPage,
    SealedSpan,
};
use crate::write::streams::{key_lt, lemma_key_total, lemma_key_transitive};

verus! {

/// A single index write.
pub enum ArtifactWrite {
    /// A sealed page.
    Page {
        family: Family,
        stream_id: String,
        page_start: u64,
        meta: BitmapPageMeta,
        bitmap: roaring::RoaringBitmap,
    },
    /// A sealed directory bucket.
    Bucket { family: Family, bucket_start: u64, bucket: PrimaryDirBucket },
    /// The bits that one flush adds to an open page.
    PageFragment {
        family: Family,
        stream_id: String,
        page_start: u64,
        flush_block: u64,
        meta: BitmapPageMeta,
        bitmap: roaring::RoaringBitmap,
    },
    /// One block's directory entry; the entry count is `end_id - first_id`.
    DirFragment { family: Family, block: u64, first_id: u64, end_id: u64 },
    /// A page's stream inventory, the listing by which that page's per-stream
    /// rows are found. Written at each flush (marker = the flush block) for
    /// the streams first seen in the open page that batch, and at seal
    /// (marker = the seal block) for all streams of the sealed page.
    OpenStreams { family: Family, page_start: u64, marker_block: u64, streams: Vec<String> },
    /// The family's seal chain after a span sealed.
    SealChain { family: Family, span_start: u64, value: ChainDigest },
    /// One `(stream, page group)` page-count manifest row.
    PageCounts { family: Family, stream_id: String, group_start: u64, pairs: Vec<(u32, u32)> },
}

/// The content of an [`ArtifactWrite`].
pub enum WriteContent {
    Page {
        family: Family,
        stream_id: Seq<char>,
        page_start: u64,
        meta: BitmapPageMeta,
        bits: Set<u32>,
    },
    Bucket { family: Family, bucket_start: u64, entries: Seq<PrimaryDirEntry>, end: u64 },
    PageFragment {
        family: Family,
        stream_id: Seq<char>,
        page_start: u64,
        flush_block: u64,
        meta: BitmapPageMeta,
        bits: Set<u32>,
    },
    DirFragment { family: Family, block: u64, first_id: u64, end_id: u64 },
    OpenStreams { family: Family, page_start: u64, marker_block: u64, streams: Seq<Seq<char>> },
    SealChain { family: Family, span_start: u64, value: ChainDigest },
    PageCounts { family: Family, stream_id: Seq<char>, group_start: u64, pairs: Seq<(u32, u32)> },
}

/// The texts of a list of strings.
pub open spec fn texts(strings: Seq<String>) -> Seq<Seq<char>> {
    strings.map_values(|text: String| text@)
}

impl View for ArtifactWrite {
    type V = WriteContent;

    open spec fn view(&self) -> WriteContent {
        match *self {
            ArtifactWrite::Page { family, stream_id, page_start, meta, bitmap } =>
                WriteContent::Page {
                    family,
                    stream_id: stream_id@,
                    page_start,
                    meta,
                    bits: bitmap_bits(bitmap),
                },
            ArtifactWrite::Bucket { family, bucket_start, bucket } => WriteContent::Bucket {
                family,
                bucket_start,
                entries: bucket.entries@,
                end: bucket.end_primary_id_exclusive,
            },
            ArtifactWrite::PageFragment {
                family,
                stream_id,
                page_start,
                flush_block,
                meta,
                bitmap,
            } => WriteContent::PageFragment {
                family,
                stream_id: stream_id@,
                page_start,
                flush_block,
                meta,
                bits: bitmap_bits(bitmap),
            },
            ArtifactWrite::DirFragment { family, block, first_id, end_id } =>
                WriteContent::DirFragment { family, block, first_id, end_id },
            ArtifactWrite::OpenStreams { family, page_start, marker_block, streams } =>
                WriteContent::OpenStreams {
                    family,
                    page_start,
                    marker_block,
                    streams: texts(streams@),
                },
            ArtifactWrite::SealChain { family, span_start, value } => WriteContent::SealChain {
                family,
                span_start,
                value,
            },
            ArtifactWrite::PageCounts { family, stream_id, group_start, pairs } =>
                WriteContent::PageCounts { family, stream_id: stream_id@, group_start, pairs: pairs@ },
        }
    }
}

/// The contents of a list of writes.
pub open spec fn contents(writes: Seq<ArtifactWrite>) -> Seq<WriteContent> {
    writes.map_values(|write: ArtifactWrite| write@)
}

pub open spec fn sealed_page_content(family: Family, start: u64, page: SealedPage) -> WriteContent {
    WriteContent::Page {
        family,
        stream_id: page.stream@,
        page_start: start,
        meta: page.meta,
        bits: bitmap_bits(page.bitmap),
    }
}

/// The page writes of a span.
pub open spec fn span_page_contents(family: Family, span: SealedSpan) -> Seq<WriteContent> {
    span.pages@.map_values(|page: SealedPage| sealed_page_content(family, span.start, page))
}

/// The ids of a span's streams.
pub open spec fn span_stream_ids(pages: Seq<SealedPage>) -> Seq<Seq<char>> {
    pages.map_values(|page: SealedPage| page.stream@)
}

/// The other writes of a span: its bucket, its chain value, and its complete
/// stream inventory if it has any stream.
pub open spec fn span_contents(family: Family, seal_block: u64, span: SealedSpan) -> Seq<
    WriteContent,
> {
    seq![
        WriteContent::Bucket {
            family,
            bucket_start: span.start,
            entries: span.bucket.entries@,
            end: span.bucket.end_primary_id_exclusive,
        },
        WriteContent::SealChain { family, span_start: span.start, value: span.chain },
    ] + if span.pages@.len() == 0 {
        Seq::empty()
    } else {
        seq![
            WriteContent::OpenStreams {
                family,
                page_start: span.start,
                marker_block: seal_block,
                streams: span_stream_ids(span.pages@),
            },
        ]
    }
}

/// By what page writes are ordered: the stream, then the page.
pub open spec fn page_key(write: WriteContent) -> (Seq<char>, u64) {
    match write {
        WriteContent::Page { stream_id, page_start, .. } => (stream_id, page_start),
        _ => (Seq::empty(), 0),
    }
}

/// Page writes ascend by stream, then page.
pub open spec fn pages_ascend(writes: Seq<WriteContent>) -> bool {
    forall|i: int, j: int|
        0 <= i < j < writes.len() ==> key_lt(
            page_key(#[trigger] writes[i]),
            page_key(#[trigger] writes[j]),
        )
}

/// Two ascending lists of page writes as one.
pub open spec fn merged(a: Seq<WriteContent>, b: Seq<WriteContent>) -> Seq<WriteContent>
    decreases a.len() + b.len(),
{
    if a.len() == 0 {
        b
    } else if b.len() == 0 {
        a
    } else if key_lt(page_key(a.last()), page_key(b.last())) {
        merged(a, b.drop_last()).push(b.last())
    } else {
        merged(a.drop_last(), b).push(a.last())
    }
}

/// The page writes of all spans, by stream and then page.
pub open spec fn all_page_contents(family: Family, spans: Seq<SealedSpan>) -> Seq<WriteContent>
    decreases spans.len(),
{
    if spans.len() == 0 {
        Seq::empty()
    } else {
        merged(
            all_page_contents(family, spans.drop_last()),
            span_page_contents(family, spans.last()),
        )
    }
}

/// A merged list holds what the two lists hold.
pub proof fn lemma_merged_holds(a: Seq<WriteContent>, b: Seq<WriteContent>)
    ensures
        merged(a, b).len() == a.len() + b.len(),
        forall|write: WriteContent| #[trigger]
            merged(a, b).contains(write) <==> a.contains(write) || b.contains(write),
    decreases a.len() + b.len(),
{
    if a.len() > 0 && b.len() > 0 {
        if key_lt(page_key(a.last()), page_key(b.last())) {
            lemma_merged_holds(a, b.drop_last());
            lemma_contains_last(b);
            lemma_contains_last(merged(a, b));
            assert(merged(a, b).drop_last() =~= merged(a, b.drop_last()));
        } else {
            lemma_merged_holds(a.drop_last(), b);
            lemma_contains_last(a);
            lemma_contains_last(merged(a, b));
            assert(merged(a, b).drop_last() =~= merged(a.drop_last(), b));
        }
    }
}

proof fn lemma_contains_last(list: Seq<WriteContent>)
    requires
        list.len() > 0,
    ensures
        forall|write: WriteContent| #[trigger]
            list.contains(write) <==> list.drop_last().contains(write) || write == list.last(),
{
    let n = list.len() - 1;
    assert forall|write: WriteContent| #[trigger] list.contains(write) <==>
        list.drop_last().contains(write) || write == list.last() by {
        if list.contains(write) {
            let i = choose|i: int| 0 <= i < list.len() && list[i] == write;
            if i < n {
                assert(list.drop_last()[i] == write);
            }
        }
        if list.drop_last().contains(write) {
            let i = choose|i: int| 0 <= i < n && list.drop_last()[i] == write;
            assert(list[i] == write);
        }
        assert(list[n] == list.last());
    }
}

/// A list whose last write is greatest ascends if the rest does.
proof fn lemma_ascend_push(list: Seq<WriteContent>)
    requires
        list.len() > 0,
        pages_ascend(list.drop_last()),
        forall|write: WriteContent| #[trigger]
            list.drop_last().contains(write) ==> key_lt(page_key(write), page_key(list.last())),
    ensures
        pages_ascend(list),
{
    let rest = list.drop_last();
    assert forall|i: int, j: int| 0 <= i < j < list.len() implies key_lt(
        page_key(#[trigger] list[i]),
        page_key(#[trigger] list[j]),
    ) by {
        assert(rest[i] == list[i]);
        assert(rest.contains(list[i]));
        if j < rest.len() {
            assert(rest[j] == list[j]);
        }
    }
}

/// In an ascending list no write lies above the last.
proof fn lemma_last_is_greatest(list: Seq<WriteContent>, write: WriteContent)
    requires
        pages_ascend(list),
        list.contains(write),
    ensures
        write == list.last() || key_lt(page_key(write), page_key(list.last())),
{
    let i = choose|i: int| 0 <= i < list.len() && list[i] == write;
    if i < list.len() - 1 {
        assert(key_lt(page_key(list[i]), page_key(list[list.len() - 1])));
    }
}

/// Merging ascending lists without a common key gives an ascending one.
proof fn lemma_merged_ascends(a: Seq<WriteContent>, b: Seq<WriteContent>)
    requires
        pages_ascend(a),
        pages_ascend(b),
        forall|x: WriteContent, y: WriteContent| #[trigger]
            a.contains(x) && #[trigger] b.contains(y) ==> page_key(x) != page_key(y),
    ensures
        pages_ascend(merged(a, b)),
    decreases a.len() + b.len(),
{
    if a.len() > 0 && b.len() > 0 {
        let list = merged(a, b);
        lemma_contains_last(a);
        lemma_contains_last(b);
        lemma_key_total(page_key(a.last()), page_key(b.last()));
        let below = key_lt(page_key(a.last()), page_key(b.last()));
        let (c, d) = if below {
            (a, b.drop_last())
        } else {
            (a.drop_last(), b)
        };
        assert(a.contains(a.last()) && b.contains(b.last()));
        assert(pages_ascend(c) && pages_ascend(d));
        assert forall|x: WriteContent, y: WriteContent| #[trigger]
            c.contains(x) && #[trigger] d.contains(y) implies page_key(x) != page_key(y) by {
            assert(a.contains(x) && b.contains(y));
        }
        lemma_merged_ascends(c, d);
        lemma_merged_holds(c, d);
        assert(list.drop_last() =~= merged(c, d));
        assert forall|write: WriteContent| #[trigger] list.drop_last().contains(write) implies
            key_lt(page_key(write), page_key(list.last())) by {
            if a.contains(write) {
                lemma_last_is_greatest(a, write);
                if below && write != a.last() {
                    lemma_key_transitive(page_key(write), page_key(a.last()), page_key(b.last()));
                }
            } else {
                lemma_last_is_greatest(b, write);
                if !below && write != b.last() {
                    lemma_key_transitive(page_key(write), page_key(b.last()), page_key(a.last()));
                }
            }
            if !below && write == a.last() {
                let i = choose|i: int| 0 <= i < c.len() && c[i] == write;
                if c.contains(write) {
                    assert(key_lt(page_key(a[i]), page_key(a[a.len() - 1])));
                } else {
                    assert(page_key(a.last()) != page_key(write));
                }
            }
            if below && write == b.last() {
                let i = choose|i: int| 0 <= i < d.len() && d[i] == write;
                if d.contains(write) {
                    assert(key_lt(page_key(b[i]), page_key(b[b.len() - 1])));
                } else {
                    assert(page_key(a.last()) != page_key(write));
                    assert(a.contains(write) && b.contains(b.last()));
                }
            }
        }
        lemma_ascend_push(list);
    }
}

/// Some span has a page whose write this is.
pub open spec fn is_page_of(write: WriteContent, family: Family, spans: Seq<SealedSpan>) -> bool {
    exists|k: int|
        0 <= k < spans.len() && #[trigger] span_page_contents(family, spans[k]).contains(write)
}

/// The page writes of a seal are those of its spans, each once, and ascend by
/// stream and then page, however many spans are sealed at once.
pub proof fn law_pages_are_written_by_stream(family: Family, spans: Seq<SealedSpan>)
    requires
        forall|i: int, j: int|
            0 <= i < j < spans.len() ==> (#[trigger] spans[i]).start < (#[trigger] spans[j]).start,
        forall|i: int| 0 <= i < spans.len() ==> streams_ascend((#[trigger] spans[i]).pages@),
    ensures
        pages_ascend(all_page_contents(family, spans)),
        forall|write: WriteContent| #[trigger]
            all_page_contents(family, spans).contains(write) <==> is_page_of(write, family, spans),
    decreases spans.len(),
{
    let all = all_page_contents(family, spans);
    if spans.len() > 0 {
        let rest = spans.drop_last();
        let n = rest.len() as int;
        let before = all_page_contents(family, rest);
        let own = span_page_contents(family, spans[n]);
        assert forall|i: int, j: int| 0 <= i < j < rest.len() implies (#[trigger] rest[i]).start
            < (#[trigger] rest[j]).start by {
            assert(spans[i].start < spans[j].start);
        }
        law_pages_are_written_by_stream(family, rest);
        assert forall|i: int, j: int| 0 <= i < j < own.len() implies key_lt(
            page_key(#[trigger] own[i]),
            page_key(#[trigger] own[j]),
        ) by {
            assert(name_lt(spans[n].pages@[i].stream@, spans[n].pages@[j].stream@));
        }
        assert forall|x: WriteContent, y: WriteContent| #[trigger]
            before.contains(x) && #[trigger] own.contains(y) implies page_key(x) != page_key(y) by {
            let k = choose|k: int|
                0 <= k < rest.len() && #[trigger] span_page_contents(family, rest[k]).contains(x);
            assert(is_page_of(x, family, rest));
            assert(spans[k].start < spans[n].start);
        }
        lemma_merged_ascends(before, own);
        lemma_merged_holds(before, own);
        assert forall|write: WriteContent| #[trigger] all.contains(write) <==> is_page_of(
            write,
            family,
            spans,
        ) by {
            if before.contains(write) {
                let k = choose|k: int|
                    0 <= k < rest.len() && #[trigger] span_page_contents(family, rest[k]).contains(
                        write,
                    );
                assert(span_page_contents(family, spans[k]).contains(write));
            }
            if own.contains(write) {
                assert(span_page_contents(family, spans[n]).contains(write));
            }
            if is_page_of(write, family, spans) {
                let k = choose|k: int|
                    0 <= k < spans.len() && #[trigger] span_page_contents(
                        family,
                        spans[k],
                    ).contains(write);
                if k < n {
                    assert(span_page_contents(family, rest[k]).contains(write));
                }
            }
        }
    }
}

pub open spec fn all_span_contents(
    family: Family,
    seal_block: u64,
    spans: Seq<SealedSpan>,
) -> Seq<WriteContent>
    decreases spans.len(),
{
    if spans.len() == 0 {
        Seq::empty()
    } else {
        all_span_contents(family, seal_block, spans.drop_last()) + span_contents(
            family,
            seal_block,
            spans.last(),
        )
    }
}

pub open spec fn row_content(family: Family, row: PageCountsRow) -> WriteContent {
    WriteContent::PageCounts {
        family,
        stream_id: row.stream@,
        group_start: row.group_start,
        pairs: row.pairs@,
    }
}

/// The writes of a burst: every sealed page, by stream and then page, then each
/// span's own rows, then the manifest rows.
pub open spec fn burst_contents(family: Family, seal_block: u64, burst: SealBurst) -> Seq<
    WriteContent,
> {
    all_page_contents(family, burst.spans@) + all_span_contents(family, seal_block, burst.spans@)
        + burst.manifest@.map_values(|row: PageCountsRow| row_content(family, row))
}

fn page_key_of(write: &ArtifactWrite) -> (key: (&str, u64))
    ensures
        (key.0@, key.1) == page_key(write@),
{
    match write {
        ArtifactWrite::Page { stream_id, page_start, .. } => (stream_id.as_str(), *page_start),
        _ => {
            proof {
                reveal_strlit("");
            }
            assert(""@ =~= Seq::empty());
            ("", 0)
        },
    }
}

fn is_before(a: &ArtifactWrite, b: &ArtifactWrite) -> (before: bool)
    ensures
        before == key_lt(page_key(a@), page_key(b@)),
{
    let (a_stream, a_page) = page_key_of(a);
    let (b_stream, b_page) = page_key_of(b);
    str_lt(a_stream, b_stream) || (str_eq(a_stream, b_stream) && a_page < b_page)
}

/// Merges two ascending lists of page writes.
fn merge_pages(a: Vec<ArtifactWrite>, b: Vec<ArtifactWrite>) -> (writes: Vec<ArtifactWrite>)
    ensures
        contents(writes@) == merged(contents(a@), contents(b@)),
{
    let ghost whole = merged(contents(a@), contents(b@));
    let mut a = a;
    let mut b = b;
    // The greatest writes, descending.
    let mut top: Vec<ArtifactWrite> = Vec::new();
    assert(whole + contents(top@).reverse() =~= whole);
    while a.len() > 0 && b.len() > 0
        invariant
            whole == merged(contents(a@), contents(b@)) + contents(top@).reverse(),
        decreases a@.len() + b@.len(),
    {
        let ghost (left, right, above) = (contents(a@), contents(b@), contents(top@));
        let last = if is_before(&a[a.len() - 1], &b[b.len() - 1]) {
            b.pop()
        } else {
            a.pop()
        };
        if let Some(write) = last {
            top.push(write);
            proof {
                assert(contents(top@) =~= above.push(write@));
                assert(contents(top@).reverse() =~= seq![write@] + above.reverse());
                if key_lt(page_key(left.last()), page_key(right.last())) {
                    assert(contents(b@) =~= right.drop_last());
                } else {
                    assert(contents(a@) =~= left.drop_last());
                }
                let rest = merged(contents(a@), contents(b@));
                assert(merged(left, right) =~= rest.push(write@));
                assert(rest.push(write@) + above.reverse() =~= rest + contents(top@).reverse());
            }
        }
    }
    let ghost (left, right) = (contents(a@), contents(b@));
    a.append(&mut b);
    assert(contents(a@) =~= left + right);
    assert(merged(left, right) =~= left + right);
    while top.len() > 0
        invariant
            whole == contents(a@) + contents(top@).reverse(),
        decreases top@.len(),
    {
        let ghost (below, above) = (contents(a@), contents(top@));
        if let Some(write) = top.pop() {
            a.push(write);
            proof {
                assert(contents(a@) =~= below.push(write@));
                assert(contents(top@) =~= above.drop_last());
                assert(below + above.reverse() =~= contents(a@) + contents(top@).reverse());
            }
        }
    }
    assert(contents(a@) + contents(top@).reverse() =~= contents(a@));
    a
}

/// The page writes of a span, and the ids of its streams.
fn span_writes(family: Family, start: u64, pages: Vec<SealedPage>) -> (parts: (
    Vec<ArtifactWrite>,
    Vec<String>,
))
    ensures
        contents(parts.0@) == pages@.map_values(
            |page: SealedPage| sealed_page_content(family, start, page),
        ),
        texts(parts.1@) == span_stream_ids(pages@),
        parts.1@.len() == pages@.len(),
{
    let mut writes: Vec<ArtifactWrite> = Vec::new();
    let ghost all = pages@;
    let ghost whole = all.map_values(|page: SealedPage| sealed_page_content(family, start, page));
    let ghost streams = span_stream_ids(all);
    let mut ids: Vec<String> = Vec::new();
    assert(contents(writes@) =~= whole.take(0));
    assert(texts(ids@) =~= streams.take(0));
    for page in iter: pages
        invariant
            iter.seq() == all,
            whole == all.map_values(|page: SealedPage| sealed_page_content(family, start, page)),
            streams == span_stream_ids(all),
            contents(writes@) == whole.take(iter.index() as int),
            texts(ids@) == streams.take(iter.index() as int),
            ids@.len() == iter.index(),
    {
        let ghost n = iter.index() as int;
        let ghost before = writes@;
        let ghost listed = ids@;
        assert(page == all[n]);
        let stream_id = page.stream.render();
        ids.push(page.stream.render());
        writes.push(
            ArtifactWrite::Page {
                family,
                stream_id,
                page_start: start,
                meta: page.meta,
                bitmap: page.bitmap,
            },
        );
        assert(contents(writes@) =~= contents(before).push(whole[n]));
        assert(whole.take(n + 1) =~= whole.take(n).push(whole[n]));
        assert(texts(ids@) =~= texts(listed).push(streams[n]));
        assert(streams.take(n + 1) =~= streams.take(n).push(streams[n]));
    }
    assert(whole.take(all.len() as int) =~= whole);
    assert(streams.take(all.len() as int) =~= streams);
    (writes, ids)
}

/// Turns a burst into writes.
pub fn burst_writes(family: Family, seal_block: u64, burst: SealBurst) -> (writes: Vec<
    ArtifactWrite,
>)
    ensures
        contents(writes@) == burst_contents(family, seal_block, burst),
{
    let ghost spans = burst.spans@;
    let ghost rows = burst.manifest@;
    let mut writes: Vec<ArtifactWrite> = Vec::new();
    let mut own: Vec<ArtifactWrite> = Vec::new();
    assert(spans.take(0) =~= Seq::empty());
    assert(contents(writes@) =~= Seq::empty());
    assert(contents(own@) =~= Seq::empty());
    for span in iter: burst.spans
        invariant
            iter.seq() == spans,
            contents(writes@) == all_page_contents(family, spans.take(iter.index() as int)),
            contents(own@) == all_span_contents(
                family,
                seal_block,
                spans.take(iter.index() as int),
            ),
    {
        let ghost n = iter.index() as int;
        assert(span == spans[n]);
        assert(spans.take(n + 1).drop_last() =~= spans.take(n));
        let ghost before = own@;
        let SealedSpan { start, pages, bucket, chain } = span;
        let (own_pages, ids) = span_writes(family, start, pages);
        writes = merge_pages(writes, own_pages);
        own.push(ArtifactWrite::Bucket { family, bucket_start: start, bucket });
        own.push(ArtifactWrite::SealChain { family, span_start: start, value: chain });
        if ids.len() > 0 {
            own.push(
                ArtifactWrite::OpenStreams {
                    family,
                    page_start: start,
                    marker_block: seal_block,
                    streams: ids,
                },
            );
        }
        assert(contents(own@) =~= contents(before) + span_contents(family, seal_block, spans[n]));
    }
    assert(spans.take(spans.len() as int) =~= spans);
    let ghost middle = contents(writes@) + contents(own@);
    let ghost paged = writes@;
    let ghost owned = own@;
    writes.append(&mut own);
    assert(contents(writes@) =~= middle);
    let ghost whole = rows.map_values(|row: PageCountsRow| row_content(family, row));
    assert(middle + whole.take(0) =~= middle);
    for row in iter: burst.manifest
        invariant
            iter.seq() == rows,
            whole == rows.map_values(|row: PageCountsRow| row_content(family, row)),
            contents(writes@) == middle + whole.take(iter.index() as int),
    {
        let ghost n = iter.index() as int;
        let ghost before = writes@;
        assert(row == rows[n]);
        let stream_id = row.stream.render();
        writes.push(
            ArtifactWrite::PageCounts {
                family,
                stream_id,
                group_start: row.group_start,
                pairs: row.pairs,
            },
        );
        assert(contents(writes@) =~= contents(before).push(whole[n]));
        assert(middle + whole.take(n + 1) =~= (middle + whole.take(n)).push(whole[n]));
    }
    assert(whole.take(rows.len() as int) =~= whole);
    writes
}

/// Seals one family's completed granules and gives the writes to issue.
pub fn seal_family<F: Fn(ChainDigest, u64, &Vec<SealedPage>, &PrimaryDirBucket) -> ChainDigest>(
    family: Family,
    state: &mut FamilyState,
    tail: &mut FamilyTail,
    frontier: u64,
    seal_block: u64,
    fold: &F,
) -> (result: Result<Vec<ArtifactWrite>>)
    requires
        family_wf(*old(state), *old(tail)),
        forall|chain: ChainDigest, start: u64, pages: &Vec<SealedPage>, bucket: &PrimaryDirBucket|
            call_requires(*fold, (chain, start, pages, bucket)),
    ensures
        family_wf(*final(state), *final(tail)),
        match result {
            Ok(writes) => exists|burst: SealBurst|
                {
                    &&& #[trigger] is_burst(*old(state), *old(tail), frontier, *fold, burst)
                    &&& is_left(
                        *old(state),
                        *old(tail),
                        frontier,
                        burst,
                        *final(state),
                        *final(tail),
                    )
                    &&& contents(writes@) == burst_contents(family, seal_block, burst)
                },
            Err(error) => {
                &&& bucket_fails(
                    old(state).dir@ + old(tail).dir@,
                    span_starts(old(state).sealed_id, spec_seal_boundary(frontier)),
                    error,
                )
                &&& *final(state) == *old(state)
                &&& *final(tail) == *old(tail)
            },
        },
{
    match seal_spans(state, tail, frontier, fold) {
        Ok(burst) => {
            let ghost emitted = burst;
            let writes = burst_writes(family, seal_block, burst);
            assert(is_burst(*old(state), *old(tail), frontier, *fold, emitted));
            Ok(writes)
        },
        Err(error) => Err(error),
    }
}

} // verus!
