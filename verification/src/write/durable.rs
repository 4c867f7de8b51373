//! The rows that index writes leave behind, as far as recovery reads them.

use vstd::prelude::*;

use crate::text::{lemma_name_irreflexive, name_lt};
use crate::write::artifacts::{
    all_page_contents, all_span_contents, lemma_merged_holds, merged, page_key, row_content,
    sealed_page_content, span_contents, span_page_contents, span_stream_ids, WriteContent,
};
use crate::write::family::Family;
use crate::write::flush::{dir_content, fragment_content};
use crate::write::index::ChainDigest;
use crate::write::pages::{bits_at, with_bits};
use crate::write::seal::{streams_ascend, PageCountsRow, SealedPage, SealedSpan};
use crate::write::streams::{key_lt, StreamEntry};

verus! {

/// The rows of one family: the union of each page's fragments, each page's
/// stream inventory, the counts of the sealed pages, the directory fragments
/// in block order, and the chain value of each sealed span.
pub struct FamilyRows {
    pub fragments: Map<(Seq<char>, u64), Set<u32>>,
    pub inventory: Map<u64, Set<Seq<char>>>,
    pub counts: Map<(Seq<char>, u64), u32>,
    pub dir: Seq<(u64, u64, u64)>,
    pub chains: Map<u64, ChainDigest>,
}

/// The store before any write.
pub open spec fn no_rows() -> FamilyRows {
    FamilyRows {
        fragments: Map::empty(),
        inventory: Map::empty(),
        counts: Map::empty(),
        dir: Seq::empty(),
        chains: Map::empty(),
    }
}

/// The streams that a page's inventory lists.
pub open spec fn listed(rows: FamilyRows, page: u64) -> Set<Seq<char>> {
    if rows.inventory.contains_key(page) {
        rows.inventory[page]
    } else {
        Set::empty()
    }
}

/// The rows after one write. Sealed bitmaps, sealed buckets and manifest rows
/// are there for queries; recovery reads none of them.
pub open spec fn written(rows: FamilyRows, write: WriteContent) -> FamilyRows {
    match write {
        WriteContent::Page { stream_id, page_start, meta, .. } => FamilyRows {
            counts: rows.counts.insert((stream_id, page_start), meta.count),
            ..rows
        },
        WriteContent::PageFragment { stream_id, page_start, bits, .. } => FamilyRows {
            fragments: with_bits(rows.fragments, (stream_id, page_start), bits),
            ..rows
        },
        WriteContent::DirFragment { block, first_id, end_id, .. } => FamilyRows {
            dir: rows.dir.push((block, first_id, end_id)),
            ..rows
        },
        WriteContent::OpenStreams { page_start, streams, .. } => FamilyRows {
            inventory: rows.inventory.insert(
                page_start,
                listed(rows, page_start).union(streams.to_set()),
            ),
            ..rows
        },
        WriteContent::SealChain { span_start, value, .. } => FamilyRows {
            chains: rows.chains.insert(span_start, value),
            ..rows
        },
        WriteContent::Bucket { .. } => rows,
        WriteContent::PageCounts { .. } => rows,
    }
}

/// The rows after several writes of one family.
pub open spec fn all_written(rows: FamilyRows, writes: Seq<WriteContent>) -> FamilyRows
    decreases writes.len(),
{
    if writes.len() == 0 {
        rows
    } else {
        written(all_written(rows, writes.drop_last()), writes.last())
    }
}

pub proof fn lemma_written_append(rows: FamilyRows, a: Seq<WriteContent>, b: Seq<WriteContent>)
    ensures
        all_written(rows, a + b) == all_written(all_written(rows, a), b),
    decreases b.len(),
{
    if b.len() == 0 {
        assert(a + b =~= a);
    } else {
        assert((a + b).drop_last() =~= a + b.drop_last());
        assert((a + b).last() == b.last());
        lemma_written_append(rows, a, b.drop_last());
    }
}

/// The count of a page of the span is stored.
pub open spec fn count_stored(rows: FamilyRows, start: u64, page: SealedPage) -> bool {
    rows.counts.contains_key((page.stream@, start)) && rows.counts[(page.stream@, start)]
        == page.meta.count
}

/// The counts of all pages of a span are stored.
pub open spec fn counts_stored(rows: FamilyRows, start: u64, pages: Seq<SealedPage>) -> bool {
    forall|i: int| 0 <= i < pages.len() ==> count_stored(rows, start, #[trigger] pages[i])
}

/// Two stores have the same counts below a page.
pub open spec fn counts_kept(before: FamilyRows, after: FamilyRows, low: u64) -> bool {
    forall|key: (Seq<char>, u64)|
        key.1 < low ==> (#[trigger] after.counts.contains_key(key) <==> before.counts.contains_key(
            key,
        )) && after.counts[key] == before.counts[key]
}

/// The page writes of one span.
pub proof fn lemma_pages_written(
    rows: FamilyRows,
    family: Family,
    start: u64,
    pages: Seq<SealedPage>,
)
    requires
        streams_ascend(pages),
    ensures
        ({
            let writes = pages.map_values(
                |page: SealedPage| sealed_page_content(family, start, page),
            );
            let after = all_written(rows, writes);
            &&& after == (FamilyRows { counts: after.counts, ..rows })
            &&& counts_stored(after, start, pages)
            &&& forall|key: (Seq<char>, u64)|
                key.1 != start ==> (#[trigger] after.counts.contains_key(key)
                    <==> rows.counts.contains_key(key)) && after.counts[key] == rows.counts[key]
        }),
    decreases pages.len(),
{
    let f = |page: SealedPage| sealed_page_content(family, start, page);
    let writes = pages.map_values(f);
    if pages.len() > 0 {
        let rest = pages.drop_last();
        let n = rest.len() as int;
        assert(writes.drop_last() =~= rest.map_values(f));
        assert forall|i: int, j: int| 0 <= i < j < rest.len() implies name_lt(
            (#[trigger] rest[i]).stream@,
            (#[trigger] rest[j]).stream@,
        ) by {
            assert(name_lt(pages[i].stream@, pages[j].stream@));
        }
        lemma_pages_written(rows, family, start, rest);
        let middle = all_written(rows, writes.drop_last());
        let after = all_written(rows, writes);
        assert(after == written(middle, f(pages[n])));
        assert forall|i: int| 0 <= i < pages.len() implies count_stored(
            after,
            start,
            #[trigger] pages[i],
        ) by {
            if i < n {
                assert(count_stored(middle, start, rest[i]));
                assert(name_lt(pages[i].stream@, pages[n].stream@));
                lemma_name_irreflexive(pages[i].stream@);
            }
        }
    }
}

/// All are page writes of pages on one side of a start, or at it.
pub open spec fn are_pages(writes: Seq<WriteContent>, start: u64, at: bool) -> bool {
    forall|write: WriteContent| #[trigger]
        writes.contains(write) ==> write is Page && if at {
            page_key(write).1 == start
        } else {
            page_key(write).1 < start
        }
}

/// A page write before writes of pages elsewhere can come after them.
proof fn lemma_page_write_commutes(
    rows: FamilyRows,
    writes: Seq<WriteContent>,
    start: u64,
    write: WriteContent,
)
    requires
        are_pages(writes, start, true),
        write is Page,
        page_key(write).1 < start,
    ensures
        written(all_written(rows, writes), write) == all_written(written(rows, write), writes),
    decreases writes.len(),
{
    if writes.len() > 0 {
        let rest = writes.drop_last();
        let last = writes.last();
        assert(writes[writes.len() - 1] == last);
        assert(writes.contains(last));
        assert forall|w: WriteContent| #[trigger] rest.contains(w) implies writes.contains(w) by {
            let i = choose|i: int| 0 <= i < rest.len() && rest[i] == w;
            assert(writes[i] == w);
        }
        lemma_page_write_commutes(rows, rest, start, write);
        let base = all_written(rows, rest);
        let one = written(written(base, last), write);
        let two = written(written(base, write), last);
        assert(one.counts =~= two.counts);
    }
}

/// Writing merged page lists leaves what writing one after the other does,
/// where the second is of a later page.
proof fn lemma_merged_written(
    rows: FamilyRows,
    a: Seq<WriteContent>,
    b: Seq<WriteContent>,
    start: u64,
)
    requires
        are_pages(a, start, false),
        are_pages(b, start, true),
    ensures
        all_written(rows, merged(a, b)) == all_written(all_written(rows, a), b),
    decreases a.len() + b.len(),
{
    if a.len() > 0 && b.len() > 0 {
        let list = merged(a, b);
        assert(a[a.len() - 1] == a.last() && a.contains(a.last()));
        assert forall|w: WriteContent| #[trigger] a.drop_last().contains(w) implies a.contains(
            w,
        ) by {
            let i = choose|i: int| 0 <= i < a.drop_last().len() && a.drop_last()[i] == w;
            assert(a[i] == w);
        }
        assert forall|w: WriteContent| #[trigger] b.drop_last().contains(w) implies b.contains(
            w,
        ) by {
            let i = choose|i: int| 0 <= i < b.drop_last().len() && b.drop_last()[i] == w;
            assert(b[i] == w);
        }
        if key_lt(page_key(a.last()), page_key(b.last())) {
            lemma_merged_written(rows, a, b.drop_last(), start);
            assert(list.drop_last() =~= merged(a, b.drop_last()));
        } else {
            lemma_merged_written(rows, a.drop_last(), b, start);
            assert(list.drop_last() =~= merged(a.drop_last(), b));
            lemma_page_write_commutes(all_written(rows, a.drop_last()), b, start, a.last());
        }
    }
}

/// The page writes of spans below a start are of pages below it.
proof fn lemma_pages_below(family: Family, spans: Seq<SealedSpan>, start: u64)
    requires
        forall|i: int| 0 <= i < spans.len() ==> (#[trigger] spans[i]).start < start,
    ensures
        are_pages(all_page_contents(family, spans), start, false),
    decreases spans.len(),
{
    if spans.len() > 0 {
        let rest = spans.drop_last();
        let span = spans.last();
        assert(spans[spans.len() - 1] == span);
        assert forall|i: int| 0 <= i < rest.len() implies (#[trigger] rest[i]).start < start by {
            assert(spans[i].start < start);
        }
        lemma_pages_below(family, rest, start);
        lemma_merged_holds(all_page_contents(family, rest), span_page_contents(family, span));
    }
}

/// Spans ascend, and lie between `low` and `high`.
pub open spec fn spans_within(spans: Seq<SealedSpan>, low: u64, high: u64) -> bool {
    &&& forall|i: int, j: int|
        0 <= i < j < spans.len() ==> (#[trigger] spans[i]).start < (#[trigger] spans[j]).start
    &&& forall|i: int| 0 <= i < spans.len() ==> low <= (#[trigger] spans[i]).start < high
    &&& forall|i: int| 0 <= i < spans.len() ==> streams_ascend((#[trigger] spans[i]).pages@)
}

/// The page writes of several spans.
pub proof fn lemma_all_pages_written(
    rows: FamilyRows,
    family: Family,
    spans: Seq<SealedSpan>,
    low: u64,
    high: u64,
)
    requires
        spans_within(spans, low, high),
    ensures
        ({
            let after = all_written(rows, all_page_contents(family, spans));
            &&& after == (FamilyRows { counts: after.counts, ..rows })
            &&& counts_kept(rows, after, low)
            &&& forall|k: int|
                0 <= k < spans.len() ==> counts_stored(
                    after,
                    (#[trigger] spans[k]).start,
                    spans[k].pages@,
                )
        }),
    decreases spans.len(),
{
    if spans.len() > 0 {
        let rest = spans.drop_last();
        let n = rest.len() as int;
        assert(spans_within(rest, low, high)) by {
            assert forall|i: int, j: int| 0 <= i < j < rest.len() implies (#[trigger] rest[i]).start
                < (#[trigger] rest[j]).start by {
                assert(spans[i].start < spans[j].start);
            }
        }
        lemma_all_pages_written(rows, family, rest, low, high);
        let middle = all_written(rows, all_page_contents(family, rest));
        let span = spans[n];
        assert(span_page_contents(family, span) =~= span.pages@.map_values(
            |page: SealedPage| sealed_page_content(family, span.start, page),
        ));
        assert forall|i: int| 0 <= i < rest.len() implies (#[trigger] rest[i]).start
            < span.start by {
            assert(spans[i].start < spans[n].start);
        }
        lemma_pages_below(family, rest, span.start);
        lemma_merged_written(
            rows,
            all_page_contents(family, rest),
            span_page_contents(family, span),
            span.start,
        );
        lemma_pages_written(middle, family, span.start, span.pages@);
        let after = all_written(rows, all_page_contents(family, spans));
        assert forall|k: int| 0 <= k < spans.len() implies counts_stored(
            after,
            (#[trigger] spans[k]).start,
            spans[k].pages@,
        ) by {
            if k < n {
                assert(counts_stored(middle, rest[k].start, rest[k].pages@));
                assert(spans[k].start < spans[n].start);
                assert forall|i: int| 0 <= i < spans[k].pages@.len() implies count_stored(
                    after,
                    spans[k].start,
                    #[trigger] spans[k].pages@[i],
                ) by {
                    assert(count_stored(middle, spans[k].start, rest[k].pages@[i]));
                    let key = (spans[k].pages@[i].stream@, spans[k].start);
                    assert(after.counts.contains_key(key) <==> middle.counts.contains_key(key));
                }
            }
        }
        assert forall|key: (Seq<char>, u64)| key.1 < low implies (
        #[trigger] after.counts.contains_key(key) <==> rows.counts.contains_key(key))
            && after.counts[key] == rows.counts[key] by {
            assert(middle.counts.contains_key(key) <==> rows.counts.contains_key(key));
        }
    }
}

/// Some span starts at the page.
pub open spec fn starts_at(spans: Seq<SealedSpan>, page: u64) -> bool {
    exists|k: int| 0 <= k < spans.len() && (#[trigger] spans[k]).start == page
}

/// What the inventory of span `k`'s page is once the span's rows are written.
pub open spec fn inventory_stored(before: FamilyRows, after: FamilyRows, span: SealedSpan) -> bool {
    listed(after, span.start) == listed(before, span.start).union(
        span_stream_ids(span.pages@).to_set(),
    )
}

/// The rows of several spans: each page's inventory grows by the span's
/// streams, and each span has its chain value.
pub proof fn lemma_spans_written(
    rows: FamilyRows,
    family: Family,
    seal_block: u64,
    spans: Seq<SealedSpan>,
    low: u64,
    high: u64,
)
    requires
        spans_within(spans, low, high),
    ensures
        ({
            let after = all_written(rows, all_span_contents(family, seal_block, spans));
            &&& after == (FamilyRows {
                inventory: after.inventory,
                chains: after.chains,
                ..rows
            })
            &&& forall|page: u64|
                !starts_at(spans, page) ==> #[trigger] listed(after, page) == listed(rows, page)
            &&& forall|k: int|
                0 <= k < spans.len() ==> inventory_stored(rows, after, #[trigger] spans[k])
            &&& spans.len() > 0 ==> after.chains.contains_key(spans.last().start)
                && after.chains[spans.last().start] == spans.last().chain
            &&& forall|start: u64|
                start < low ==> (#[trigger] after.chains.contains_key(start)
                    <==> rows.chains.contains_key(start)) && after.chains[start]
                    == rows.chains[start]
        }),
    decreases spans.len(),
{
    if spans.len() > 0 {
        let rest = spans.drop_last();
        let n = rest.len() as int;
        let span = spans[n];
        assert(spans_within(rest, low, high)) by {
            assert forall|i: int, j: int| 0 <= i < j < rest.len() implies (#[trigger] rest[i]).start
                < (#[trigger] rest[j]).start by {
                assert(spans[i].start < spans[j].start);
            }
        }
        lemma_spans_written(rows, family, seal_block, rest, low, high);
        let earlier = all_span_contents(family, seal_block, rest);
        let own = span_contents(family, seal_block, span);
        let middle = all_written(rows, earlier);
        lemma_written_append(rows, earlier, own);
        let after = all_written(rows, all_span_contents(family, seal_block, spans));
        lemma_span_written(middle, family, seal_block, span);
        assert forall|page: u64| !starts_at(spans, page) implies #[trigger] listed(after, page)
            == listed(rows, page) by {
            assert(spans[n].start != page);
            assert(!starts_at(rest, page)) by {
                if starts_at(rest, page) {
                    let k = choose|k: int|
                        0 <= k < rest.len() && (#[trigger] rest[k]).start == page;
                    assert(spans[k].start == page);
                }
            }
            assert(listed(middle, page) == listed(rows, page));
        }
        assert forall|k: int| 0 <= k < spans.len() implies inventory_stored(
            rows,
            after,
            #[trigger] spans[k],
        ) by {
            if k < n {
                assert(inventory_stored(rows, middle, rest[k]));
                assert(spans[k].start < spans[n].start);
                assert(listed(after, spans[k].start) == listed(middle, spans[k].start));
            } else {
                assert(!starts_at(rest, span.start)) by {
                    if starts_at(rest, span.start) {
                        let j = choose|j: int|
                            0 <= j < rest.len() && (#[trigger] rest[j]).start == span.start;
                        assert(spans[j].start < spans[n].start);
                    }
                }
                assert(listed(middle, span.start) == listed(rows, span.start));
            }
        }
    }
}

/// The rows of one span.
proof fn lemma_span_written(rows: FamilyRows, family: Family, seal_block: u64, span: SealedSpan)
    ensures
        ({
            let after = all_written(rows, span_contents(family, seal_block, span));
            &&& after == (FamilyRows {
                inventory: after.inventory,
                chains: after.chains,
                ..rows
            })
            &&& inventory_stored(rows, after, span)
            &&& forall|page: u64|
                page != span.start ==> #[trigger] listed(after, page) == listed(rows, page)
            &&& after.chains.contains_key(span.start)
            &&& after.chains[span.start] == span.chain
            &&& forall|start: u64|
                start != span.start ==> (#[trigger] after.chains.contains_key(start)
                    <==> rows.chains.contains_key(start)) && after.chains[start]
                    == rows.chains[start]
        }),
{
    let own = span_contents(family, seal_block, span);
    let bucket = WriteContent::Bucket {
        family,
        bucket_start: span.start,
        entries: span.bucket.entries@,
        end: span.bucket.end_primary_id_exclusive,
    };
    let chain = WriteContent::SealChain { family, span_start: span.start, value: span.chain };
    let one = written(written(rows, bucket), chain);
    let ids = span_stream_ids(span.pages@);
    reveal_with_fuel(all_written, 4);
    if span.pages@.len() == 0 {
        assert(own =~= seq![bucket, chain]);
        assert(own.drop_last() =~= seq![bucket]);
        assert(own.drop_last().drop_last() =~= Seq::empty());
        assert(all_written(rows, own) == one);
        assert(ids.to_set() =~= Set::empty());
        assert(listed(rows, span.start).union(ids.to_set()) =~= listed(rows, span.start));
    } else {
        let streams = WriteContent::OpenStreams {
            family,
            page_start: span.start,
            marker_block: seal_block,
            streams: ids,
        };
        assert(own =~= seq![bucket, chain, streams]);
        assert(own.drop_last() =~= seq![bucket, chain]);
        assert(own.drop_last().drop_last() =~= seq![bucket]);
        assert(own.drop_last().drop_last().drop_last() =~= Seq::empty());
        assert(all_written(rows, own) == written(one, streams));
    }
}

/// Manifest rows are not read back.
pub proof fn lemma_manifest_written(rows: FamilyRows, family: Family, manifest: Seq<PageCountsRow>)
    ensures
        all_written(
            rows,
            manifest.map_values(|row: PageCountsRow| row_content(family, row)),
        ) == rows,
    decreases manifest.len(),
{
    let f = |row: PageCountsRow| row_content(family, row);
    if manifest.len() > 0 {
        assert(manifest.map_values(f).drop_last() =~= manifest.drop_last().map_values(f));
        lemma_manifest_written(rows, family, manifest.drop_last());
    }
}

/// Some bits of a stream's page are among the entries.
pub open spec fn entry_bits(
    entries: Seq<StreamEntry<roaring::RoaringBitmap>>,
    key: (Seq<char>, u64),
) -> Set<u32>
    decreases entries.len(),
{
    if entries.len() == 0 {
        Set::empty()
    } else if (entries.last().stream@, entries.last().start) == key {
        entry_bits(entries.drop_last(), key).union(
            crate::write::bitmap::bitmap_bits(entries.last().value),
        )
    } else {
        entry_bits(entries.drop_last(), key)
    }
}

/// The page fragments of a flush.
pub proof fn lemma_fragments_written(
    rows: FamilyRows,
    family: Family,
    flush_block: u64,
    entries: Seq<StreamEntry<roaring::RoaringBitmap>>,
)
    ensures
        ({
            let after = all_written(
                rows,
                entries.map_values(
                    |entry: StreamEntry<roaring::RoaringBitmap>|
                        fragment_content(family, flush_block, entry),
                ),
            );
            &&& after == (FamilyRows { fragments: after.fragments, ..rows })
            &&& forall|key: (Seq<char>, u64)| #[trigger]
                bits_at(after.fragments, key) == bits_at(rows.fragments, key).union(
                    entry_bits(entries, key),
                )
            &&& forall|key: (Seq<char>, u64)| #[trigger]
                after.fragments.contains_key(key) ==> rows.fragments.contains_key(key) || exists|
                    i: int,
                |
                    0 <= i < entries.len() && (#[trigger] entries[i]).stream@ == key.0
                        && entries[i].start == key.1
        }),
    decreases entries.len(),
{
    let f = |entry: StreamEntry<roaring::RoaringBitmap>|
        fragment_content(family, flush_block, entry);
    let after = all_written(rows, entries.map_values(f));
    if entries.len() == 0 {
        assert forall|key: (Seq<char>, u64)| #[trigger]
            bits_at(after.fragments, key) == bits_at(rows.fragments, key).union(
                entry_bits(entries, key),
            ) by {
            assert(bits_at(rows.fragments, key).union(Set::empty()) =~= bits_at(
                rows.fragments,
                key,
            ));
        }
    } else {
        let rest = entries.drop_last();
        assert(entries.map_values(f).drop_last() =~= rest.map_values(f));
        lemma_fragments_written(rows, family, flush_block, rest);
        let middle = all_written(rows, rest.map_values(f));
        let last = entries.last();
        assert(after == written(middle, f(last)));
        assert forall|key: (Seq<char>, u64)| #[trigger]
            bits_at(after.fragments, key) == bits_at(rows.fragments, key).union(
                entry_bits(entries, key),
            ) by {
            assert(bits_at(middle.fragments, key) == bits_at(rows.fragments, key).union(
                entry_bits(rest, key),
            ));
            assert(bits_at(after.fragments, key) =~= bits_at(rows.fragments, key).union(
                entry_bits(entries, key),
            ));
        }
        assert forall|key: (Seq<char>, u64)| #[trigger] after.fragments.contains_key(key)
            && !rows.fragments.contains_key(key) implies exists|i: int|
            0 <= i < entries.len() && (#[trigger] entries[i]).stream@ == key.0 && entries[i].start
                == key.1 by {
            if middle.fragments.contains_key(key) {
                let i = choose|i: int|
                    0 <= i < rest.len() && (#[trigger] rest[i]).stream@ == key.0 && rest[i].start
                        == key.1;
                assert(entries[i] == rest[i]);
            } else {
                assert(entries[entries.len() - 1] == last);
            }
        }
    }
}

/// The directory fragments of a flush.
pub proof fn lemma_dir_written(rows: FamilyRows, family: Family, dir: Seq<(u64, u64, u64)>)
    ensures
        all_written(rows, dir.map_values(|entry: (u64, u64, u64)| dir_content(family, entry)))
            == (FamilyRows { dir: rows.dir + dir, ..rows }),
    decreases dir.len(),
{
    let f = |entry: (u64, u64, u64)| dir_content(family, entry);
    if dir.len() == 0 {
        assert(rows.dir + dir =~= rows.dir);
    } else {
        assert(dir.map_values(f).drop_last() =~= dir.drop_last().map_values(f));
        lemma_dir_written(rows, family, dir.drop_last());
        assert((rows.dir + dir.drop_last()).push(dir.last()) =~= rows.dir + dir);
    }
}

} // verus!
