//! Flushing: the tail becomes fragments and carries over into the state.

use vstd::prelude::*;

use crate::write::artifacts::{contents, texts, ArtifactWrite, WriteContent};
use crate::write::bitmap::{bitmap_bits, in_page, page_meta, spec_page_meta};
use crate::write::dir::extend_dir;
use crate::write::family::Family;
use crate::write::index::{FamilyState, FamilyTail};
use crate::write::pages::{
    joined, lemma_joined_empty, lemma_joined_wf, merge_page, page_bits, PageMap,
};
use crate::write::seal::family_wf;
use crate::write::seal_laws::same_content;
use crate::write::streams::{
    entries_map, entry_key, key_lt, keys_sorted, lemma_entry, lemma_entry_push, StreamEntry,
    StreamMap,
};

verus! {

pub open spec fn fragment_content(
    family: Family,
    flush_block: u64,
    entry: StreamEntry<roaring::RoaringBitmap>,
) -> WriteContent {
    WriteContent::PageFragment {
        family,
        stream_id: entry.stream@,
        page_start: entry.start,
        flush_block,
        meta: spec_page_meta(bitmap_bits(entry.value)),
        bits: bitmap_bits(entry.value),
    }
}

/// The streams of a list of entries.
pub open spec fn entry_streams(entries: Seq<StreamEntry<roaring::RoaringBitmap>>) -> Seq<
    Seq<char>,
> {
    entries.map_values(|entry: StreamEntry<roaring::RoaringBitmap>| entry.stream@)
}

/// The streams that were not seen before, each once, in list order.
pub open spec fn unseen(ids: Seq<Seq<char>>, seen: Set<Seq<char>>) -> Seq<Seq<char>>
    decreases ids.len(),
{
    if ids.len() == 0 {
        Seq::empty()
    } else if seen_after(ids.drop_last(), seen).contains(ids.last()) {
        unseen(ids.drop_last(), seen)
    } else {
        unseen(ids.drop_last(), seen).push(ids.last())
    }
}

/// The streams seen once a list of them was gone through.
pub open spec fn seen_after(ids: Seq<Seq<char>>, seen: Set<Seq<char>>) -> Set<Seq<char>>
    decreases ids.len(),
{
    if ids.len() == 0 {
        seen
    } else {
        seen_after(ids.drop_last(), seen).insert(ids.last())
    }
}

pub open spec fn dir_content(family: Family, entry: (u64, u64, u64)) -> WriteContent {
    WriteContent::DirFragment { family, block: entry.0, first_id: entry.1, end_id: entry.2 }
}

/// The writes of a flush: a fragment per touched page, the inventory of the
/// streams first seen, and a fragment per directory entry. Sealing leaves one
/// open page, so the last entry's page is every entry's page.
pub open spec fn flush_contents(
    family: Family,
    flush_block: u64,
    entries: Seq<StreamEntry<roaring::RoaringBitmap>>,
    seen: Set<Seq<char>>,
    dir: Seq<(u64, u64, u64)>,
) -> Seq<WriteContent> {
    entries.map_values(
        |entry: StreamEntry<roaring::RoaringBitmap>| fragment_content(family, flush_block, entry),
    ) + (if unseen(entry_streams(entries), seen).len() == 0 {
        Seq::empty()
    } else {
        seq![
            WriteContent::OpenStreams {
                family,
                page_start: entries.last().start,
                marker_block: flush_block,
                streams: unseen(entry_streams(entries), seen),
            },
        ]
    }) + dir.map_values(|entry: (u64, u64, u64)| dir_content(family, entry))
}

/// What a flush makes of a state and a tail.
pub open spec fn is_flushed(
    before: (FamilyState, FamilyTail),
    after: (FamilyState, FamilyTail),
) -> bool {
    &&& after.1.is_new()
    &&& after.0.bits() == joined(before.0.bits(), before.1.bits())
    &&& after.0.dir@ == before.0.dir@ + before.1.dir@
    &&& after.0.open_streams_seen.set() == seen_after(
        entry_streams(before.1.pages.entries@),
        before.0.open_streams_seen.set(),
    )
    &&& after.0.sealed_id == before.0.sealed_id
    &&& after.0.seal_chain == before.0.seal_chain
    &&& after.0.sealed_page_counts == before.0.sealed_page_counts
}

/// Flushes one family's tail: each touched page and directory entry is written
/// as a delta fragment and unioned into the carry-over state; the tail is
/// drained. The open content stays what it was.
#[verifier::rlimit(50)]
pub fn flush_family(
    family: Family,
    state: &mut FamilyState,
    tail: &mut FamilyTail,
    flush_block: u64,
) -> (writes: Vec<ArtifactWrite>)
    requires
        family_wf(*old(state), *old(tail)),
    ensures
        contents(writes@) == flush_contents(
            family,
            flush_block,
            old(tail).pages.entries@,
            old(state).open_streams_seen.set(),
            old(tail).dir@,
        ),
        is_flushed((*old(state), *old(tail)), (*final(state), *final(tail))),
        family_wf(*final(state), *final(tail)),
        same_content(*old(state), *old(tail), *final(state), *final(tail)),
{
    let mut pages: PageMap = StreamMap::new();
    std::mem::swap(&mut tail.pages, &mut pages);
    let ghost all = pages.entries@;
    let ghost whole = all.map_values(
        |entry: StreamEntry<roaring::RoaringBitmap>| fragment_content(family, flush_block, entry),
    );
    let ghost ids = entry_streams(all);
    let ghost seen0 = state.open_streams_seen.set();
    let ghost base = state.bits();
    let mut writes: Vec<ArtifactWrite> = Vec::new();
    let mut open_page: u64 = 0;
    let mut fresh: Vec<String> = Vec::new();
    proof {
        assert(entries_map(all.take(0)) =~= Map::empty());
        assert(page_bits(entries_map(all.take(0))) =~= Map::empty());
        lemma_joined_empty(base);
        assert(contents(writes@) =~= whole.take(0));
        assert(texts(fresh@) =~= Seq::empty());
        assert(ids.take(0) =~= Seq::empty());
        assert forall|i: int| 0 <= i < all.len() implies in_page(
            bitmap_bits((#[trigger] all[i]).value),
        ) by {
            lemma_entry(all, i);
            assert(old(tail).bits().contains_key(entry_key(all[i])));
        }
    }
    for entry in iter: pages.entries
        invariant
            iter.seq() == all,
            keys_sorted(all),
            forall|i: int| 0 <= i < all.len() ==> in_page(bitmap_bits((#[trigger] all[i]).value)),
            whole == all.map_values(
                |entry: StreamEntry<roaring::RoaringBitmap>|
                    fragment_content(family, flush_block, entry),
            ),
            ids == entry_streams(all),
            state.pages.wf(),
            state.bits() == joined(base, page_bits(entries_map(all.take(iter.index() as int)))),
            state.dir == old(state).dir,
            state.sealed_id == old(state).sealed_id,
            state.seal_chain == old(state).seal_chain,
            state.sealed_page_counts == old(state).sealed_page_counts,
            state.open_streams_seen.set() == seen_after(ids.take(iter.index() as int), seen0),
            texts(fresh@) == unseen(ids.take(iter.index() as int), seen0),
            contents(writes@) == whole.take(iter.index() as int),
            iter.index() > 0 ==> open_page == all[iter.index() - 1].start,
    {
        let ghost n = iter.index() as int;
        assert(entry == all[n]);
        assert(ids.take(n + 1).drop_last() =~= ids.take(n));
        assert(ids.take(n + 1).last() == entry.stream@);
        merge_page(&mut state.pages, &entry.stream, entry.start, &entry.value);
        proof {
            let done = all.take(n);
            assert(all.take(n + 1) =~= done.push(entry));
            assert forall|i: int, j: int| 0 <= i < j < done.len() implies key_lt(
                #[trigger] entry_key(done[i]),
                #[trigger] entry_key(done[j]),
            ) by {
                assert(key_lt(entry_key(all[i]), entry_key(all[j])));
            }
            assert forall|i: int| 0 <= i < done.len() implies key_lt(
                #[trigger] entry_key(done[i]),
                entry_key(entry),
            ) by {
                assert(key_lt(entry_key(all[i]), entry_key(all[n])));
            }
            lemma_entry_push(done, entry);
            let left = state.bits();
            let right = joined(base, page_bits(entries_map(all.take(n + 1))));
            assert(left.dom() =~= right.dom());
            assert forall|k: (Seq<char>, u64)| #[trigger] left.contains_key(k) implies left[k]
                == right[k] by {
                assert(left[k] =~= right[k]);
            }
            assert(left =~= right);
        }
        open_page = entry.start;
        let ghost listed = fresh@;
        if state.open_streams_seen.insert(&entry.stream) {
            fresh.push(entry.stream.render());
            assert(texts(fresh@) =~= texts(listed).push(entry.stream@));
        }
        let meta = page_meta(&entry.value);
        let stream_id = entry.stream.render();
        let ghost before = writes@;
        writes.push(
            ArtifactWrite::PageFragment {
                family,
                stream_id,
                page_start: entry.start,
                flush_block,
                meta,
                bitmap: entry.value,
            },
        );
        assert(contents(writes@) =~= contents(before).push(whole[n]));
        assert(whole.take(n + 1) =~= whole.take(n).push(whole[n]));
    }
    proof {
        assert(all.take(all.len() as int) =~= all);
        assert(ids.take(all.len() as int) =~= ids);
        assert(whole.take(all.len() as int) =~= whole);
        if all.len() == 0 {
            assert(ids =~= Seq::empty());
        }
    }
    let ghost inventory: Seq<WriteContent> = if unseen(ids, seen0).len() == 0 {
        Seq::empty()
    } else {
        seq![
            WriteContent::OpenStreams {
                family,
                page_start: all.last().start,
                marker_block: flush_block,
                streams: unseen(ids, seen0),
            },
        ]
    };
    let ghost before = writes@;
    assert(fresh@.len() == texts(fresh@).len());
    if fresh.len() > 0 {
        writes.push(
            ArtifactWrite::OpenStreams {
                family,
                page_start: open_page,
                marker_block: flush_block,
                streams: fresh,
            },
        );
    }
    assert(contents(writes@) =~= whole + inventory);
    let mut dir: Vec<(u64, u64, u64)> = Vec::new();
    std::mem::swap(&mut tail.dir, &mut dir);
    let ghost rows = dir@.map_values(|entry: (u64, u64, u64)| dir_content(family, entry));
    let ghost carried = state.dir@;
    let ghost drained = *tail;
    let mut i: usize = 0;
    assert(whole + inventory + rows.take(0) =~= whole + inventory);
    while i < dir.len()
        invariant
            i <= dir@.len(),
            *tail == drained,
            rows == dir@.map_values(|entry: (u64, u64, u64)| dir_content(family, entry)),
            contents(writes@) == whole + inventory + rows.take(i as int),
        decreases dir@.len() - i,
    {
        let (block, first_id, end_id) = dir[i];
        let ghost before = writes@;
        writes.push(ArtifactWrite::DirFragment { family, block, first_id, end_id });
        assert(contents(writes@) =~= contents(before).push(rows[i as int]));
        assert(whole + inventory + rows.take(i + 1) =~= (whole + inventory + rows.take(
            i as int,
        )).push(rows[i as int]));
        i = i + 1;
    }
    assert(rows.take(i as int) =~= rows);
    extend_dir(&mut state.dir, &dir);
    proof {
        assert(tail.pages.entries@.len() == 0);
        assert(tail.pages.map() =~= Map::empty());
        assert(tail.bits() =~= Map::empty());
        lemma_joined_empty(state.bits());
        lemma_joined_wf(old(state).bits(), old(tail).bits(), old(state).sealed_id);
        assert(state.dir@ + tail.dir@ =~= old(state).dir@ + old(tail).dir@);
    }
    writes
}

} // verus!
