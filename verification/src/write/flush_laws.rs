//! What a flush writes of a tail, and that nothing of the open content changes
//! by it.

use vstd::prelude::*;

use crate::write::artifacts::WriteContent;
use crate::write::bitmap::{bitmap_bits, describes, in_page, BitmapPageMeta};
use crate::write::burst_laws::{law_description_is_the_bits, open_bits};
use crate::write::family::Family;
use crate::write::flush::{
    dir_content, entry_streams, flush_contents, fragment_content, is_flushed, seen_after, unseen,
};
use crate::write::index::{FamilyState, FamilyTail};
use crate::write::pages::joined;
use crate::write::streams::StreamEntry;

verus! {

/// The write is the fragment that the flush at `block` adds to a page: its bits,
/// how many they are, and the least and the greatest.
pub open spec fn is_fragment_of(
    write: WriteContent,
    family: Family,
    block: u64,
    entry: StreamEntry<roaring::RoaringBitmap>,
) -> bool {
    write matches WriteContent::PageFragment {
        family: f,
        stream_id,
        page_start,
        flush_block,
        meta,
        bits,
    } && {
        &&& f == family
        &&& stream_id == entry.stream@
        &&& page_start == entry.start
        &&& flush_block == block
        &&& bits == bitmap_bits(entry.value)
        &&& meta.count == bits.len()
        &&& forall|o: u32| #[trigger] bits.contains(o) ==> meta.min_offset <= o <= meta.max_offset
        &&& meta.count > 0 ==> bits.contains(meta.min_offset) && bits.contains(meta.max_offset)
    }
}

/// The write is a block's directory entry.
pub open spec fn is_dir_fragment_of(
    write: WriteContent,
    family: Family,
    entry: (u64, u64, u64),
) -> bool {
    write matches WriteContent::DirFragment { family: f, block, first_id, end_id } && f == family
        && block == entry.0 && first_id == entry.1 && end_id == entry.2
}

proof fn lemma_fragment(
    family: Family,
    block: u64,
    entry: StreamEntry<roaring::RoaringBitmap>,
    meta: BitmapPageMeta,
)
    requires
        in_page(bitmap_bits(entry.value)),
        describes(meta, bitmap_bits(entry.value)),
    ensures
        is_fragment_of(fragment_content(family, block, entry), family, block, entry),
{
    let bits = bitmap_bits(entry.value);
    let chosen = crate::write::bitmap::spec_page_meta(bits);
    assert(describes(chosen, bits));
    law_description_is_the_bits(bits, chosen);
}

/// A flush writes, first, each touched page's bits as a fragment of that page;
/// last, each directory entry; and between them at most one inventory. Nothing
/// else is written.
pub proof fn law_flush_writes_its_tail(
    family: Family,
    block: u64,
    entries: Seq<StreamEntry<roaring::RoaringBitmap>>,
    metas: Seq<BitmapPageMeta>,
    seen: Set<Seq<char>>,
    dir: Seq<(u64, u64, u64)>,
    i: int,
)
    requires
        metas.len() == entries.len(),
        forall|e: int|
            0 <= e < entries.len() ==> in_page(bitmap_bits((#[trigger] entries[e]).value))
                && describes(metas[e], bitmap_bits(entries[e].value)),
        0 <= i < flush_contents(family, block, entries, seen, dir).len(),
    ensures
        ({
            let writes = flush_contents(family, block, entries, seen, dir);
            let listed = writes.len() - entries.len() - dir.len();
            &&& 0 <= listed <= 1
            &&& i < entries.len() ==> is_fragment_of(writes[i], family, block, entries[i])
            &&& i >= entries.len() + listed ==> is_dir_fragment_of(
                writes[i],
                family,
                dir[i - entries.len() - listed],
            )
            &&& entries.len() <= i < entries.len() + listed ==> writes[i] is OpenStreams
        }),
{
    let writes = flush_contents(family, block, entries, seen, dir);
    let listed = writes.len() - entries.len() - dir.len();
    if i < entries.len() {
        assert(writes[i] == fragment_content(family, block, entries[i]));
        lemma_fragment(family, block, entries[i], metas[i]);
    } else if i >= entries.len() + listed {
        assert(writes[i] == dir_content(family, dir[i - entries.len() - listed]));
    }
}

/// Some entry is of the stream.
pub open spec fn touches(
    entries: Seq<StreamEntry<roaring::RoaringBitmap>>,
    stream: Seq<char>,
) -> bool {
    exists|e: int| 0 <= e < entries.len() && (#[trigger] entries[e]).stream@ == stream
}

proof fn lemma_seen_after(ids: Seq<Seq<char>>, seen: Set<Seq<char>>, id: Seq<char>)
    ensures
        seen_after(ids, seen).contains(id) <==> seen.contains(id) || ids.contains(id),
    decreases ids.len(),
{
    if ids.len() > 0 {
        let rest = ids.drop_last();
        lemma_seen_after(rest, seen, id);
        if rest.contains(id) {
            let k = choose|k: int| 0 <= k < rest.len() && rest[k] == id;
            assert(ids[k] == id);
        }
        if ids.contains(id) {
            let k = choose|k: int| 0 <= k < ids.len() && ids[k] == id;
            if k < rest.len() {
                assert(rest[k] == id);
            }
        }
        assert(ids[ids.len() - 1] == ids.last());
    }
}

proof fn lemma_unseen(ids: Seq<Seq<char>>, seen: Set<Seq<char>>)
    ensures
        forall|id: Seq<char>| #[trigger]
            unseen(ids, seen).contains(id) <==> ids.contains(id) && !seen.contains(id),
        unseen(ids, seen).no_duplicates(),
    decreases ids.len(),
{
    if ids.len() > 0 {
        let rest = ids.drop_last();
        let last = ids.last();
        let before = unseen(rest, seen);
        lemma_unseen(rest, seen);
        lemma_seen_after(rest, seen, last);
        let pushed = before.push(last);
        assert forall|id: Seq<char>| #[trigger] unseen(ids, seen).contains(id) <==> ids.contains(
            id,
        ) && !seen.contains(id) by {
            assert(ids[ids.len() - 1] == last);
            if rest.contains(id) {
                let k = choose|k: int| 0 <= k < rest.len() && rest[k] == id;
                assert(ids[k] == id);
            }
            if ids.contains(id) {
                let k = choose|k: int| 0 <= k < ids.len() && ids[k] == id;
                if k < rest.len() {
                    assert(rest[k] == id);
                }
            }
            assert(before.contains(id) <==> rest.contains(id) && !seen.contains(id));
            assert(pushed[before.len() as int] == last);
            if before.contains(id) {
                let k = choose|k: int| 0 <= k < before.len() && before[k] == id;
                assert(pushed[k] == id);
            }
            if pushed.contains(id) {
                let k = choose|k: int| 0 <= k < pushed.len() && pushed[k] == id;
                if k < before.len() {
                    assert(before[k] == id);
                }
            }
        }
        if !seen_after(rest, seen).contains(last) {
            assert(before.contains(last) <==> rest.contains(last) && !seen.contains(last));
            assert forall|a: int, b: int| 0 <= a < pushed.len() && 0 <= b < pushed.len() && a
                != b implies pushed[a] != pushed[b] by {
                if a == before.len() {
                    assert(before.contains(pushed[b])) by {
                        assert(before[b] == pushed[b]);
                    }
                } else if b == before.len() {
                    assert(before.contains(pushed[a])) by {
                        assert(before[a] == pushed[a]);
                    }
                }
            }
        }
    }
}

/// The inventory of a flush lists the streams that the tail touches and that no
/// flush listed before for the open page, each once, under the flush block;
/// without such a stream none is written.
pub proof fn law_flush_lists_new_streams_once(
    family: Family,
    block: u64,
    entries: Seq<StreamEntry<roaring::RoaringBitmap>>,
    seen: Set<Seq<char>>,
    dir: Seq<(u64, u64, u64)>,
    stream: Seq<char>,
)
    ensures
        ({
            let writes = flush_contents(family, block, entries, seen, dir);
            let listed = writes.len() > entries.len() + dir.len();
            &&& touches(entries, stream) && !seen.contains(stream) ==> listed
            &&& listed ==> (writes[entries.len() as int] matches WriteContent::OpenStreams {
                family: f,
                page_start,
                marker_block,
                streams,
            } && {
                &&& f == family
                &&& page_start == entries.last().start
                &&& marker_block == block
                &&& streams.no_duplicates()
                &&& streams.contains(stream) <==> touches(entries, stream) && !seen.contains(
                    stream,
                )
            })
        }),
{
    let ids = entry_streams(entries);
    lemma_unseen(ids, seen);
    let new = unseen(ids, seen);
    assert(ids.contains(stream) <==> touches(entries, stream)) by {
        if ids.contains(stream) {
            let k = choose|k: int| 0 <= k < ids.len() && ids[k] == stream;
            assert(entries[k].stream@ == stream);
        }
        if touches(entries, stream) {
            let e = choose|e: int| 0 <= e < entries.len() && (#[trigger] entries[e]).stream@
                == stream;
            assert(ids[e] == stream);
        }
    }
    assert(new.contains(stream) <==> ids.contains(stream) && !seen.contains(stream));
    if touches(entries, stream) && !seen.contains(stream) {
        assert(new.len() > 0);
    }
}

/// After a flush the state has every bit and directory entry that state and tail
/// had together, the tail has none, the streams touched are known, and what was
/// sealed is as it was.
pub proof fn law_flush_moves_the_tail_into_the_state(
    before: (FamilyState, FamilyTail),
    after: (FamilyState, FamilyTail),
    key: (Seq<char>, u64),
    offset: u32,
    stream: Seq<char>,
)
    requires
        is_flushed(before, after),
    ensures
        after.0.bits().contains_key(key) && after.0.bits()[key].contains(offset) <==> open_bits(
            before.0,
            before.1,
            key,
        ).contains(offset),
        after.0.dir@ == before.0.dir@ + before.1.dir@,
        after.1.pages.entries@.len() == 0,
        after.1.dir@.len() == 0,
        after.0.open_streams_seen.set().contains(stream)
            <==> before.0.open_streams_seen.set().contains(stream) || touches(
            before.1.pages.entries@,
            stream,
        ),
        after.0.sealed_id == before.0.sealed_id,
        after.0.seal_chain == before.0.seal_chain,
        after.0.sealed_page_counts == before.0.sealed_page_counts,
{
    let entries = before.1.pages.entries@;
    let ids = entry_streams(entries);
    lemma_seen_after(ids, before.0.open_streams_seen.set(), stream);
    if ids.contains(stream) {
        let k = choose|k: int| 0 <= k < ids.len() && ids[k] == stream;
        assert(entries[k].stream@ == stream);
    }
    if touches(entries, stream) {
        let e = choose|e: int| 0 <= e < entries.len() && (#[trigger] entries[e]).stream@ == stream;
        assert(ids[e] == stream);
    }
    assert(joined(before.0.bits(), before.1.bits()).contains_key(key)
        <==> before.0.bits().contains_key(key) || before.1.bits().contains_key(key));
}

} // verus!
