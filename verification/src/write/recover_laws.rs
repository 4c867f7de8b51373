//! What a restart gives back: a checkpoint field by field, and a rebuilt family
//! bit by bit.

use vstd::prelude::*;

use crate::errors::QueryError;
use crate::write::bitmap::{bitmap_bits, PAGE_SPAN};
use crate::write::burst_laws::{has_pair, lemma_add_count_pairs};
use crate::write::family::FamilyFrontier;
use crate::write::index::{is_empty_digest, FamilyState, FamilyTail, OpenState, OpenTail};
use crate::write::recover::{
    clamped_bits, count_listing, count_listings, is_rebuild_fault, is_rebuilt, listing_ok, rebuilt_dir,
    rebuilt_pages, rebuilt_seen, resume_block, spec_plan_recovery, stream_ok, union_bits,
    unrebuildable, FamilyArtifacts, SealedPageListing,
};
use crate::write::seal::count_pairs;
use crate::write::snapshot_codec::{is_restored, parse_snapshot, snapshot_content};
use crate::write::streams::is_stream_id;

verus! {

/// One family's state came back: the boundary, the chain, every open bit, the
/// directory, and the counts of the open group.
pub open spec fn same_state(a: FamilyState, b: FamilyState) -> bool {
    &&& a.sealed_id == b.sealed_id
    &&& a.seal_chain@ == b.seal_chain@
    &&& a.bits() == b.bits()
    &&& a.dir@ == b.dir@
    &&& count_pairs(a.sealed_page_counts.map()) == count_pairs(b.sealed_page_counts.map())
}

/// One family's tail came back: every bit and the directory.
pub open spec fn same_tail(a: FamilyTail, b: FamilyTail) -> bool {
    a.bits() == b.bits() && a.dir@ == b.dir@
}

/// Encoding a working set and decoding the bytes gives the working set back, in
/// every family and every field, with its block and frontier. The streams that
/// were listed for the open page are forgotten, so that they are listed again.
pub proof fn law_snapshot_comes_back_field_by_field(
    bytes: Seq<u8>,
    state: OpenState,
    tail: OpenTail,
    block: u64,
    frontier: FamilyFrontier,
    read_state: OpenState,
    read_tail: OpenTail,
    read_block: u64,
    read_frontier: FamilyFrontier,
)
    requires
        parse_snapshot(bytes) == Ok::<_, QueryError>(
            snapshot_content(state, tail, block, frontier),
        ),
        parse_snapshot(bytes) == Ok::<_, QueryError>(
            snapshot_content(read_state, read_tail, read_block, read_frontier),
        ),
        is_restored(read_state),
    ensures
        read_block == block,
        read_frontier.log == frontier.log,
        read_frontier.tx == frontier.tx,
        read_frontier.trace == frontier.trace,
        same_state(read_state.log, state.log),
        same_state(read_state.tx, state.tx),
        same_state(read_state.trace, state.trace),
        same_tail(read_tail.log, tail.log),
        same_tail(read_tail.tx, tail.tx),
        same_tail(read_tail.trace, tail.trace),
        read_state.log.open_streams_seen.set() == Set::<Seq<char>>::empty(),
        read_state.tx.open_streams_seen.set() == Set::<Seq<char>>::empty(),
        read_state.trace.open_streams_seen.set() == Set::<Seq<char>>::empty(),
{
}

/// A cold store starts anew; a checkpoint behind the head is passed over; one at
/// or ahead of the head is restored.
pub proof fn law_plan_follows_the_later(checkpoint: Option<u64>, head: u64)
    ensures
        spec_plan_recovery(checkpoint, head) is Cold <==> checkpoint is None && head == 0,
        spec_plan_recovery(checkpoint, head) is Restore <==> (checkpoint matches Some(block)
            && block >= head),
        resume_block(spec_plan_recovery(checkpoint, head), checkpoint, head) is None
            <==> checkpoint is None && head == 0,
{
}

/// Some fragment of the stream has the offset.
pub open spec fn has_fragment_bit(
    streams: Seq<(String, Vec<roaring::RoaringBitmap>)>,
    n: int,
    stream: Seq<char>,
    offset: u32,
) -> bool {
    exists|i: int, f: int|
        {
            &&& 0 <= i < n
            &&& streams[i].0@ == stream
            &&& 0 <= f < streams[i].1@.len()
            &&& bitmap_bits(#[trigger] streams[i].1@[f]).contains(offset)
        }
}

/// No stream is listed twice.
pub open spec fn streams_distinct(streams: Seq<(String, Vec<roaring::RoaringBitmap>)>) -> bool {
    forall|i: int, j: int|
        0 <= i < j < streams.len() ==> (#[trigger] streams[i]).0@ != (#[trigger] streams[j]).0@
}

proof fn lemma_union_bits(fragments: Seq<roaring::RoaringBitmap>, offset: u32)
    ensures
        union_bits(fragments).contains(offset) <==> exists|f: int|
            0 <= f < fragments.len() && bitmap_bits(#[trigger] fragments[f]).contains(offset),
    decreases fragments.len(),
{
    if fragments.len() > 0 {
        let rest = fragments.drop_last();
        let n = fragments.len() - 1;
        lemma_union_bits(rest, offset);
        assert(fragments[n] == fragments.last());
        if union_bits(rest).contains(offset) {
            let f = choose|f: int|
                0 <= f < rest.len() && bitmap_bits(#[trigger] rest[f]).contains(offset);
            assert(bitmap_bits(fragments[f]).contains(offset));
        }
        if exists|f: int|
            0 <= f < fragments.len() && bitmap_bits(#[trigger] fragments[f]).contains(offset) {
            let f = choose|f: int|
                0 <= f < fragments.len() && bitmap_bits(#[trigger] fragments[f]).contains(offset);
            if f < n {
                assert(bitmap_bits(rest[f]).contains(offset));
            }
        }
    }
}

proof fn lemma_rebuilt_bit(
    streams: Seq<(String, Vec<roaring::RoaringBitmap>)>,
    n: int,
    page: u64,
    cutoff: u32,
    key: (Seq<char>, u64),
    offset: u32,
)
    requires
        0 <= n <= streams.len(),
        streams_distinct(streams),
    ensures
        ({
            let pages = rebuilt_pages(streams, n, page, cutoff);
            &&& pages.contains_key(key) && pages[key].contains(offset) <==> key.1 == page && offset
                < cutoff && has_fragment_bit(streams, n, key.0, offset)
            &&& pages.contains_key(key) ==> key.1 == page && pages[key] != Set::<u32>::empty()
            &&& pages.contains_key(key) ==> exists|i: int|
                0 <= i < n && (#[trigger] streams[i]).0@ == key.0
        }),
    decreases n,
{
    if n > 0 {
        let last = streams[n - 1];
        let before = rebuilt_pages(streams, n - 1, page, cutoff);
        let bits = clamped_bits(last.1@, cutoff);
        lemma_rebuilt_bit(streams, n - 1, page, cutoff, key, offset);
        lemma_union_bits(last.1@, offset);
        assert(bits.contains(offset) <==> union_bits(last.1@).contains(offset) && offset < cutoff);
        if has_fragment_bit(streams, n - 1, key.0, offset) {
            let (i, f) = choose|i: int, f: int|
                {
                    &&& 0 <= i < n - 1
                    &&& streams[i].0@ == key.0
                    &&& 0 <= f < streams[i].1@.len()
                    &&& bitmap_bits(#[trigger] streams[i].1@[f]).contains(offset)
                };
            assert(bitmap_bits(streams[i].1@[f]).contains(offset));
            assert(has_fragment_bit(streams, n, key.0, offset));
            if key.0 == last.0@ {
                assert(streams[i].0@ != streams[n - 1].0@);
            }
        }
        if has_fragment_bit(streams, n, key.0, offset) {
            let (i, f) = choose|i: int, f: int|
                {
                    &&& 0 <= i < n
                    &&& streams[i].0@ == key.0
                    &&& 0 <= f < streams[i].1@.len()
                    &&& bitmap_bits(#[trigger] streams[i].1@[f]).contains(offset)
                };
            assert(bitmap_bits(streams[i].1@[f]).contains(offset));
            if i < n - 1 {
                assert(has_fragment_bit(streams, n - 1, key.0, offset));
            }
        }
        if key == (last.0@, page) && before.contains_key(key) {
            let i = choose|i: int| 0 <= i < n - 1 && (#[trigger] streams[i]).0@ == key.0;
            assert(streams[i].0@ != streams[n - 1].0@);
        }
        if bits != Set::<u32>::empty() && key == (last.0@, page) {
            if bits.contains(offset) {
                let f = choose|f: int|
                    0 <= f < last.1@.len() && bitmap_bits(#[trigger] last.1@[f]).contains(offset);
                assert(bitmap_bits(streams[n - 1].1@[f]).contains(offset));
                assert(has_fragment_bit(streams, n, key.0, offset));
            }
            assert(streams[n - 1].0@ == key.0);
        }
        if bits == Set::<u32>::empty() {
            assert(!bits.contains(offset));
        }
    }
}

/// A rebuilt family holds exactly the ids below the cutoff that the fragments of
/// the open page have: a bit is set if and only if a fragment of its stream has
/// it and the id that it stands for lies below the cutoff.
pub proof fn law_rebuilt_bits_are_the_fragments_below_the_head(
    artifacts: FamilyArtifacts,
    bound: u64,
    state: FamilyState,
    key: (Seq<char>, u64),
    offset: u32,
)
    requires
        is_rebuilt(artifacts, bound, state),
        streams_distinct(artifacts.streams@),
    ensures
        state.bits().contains_key(key) && state.bits()[key].contains(offset) <==> {
            &&& key.1 == bound - bound % 65_536
            &&& key.1 + offset < bound
            &&& has_fragment_bit(
                artifacts.streams@,
                artifacts.streams@.len() as int,
                key.0,
                offset,
            )
        },
        state.bits().contains_key(key) ==> state.bits()[key] != Set::<u32>::empty(),
{
    let sealed_id = crate::write::bitmap::spec_seal_boundary(bound);
    let cutoff = (bound - sealed_id) as u32;
    if bound > sealed_id {
        lemma_rebuilt_bit(
            artifacts.streams@,
            artifacts.streams@.len() as int,
            sealed_id,
            cutoff,
            key,
            offset,
        );
    }
}

proof fn lemma_rebuilt_seen(
    streams: Seq<(String, Vec<roaring::RoaringBitmap>)>,
    n: int,
    stream: Seq<char>,
)
    requires
        0 <= n <= streams.len(),
    ensures
        rebuilt_seen(streams, n).contains(stream) <==> exists|i: int|
            0 <= i < n && (#[trigger] streams[i]).0@ == stream,
    decreases n,
{
    if n > 0 {
        lemma_rebuilt_seen(streams, n - 1, stream);
        if streams[n - 1].0@ == stream {
            assert(streams[n - 1].0@ == stream);
        }
    }
}

/// The rest of a rebuilt family: the boundary below the cutoff, the stored chain
/// of the last sealed span or the empty one before any, and as listed streams
/// exactly those that the inventory of the open page lists.
pub proof fn law_rebuilt_family_stands_at_the_head(
    artifacts: FamilyArtifacts,
    bound: u64,
    state: FamilyState,
    stream: Seq<char>,
)
    requires
        is_rebuilt(artifacts, bound, state),
    ensures
        state.sealed_id % 65_536 == 0,
        state.sealed_id <= bound < state.sealed_id + 65_536,
        state.sealed_id > 0 ==> artifacts.chain == Some(state.seal_chain),
        state.sealed_id == 0 ==> is_empty_digest(state.seal_chain),
        state.open_streams_seen.set().contains(stream) <==> bound % 65_536 != 0 && exists|i: int|
            0 <= i < artifacts.streams@.len() && (#[trigger] artifacts.streams@[i]).0@ == stream,
        bound % 65_536 == 0 ==> state.dir@.len() == 0,
{
    lemma_rebuilt_seen(artifacts.streams@, artifacts.streams@.len() as int, stream);
}

/// A rebuilt directory gives every id below the cutoff the block that its
/// fragment names, and no block an id at or above it.
pub proof fn law_rebuilt_directory_ends_at_the_head(
    fragments: Seq<(u64, u64, u64)>,
    bound: u64,
    block: u64,
    first: u64,
    id: u64,
)
    ensures
        (exists|i: int|
            {
                &&& 0 <= i < rebuilt_dir(fragments, bound).len()
                &&& (#[trigger] rebuilt_dir(fragments, bound)[i]).0 == block
                &&& rebuilt_dir(fragments, bound)[i].1 == first
                &&& first <= id < rebuilt_dir(fragments, bound)[i].2
            }) <==> id < bound && exists|j: int|
            {
                &&& 0 <= j < fragments.len()
                &&& (#[trigger] fragments[j]).0 == block
                &&& fragments[j].1 == first
                &&& first <= id < fragments[j].2
            },
    decreases fragments.len(),
{
    let dir = rebuilt_dir(fragments, bound);
    if fragments.len() > 0 {
        let rest = fragments.drop_last();
        let before = rebuilt_dir(rest, bound);
        let last = fragments.last();
        let n = fragments.len() - 1;
        law_rebuilt_directory_ends_at_the_head(rest, bound, block, first, id);
        assert(fragments[n] == last);
        if exists|j: int|
            {
                &&& 0 <= j < rest.len()
                &&& (#[trigger] rest[j]).0 == block
                &&& rest[j].1 == first
                &&& first <= id < rest[j].2
            } {
            let j = choose|j: int|
                {
                    &&& 0 <= j < rest.len()
                    &&& (#[trigger] rest[j]).0 == block
                    &&& rest[j].1 == first
                    &&& first <= id < rest[j].2
                };
            assert(fragments[j].0 == block);
        }
        if exists|i: int|
            {
                &&& 0 <= i < before.len()
                &&& (#[trigger] before[i]).0 == block
                &&& before[i].1 == first
                &&& first <= id < before[i].2
            } {
            let i = choose|i: int|
                {
                    &&& 0 <= i < before.len()
                    &&& (#[trigger] before[i]).0 == block
                    &&& before[i].1 == first
                    &&& first <= id < before[i].2
                };
            assert(dir[i] == before[i]);
        }
        if exists|i: int|
            {
                &&& 0 <= i < dir.len()
                &&& (#[trigger] dir[i]).0 == block
                &&& dir[i].1 == first
                &&& first <= id < dir[i].2
            } {
            let i = choose|i: int|
                {
                    &&& 0 <= i < dir.len()
                    &&& (#[trigger] dir[i]).0 == block
                    &&& dir[i].1 == first
                    &&& first <= id < dir[i].2
                };
            if i < before.len() {
                assert(before[i] == dir[i]);
            }
        }
        if id < bound && exists|j: int|
            {
                &&& 0 <= j < fragments.len()
                &&& (#[trigger] fragments[j]).0 == block
                &&& fragments[j].1 == first
                &&& first <= id < fragments[j].2
            } {
            let j = choose|j: int|
                {
                    &&& 0 <= j < fragments.len()
                    &&& (#[trigger] fragments[j]).0 == block
                    &&& fragments[j].1 == first
                    &&& first <= id < fragments[j].2
                };
            if j < n {
                assert(rest[j] == fragments[j]);
            } else {
                assert(last.1 < bound);
                assert(dir[before.len() as int].0 == block);
            }
        }
    }
}

/// A listed page of the group tells of a stream: its place and its count.
pub open spec fn lists_page(
    pages: Seq<SealedPageListing>,
    i: int,
    k: int,
    key: (Seq<char>, u64),
    pair: (u32, u32),
) -> bool {
    &&& 0 <= i < pages.len()
    &&& 0 <= k < pages[i].streams@.len()
    &&& pages[i].streams@[k].0@ == key.0
    &&& pages[i].page == key.1 + pair.0
    &&& key.1 % 16_777_216 == 0
    &&& pair.0 < 16_777_216
    &&& pages[i].streams@[k].1->Some_0 == pair.1
}

proof fn lemma_count_listing_pairs(
    counts: Map<(Seq<char>, u64), Seq<(u32, u32)>>,
    page: u64,
    streams: Seq<(String, Option<u32>)>,
    n: int,
    key: (Seq<char>, u64),
    pair: (u32, u32),
)
    requires
        0 <= n <= streams.len(),
    ensures
        has_pair(count_listing(counts, page, streams, n), key, pair) <==> has_pair(
            counts,
            key,
            pair,
        ) || (key.1 + pair.0 == page && key.1 % 16_777_216 == 0 && pair.0 < 16_777_216 && exists|
            k: int,
        |
            0 <= k < n && (#[trigger] streams[k]).0@ == key.0 && streams[k].1->Some_0 == pair.1),
    decreases n,
{
    if n > 0 {
        lemma_count_listing_pairs(counts, page, streams, n - 1, key, pair);
        lemma_add_count_pairs(
            count_listing(counts, page, streams, n - 1),
            streams[n - 1].0@,
            page,
            streams[n - 1].1->Some_0,
            key,
            pair,
        );
        if streams[n - 1].0@ == key.0 && streams[n - 1].1->Some_0 == pair.1 {
            assert(streams[n - 1].0@ == key.0);
        }
    }
}

/// The counts that a rebuild accumulates are those of the sealed pages that were
/// read back: each under its stream and group, by its place in the group.
pub proof fn law_rebuilt_counts_are_the_listed_pages(
    pages: Seq<SealedPageListing>,
    n: int,
    key: (Seq<char>, u64),
    pair: (u32, u32),
)
    requires
        0 <= n <= pages.len(),
    ensures
        has_pair(count_listings(pages, n), key, pair) <==> exists|i: int, k: int|
            i < n && #[trigger] lists_page(pages, i, k, key, pair),
    decreases n,
{
    if n > 0 {
        let last = pages[n - 1];
        law_rebuilt_counts_are_the_listed_pages(pages, n - 1, key, pair);
        lemma_count_listing_pairs(
            count_listings(pages, n - 1),
            last.page,
            last.streams@,
            last.streams@.len() as int,
            key,
            pair,
        );
        if key.1 + pair.0 == last.page && key.1 % 16_777_216 == 0 && pair.0 < 16_777_216 && exists|
            k: int,
        |
            0 <= k < last.streams@.len() && (#[trigger] last.streams@[k]).0@ == key.0
                && last.streams@[k].1->Some_0 == pair.1 {
            let k = choose|k: int|
                0 <= k < last.streams@.len() && (#[trigger] last.streams@[k]).0@ == key.0
                    && last.streams@[k].1->Some_0 == pair.1;
            assert(lists_page(pages, n - 1, k, key, pair));
        }
        if exists|i: int, k: int| i < n && #[trigger] lists_page(pages, i, k, key, pair) {
            let (i, k) = choose|i: int, k: int|
                i < n && #[trigger] lists_page(pages, i, k, key, pair);
            if i == n - 1 {
                assert(last.streams@[k].0@ == key.0);
            } else {
                assert(i < n - 1 && lists_page(pages, i, k, key, pair));
            }
        }
    }
}

/// A rebuilt directory has no empty entry and none that reaches past the cutoff,
/// where no fragment is empty.
pub proof fn law_rebuilt_directory_has_no_empty_entry(
    fragments: Seq<(u64, u64, u64)>,
    bound: u64,
    i: int,
)
    requires
        forall|j: int| 0 <= j < fragments.len() ==> (#[trigger] fragments[j]).1 < fragments[j].2,
        0 <= i < rebuilt_dir(fragments, bound).len(),
    ensures
        rebuilt_dir(fragments, bound)[i].1 < rebuilt_dir(fragments, bound)[i].2 <= bound,
    decreases fragments.len(),
{
    let rest = fragments.drop_last();
    let before = rebuilt_dir(rest, bound);
    assert(fragments.last() == fragments[fragments.len() - 1]);
    if i < before.len() {
        assert forall|j: int| 0 <= j < rest.len() implies (#[trigger] rest[j]).1 < rest[j].2 by {
            assert(fragments[j].1 < fragments[j].2);
        }
        law_rebuilt_directory_has_no_empty_entry(rest, bound, i);
        assert(rebuilt_dir(fragments, bound)[i] == before[i]);
    }
}

/// A store with a hole is refused, never rebuilt around: a sealed span whose
/// chain row is gone, a listed stream whose artifact is gone, and an id that
/// names no stream.
pub proof fn law_holes_are_refused(artifacts: FamilyArtifacts, bound: u64, i: int, k: int)
    ensures
        bound >= PAGE_SPAN && artifacts.chain is None ==> unrebuildable(artifacts, bound),
        0 <= i < artifacts.sealed_pages@.len() && 0 <= k < artifacts.sealed_pages@[i].streams@.len()
            && (artifacts.sealed_pages@[i].streams@[k].1 is None || !is_stream_id(
            artifacts.sealed_pages@[i].streams@[k].0@,
        )) ==> unrebuildable(artifacts, bound),
        bound % PAGE_SPAN != 0 && 0 <= i < artifacts.streams@.len() && !is_stream_id(
            artifacts.streams@[i].0@,
        ) ==> unrebuildable(artifacts, bound),
{
    if 0 <= i < artifacts.sealed_pages@.len() && 0 <= k < artifacts.sealed_pages@[i].streams@.len()
        && !stream_ok(artifacts.sealed_pages@[i].streams@[k]) {
        assert(!listing_ok(artifacts.sealed_pages@[i]));
    }
}

/// A store without a hole is rebuilt.
pub proof fn law_whole_stores_are_rebuilt(artifacts: FamilyArtifacts, bound: u64)
    requires
        bound >= PAGE_SPAN ==> artifacts.chain is Some,
        forall|i: int, k: int|
            0 <= i < artifacts.sealed_pages@.len() && 0 <= k
                < artifacts.sealed_pages@[i].streams@.len() ==> {
                &&& (#[trigger] artifacts.sealed_pages@[i].streams@[k]).1 is Some
                &&& is_stream_id(artifacts.sealed_pages@[i].streams@[k].0@)
            },
        forall|i: int|
            0 <= i < artifacts.streams@.len() ==> is_stream_id(
                (#[trigger] artifacts.streams@[i]).0@,
            ),
    ensures
        !unrebuildable(artifacts, bound),
{
    assert forall|i: int| 0 <= i < artifacts.sealed_pages@.len() implies listing_ok(
        #[trigger] artifacts.sealed_pages@[i],
    ) by {
        assert forall|k: int| 0 <= k < artifacts.sealed_pages@[i].streams@.len() implies stream_ok(
            #[trigger] artifacts.sealed_pages@[i].streams@[k],
        ) by {}
    }
}

/// The error of a refused rebuild is true: a missing artifact that it names is
/// listed and missing, and where every listed id names a stream and the chain
/// row is there, a missing artifact is what it names.
pub proof fn law_refusal_names_the_hole(
    artifacts: FamilyArtifacts,
    bound: u64,
    error: QueryError,
    stream: Seq<char>,
    page: u64,
)
    requires
        is_rebuild_fault(artifacts, bound, error),
    ensures
        bound >= PAGE_SPAN && artifacts.chain is None ==> error is Backend,
        (error matches QueryError::SealedPageMissingArtifact { stream_id, page_start } && stream_id@
            == stream && page_start == page) ==> exists|i: int, k: int|
            {
                &&& 0 <= i < artifacts.sealed_pages@.len()
                &&& 0 <= k < artifacts.sealed_pages@[i].streams@.len()
                &&& artifacts.sealed_pages@[i].page == page
                &&& (#[trigger] artifacts.sealed_pages@[i].streams@[k]).0@ == stream
                &&& artifacts.sealed_pages@[i].streams@[k].1 is None
            },
        (bound >= PAGE_SPAN ==> artifacts.chain is Some) && lacks_artifact(artifacts)
            && lists_streams(artifacts) ==> error is SealedPageMissingArtifact,
{
    if lacks_artifact(artifacts) {
        let (i, k) = choose|i: int, k: int|
            {
                &&& 0 <= i < artifacts.sealed_pages@.len()
                &&& 0 <= k < artifacts.sealed_pages@[i].streams@.len()
                &&& (#[trigger] artifacts.sealed_pages@[i].streams@[k]).1 is None
            };
        assert(!stream_ok(artifacts.sealed_pages@[i].streams@[k]));
        assert(!listing_ok(artifacts.sealed_pages@[i]));
    }
}

/// Some listed stream has no artifact.
pub open spec fn lacks_artifact(artifacts: FamilyArtifacts) -> bool {
    exists|i: int, k: int|
        {
            &&& 0 <= i < artifacts.sealed_pages@.len()
            &&& 0 <= k < artifacts.sealed_pages@[i].streams@.len()
            &&& (#[trigger] artifacts.sealed_pages@[i].streams@[k]).1 is None
        }
}

/// Every listed id names a stream.
pub open spec fn lists_streams(artifacts: FamilyArtifacts) -> bool {
    forall|i: int, k: int|
        0 <= i < artifacts.sealed_pages@.len() && 0 <= k
            < artifacts.sealed_pages@[i].streams@.len() ==> is_stream_id(
            (#[trigger] artifacts.sealed_pages@[i].streams@[k]).0@,
        )
}

} // verus!
