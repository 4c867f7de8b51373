//! Recovery: restore a checkpoint, or rebuild the open state from durable
//! artifacts at the published head.
//!
//! The published head is an index flush boundary, so at it the fragments cover
//! every open bit and directory entry, and the rebuilt tail is empty.

use std::collections::VecDeque;

use vstd::prelude::*;

use crate::errors::{QueryError, Result};
use crate::store::blob::BlobStore;
use crate::store::meta::MetaStore;
use crate::text::{decimal, put_decimal};
use crate::write::bitmap::{
    bitmap_bits, bitmap_is_empty, bitmap_new, bitmap_truncate, bitmap_union, last_sealed_span,
    page_group_start, seal_boundary, spec_page_group_start, spec_seal_boundary, PAGE_SPAN,
};
use crate::write::family::FamilyFrontier;
use crate::write::index::{
    empty_digest, is_empty_digest, ChainDigest, FamilyState, FamilyTail, OpenState, OpenTail,
    SealedPageCounts,
};
use crate::write::pages::{page_bits, PageMap};
use crate::write::seal::{add_count, count_pairs, push_count};
use crate::write::snapshot::{
    check_leftover, is_covered, is_load_fault, is_row_fault, is_stored,
    law_served_payload_is_unique, leftover_text, manifest_in, spares, strict_manifest,
    SnapshotManifest, SnapshotStore,
};
use crate::write::snapshot_codec::{
    decode_snapshot, encode_snapshot, is_restored, parse_snapshot, snapshot_bytes, snapshot_content,
    snapshot_fits, SnapshotContent,
};
use crate::write::streams::{is_stream_id, StreamKey, StreamMap, StreamSet};

verus! {

impl<M: MetaStore, B: BlobStore> SnapshotStore<M, B> {
    /// Persists the full open working set plus the resume block and frontier.
    pub fn persist_snapshot(
        &mut self,
        state: &OpenState,
        tail: &OpenTail,
        block: u64,
        frontier: FamilyFrontier,
    ) -> (result: Result<()>)
        requires
            old(self).wf(),
        ensures
            final(self).wf(),
            old(self).answers() ==> result is Ok && final(self).answers(),
            old(self).answers() && old(self).keeps_two() ==> final(self).keeps_two(),
            final(self).payloads_enabled == old(self).payloads_enabled,
            result is Err && old(self).meta.answers() ==> forall|served: Seq<u8>| #[trigger]
                old(self).serves(served) ==> final(self).serves(served),
            result is Ok ==> is_stored(
                *old(self),
                *final(self),
                block,
                snapshot_bytes(*state, *tail, block, frontier),
            ),
            result is Ok && snapshot_fits(*state, *tail) ==> parse_snapshot(
                snapshot_bytes(*state, *tail, block, frontier),
            ) == Ok::<_, QueryError>(snapshot_content(*state, *tail, block, frontier)),
    {
        let payload = encode_snapshot(state, tail, block, frontier);
        self.store(block, payload)
    }

    /// Seeds a fresh store with an empty working set at `begin - 1`, so the
    /// next run resumes at `begin`.
    pub fn seed_snapshot_at(&mut self, begin: u64) -> (result: Result<()>)
        requires
            old(self).wf(),
            begin >= 1,
        ensures
            final(self).wf(),
            old(self).answers() ==> result is Ok && final(self).answers(),
            old(self).answers() && old(self).keeps_two() ==> final(self).keeps_two(),
            final(self).payloads_enabled == old(self).payloads_enabled,
            result is Err && old(self).meta.answers() ==> forall|served: Seq<u8>| #[trigger]
                old(self).serves(served) ==> final(self).serves(served),
            result is Ok ==> exists|state: OpenState, tail: OpenTail|
                {
                    &&& state.log.is_new() && state.tx.is_new() && state.trace.is_new()
                    &&& tail.log.is_new() && tail.tx.is_new() && tail.trace.is_new()
                    &&& #[trigger] is_stored(
                        *old(self),
                        *final(self),
                        (begin - 1) as u64,
                        snapshot_bytes(
                            state,
                            tail,
                            (begin - 1) as u64,
                            FamilyFrontier { log: 0, tx: 0, trace: 0 },
                        ),
                    )
                },
    {
        let state = OpenState {
            log: FamilyState::new(),
            tx: FamilyState::new(),
            trace: FamilyState::new(),
        };
        let tail = OpenTail {
            log: FamilyTail::new(),
            tx: FamilyTail::new(),
            trace: FamilyTail::new(),
        };
        self.persist_snapshot(&state, &tail, begin - 1, FamilyFrontier { log: 0, tx: 0, trace: 0 })
    }

    /// Restores the open working set from the latest checkpoint, or `None`
    /// when there is none to restore. A payload that the codec cannot read is
    /// an error.
    ///
    /// A store without payloads ignores a leftover manifest when `head` covers
    /// its generation, and fails otherwise.
    pub fn recover_checkpoint(&mut self, head: u64) -> (result: Result<
        Option<(OpenState, OpenTail, FamilyFrontier, u64)>,
    >)
        requires
            old(self).wf(),
        ensures
            final(self).wf(),
            final(self).meta == old(self).meta,
            final(self).payloads_enabled == old(self).payloads_enabled,
            forall|t: Seq<char>, k: Seq<u8>| #[trigger]
                final(self).blobs.blob(t, k) == old(self).blobs.blob(t, k),
            match result {
                Ok(Some((state, tail, frontier, block))) => {
                    &&& old(self).payloads_enabled
                    &&& exists|payload: Seq<u8>|
                        #[trigger] old(self).serves(payload) && parse_snapshot(payload) == Ok::<
                            _,
                            QueryError,
                        >(snapshot_content(state, tail, block, frontier))
                    &&& is_restored(state)
                    &&& tail.log.pages.wf()
                    &&& tail.tx.pages.wf()
                    &&& tail.trace.pages.wf()
                },
                Ok(None) => if old(self).payloads_enabled {
                    old(self).row() is None
                } else {
                    old(self).row() is None || exists|
                        manifest: SnapshotManifest,
                    |
                        #[trigger] manifest_in(
                            old(self).row(),
                            Some(manifest),
                        ) && manifest.generation <= head
                },
                Err(error) => if old(self).payloads_enabled {
                    old(self).load_answers() ==> {
                        ||| is_load_fault(*old(self), error)
                        ||| exists|payload: Seq<u8>|
                            #[trigger] old(self).serves(payload) && parse_snapshot(payload) == Err::<
                                SnapshotContent,
                                QueryError,
                            >(error)
                    }
                } else {
                    old(self).meta.answers() ==> {
                        ||| is_row_fault(old(self).row(), error)
                        ||| exists|manifest: SnapshotManifest|
                            {
                                &&& #[trigger] manifest_in(old(self).row(), Some(manifest))
                                &&& manifest.generation > head
                                &&& error is Backend
                                &&& error.spec_detail() == leftover_text(manifest.generation, head)
                            }
                    }
                },
            },
    {
        if !self.payloads_enabled {
            let row = match self.read_row() {
                Ok(row) => row,
                Err(error) => {
                    return Err(error);
                },
            };
            let manifest = match strict_manifest(row) {
                Ok(manifest) => manifest,
                Err(error) => {
                    return Err(error);
                },
            };
            return match check_leftover(manifest, head) {
                Ok(_) => Ok(None),
                Err(error) => Err(error),
            };
        }
        let payload = match self.load() {
            Ok(Some(payload)) => payload,
            Ok(None) => {
                return Ok(None);
            },
            Err(error) => {
                return Err(error);
            },
        };
        assert(old(self).serves(payload@));
        match decode_snapshot(&payload) {
            Ok(restored) => Ok(Some(restored)),
            Err(error) => Err(error),
        }
    }
}

/// A checkpoint comes back: what recovery restores after a snapshot was stored
/// is the working set, the block and the frontier that were stored.
pub proof fn law_checkpoint_comes_back<M: MetaStore, B: BlobStore>(
    before: SnapshotStore<M, B>,
    after: SnapshotStore<M, B>,
    block: u64,
    stored: Seq<u8>,
    content: SnapshotContent,
    payload: Seq<u8>,
    restored: SnapshotContent,
)
    requires
        is_stored(before, after, block, stored),
        parse_snapshot(stored) == Ok::<_, QueryError>(content),
        forall|previous: Option<SnapshotManifest>| #[trigger]
            manifest_in(before.row(), previous) ==> !is_covered(previous, block) && spares(
                previous,
                block,
            ),
        after.serves(payload),
        parse_snapshot(payload) == Ok::<_, QueryError>(restored),
    ensures
        restored == content,
{
    law_served_payload_is_unique(after, payload, stored);
}

/// Where a run starts from.
#[derive(Debug, Clone, Copy, PartialEq, Eq, Structural)]
pub enum RecoverPlan {
    /// A fresh store: no checkpoint, nothing published.
    Cold,
    /// Restore the checkpoint.
    Restore,
    /// Rebuild from fragments at the head.
    Rebuild,
}

/// The checkpoint block and the published head decide recovery: the checkpoint
/// is restored when it is at or ahead of the head, else the open state is
/// rebuilt from fragments at the head.
pub fn plan_recovery(checkpoint: Option<u64>, head: u64) -> (plan: RecoverPlan)
    ensures
        plan == spec_plan_recovery(checkpoint, head),
{
    match checkpoint {
        None => if head == 0 {
            RecoverPlan::Cold
        } else {
            RecoverPlan::Rebuild
        },
        Some(block) => if block >= head {
            RecoverPlan::Restore
        } else {
            RecoverPlan::Rebuild
        },
    }
}

pub open spec fn spec_plan_recovery(checkpoint: Option<u64>, head: u64) -> RecoverPlan {
    match checkpoint {
        None => if head == 0 {
            RecoverPlan::Cold
        } else {
            RecoverPlan::Rebuild
        },
        Some(block) => if block >= head {
            RecoverPlan::Restore
        } else {
            RecoverPlan::Rebuild
        },
    }
}

/// The block a plan resumes from.
pub open spec fn resume_block(plan: RecoverPlan, checkpoint: Option<u64>, head: u64) -> Option<u64> {
    match plan {
        RecoverPlan::Cold => None,
        RecoverPlan::Restore => checkpoint,
        RecoverPlan::Rebuild => Some(head),
    }
}

/// Recovery resumes from the later of checkpoint and published head, so the
/// head never lies above the resume block.
pub proof fn law_resume_is_the_later(checkpoint: Option<u64>, head: u64)
    ensures
        match resume_block(spec_plan_recovery(checkpoint, head), checkpoint, head) {
            None => checkpoint is None && head == 0,
            Some(resume) => {
                &&& resume >= head
                &&& checkpoint matches Some(block) ==> resume >= block
                &&& resume == head || checkpoint == Some(resume)
            },
        },
{
}

/// The span whose stored chain value a rebuild at `bound` continues.
pub fn rebuild_chain_span(bound: u64) -> (span: Option<u64>)
    ensures
        span == if spec_seal_boundary(bound) == 0 {
            None
        } else {
            Some((spec_seal_boundary(bound) - PAGE_SPAN) as u64)
        },
{
    last_sealed_span(seal_boundary(bound))
}

/// The union of some bitmaps.
pub open spec fn union_bits(fragments: Seq<roaring::RoaringBitmap>) -> Set<u32>
    decreases fragments.len(),
{
    if fragments.len() == 0 {
        Set::empty()
    } else {
        union_bits(fragments.drop_last()).union(bitmap_bits(fragments.last()))
    }
}

/// The bits of a stream's fragments that lie below the head.
pub open spec fn clamped_bits(fragments: Seq<roaring::RoaringBitmap>, cutoff: u32) -> Set<u32> {
    union_bits(fragments).filter(|o: u32| o < cutoff)
}

/// Open pages after the first `n` streams were rebuilt: a page per stream that
/// has bits below the head.
pub open spec fn rebuilt_pages(
    streams: Seq<(String, Vec<roaring::RoaringBitmap>)>,
    n: int,
    page: u64,
    cutoff: u32,
) -> Map<(Seq<char>, u64), Set<u32>>
    decreases n,
{
    if n <= 0 {
        Map::empty()
    } else {
        let before = rebuilt_pages(streams, n - 1, page, cutoff);
        let bits = clamped_bits(streams[n - 1].1@, cutoff);
        if bits == Set::<u32>::empty() {
            before
        } else {
            before.insert((streams[n - 1].0@, page), bits)
        }
    }
}

/// The streams among the first `n`.
pub open spec fn rebuilt_seen(
    streams: Seq<(String, Vec<roaring::RoaringBitmap>)>,
    n: int,
) -> Set<Seq<char>>
    decreases n,
{
    if n <= 0 {
        Set::empty()
    } else {
        rebuilt_seen(streams, n - 1).insert(streams[n - 1].0@)
    }
}

/// Every listed stream has a valid id.
pub open spec fn ids_valid(streams: Seq<(String, Vec<roaring::RoaringBitmap>)>) -> bool {
    forall|i: int| 0 <= i < streams.len() ==> is_stream_id((#[trigger] streams[i]).0@)
}

fn clamp_union(fragments: &Vec<roaring::RoaringBitmap>, cutoff: u32) -> (bitmap:
    roaring::RoaringBitmap)
    ensures
        bitmap_bits(bitmap) == clamped_bits(fragments@, cutoff),
{
    let mut bitmap = bitmap_new();
    let mut i: usize = 0;
    assert(fragments@.take(0) =~= Seq::empty());
    while i < fragments.len()
        invariant
            i <= fragments@.len(),
            bitmap_bits(bitmap) == union_bits(fragments@.take(i as int)),
        decreases fragments@.len() - i,
    {
        bitmap_union(&mut bitmap, &fragments[i]);
        assert(fragments@.take(i + 1).drop_last() =~= fragments@.take(i as int));
        i = i + 1;
    }
    assert(fragments@.take(i as int) =~= fragments@);
    bitmap_truncate(&mut bitmap, cutoff);
    bitmap
}

/// Rebuilds the open page of every inventoried stream from its fragments,
/// clamped to the head. A stream is recorded as seen even when it has no bits
/// below the head, so the first flush after recovery does not list it again.
pub fn rebuild_pages(
    streams: &Vec<(String, Vec<roaring::RoaringBitmap>)>,
    page: u64,
    cutoff: u32,
) -> (result: Result<(PageMap, StreamSet)>)
    ensures
        match result {
            Ok((pages, seen)) => {
                &&& ids_valid(streams@)
                &&& pages.wf()
                &&& page_bits(pages.map()) == rebuilt_pages(
                    streams@,
                    streams@.len() as int,
                    page,
                    cutoff,
                )
                &&& seen.set() == rebuilt_seen(streams@, streams@.len() as int)
            },
            Err(error) => !ids_valid(streams@) && error == QueryError::Decode("invalid stream id"),
        },
{
    let mut pages: PageMap = StreamMap::new();
    let mut seen = StreamSet::new();
    let mut i: usize = 0;
    assert(page_bits(pages.map()) =~= Map::empty());
    while i < streams.len()
        invariant
            i <= streams@.len(),
            pages.wf(),
            page_bits(pages.map()) == rebuilt_pages(streams@, i as int, page, cutoff),
            seen.set() == rebuilt_seen(streams@, i as int),
            forall|k: int| 0 <= k < i ==> is_stream_id((#[trigger] streams@[k]).0@),
        decreases streams@.len() - i,
    {
        let (id, fragments) = &streams[i];
        let bitmap = clamp_union(fragments, cutoff);
        let stream = match StreamKey::parse(id.as_str()) {
            Ok(stream) => stream,
            Err(error) => {
                assert(!is_stream_id(streams@[i as int].0@));
                return Err(error);
            },
        };
        let _ = seen.insert(&stream);
        if !bitmap_is_empty(&bitmap) {
            let ghost before = pages.map();
            let ghost key = (stream@, page);
            let ghost bits = bitmap_bits(bitmap);
            pages.insert(stream, page, bitmap);
            assert(page_bits(pages.map()) =~= page_bits(before).insert(key, bits));
        }
        i = i + 1;
    }
    Ok((pages, seen))
}

/// Directory entries below the head, the last one clamped to it.
pub open spec fn rebuilt_dir(fragments: Seq<(u64, u64, u64)>, bound: u64) -> Seq<(u64, u64, u64)>
    decreases fragments.len(),
{
    if fragments.len() == 0 {
        Seq::empty()
    } else {
        let before = rebuilt_dir(fragments.drop_last(), bound);
        let (block, first, end) = fragments.last();
        if first >= bound {
            before
        } else {
            before.push((block, first, if end < bound { end } else { bound }))
        }
    }
}

/// Rebuilds the open directory bucket: entries of blocks past the head are
/// dropped, a straddler's end is clamped to the frontier.
pub fn rebuild_dir(fragments: &Vec<(u64, u64, u64)>, bound: u64) -> (dir: VecDeque<
    (u64, u64, u64),
>)
    ensures
        dir@ == rebuilt_dir(fragments@, bound),
{
    let mut dir: VecDeque<(u64, u64, u64)> = VecDeque::new();
    let mut i: usize = 0;
    assert(fragments@.take(0) =~= Seq::empty());
    while i < fragments.len()
        invariant
            i <= fragments@.len(),
            dir@ == rebuilt_dir(fragments@.take(i as int), bound),
        decreases fragments@.len() - i,
    {
        let (block, first, end) = fragments[i];
        assert(fragments@.take(i + 1).drop_last() =~= fragments@.take(i as int));
        if first < bound {
            let clamped: u64 = if end < bound {
                end
            } else {
                bound
            };
            dir.push_back((block, first, clamped));
        }
        i = i + 1;
    }
    assert(fragments@.take(i as int) =~= fragments@);
    dir
}

/// One sealed page of the open group as read back: its start, and each
/// inventoried stream with the count of its artifact, if that exists.
pub struct SealedPageListing {
    pub page: u64,
    pub streams: Vec<(String, Option<u32>)>,
}

/// The accumulator after the first `n` streams of a page.
pub open spec fn count_listing(
    counts: Map<(Seq<char>, u64), Seq<(u32, u32)>>,
    page: u64,
    streams: Seq<(String, Option<u32>)>,
    n: int,
) -> Map<(Seq<char>, u64), Seq<(u32, u32)>>
    decreases n,
{
    if n <= 0 {
        counts
    } else {
        add_count(
            count_listing(counts, page, streams, n - 1),
            streams[n - 1].0@,
            page,
            streams[n - 1].1->Some_0,
        )
    }
}

/// The accumulator after the first `n` pages.
pub open spec fn count_listings(pages: Seq<SealedPageListing>, n: int) -> Map<
    (Seq<char>, u64),
    Seq<(u32, u32)>,
>
    decreases n,
{
    if n <= 0 {
        Map::empty()
    } else {
        count_listing(
            count_listings(pages, n - 1),
            pages[n - 1].page,
            pages[n - 1].streams@,
            pages[n - 1].streams@.len() as int,
        )
    }
}

/// An inventoried stream has its artifact and a valid id.
pub open spec fn stream_ok(stream: (String, Option<u32>)) -> bool {
    stream.1 is Some && is_stream_id(stream.0@)
}

/// Every stream of a page is in order.
pub open spec fn listing_ok(listing: SealedPageListing) -> bool {
    forall|k: int| 0 <= k < listing.streams@.len() ==> stream_ok(#[trigger] listing.streams@[k])
}

/// What a stream that is not in order fails with.
pub open spec fn stream_fault(page: u64, stream: (String, Option<u32>), error: QueryError) -> bool {
    if stream.1 is None {
        error matches QueryError::SealedPageMissingArtifact { stream_id, page_start } && stream_id@
            == stream.0@ && page_start == page
    } else {
        error == QueryError::Decode("invalid stream id")
    }
}

/// Re-derives the open group's sealed-page counts from durable artifacts, so
/// that the manifest emitted at group completion is what an uninterrupted run
/// would write. An inventoried stream without its artifact is an error.
pub fn rebuild_sealed_page_counts(pages: &Vec<SealedPageListing>) -> (result: Result<
    SealedPageCounts,
>)
    ensures
        match result {
            Ok(counts) => {
                &&& listings_ok(pages@)
                &&& counts.wf()
                &&& count_pairs(counts.map()) == count_listings(pages@, pages@.len() as int)
            },
            Err(error) => is_listing_fault(pages@, error),
        },
{
    let mut counts: SealedPageCounts = StreamMap::new();
    let mut i: usize = 0;
    assert(count_pairs(counts.map()) =~= Map::empty());
    while i < pages.len()
        invariant
            i <= pages@.len(),
            counts.wf(),
            count_pairs(counts.map()) == count_listings(pages@, i as int),
            forall|j: int| 0 <= j < i ==> listing_ok(#[trigger] pages@[j]),
        decreases pages@.len() - i,
    {
        let page: u64 = pages[i].page;
        let streams = &pages[i].streams;
        let ghost base = count_pairs(counts.map());
        let mut k: usize = 0;
        while k < streams.len()
            invariant
                i < pages@.len(),
                page == pages@[i as int].page,
                *streams == pages@[i as int].streams,
                k <= streams@.len(),
                counts.wf(),
                count_pairs(counts.map()) == count_listing(base, page, streams@, k as int),
                forall|j: int| 0 <= j < k ==> stream_ok(#[trigger] streams@[j]),
            decreases streams@.len() - k,
        {
            let (id, count) = &streams[k];
            assert(pages@[i as int].streams@[k as int] == streams@[k as int]);
            let count: u32 = match count {
                Some(count) => *count,
                None => {
                    let stream_id = id.as_str().to_owned();
                    return Err(
                        QueryError::SealedPageMissingArtifact { stream_id, page_start: page },
                    );
                },
            };
            let stream = match StreamKey::parse(id.as_str()) {
                Ok(stream) => stream,
                Err(error) => {
                    return Err(error);
                },
            };
            push_count(&mut counts, &stream, page, count);
            k = k + 1;
        }
        assert(listing_ok(pages@[i as int]));
        i = i + 1;
    }
    Ok(counts)
}

/// The pages of the open group that are sealed already at the exclusive id
/// cutoff `bound`: those whose streams a rebuild reads back.
pub fn open_group_pages(bound: u64) -> (pages: Vec<u64>)
    ensures
        forall|i: int, j: int| 0 <= i < j < pages@.len() ==> pages@[i] < pages@[j],
        forall|page: u64| #[trigger]
            pages@.contains(page) <==> page % PAGE_SPAN == 0 && spec_page_group_start(
                spec_seal_boundary(bound),
            ) <= page < spec_seal_boundary(bound),
{
    let sealed_id: u64 = seal_boundary(bound);
    let first: u64 = page_group_start(sealed_id);
    let mut pages: Vec<u64> = Vec::new();
    let mut page: u64 = first;
    while page < sealed_id
        invariant
            sealed_id % PAGE_SPAN == 0,
            first % PAGE_SPAN == 0,
            page % PAGE_SPAN == 0,
            first <= page <= sealed_id,
            forall|i: int| 0 <= i < pages@.len() ==> #[trigger] pages@[i] < page,
            forall|i: int, j: int| 0 <= i < j < pages@.len() ==> pages@[i] < pages@[j],
            forall|p: u64| #[trigger]
                pages@.contains(p) <==> p % PAGE_SPAN == 0 && first <= p < page,
        decreases sealed_id - page,
    {
        let ghost before = pages@;
        pages.push(page);
        proof {
            assert forall|p: u64| #[trigger] pages@.contains(p) <==> p % PAGE_SPAN == 0 && first
                <= p < page + PAGE_SPAN by {
                assert(pages@[before.len() as int] == page);
                if before.contains(p) {
                    let i = choose|i: int| 0 <= i < before.len() && before[i] == p;
                    assert(pages@[i] == p);
                }
                if pages@.contains(p) && p != page {
                    let i = choose|i: int| 0 <= i < pages@.len() && pages@[i] == p;
                    assert(before[i] == p);
                }
            }
        }
        page = page + PAGE_SPAN;
    }
    pages
}

/// The page that is open at the exclusive id cutoff `bound`, whose fragments a
/// rebuild reads back; none where it holds nothing yet.
pub fn open_page(bound: u64) -> (page: Option<u64>)
    ensures
        page == if bound > spec_seal_boundary(bound) {
            Some(spec_seal_boundary(bound))
        } else {
            None
        },
{
    let sealed_id: u64 = seal_boundary(bound);
    if bound > sealed_id {
        Some(sealed_id)
    } else {
        None
    }
}

/// What was read back of one family: the chain value of the last sealed span,
/// the sealed pages of the open group, the open page's streams with their
/// fragments, and the open bucket's fragments.
pub struct FamilyArtifacts {
    pub chain: Option<ChainDigest>,
    pub sealed_pages: Vec<SealedPageListing>,
    pub streams: Vec<(String, Vec<roaring::RoaringBitmap>)>,
    pub dir: Vec<(u64, u64, u64)>,
}

/// What rebuilding one family gives.
pub open spec fn is_rebuilt(artifacts: FamilyArtifacts, bound: u64, state: FamilyState) -> bool {
    let sealed_id = spec_seal_boundary(bound);
    let cutoff = (bound - sealed_id) as u32;
    &&& state.sealed_id == sealed_id
    &&& if sealed_id == 0 {
        is_empty_digest(state.seal_chain)
    } else {
        artifacts.chain == Some(state.seal_chain)
    }
    &&& state.sealed_page_counts.wf()
    &&& count_pairs(state.sealed_page_counts.map()) == count_listings(
        artifacts.sealed_pages@,
        artifacts.sealed_pages@.len() as int,
    )
    &&& state.pages.wf()
    &&& if bound > sealed_id {
        &&& state.bits() == rebuilt_pages(
            artifacts.streams@,
            artifacts.streams@.len() as int,
            sealed_id,
            cutoff,
        )
        &&& state.open_streams_seen.set() == rebuilt_seen(
            artifacts.streams@,
            artifacts.streams@.len() as int,
        )
        &&& state.dir@ == rebuilt_dir(artifacts.dir@, bound)
    } else {
        &&& state.bits() == Map::<(Seq<char>, u64), Set<u32>>::empty()
        &&& state.open_streams_seen.set() == Set::<Seq<char>>::empty()
        &&& state.dir@.len() == 0
    }
}

/// The sealed span has no chain row.
pub open spec fn chain_missing(artifacts: FamilyArtifacts, bound: u64) -> bool {
    spec_seal_boundary(bound) > 0 && artifacts.chain is None
}

/// Every sealed page's streams are in order.
pub open spec fn listings_ok(pages: Seq<SealedPageListing>) -> bool {
    forall|i: int| 0 <= i < pages.len() ==> listing_ok(#[trigger] pages[i])
}

/// The error comes from some stream of some sealed page.
pub open spec fn is_listing_fault(pages: Seq<SealedPageListing>, error: QueryError) -> bool {
    exists|i: int, k: int|
        {
            &&& 0 <= i < pages.len()
            &&& 0 <= k < pages[i].streams@.len()
            &&& !stream_ok(#[trigger] pages[i].streams@[k])
            &&& stream_fault(pages[i].page, pages[i].streams@[k], error)
        }
}

/// A family cannot be rebuilt: a sealed span without its chain row, a sealed
/// page's stream without its artifact, or an id that is none.
pub open spec fn unrebuildable(artifacts: FamilyArtifacts, bound: u64) -> bool {
    ||| chain_missing(artifacts, bound)
    ||| !listings_ok(artifacts.sealed_pages@)
    ||| bound > spec_seal_boundary(bound) && !ids_valid(artifacts.streams@)
}

/// What a rebuild fails with: a missing chain row before a fault of a sealed
/// page, and that before an open stream's id that is none.
pub open spec fn is_rebuild_fault(
    artifacts: FamilyArtifacts,
    bound: u64,
    error: QueryError,
) -> bool {
    if chain_missing(artifacts, bound) {
        error is Backend && error.spec_detail() == "seal-chain row missing for sealed span "@
            + decimal((spec_seal_boundary(bound) - PAGE_SPAN) as nat)
            + "; the store is corrupt"@
    } else if !listings_ok(artifacts.sealed_pages@) {
        is_listing_fault(artifacts.sealed_pages@, error)
    } else {
        error == QueryError::Decode("invalid stream id")
    }
}

/// Rebuilds one family's state at the exclusive id cutoff `bound`, the
/// family's frontier at the published head. Nothing at or above the cutoff is
/// kept; the open granule is computed as sealing computes it.
pub fn rebuild_family(artifacts: &FamilyArtifacts, bound: u64) -> (result: Result<FamilyState>)
    ensures
        match result {
            Ok(state) => !unrebuildable(*artifacts, bound) && is_rebuilt(*artifacts, bound, state),
            Err(error) => unrebuildable(*artifacts, bound) && is_rebuild_fault(
                *artifacts,
                bound,
                error,
            ),
        },
{
    let sealed_id: u64 = seal_boundary(bound);
    let seal_chain: ChainDigest = match rebuild_chain_span(bound) {
        Some(span) => match artifacts.chain {
            Some(chain) => chain,
            None => {
                return Err(missing_chain(span));
            },
        },
        None => empty_digest(),
    };
    let sealed_page_counts = match rebuild_sealed_page_counts(&artifacts.sealed_pages) {
        Ok(counts) => counts,
        Err(error) => {
            proof {
                let sealed = artifacts.sealed_pages@;
                let (i, k) = choose|i: int, k: int|
                    {
                        &&& 0 <= i < sealed.len()
                        &&& 0 <= k < sealed[i].streams@.len()
                        &&& !stream_ok(#[trigger] sealed[i].streams@[k])
                        &&& stream_fault(sealed[i].page, sealed[i].streams@[k], error)
                    };
                assert(!listing_ok(sealed[i]));
            }
            return Err(error);
        },
    };
    let mut pages: PageMap = StreamMap::new();
    let mut open_streams_seen = StreamSet::new();
    let mut dir: VecDeque<(u64, u64, u64)> = VecDeque::new();
    assert(page_bits(pages.map()) =~= Map::empty());
    if bound > sealed_id {
        let cutoff: u32 = (bound - sealed_id) as u32;
        match rebuild_pages(&artifacts.streams, sealed_id, cutoff) {
            Ok((rebuilt, seen)) => {
                pages = rebuilt;
                open_streams_seen = seen;
            },
            Err(error) => {
                return Err(error);
            },
        }
        dir = rebuild_dir(&artifacts.dir, bound);
    }
    Ok(FamilyState { pages, dir, sealed_id, open_streams_seen, seal_chain, sealed_page_counts })
}

/// The error of a sealed span without its chain row.
fn missing_chain(span: u64) -> (error: QueryError)
    ensures
        error is Backend,
        error.spec_detail() == "seal-chain row missing for sealed span "@ + decimal(
            span as nat,
        ) + "; the store is corrupt"@,
{
    let mut text = "seal-chain row missing for sealed span ".to_owned();
    put_decimal(&mut text, span);
    vstd::string::StringExecFns::append(&mut text, "; the store is corrupt");
    QueryError::Backend(text)
}

} // verus!
