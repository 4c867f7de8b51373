//! The open working set of the index: ids accumulate in the tail, and carry
//! over into the state until their page and bucket seal.

use std::collections::VecDeque;

use vstd::prelude::*;

use crate::errors::{QueryError, Result};
use crate::primitives::Hash32;
use crate::write::bitmap::{
    in_page, page_offset, page_start, spec_page_offset, spec_page_start, PAGE_SPAN,
};
use crate::write::entries::{record_ids, stream_ids};
use crate::write::family::PerFamily;
use crate::write::pages::{bits_at, page_bits, pages_wf, set_bit, with_bits, PageMap};
use crate::write::streams::{StreamKey, StreamMap, StreamSet};

verus! {

/// Running digest of a chain of artifacts.
pub type ChainDigest = Hash32;

/// The chain before the first artifact.
pub open spec fn is_empty_digest(digest: ChainDigest) -> bool {
    digest@ == Seq::new(32, |i: int| 0u8)
}

pub fn empty_digest() -> (digest: ChainDigest)
    ensures
        is_empty_digest(digest),
{
    let digest: ChainDigest = [0u8; 32];
    assert(digest@ =~= Seq::new(32, |i: int| 0u8));
    digest
}

/// Current-batch delta (since the last flush).
pub struct FamilyTail {
    pub pages: PageMap,
    /// `(block, first_id, end_id exclusive)`.
    pub dir: Vec<(u64, u64, u64)>,
}

/// Sealed-page-count accumulator: `(stream, group start)` to ascending
/// `(page_start_in_group, count)` pairs.
pub type SealedPageCounts = StreamMap<Vec<(u32, u32)>>;

/// Carry-over: bits fragmented in prior flushes but not yet sealed.
pub struct FamilyState {
    pub pages: PageMap,
    pub dir: VecDeque<(u64, u64, u64)>,
    /// Granules below are sealed into artifacts and removed; at and above it
    /// everything is open. Tracks pages and buckets together.
    pub sealed_id: u64,
    /// Streams already inventoried for the current open page (recorded once
    /// per page, not per flush).
    pub open_streams_seen: StreamSet,
    /// Running seal chain through the last sealed span.
    pub seal_chain: ChainDigest,
    /// Counts of the pages already sealed in the open page group.
    pub sealed_page_counts: SealedPageCounts,
}

pub type OpenTail = PerFamily<FamilyTail>;

pub type OpenState = PerFamily<FamilyState>;

impl FamilyTail {
    pub open spec fn bits(self) -> Map<(Seq<char>, u64), Set<u32>> {
        page_bits(self.pages.map())
    }

    /// The tail holds nothing.
    pub open spec fn is_new(self) -> bool {
        self.pages.wf() && self.pages.entries@.len() == 0 && self.dir@.len() == 0
    }

    pub fn new() -> (tail: FamilyTail)
        ensures
            tail.is_new(),
            tail.bits() == Map::<(Seq<char>, u64), Set<u32>>::empty(),
    {
        let tail = FamilyTail { pages: StreamMap::new(), dir: Vec::new() };
        assert(tail.bits() =~= Map::empty());
        tail
    }
}

impl FamilyState {
    pub open spec fn bits(self) -> Map<(Seq<char>, u64), Set<u32>> {
        page_bits(self.pages.map())
    }

    /// The state before any block.
    pub open spec fn is_new(self) -> bool {
        &&& self.pages.wf()
        &&& self.pages.entries@.len() == 0
        &&& self.dir@.len() == 0
        &&& self.sealed_id == 0
        &&& self.open_streams_seen.set() == Set::<Seq<char>>::empty()
        &&& is_empty_digest(self.seal_chain)
        &&& self.sealed_page_counts.wf()
        &&& self.sealed_page_counts.entries@.len() == 0
    }

    pub fn new() -> (state: FamilyState)
        ensures
            state.is_new(),
            state.bits() == Map::<(Seq<char>, u64), Set<u32>>::empty(),
            state.sealed_page_counts.map() == Map::<(Seq<char>, u64), Vec<(u32, u32)>>::empty(),
    {
        let state = FamilyState {
            pages: StreamMap::new(),
            dir: VecDeque::new(),
            sealed_id: 0,
            open_streams_seen: StreamSet::new(),
            seal_chain: empty_digest(),
            sealed_page_counts: StreamMap::new(),
        };
        assert(state.bits() =~= Map::empty());
        state
    }
}

/// Pages after one id was entered under some streams.
pub open spec fn after_record(
    pages: Map<(Seq<char>, u64), Set<u32>>,
    id: u64,
    streams: Seq<Seq<char>>,
) -> Map<(Seq<char>, u64), Set<u32>>
    decreases streams.len(),
{
    if streams.len() == 0 {
        pages
    } else {
        with_bits(
            after_record(pages, id, streams.drop_last()),
            (streams.last(), spec_page_start(id)),
            set![spec_page_offset(id)],
        )
    }
}

/// Pages after consecutive ids were entered, one per record.
pub open spec fn after_records(
    pages: Map<(Seq<char>, u64), Set<u32>>,
    first: u64,
    records: Seq<Seq<Seq<char>>>,
) -> Map<(Seq<char>, u64), Set<u32>>
    decreases records.len(),
{
    if records.len() == 0 {
        pages
    } else {
        after_record(
            after_records(pages, first, records.drop_last()),
            (first + records.len() - 1) as u64,
            records.last(),
        )
    }
}

/// Inserts one block's records of one family: each record gets the next id
/// from `first_pid`, and each of its streams gets the id's page-relative bit
/// set in that stream's open page. One directory entry spans the block's id
/// range. An error in the records' streams passes through and changes nothing.
pub fn accumulate_family(
    tail: &mut FamilyTail,
    first_pid: u64,
    count: u32,
    block: u64,
    records: Result<Vec<Vec<StreamKey>>>,
) -> (result: Result<()>)
    requires
        old(tail).pages.wf(),
        first_pid + count <= u64::MAX,
        records is Ok ==> first_pid + records->Ok_0@.len() <= u64::MAX,
    ensures
        match records {
            Ok(records) => {
                &&& result is Ok
                &&& final(tail).pages.wf()
                &&& final(tail).bits() == after_records(
                    old(tail).bits(),
                    first_pid,
                    record_ids(records@),
                )
                &&& final(tail).dir@ == if count > 0 {
                    old(tail).dir@.push((block, first_pid, (first_pid + count) as u64))
                } else {
                    old(tail).dir@
                }
            },
            Err(error) => result == Err::<(), QueryError>(error) && *final(tail) == *old(tail),
        },
{
    let records = match records {
        Ok(records) => records,
        Err(error) => {
            return Err(error);
        },
    };
    let ghost start = tail.bits();
    let ghost whole = record_ids(records@);
    let mut n: usize = 0;
    assert(whole.take(0) =~= Seq::empty());
    while n < records.len()
        invariant
            n <= records@.len(),
            first_pid + records@.len() <= u64::MAX,
            whole == record_ids(records@),
            tail.pages.wf(),
            tail.dir == old(tail).dir,
            tail.bits() == after_records(start, first_pid, whole.take(n as int)),
        decreases records@.len() - n,
    {
        let id: u64 = first_pid + n as u64;
        let page: u64 = page_start(id);
        let offset: u32 = page_offset(id);
        let streams = &records[n];
        let ghost base = tail.bits();
        let ghost ids = stream_ids(streams@);
        let mut k: usize = 0;
        assert(ids.take(0) =~= Seq::empty());
        while k < streams.len()
            invariant
                k <= streams@.len(),
                ids == stream_ids(streams@),
                page == spec_page_start(id),
                offset == spec_page_offset(id),
                tail.pages.wf(),
                tail.dir == old(tail).dir,
                tail.bits() == after_record(base, id, ids.take(k as int)),
            decreases streams@.len() - k,
        {
            set_bit(&mut tail.pages, &streams[k], page, offset);
            assert(ids.take(k + 1).drop_last() =~= ids.take(k as int));
            k = k + 1;
        }
        assert(ids.take(k as int) =~= ids);
        assert(whole.take(n + 1).drop_last() =~= whole.take(n as int));
        assert(whole.take(n + 1).last() == ids);
        n = n + 1;
    }
    assert(whole.take(n as int) =~= whole);
    if count > 0 {
        tail.dir.push((block, first_pid, first_pid + count as u64));
    }
    Ok(())
}

/// Record `i` enters the bit `offset` of page `page` of stream `stream`.
pub open spec fn enters(
    first: u64,
    records: Seq<Seq<Seq<char>>>,
    i: int,
    key: (Seq<char>, u64),
    offset: u32,
) -> bool {
    &&& 0 <= i < records.len()
    &&& records[i].contains(key.0)
    &&& key.1 + offset == first + i
    &&& offset < PAGE_SPAN
}

proof fn lemma_after_record_bit(
    pages: Map<(Seq<char>, u64), Set<u32>>,
    id: u64,
    streams: Seq<Seq<char>>,
    key: (Seq<char>, u64),
    offset: u32,
)
    requires
        key.1 % PAGE_SPAN == 0,
    ensures
        bits_at(after_record(pages, id, streams), key).contains(offset) <==> bits_at(
            pages,
            key,
        ).contains(offset) || (streams.contains(key.0) && key.1 + offset == id && offset
            < PAGE_SPAN),
    decreases streams.len(),
{
    if streams.len() > 0 {
        let rest = streams.drop_last();
        lemma_after_record_bit(pages, id, rest, key, offset);
        assert(streams =~= rest.push(streams.last()));
        if streams.contains(key.0) && !rest.contains(key.0) {
            let i = choose|i: int| 0 <= i < streams.len() && streams[i] == key.0;
            if i < rest.len() {
                assert(rest[i] == key.0);
            }
        }
        if rest.contains(key.0) {
            let i = choose|i: int| 0 <= i < rest.len() && rest[i] == key.0;
            assert(streams[i] == key.0);
        }
        assert(streams[streams.len() - 1] == streams.last());
    }
}

/// A bit is set exactly if it was set before or some record of the block has
/// that stream and the id that page start and offset add up to. So a page's
/// bits give the ids of the stream's records back, and no others.
pub proof fn law_bits_are_the_records_ids(
    pages: Map<(Seq<char>, u64), Set<u32>>,
    first: u64,
    records: Seq<Seq<Seq<char>>>,
    key: (Seq<char>, u64),
    offset: u32,
)
    requires
        key.1 % PAGE_SPAN == 0,
        first + records.len() <= u64::MAX,
    ensures
        bits_at(after_records(pages, first, records), key).contains(offset) <==> bits_at(
            pages,
            key,
        ).contains(offset) || exists|i: int| #[trigger] enters(first, records, i, key, offset),
    decreases records.len(),
{
    if records.len() > 0 {
        let rest = records.drop_last();
        let n = rest.len() as int;
        law_bits_are_the_records_ids(pages, first, rest, key, offset);
        lemma_after_record_bit(
            after_records(pages, first, rest),
            (first + n) as u64,
            records.last(),
            key,
            offset,
        );
        assert forall|i: int| #[trigger] enters(first, rest, i, key, offset) implies enters(
            first,
            records,
            i,
            key,
            offset,
        ) by {}
        if exists|i: int| #[trigger] enters(first, records, i, key, offset) {
            let i = choose|i: int| #[trigger] enters(first, records, i, key, offset);
            if i < n {
                assert(enters(first, rest, i, key, offset));
            }
        }
        if records.last().contains(key.0) && key.1 + offset == first + n && offset < PAGE_SPAN {
            assert(enters(first, records, n, key, offset));
        }
    } else {
        assert forall|i: int| !#[trigger] enters(first, records, i, key, offset) by {}
    }
}

proof fn lemma_after_record_wf(
    pages: Map<(Seq<char>, u64), Set<u32>>,
    id: u64,
    streams: Seq<Seq<char>>,
    floor: u64,
)
    requires
        pages_wf(pages, floor),
        floor % PAGE_SPAN == 0,
        floor <= id,
    ensures
        pages_wf(after_record(pages, id, streams), floor),
    decreases streams.len(),
{
    if streams.len() > 0 {
        lemma_after_record_wf(pages, id, streams.drop_last(), floor);
        let before = after_record(pages, id, streams.drop_last());
        let key = (streams.last(), spec_page_start(id));
        let after = after_record(pages, id, streams);
        assert forall|k: (Seq<char>, u64)| #[trigger] after.contains_key(k) implies k.1 % PAGE_SPAN
            == 0 && k.1 >= floor && in_page(after[k]) by {
            if k == key {
                assert(in_page(bits_at(before, key)));
            } else {
                assert(before.contains_key(k));
            }
        }
    }
}

/// Entering ids at or above a floor keeps every page at or above it.
pub proof fn lemma_after_records_wf(
    pages: Map<(Seq<char>, u64), Set<u32>>,
    first: u64,
    records: Seq<Seq<Seq<char>>>,
    floor: u64,
)
    requires
        pages_wf(pages, floor),
        floor % PAGE_SPAN == 0,
        floor <= first,
        first + records.len() <= u64::MAX,
    ensures
        pages_wf(after_records(pages, first, records), floor),
    decreases records.len(),
{
    if records.len() > 0 {
        let rest = records.drop_last();
        lemma_after_records_wf(pages, first, rest, floor);
        lemma_after_record_wf(
            after_records(pages, first, rest),
            (first + rest.len()) as u64,
            records.last(),
            floor,
        );
    }
}

} // verus!
