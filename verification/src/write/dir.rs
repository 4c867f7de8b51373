//! The primary directory: which block minted which ids.
//!
//! Each block contributes one `(block, first id, end id)` entry, the end being
//! exclusive. Entries of a family form one ascending, id-contiguous chain; a
//! completed bucket compacts the entries that overlap it.

use std::collections::VecDeque;

use vstd::prelude::*;

use crate::errors::{QueryError, Result};
use crate::write::bitmap::BUCKET_SPAN;

verus! {

/// Where a block's ids begin.
#[derive(Debug, Clone, Copy, PartialEq, Eq, Structural)]
pub struct PrimaryDirEntry {
    pub block_number: u64,
    pub first_primary_id: u64,
}

/// One compacted directory bucket.
#[derive(Debug, Clone)]
pub struct PrimaryDirBucket {
    pub entries: Vec<PrimaryDirEntry>,
    /// The end of the last entry; past the bucket's own end where its last
    /// block straddles the boundary.
    pub end_primary_id_exclusive: u64,
}

/// The end of the bucket that starts at `start`.
pub open spec fn bucket_end(start: u64) -> int {
    if start + BUCKET_SPAN > u64::MAX {
        u64::MAX as int
    } else {
        start + BUCKET_SPAN
    }
}

/// The entries of a chain that overlap a bucket: those before the first one
/// that starts past the bucket, without those that end before it.
pub open spec fn overlapping(chain: Seq<(u64, u64, u64)>, start: u64) -> Seq<(u64, u64, u64)>
    decreases chain.len(),
{
    if chain.len() == 0 || chain[0].1 >= bucket_end(start) {
        Seq::empty()
    } else if chain[0].2 <= start {
        overlapping(chain.drop_first(), start)
    } else {
        seq![chain[0]] + overlapping(chain.drop_first(), start)
    }
}

/// Blocks ascend from one entry to the next.
pub open spec fn block_ascends(kept: Seq<(u64, u64, u64)>, i: int) -> bool {
    kept[i - 1].0 < kept[i].0
}

/// An entry starts where the one before it ends.
pub open spec fn ids_meet(kept: Seq<(u64, u64, u64)>, i: int) -> bool {
    kept[i - 1].2 == kept[i].1
}

/// The `i`-th entry continues the one before it.
pub open spec fn links(kept: Seq<(u64, u64, u64)>, i: int) -> bool {
    block_ascends(kept, i) && ids_meet(kept, i)
}

/// Each entry continues the one before it.
pub open spec fn linked(kept: Seq<(u64, u64, u64)>) -> bool {
    forall|i: int| 0 < i < kept.len() ==> #[trigger] links(kept, i)
}

/// The chain first breaks at the `i`-th entry.
pub open spec fn breaks_at(kept: Seq<(u64, u64, u64)>, i: int) -> bool {
    &&& 0 < i < kept.len()
    &&& !links(kept, i)
    &&& forall|j: int| 0 < j < i ==> #[trigger] links(kept, j)
}

/// The bucket that linked entries compact to.
pub open spec fn compacts_to(kept: Seq<(u64, u64, u64)>, bucket: PrimaryDirBucket) -> bool {
    &&& kept.len() > 0
    &&& bucket.entries@ == kept.map_values(
        |entry: (u64, u64, u64)| PrimaryDirEntry {
            block_number: entry.0,
            first_primary_id: entry.1,
        },
    )
    &&& bucket.end_primary_id_exclusive == kept.last().2
}

/// What compacting the entries of a bucket answers: the bucket, the break that
/// comes first in the chain, or that nothing overlaps the bucket.
pub open spec fn is_compaction(
    kept: Seq<(u64, u64, u64)>,
    result: Result<PrimaryDirBucket>,
) -> bool {
    match result {
        Ok(bucket) => linked(kept) && compacts_to(kept, bucket),
        Err(error) => {
            ||| kept.len() == 0 && error == QueryError::MissingData(
                "sealed primary directory bucket has no overlapping entries",
            )
            ||| exists|i: int|
                {
                    &&& #[trigger] breaks_at(kept, i)
                    &&& error == if block_ascends(kept, i) {
                        QueryError::Decode(
                            "inconsistent primary directory bucket primary-id sequence",
                        )
                    } else {
                        QueryError::Decode("inconsistent primary directory bucket block sequence")
                    }
                }
        },
    }
}

/// Compacts the bucket at `start` from the entries in the chain
/// `state_dir ++ tail_dir` that overlap it. The sentinel is the last
/// overlapping end, which exceeds the span for a straddler.
pub fn compact_dir_bucket(
    state_dir: &VecDeque<(u64, u64, u64)>,
    tail_dir: &Vec<(u64, u64, u64)>,
    start: u64,
) -> (result: Result<PrimaryDirBucket>)
    ensures
        is_compaction(overlapping(state_dir@ + tail_dir@, start), result),
{
    let end: u64 = start.saturating_add(BUCKET_SPAN);
    let ghost chain = state_dir@ + tail_dir@;
    let ghost mut kept: Seq<(u64, u64, u64)> = Seq::empty();
    let mut entries: Vec<PrimaryDirEntry> = Vec::new();
    let mut sentinel: u64 = start;
    let mut previous: Option<(u64, u64)> = None;
    let mut i: usize = 0;
    let mut j: usize = 0;
    proof {
        assert(chain.skip(0) =~= chain);
        assert(kept + overlapping(chain, start) =~= overlapping(chain, start));
    }
    while i < state_dir.len() || j < tail_dir.len()
        invariant_except_break
            overlapping(chain, start) == kept + overlapping(chain.skip(i + j), start),
        invariant
            chain == state_dir@ + tail_dir@,
            end == bucket_end(start),
            i <= state_dir@.len(),
            j <= tail_dir@.len(),
            j > 0 ==> i == state_dir@.len(),
            linked(kept),
            entries@ == kept.map_values(
                |entry: (u64, u64, u64)| PrimaryDirEntry {
                    block_number: entry.0,
                    first_primary_id: entry.1,
                },
            ),
            kept.len() == 0 ==> previous is None && sentinel == start,
            kept.len() > 0 ==> previous == Some((kept.last().0, kept.last().2)) && sentinel
                == kept.last().2,
        ensures
            overlapping(chain, start) == kept,
        decreases state_dir@.len() - i + tail_dir@.len() - j,
    {
        let ghost at = i + j;
        let entry: (u64, u64, u64) = if i < state_dir.len() {
            i = i + 1;
            state_dir[i - 1]
        } else {
            j = j + 1;
            tail_dir[j - 1]
        };
        assert(entry == chain[at]);
        assert(chain.skip(at)[0] == entry);
        assert(chain.skip(at).drop_first() =~= chain.skip(at + 1));
        let (block, first, entry_end) = entry;
        if first >= end {
            assert(kept + overlapping(chain.skip(at), start) =~= kept);
            break;
        }
        if entry_end <= start {
            continue;
        }
        let ghost next = kept.push(entry);
        let ghost rest = overlapping(chain.skip(at + 1), start);
        proof {
            assert(kept + (seq![entry] + rest) =~= next + rest);
            assert forall|k: int| 0 < k < kept.len() implies #[trigger] links(next, k) by {
                assert(links(kept, k));
            }
        }
        if let Some((previous_block, previous_end)) = previous {
            if block <= previous_block || previous_end != first {
                proof {
                    let whole = overlapping(chain, start);
                    let n = kept.len() as int;
                    assert(whole == next + rest);
                    assert forall|k: int| 0 < k < n implies #[trigger] links(whole, k) by {
                        assert(links(next, k));
                    }
                    assert(whole[n] == entry && whole[n - 1] == kept[n - 1]);
                    assert(breaks_at(whole, n));
                }
                if block <= previous_block {
                    return Err(
                        QueryError::Decode("inconsistent primary directory bucket block sequence"),
                    );
                }
                return Err(
                    QueryError::Decode("inconsistent primary directory bucket primary-id sequence"),
                );
            }
        }
        entries.push(PrimaryDirEntry { block_number: block, first_primary_id: first });
        sentinel = entry_end;
        previous = Some((block, entry_end));
        proof {
            if kept.len() > 0 {
                assert(links(next, kept.len() as int));
            }
            kept = next;
            assert(entries@ =~= kept.map_values(
                |entry: (u64, u64, u64)| PrimaryDirEntry {
                    block_number: entry.0,
                    first_primary_id: entry.1,
                },
            ));
        }
    }
    if entries.len() == 0 {
        assert(kept.len() == 0);
        return Err(
            QueryError::MissingData("sealed primary directory bucket has no overlapping entries"),
        );
    }
    Ok(PrimaryDirBucket { entries, end_primary_id_exclusive: sentinel })
}

/// A directory without the leading entries that end at or below `open`.
pub open spec fn drop_sealed(dir: Seq<(u64, u64, u64)>, open: u64) -> Seq<(u64, u64, u64)>
    decreases dir.len(),
{
    if dir.len() == 0 || dir[0].2 > open {
        dir
    } else {
        drop_sealed(dir.drop_first(), open)
    }
}

fn drain_prefix(dir: &mut Vec<(u64, u64, u64)>, open: u64)
    ensures
        final(dir)@ == drop_sealed(old(dir)@, open),
{
    let mut cut: usize = 0;
    assert(dir@.skip(0) =~= dir@);
    while cut < dir.len() && dir[cut].2 <= open
        invariant
            cut <= dir@.len(),
            dir@ == old(dir)@,
            drop_sealed(dir@, open) == drop_sealed(dir@.skip(cut as int), open),
        decreases dir@.len() - cut,
    {
        assert(dir@.skip(cut as int).drop_first() =~= dir@.skip(cut + 1));
        cut = cut + 1;
    }
    let ghost whole = dir@;
    let mut rest = dir.split_off(cut);
    assert(rest@ =~= whole.skip(cut as int));
    std::mem::swap(dir, &mut rest);
}

fn drain_front(dir: &mut VecDeque<(u64, u64, u64)>, open: u64)
    ensures
        final(dir)@ == drop_sealed(old(dir)@, open),
{
    while dir.len() > 0 && dir[0].2 <= open
        invariant
            drop_sealed(old(dir)@, open) == drop_sealed(dir@, open),
        ensures
            drop_sealed(dir@, open) == dir@,
            drop_sealed(old(dir)@, open) == drop_sealed(dir@, open),
        decreases dir@.len(),
    {
        assert(dir@.drop_first() =~= dir@.subrange(1, dir@.len() as int));
        let _ = dir.pop_front();
    }
}

/// Appends entries to a directory.
pub fn extend_dir(dir: &mut VecDeque<(u64, u64, u64)>, entries: &Vec<(u64, u64, u64)>)
    ensures
        final(dir)@ == old(dir)@ + entries@,
{
    let mut i: usize = 0;
    assert(dir@ =~= old(dir)@ + entries@.take(0));
    while i < entries.len()
        invariant
            i <= entries@.len(),
            dir@ == old(dir)@ + entries@.take(i as int),
        decreases entries@.len() - i,
    {
        dir.push_back(entries[i]);
        assert(dir@ =~= old(dir)@ + entries@.take(i + 1));
        i = i + 1;
    }
    assert(entries@.take(i as int) =~= entries@);
}

/// The entries of a directory as a list.
pub fn listed_dir(dir: &VecDeque<(u64, u64, u64)>) -> (entries: Vec<(u64, u64, u64)>)
    ensures
        entries@ == dir@,
{
    let mut entries: Vec<(u64, u64, u64)> = Vec::new();
    let mut i: usize = 0;
    while i < dir.len()
        invariant
            i <= dir@.len(),
            entries@ == dir@.take(i as int),
        decreases dir@.len() - i,
    {
        entries.push(dir[i]);
        assert(entries@ =~= dir@.take(i + 1));
        i = i + 1;
    }
    assert(dir@.take(i as int) =~= dir@);
    entries
}

/// Drops the entries that end at or below the open bucket's start: they
/// overlap sealed buckets only. Ends ascend along the chain, so the drop set
/// is a prefix of it.
pub fn drain_sealed_dir_entries(
    state_dir: &mut VecDeque<(u64, u64, u64)>,
    tail_dir: &mut Vec<(u64, u64, u64)>,
    open: u64,
)
    ensures
        final(state_dir)@ == drop_sealed(old(state_dir)@, open),
        final(tail_dir)@ == if final(state_dir)@.len() == 0 {
            drop_sealed(old(tail_dir)@, open)
        } else {
            old(tail_dir)@
        },
{
    drain_front(state_dir, open);
    if state_dir.len() == 0 {
        drain_prefix(tail_dir, open);
    }
}

/// Draining the two parts drains the chain they make up.
pub proof fn law_drain_ignores_the_seam(
    state_dir: Seq<(u64, u64, u64)>,
    tail_dir: Seq<(u64, u64, u64)>,
    open: u64,
)
    ensures
        drop_sealed(state_dir + tail_dir, open) == drop_sealed(state_dir, open) + (if drop_sealed(
            state_dir,
            open,
        ).len() == 0 {
            drop_sealed(tail_dir, open)
        } else {
            tail_dir
        }),
    decreases state_dir.len(),
{
    if state_dir.len() == 0 {
        assert(state_dir + tail_dir =~= tail_dir);
        assert(state_dir + drop_sealed(tail_dir, open) =~= drop_sealed(tail_dir, open));
    } else {
        assert((state_dir + tail_dir)[0] == state_dir[0]);
        assert((state_dir + tail_dir).drop_first() =~= state_dir.drop_first() + tail_dir);
        if state_dir[0].2 <= open {
            law_drain_ignores_the_seam(state_dir.drop_first(), tail_dir, open);
        }
    }
}

/// The spans from one seal boundary to the next.
pub open spec fn span_starts(from: u64, open: u64) -> Seq<u64> {
    Seq::new(
        if open <= from {
            0
        } else {
            ((open - from) / (BUCKET_SPAN as int)) as nat
        },
        |k: int| (from + k * BUCKET_SPAN) as u64,
    )
}

/// Every span's bucket, in ascending order.
pub open spec fn are_buckets(
    chain: Seq<(u64, u64, u64)>,
    starts: Seq<u64>,
    buckets: Seq<(u64, PrimaryDirBucket)>,
) -> bool {
    &&& buckets.len() == starts.len()
    &&& forall|k: int|
        0 <= k < starts.len() ==> (#[trigger] buckets[k]).0 == starts[k] && is_compaction(
            overlapping(chain, starts[k]),
            Ok(buckets[k].1),
        )
}

/// The bucket at `start` compacts without an error.
pub open spec fn compacts(chain: Seq<(u64, u64, u64)>, start: u64) -> bool {
    overlapping(chain, start).len() > 0 && linked(overlapping(chain, start))
}

/// The first span whose bucket fails does so with `error`.
pub open spec fn bucket_fails(
    chain: Seq<(u64, u64, u64)>,
    starts: Seq<u64>,
    error: QueryError,
) -> bool {
    exists|k: int|
        {
            &&& 0 <= k < starts.len()
            &&& is_compaction(
                overlapping(chain, #[trigger] starts[k]),
                Err::<PrimaryDirBucket, QueryError>(error),
            )
            &&& forall|j: int| 0 <= j < k ==> compacts(chain, #[trigger] starts[j])
        }
}

/// Seals the directory buckets over `[from, open)`. A block that straddles a
/// boundary is filed in every bucket it overlaps. Entries that can no longer
/// reach the open bucket are then drained; on an error nothing is.
pub fn seal_family_dir(
    state_dir: &mut VecDeque<(u64, u64, u64)>,
    tail_dir: &mut Vec<(u64, u64, u64)>,
    from: u64,
    open: u64,
) -> (result: Result<Vec<(u64, PrimaryDirBucket)>>)
    requires
        from % BUCKET_SPAN == 0,
        open % BUCKET_SPAN == 0,
    ensures
        match result {
            Ok(buckets) => {
                &&& are_buckets(old(state_dir)@ + old(tail_dir)@, span_starts(from, open), buckets@)
                &&& final(state_dir)@ == drop_sealed(old(state_dir)@, open)
                &&& final(tail_dir)@ == if final(state_dir)@.len() == 0 {
                    drop_sealed(old(tail_dir)@, open)
                } else {
                    old(tail_dir)@
                }
            },
            Err(error) => {
                &&& bucket_fails(
                    old(state_dir)@ + old(tail_dir)@,
                    span_starts(from, open),
                    error,
                )
                &&& *final(state_dir) == *old(state_dir)
                &&& *final(tail_dir) == *old(tail_dir)
            },
        },
{
    let ghost chain = state_dir@ + tail_dir@;
    let ghost starts = span_starts(from, open);
    let mut sealed: Vec<(u64, PrimaryDirBucket)> = Vec::new();
    let mut start: u64 = from;
    while start < open
        invariant
            *state_dir == *old(state_dir),
            *tail_dir == *old(tail_dir),
            chain == state_dir@ + tail_dir@,
            starts == span_starts(from, open),
            from % BUCKET_SPAN == 0,
            open % BUCKET_SPAN == 0,
            start % BUCKET_SPAN == 0,
            from <= start,
            from <= open ==> start <= open,
            sealed@.len() * BUCKET_SPAN == start - from,
            sealed@.len() <= starts.len(),
            forall|k: int|
                0 <= k < sealed@.len() ==> (#[trigger] sealed@[k]).0 == starts[k] && is_compaction(
                    overlapping(chain, starts[k]),
                    Ok(sealed@[k].1),
                ),
            forall|k: int| 0 <= k < sealed@.len() ==> compacts(chain, #[trigger] starts[k]),
        decreases open - start,
    {
        let ghost k = sealed@.len() as int;
        assert(starts[k] == start);
        match compact_dir_bucket(state_dir, tail_dir, start) {
            Ok(bucket) => {
                sealed.push((start, bucket));
            },
            Err(error) => {
                assert(is_compaction(
                    overlapping(chain, starts[k]),
                    Err::<PrimaryDirBucket, QueryError>(error),
                ));
                return Err(error);
            },
        }
        start = start + BUCKET_SPAN;
    }
    assert(sealed@.len() == starts.len());
    drain_sealed_dir_entries(state_dir, tail_dir, open);
    Ok(sealed)
}

} // verus!
