//! What the primary directory is for: from an id back to the block that minted
//! it.

use vstd::prelude::*;

use crate::errors::{QueryError, Result};
use crate::write::bitmap::BUCKET_SPAN;
use crate::write::dir::{
    block_ascends, breaks_at, drop_sealed, is_compaction, links, overlapping, span_starts,
    PrimaryDirBucket, PrimaryDirEntry,
};

verus! {

/// Blocks ascend along the chain, each minted some ids, and each begins where
/// the one before ended.
pub open spec fn is_chain(chain: Seq<(u64, u64, u64)>) -> bool {
    &&& forall|i: int| 0 <= i < chain.len() ==> (#[trigger] chain[i]).1 < chain[i].2
    &&& forall|i: int, j: int|
        0 <= i < chain.len() && j == i + 1 && j < chain.len() ==> (#[trigger] chain[i]).0 < (
        #[trigger] chain[j]).0 && chain[i].2 == chain[j].1
}

/// The bucket's answer for an id: the last entry that begins at or below it,
/// where the id lies below the bucket's end.
pub open spec fn answers_with(bucket: PrimaryDirBucket, i: int, id: u64) -> bool {
    &&& 0 <= i < bucket.entries@.len()
    &&& bucket.entries@[i].first_primary_id <= id
    &&& id < bucket.end_primary_id_exclusive
    &&& forall|j: int|
        i < j < bucket.entries@.len() ==> id < (#[trigger] bucket.entries@[j]).first_primary_id
}

proof fn lemma_chain_ascends(chain: Seq<(u64, u64, u64)>, i: int, j: int)
    requires
        is_chain(chain),
        0 <= i < j < chain.len(),
    ensures
        chain[i].2 <= chain[j].1,
        chain[i].0 < chain[j].0,
    decreases j - i,
{
    if j == i + 1 {
        assert(chain[i].2 == chain[j].1);
    } else {
        let m = j - 1;
        lemma_chain_ascends(chain, i, m);
        assert(chain[m].2 == chain[j].1);
        assert(chain[m].1 < chain[m].2);
    }
}

proof fn lemma_chain_rest(chain: Seq<(u64, u64, u64)>)
    requires
        is_chain(chain),
        chain.len() > 0,
    ensures
        is_chain(chain.drop_first()),
{
    let rest = chain.drop_first();
    assert forall|i: int| 0 <= i < rest.len() implies (#[trigger] rest[i]).1 < rest[i].2 by {
        assert(chain[i + 1].1 < chain[i + 1].2);
    }
    assert forall|i: int, j: int|
        0 <= i < rest.len() && j == i + 1 && j < rest.len() implies (#[trigger] rest[i]).0 < (
    #[trigger] rest[j]).0 && rest[i].2 == rest[j].1 by {
        assert(chain[i + 1].0 < chain[j + 1].0);
    }
}

/// What overlaps a bucket is the run of the chain that reaches into it.
proof fn lemma_overlapping_is_a_run(chain: Seq<(u64, u64, u64)>, start: u64, at: int) -> (lo: int)
    requires
        is_chain(chain),
        start + BUCKET_SPAN <= u64::MAX,
        0 <= at < chain.len(),
        chain[at].1 < start + BUCKET_SPAN,
        start < chain[at].2,
    ensures
        ({
            let kept = overlapping(chain, start);
            &&& 0 <= lo <= at < lo + kept.len() <= chain.len()
            &&& kept == chain.subrange(lo, lo + kept.len())
            &&& forall|i: int| 0 <= i < lo ==> (#[trigger] chain[i]).2 <= start
            &&& forall|i: int|
                lo <= i < lo + kept.len() ==> (#[trigger] chain[i]).2 > start && chain[i].1 < start
                    + BUCKET_SPAN
            &&& forall|i: int|
                lo + kept.len() <= i < chain.len() ==> (#[trigger] chain[i]).1 >= start
                    + BUCKET_SPAN
        }),
    decreases chain.len(),
{
    let kept = overlapping(chain, start);
    let rest = chain.drop_first();
    let below = overlapping(rest, start);
    if at > 0 {
        lemma_chain_ascends(chain, 0, at);
    }
    assert(chain[0].1 < chain[0].2);
    assert(chain[0].1 < start + BUCKET_SPAN);
    lemma_chain_rest(chain);
    if chain[0].2 <= start {
        assert(rest[at - 1] == chain[at]);
        let lo = lemma_overlapping_is_a_run(rest, start, at - 1);
        assert(kept =~= chain.subrange(lo + 1, lo + 1 + kept.len()));
        assert forall|i: int| 0 <= i < lo + 1 implies (#[trigger] chain[i]).2 <= start by {
            if i > 0 {
                assert(rest[i - 1].2 <= start);
            }
        }
        assert forall|i: int| lo + 1 <= i < lo + 1 + kept.len() implies (#[trigger] chain[i]).2
            > start && chain[i].1 < start + BUCKET_SPAN by {
            assert(rest[i - 1].2 > start);
        }
        assert forall|i: int| lo + 1 + kept.len() <= i < chain.len() implies (
        #[trigger] chain[i]).1 >= start + BUCKET_SPAN by {
            assert(rest[i - 1].1 >= start + BUCKET_SPAN);
        }
        lo + 1
    } else {
        lemma_from_the_front(chain, start);
        0
    }
}

/// A chain whose first entry ends past a bucket's start overlaps it with a
/// prefix.
proof fn lemma_from_the_front(chain: Seq<(u64, u64, u64)>, start: u64)
    requires
        is_chain(chain),
        start + BUCKET_SPAN <= u64::MAX,
        chain.len() > 0 ==> start < chain[0].2,
    ensures
        ({
            let kept = overlapping(chain, start);
            &&& kept.len() <= chain.len()
            &&& kept == chain.subrange(0, kept.len() as int)
            &&& forall|i: int|
                0 <= i < kept.len() ==> (#[trigger] chain[i]).2 > start && chain[i].1 < start
                    + BUCKET_SPAN
            &&& forall|i: int|
                kept.len() <= i < chain.len() ==> (#[trigger] chain[i]).1 >= start + BUCKET_SPAN
        }),
    decreases chain.len(),
{
    let kept = overlapping(chain, start);
    if chain.len() > 0 {
        let rest = chain.drop_first();
        lemma_chain_rest(chain);
        if chain[0].1 < start + BUCKET_SPAN {
            if rest.len() > 0 {
                assert(rest[0] == chain[1]);
                assert(chain[0].2 == chain[1].1);
                assert(chain[1].1 < chain[1].2);
            }
            lemma_from_the_front(rest, start);
            assert(kept =~= chain.subrange(0, kept.len() as int));
            assert forall|i: int| 0 <= i < kept.len() implies (#[trigger] chain[i]).2 > start
                && chain[i].1 < start + BUCKET_SPAN by {
                if i > 0 {
                    assert(rest[i - 1].2 > start);
                }
            }
            assert forall|i: int| kept.len() <= i < chain.len() implies (#[trigger] chain[i]).1
                >= start + BUCKET_SPAN by {
                assert(rest[i - 1].1 >= start + BUCKET_SPAN);
            }
        } else {
            assert(kept =~= chain.subrange(0, 0));
            assert forall|i: int| 0 <= i < chain.len() implies (#[trigger] chain[i]).1 >= start
                + BUCKET_SPAN by {
                if i > 0 {
                    lemma_chain_ascends(chain, 0, i);
                    assert(chain[0].1 < chain[0].2);
                }
            }
        }
    } else {
        assert(kept =~= chain.subrange(0, 0));
    }
}

/// A sealed bucket answers every id in it with the block that minted the id:
/// the bucket's last entry that begins at or below the id is that block's.
pub proof fn law_bucket_finds_the_block(
    chain: Seq<(u64, u64, u64)>,
    start: u64,
    bucket: PrimaryDirBucket,
    at: int,
    id: u64,
) -> (i: int)
    requires
        is_chain(chain),
        is_compaction(overlapping(chain, start), Ok(bucket)),
        start + BUCKET_SPAN <= u64::MAX,
        start <= id < start + BUCKET_SPAN,
        0 <= at < chain.len(),
        chain[at].1 <= id < chain[at].2,
    ensures
        answers_with(bucket, i, id),
        bucket.entries@[i] == (PrimaryDirEntry {
            block_number: chain[at].0,
            first_primary_id: chain[at].1,
        }),
{
    let kept = overlapping(chain, start);
    let lo = lemma_overlapping_is_a_run(chain, start, at);
    let i = at - lo;
    assert(kept[i] == chain[at]);
    assert forall|j: int| i < j < bucket.entries@.len() implies id < (
    #[trigger] bucket.entries@[j]).first_primary_id by {
        assert(kept[j] == chain[lo + j]);
        lemma_chain_ascends(chain, at, lo + j);
    }
    let last = lo + kept.len() - 1;
    assert(kept.last() == chain[last]);
    if last > at {
        lemma_chain_ascends(chain, at, last);
        assert(chain[last].1 < chain[last].2);
    }
    i
}

/// A bucket has no other entries than those of blocks that minted ids in it,
/// and it ends where the last of them does.
pub proof fn law_bucket_holds_only_its_blocks(
    chain: Seq<(u64, u64, u64)>,
    start: u64,
    bucket: PrimaryDirBucket,
    i: int,
)
    requires
        start + BUCKET_SPAN <= u64::MAX,
        is_compaction(overlapping(chain, start), Ok(bucket)),
        0 <= i < bucket.entries@.len(),
    ensures
        exists|j: int|
            {
                &&& 0 <= j < chain.len()
                &&& (#[trigger] chain[j]).0 == bucket.entries@[i].block_number
                &&& chain[j].1 == bucket.entries@[i].first_primary_id
                &&& chain[j].2 > start
                &&& chain[j].1 < start + BUCKET_SPAN
                &&& i == bucket.entries@.len() - 1 ==> chain[j].2
                    == bucket.end_primary_id_exclusive
                &&& i < bucket.entries@.len() - 1 ==> chain[j].2 == bucket.entries@[i
                    + 1].first_primary_id
            },
{
    let kept = overlapping(chain, start);
    lemma_kept_comes_from_the_chain(chain, start, i);
    if i < bucket.entries@.len() - 1 {
        assert(links(kept, i + 1));
    }
    let j = choose|j: int| 0 <= j < chain.len() && #[trigger] chain[j] == kept[i];
    assert(chain[j] == kept[i]);
}

proof fn lemma_kept_comes_from_the_chain(chain: Seq<(u64, u64, u64)>, start: u64, i: int)
    requires
        start + BUCKET_SPAN <= u64::MAX,
        0 <= i < overlapping(chain, start).len(),
    ensures
        exists|j: int|
            0 <= j < chain.len() && #[trigger] chain[j] == overlapping(chain, start)[i],
        overlapping(chain, start)[i].2 > start,
        overlapping(chain, start)[i].1 < start + BUCKET_SPAN,
    decreases chain.len(),
{
    let kept = overlapping(chain, start);
    let rest = chain.drop_first();
    let below = overlapping(rest, start);
    if chain[0].2 > start && i == 0 {
        assert(kept[0] == chain[0]);
    } else {
        let k = if chain[0].2 <= start {
            i
        } else {
            i - 1
        };
        assert(kept[i] == below[k]);
        lemma_kept_comes_from_the_chain(rest, start, k);
        let j = choose|j: int| 0 <= j < rest.len() && #[trigger] rest[j] == below[k];
        assert(chain[j + 1] == kept[i]);
    }
}

/// A chain in order that reaches into a bucket compacts: neither error comes.
pub proof fn law_chain_in_order_compacts(
    chain: Seq<(u64, u64, u64)>,
    start: u64,
    at: int,
    result: Result<PrimaryDirBucket>,
)
    requires
        is_chain(chain),
        is_compaction(overlapping(chain, start), result),
        start + BUCKET_SPAN <= u64::MAX,
        0 <= at < chain.len(),
        chain[at].1 < start + BUCKET_SPAN,
        start < chain[at].2,
    ensures
        result is Ok,
{
    let kept = overlapping(chain, start);
    let lo = lemma_overlapping_is_a_run(chain, start, at);
    if let Err(error) = result {
        let i = choose|i: int| #[trigger] breaks_at(kept, i);
        assert(kept[i - 1] == chain[lo + i - 1]);
        assert(kept[i] == chain[lo + i]);
        assert(false);
    }
}

/// An error names the first place where the entries do not continue each other:
/// blocks that do not ascend, or else ids that do not meet.
pub proof fn law_break_is_named(kept: Seq<(u64, u64, u64)>, error: QueryError)
    requires
        kept.len() > 0,
        is_compaction(kept, Err::<PrimaryDirBucket, QueryError>(error)),
    ensures
        exists|i: int|
            {
                &&& 0 < i < kept.len()
                &&& forall|j: int|
                    0 < j < i ==> kept[j - 1].0 < (#[trigger] kept[j]).0 && kept[j - 1].2
                        == kept[j].1
                &&& if kept[i - 1].0 >= (#[trigger] kept[i]).0 {
                    error == QueryError::Decode(
                        "inconsistent primary directory bucket block sequence",
                    )
                } else {
                    kept[i - 1].2 != kept[i].1 && error == QueryError::Decode(
                        "inconsistent primary directory bucket primary-id sequence",
                    )
                }
            },
{
    let i = choose|i: int|
        {
            &&& #[trigger] breaks_at(kept, i)
            &&& error == if block_ascends(kept, i) {
                QueryError::Decode("inconsistent primary directory bucket primary-id sequence")
            } else {
                QueryError::Decode("inconsistent primary directory bucket block sequence")
            }
        };
    assert(breaks_at(kept, i));
    assert forall|j: int| 0 < j < i implies kept[j - 1].0 < (#[trigger] kept[j]).0 && kept[j - 1].2
        == kept[j].1 by {
        assert(links(kept, j));
    }
    assert(kept[i] == kept[i]);
}

/// Draining drops a leading run of entries that end at or below the open
/// bucket, stops at the first that reaches past it, and touches nothing behind.
pub proof fn law_drain_drops_what_is_sealed(dir: Seq<(u64, u64, u64)>, open: u64) -> (n: int)
    ensures
        0 <= n <= dir.len(),
        drop_sealed(dir, open) == dir.subrange(n, dir.len() as int),
        forall|i: int| 0 <= i < n ==> (#[trigger] dir[i]).2 <= open,
        n < dir.len() ==> dir[n].2 > open,
    decreases dir.len(),
{
    if dir.len() == 0 || dir[0].2 > open {
        assert(drop_sealed(dir, open) =~= dir.subrange(0, dir.len() as int));
        0
    } else {
        let rest = dir.drop_first();
        let n = law_drain_drops_what_is_sealed(rest, open);
        assert(drop_sealed(dir, open) =~= dir.subrange(n + 1, dir.len() as int));
        assert forall|i: int| 0 <= i < n + 1 implies (#[trigger] dir[i]).2 <= open by {
            if i > 0 {
                assert(rest[i - 1].2 <= open);
            }
        }
        if n + 1 < dir.len() {
            assert(rest[n] == dir[n + 1]);
        }
        n + 1
    }
}

/// The spans of a seal tile what became complete: every id from the old
/// boundary to the new lies in exactly one, and no span reaches beyond.
pub proof fn law_spans_tile_what_is_sealed(from: u64, open: u64, id: u64)
    requires
        from % BUCKET_SPAN == 0,
        open % BUCKET_SPAN == 0,
        from <= id < open,
    ensures
        ({
            let starts = span_starts(from, open);
            &&& starts.len() * 65_536 == open - from
            &&& starts[0] == from
            &&& starts.last() + 65_536 == open
            &&& exists|k: int|
                0 <= k < starts.len() && (#[trigger] starts[k]) <= id && id < starts[k] + 65_536
            &&& forall|k: int|
                0 <= k < starts.len() - 1 ==> (#[trigger] starts[k]) + 65_536 == starts[k + 1]
        }),
{
    let starts = span_starts(from, open);
    let n = (open - from) / 65_536;
    assert(n * 65_536 == open - from);
    assert(starts.len() == n);
    let k = (id - from) / 65_536;
    assert(0 <= k < n);
    assert(starts[k] == from + k * 65_536);
    assert(starts[n - 1] == from + (n - 1) * 65_536);
    assert forall|k: int| 0 <= k < starts.len() - 1 implies (#[trigger] starts[k]) + 65_536
        == starts[k + 1] by {
        assert(starts[k] == from + k * 65_536);
        assert(starts[k + 1] == from + (k + 1) * 65_536);
    }
}

/// Nothing is sealed where the boundary has not moved.
pub proof fn law_no_span_without_progress(from: u64, open: u64)
    requires
        open <= from,
    ensures
        span_starts(from, open).len() == 0,
{
}

} // verus!
