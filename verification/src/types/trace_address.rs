//! Trace addresses: the path of each call frame in its call tree.

use vstd::prelude::*;

use crate::errors::{QueryError, Result};

verus! {

/// The last frame at or before `from` that is shallower than `level`; `-1` when
/// there is none.
pub open spec fn last_shallower(depths: Seq<u32>, from: int, level: int) -> int
    decreases from + 1,
{
    if from < 0 {
        -1
    } else if depths[from] < level {
        from
    } else {
        last_shallower(depths, from - 1, level)
    }
}

/// How many frames in `[lo, hi)` sit exactly at `level`.
pub open spec fn count_at(depths: Seq<u32>, lo: int, hi: int, level: int) -> nat
    decreases hi - lo,
{
    if hi <= lo {
        0
    } else {
        count_at(depths, lo, hi - 1, level) + if depths[hi - 1] == level {
            1nat
        } else {
            0nat
        }
    }
}

/// The frame that called frame `i`: the nearest earlier shallower one.
pub open spec fn parent_of(depths: Seq<u32>, i: int) -> int {
    last_shallower(depths, i - 1, depths[i] as int)
}

/// How many calls the parent of frame `i` made before making call `i`.
pub open spec fn sibling_rank(depths: Seq<u32>, i: int) -> nat {
    count_at(depths, parent_of(depths, i) + 1, i, depths[i] as int)
}

/// No frame makes so many calls that their ranks outgrow 32 bits.
pub open spec fn ranks_fit(depths: Seq<u32>) -> bool {
    forall|i: int| 0 <= i < depths.len() ==> #[trigger] sibling_rank(depths, i) < u32::MAX
}

/// Up to `2^32 - 1` frames every rank fits.
pub proof fn lemma_short_ranks_fit(depths: Seq<u32>)
    requires
        depths.len() <= u32::MAX,
    ensures
        ranks_fit(depths),
{
    assert forall|i: int| 0 <= i < depths.len() implies #[trigger] sibling_rank(depths, i)
        < u32::MAX by {
        lemma_last_shallower(depths, i - 1, depths[i] as int);
        lemma_count_bound(depths, parent_of(depths, i) + 1, i, depths[i] as int);
    }
}

/// The path from the root frame to frame `i`: each step is the rank of a call
/// among the calls of its parent.
#[verifier::opaque]
pub open spec fn address_of(depths: Seq<u32>, i: int) -> Seq<u32>
    decreases i,
{
    if i < 0 || depths[i] == 0 || !(0 <= parent_of(depths, i) < i) {
        Seq::empty()
    } else {
        address_of(depths, parent_of(depths, i)).push(sibling_rank(depths, i) as u32)
    }
}

/// Frame `i` is at most one level below the frame before it.
pub open spec fn descends_by_one(depths: Seq<u32>, i: int) -> bool {
    depths[i] <= depths[i - 1] + 1
}

/// A depth-first sequence never goes down more than one level at a time.
pub open spec fn no_level_skipped(depths: Seq<u32>) -> bool {
    forall|i: int| 0 < i < depths.len() ==> #[trigger] descends_by_one(depths, i)
}

proof fn lemma_last_shallower(depths: Seq<u32>, from: int, level: int)
    requires
        -1 <= from < depths.len(),
    ensures
        -1 <= last_shallower(depths, from, level) <= from,
        last_shallower(depths, from, level) >= 0 ==> depths[last_shallower(depths, from, level)]
            < level,
        forall|j: int|
            last_shallower(depths, from, level) < j <= from && j >= 0 ==> #[trigger] depths[j]
                >= level,
    decreases from + 1,
{
    if from >= 0 && depths[from] >= level {
        lemma_last_shallower(depths, from - 1, level);
    }
}

proof fn lemma_count_bound(depths: Seq<u32>, lo: int, hi: int, level: int)
    requires
        0 <= lo <= hi,
    ensures
        count_at(depths, lo, hi, level) <= hi - lo,
    decreases hi - lo,
{
    if lo < hi {
        lemma_count_bound(depths, lo, hi - 1, level);
    }
}

/// Frames seen at `level` since the path last rose above it, among the first
/// `n` frames.
spec fn live_count(depths: Seq<u32>, n: int, level: int) -> nat {
    count_at(depths, last_shallower(depths, n - 1, level) + 1, n, level)
}

/// The current path in terms of live counts.
proof fn lemma_address_is_path(depths: Seq<u32>, n: int)
    requires
        0 < n <= depths.len(),
        depths[0] == 0,
        forall|i: int| 0 < i < n ==> #[trigger] descends_by_one(depths, i),
    ensures
        address_of(depths, n - 1).len() == depths[n - 1],
        forall|l: int|
            1 <= l <= depths[n - 1] ==> #[trigger] live_count(depths, n, l) >= 1
                && address_of(depths, n - 1)[l - 1] == (live_count(depths, n, l) - 1) as u32,
    decreases n,
{
    reveal_with_fuel(address_of, 1);
    let i = n - 1;
    let d = depths[i] as int;
    if d > 0 {
        lemma_last_shallower(depths, i - 1, d);
        let p = parent_of(depths, i);
        lemma_parent_one_up(depths, i);
        lemma_address_is_path(depths, p + 1);
        assert forall|l: int| 1 <= l <= d implies #[trigger] live_count(depths, n, l) >= 1
            && address_of(depths, i)[l - 1] == (live_count(depths, n, l) - 1) as u32 by {
            if l == d {
                assert(last_shallower(depths, i, d) == p);
                assert(live_count(depths, n, l) == sibling_rank(depths, i) + 1);
            } else {
                // Between the parent and this frame nothing is as shallow as `l`.
                lemma_live_count_stable(depths, p + 1, n, l);
                assert(address_of(depths, i)[l - 1] == address_of(depths, p)[l - 1]);
                assert(live_count(depths, p + 1, l) >= 1);
            }
        }
    }
}

/// In a valid sequence the parent sits exactly one level up.
proof fn lemma_parent_one_up(depths: Seq<u32>, i: int)
    requires
        0 <= i < depths.len(),
        depths[0] == 0,
        depths[i] > 0,
        forall|j: int| 0 < j <= i ==> #[trigger] descends_by_one(depths, j),
    ensures
        0 <= parent_of(depths, i) < i,
        depths[parent_of(depths, i)] == depths[i] - 1,
{
    let d = depths[i] as int;
    lemma_last_shallower(depths, i - 1, d);
    let p = parent_of(depths, i);
    if p < 0 {
        assert(depths[0] >= d);
    }
    assert(depths[p + 1] >= d);
    assert(descends_by_one(depths, p + 1));
}

/// A stretch with no frame at or above `level` does not change its count.
proof fn lemma_live_count_stable(depths: Seq<u32>, lo: int, hi: int, level: int)
    requires
        0 < lo <= hi <= depths.len(),
        forall|j: int| lo <= j < hi ==> #[trigger] depths[j] > level,
    ensures
        live_count(depths, hi, level) == live_count(depths, lo, level),
        last_shallower(depths, hi - 1, level) == last_shallower(depths, lo - 1, level),
    decreases hi - lo,
{
    if lo < hi {
        lemma_live_count_stable(depths, lo, hi - 1, level);
        assert(depths[hi - 1] > level);
        lemma_last_shallower(depths, lo - 1, level);
        assert(last_shallower(depths, hi - 1, level) == last_shallower(depths, hi - 2, level));
    }
}

/// The first frame's state.
proof fn lemma_root_tracks(depths: Seq<u32>, n: int)
    requires
        0 <= n < depths.len(),
        depths[n] == 0,
        n > 0 ==> depths[0] == 0,
        forall|i: int| 0 < i < n ==> #[trigger] descends_by_one(depths, i),
    ensures
        tracks(depths, n + 1, Seq::empty(), Seq::empty()),
        address_of(depths, n) == Seq::<u32>::empty(),
{
    reveal(tracks);
    reveal_with_fuel(address_of, 1);
}

/// The loop state after `n` frames: `path` is the address of the last frame and
/// `counters` counts the calls made so far at each of its levels.
#[verifier::opaque]
spec fn tracks(depths: Seq<u32>, n: int, counters: Seq<u32>, path: Seq<u32>) -> bool {
    &&& 0 < n <= depths.len()
    &&& depths[0] == 0
    &&& forall|i: int| 0 < i < n ==> #[trigger] descends_by_one(depths, i)
    &&& path.len() == depths[n - 1]
    &&& counters.len() == depths[n - 1]
    &&& path == address_of(depths, n - 1)
    &&& forall|l: int|
        1 <= l <= depths[n - 1] ==> counters[l - 1] == #[trigger] live_count(depths, n, l)
}

/// Cut or zero-extended to depth `d`, the counter at that depth is the rank of
/// the next frame.
proof fn lemma_rank_of_next(depths: Seq<u32>, n: int, before: Seq<u32>, mid: Seq<u32>)
    requires
        tracks(depths, n, before, address_of(depths, n - 1)),
        n < depths.len(),
        ranks_fit(depths),
        1 <= depths[n] <= depths[n - 1] + 1,
        mid.len() == depths[n],
        forall|k: int| 0 <= k < mid.len() && k < before.len() ==> mid[k] == before[k],
        forall|k: int| before.len() <= k < mid.len() ==> mid[k] == 0,
    ensures
        mid[depths[n] - 1] == sibling_rank(depths, n),
        sibling_rank(depths, n) < u32::MAX,
{
    reveal(tracks);
    let d = depths[n] as int;
    lemma_last_shallower(depths, n - 1, d);
    lemma_parent_one_up(depths, n);
    if depths[n - 1] >= d {
        assert(mid[d - 1] == before[d - 1]);
        assert(before[d - 1] == live_count(depths, n, d));
    } else {
        assert(parent_of(depths, n) == n - 1);
    }
}

proof fn lemma_path_of_next(
    depths: Seq<u32>,
    n: int,
    before: Seq<u32>,
    now: Seq<u32>,
    old_path: Seq<u32>,
    path: Seq<u32>,
)
    requires
        tracks(depths, n, before, old_path),
        n < depths.len(),
        1 <= depths[n] <= depths[n - 1] + 1,
        now.len() == depths[n],
        sibling_rank(depths, n) < u32::MAX,
        now[depths[n] - 1] == sibling_rank(depths, n) + 1,
        forall|k: int| 0 <= k < depths[n] - 1 ==> now[k] == before[k],
        old_path.len() == depths[n - 1],
        path == old_path.take(depths[n] - 1).push(sibling_rank(depths, n) as u32),
    ensures
        tracks(depths, n + 1, now, path),
        path == address_of(depths, n),
{
    reveal(tracks);
    let d = depths[n] as int;
    assert forall|l: int| 1 <= l <= d implies now[l - 1] == #[trigger] live_count(
        depths,
        n + 1,
        l,
    ) by {
        if l < d {
            lemma_live_count_stable(depths, n, n + 1, l);
            assert(now[l - 1] == before[l - 1]);
            assert(before[l - 1] == live_count(depths, n, l));
        } else {
            lemma_last_shallower(depths, n - 1, l);
            assert(last_shallower(depths, n, l) == parent_of(depths, n));
            assert(count_at(depths, parent_of(depths, n) + 1, n + 1, l) == sibling_rank(depths, n)
                + 1);
        }
    }
    lemma_address_is_path(depths, n);
    lemma_address_is_path(depths, n + 1);
    assert forall|k: int| 0 <= k < d implies path[k] == address_of(depths, n)[k] by {
        let l = k + 1;
        assert(live_count(depths, n + 1, l) >= 1);
        if l < d {
            lemma_live_count_stable(depths, n, n + 1, l);
            assert(live_count(depths, n, l) >= 1);
            assert(old_path[k] == path[k]);
        } else {
            assert(now[l - 1] == live_count(depths, n + 1, l));
        }
    }
    assert(path =~= address_of(depths, n));
}

/// Computes OpenEthereum-style `trace_address` for each frame in a DFS sequence.
/// The first frame must have depth 0; deeper frames must have `depth == parent.depth + 1`.
pub fn compute_trace_addresses(depths: &[u32]) -> (result: Result<Vec<Vec<u32>>>)
    requires
        ranks_fit(depths@),
    ensures
        match result {
            Ok(addresses) => {
                &&& depths@.len() > 0 ==> depths@[0] == 0
                &&& no_level_skipped(depths@)
                &&& addresses@.len() == depths@.len()
                &&& forall|i: int|
                    0 <= i < depths@.len() ==> (#[trigger] addresses@[i])@ == address_of(depths@, i)
            },
            Err(error) => if depths@.len() > 0 && depths@[0] != 0 {
                error == QueryError::InvalidBlock("trace_address: first frame must have depth 0")
            } else {
                &&& !no_level_skipped(depths@)
                &&& error == QueryError::InvalidBlock("trace_address: depth skipped a level")
            },
        },
{
    let mut path: Vec<u32> = Vec::new();
    let mut sibling_counters: Vec<u32> = Vec::new();
    let mut addresses: Vec<Vec<u32>> = Vec::new();
    let mut seen_root: bool = false;
    let ghost ds = depths@;

    let mut n: usize = 0;
    while n < depths.len()
        invariant
            ds == depths@,
            ranks_fit(ds),
            n <= ds.len(),
            seen_root == (n > 0),
            n == 0 ==> path@.len() == 0,
            n > 0 ==> ds[0] == 0,
            forall|i: int| 0 < i < n ==> #[trigger] descends_by_one(ds, i),
            n > 0 ==> ds[n - 1] < n,
            n > 0 ==> path@.len() == ds[n - 1] && sibling_counters@.len() == ds[n - 1],
            n > 0 ==> path@ == address_of(ds, n - 1),
            n > 0 ==> tracks(ds, n as int, sibling_counters@, path@),
            addresses@.len() == n,
            forall|i: int| 0 <= i < n ==> (#[trigger] addresses@[i])@ == address_of(ds, i),
        decreases ds.len() - n,
    {
        let d: usize = depths[n] as usize;
        let ghost before = sibling_counters@;
        let ghost old_path = path@;
        if d == 0 {
            path.clear();
            sibling_counters.clear();
            addresses.push(Vec::new());
            seen_root = true;
            proof {
                lemma_root_tracks(ds, n as int);
                assert(path@ =~= Seq::empty());
                assert(sibling_counters@ =~= Seq::empty());
                assert(addresses@[n as int]@ =~= Seq::empty());
            }
        } else {
            if !seen_root {
                return Err(
                    QueryError::InvalidBlock("trace_address: first frame must have depth 0"),
                );
            }
            if d > path.len() + 1 {
                assert(!descends_by_one(ds, n as int));
                return Err(QueryError::InvalidBlock("trace_address: depth skipped a level"));
            }
            path.truncate(d - 1);
            sibling_counters.truncate(d);
            if sibling_counters.len() < d {
                sibling_counters.resize(d, 0);
            }
            proof {
                lemma_rank_of_next(ds, n as int, before, sibling_counters@);
            }
            let counter: u32 = sibling_counters[d - 1];
            path.push(counter);
            sibling_counters.set(d - 1, counter + 1);
            proof {
                lemma_path_of_next(ds, n as int, before, sibling_counters@, old_path, path@);
            }
            addresses.push(path.clone());
            assert(addresses@[n as int]@ =~= path@);
        }
        n = n + 1;
    }
    Ok(addresses)
}

/// Within one tx (no root frame after `i` up to `j`) no two frames share an
/// address.
pub proof fn law_addresses_distinct(depths: Seq<u32>, i: int, j: int)
    requires
        ranks_fit(depths),
        0 <= i < j < depths.len(),
        depths[0] == 0,
        no_level_skipped(depths),
        forall|k: int| i < k <= j ==> #[trigger] depths[k] > 0,
    ensures
        address_of(depths, i) != address_of(depths, j),
    decreases j,
{
    lemma_address_is_path(depths, i + 1);
    lemma_address_is_path(depths, j + 1);
    if depths[i] == depths[j] {
        let d = depths[j] as int;
        lemma_parent_one_up(depths, i);
        lemma_parent_one_up(depths, j);
        lemma_last_shallower(depths, i - 1, d);
        lemma_last_shallower(depths, j - 1, d);
        let pi = parent_of(depths, i);
        let pj = parent_of(depths, j);
        reveal_with_fuel(address_of, 1);
        let ai = address_of(depths, i);
        let aj = address_of(depths, j);
        assert(ai.drop_last() =~= address_of(depths, pi));
        assert(aj.drop_last() =~= address_of(depths, pj));
        if pj < i {
            assert(pi == pj);
            lemma_count_grows(depths, pi + 1, i, j, d);
            assert(ai.last() == sibling_rank(depths, i) as u32);
            assert(aj.last() == sibling_rank(depths, j) as u32);
        } else {
            assert(pj > i);
            law_addresses_distinct(depths, pi, pj);
        }
    }
}

proof fn lemma_count_grows(depths: Seq<u32>, lo: int, i: int, j: int, level: int)
    requires
        0 <= lo <= i < j <= depths.len(),
        depths[i] == level,
    ensures
        count_at(depths, lo, i, level) < count_at(depths, lo, j, level),
    decreases j,
{
    if j > i + 1 {
        lemma_count_grows(depths, lo, i, j - 1, level);
    }
}

} // verus!
