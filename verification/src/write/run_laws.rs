//! How a run goes: what it fetches, when it flushes, and which head it
//! publishes.

use vstd::prelude::*;

use crate::write::data_track::{accounted, accounted_total, PackConfig, PackEntry};
use crate::write::flow::{is_full, spec_step, FlowDemand, StepKind, TrackLoad};
use crate::write::ingest::spec_resolve_end;
use crate::write::producer::{
    is_fetch_target, spec_flush_interval, tip_distance, RunBound, SignalPolicy,
};
use crate::write::publisher::{after_event, covered, in_order, HeadEvent, Heads};

verus! {

/// With checkpoints on, the flush interval is how often the divisor goes into
/// the distance to the tip, but never less than one block.
pub proof fn law_interval_shrinks_towards_the_tip(policy: SignalPolicy, last_block: u64, tip: u64)
    requires
        policy.checkpoints_enabled,
        policy.tip_lag_divisor > 0,
        last_block <= tip,
    ensures
        ({
            let interval = spec_flush_interval(policy, Some(tip), last_block);
            let divisor = policy.tip_lag_divisor as int;
            &&& interval >= 1
            &&& interval > 1 ==> interval * divisor <= tip - last_block
            &&& tip - last_block < (interval + 1) * divisor
        }),
{
    let divisor = policy.tip_lag_divisor as int;
    let distance = tip - last_block;
    vstd::arithmetic::div_mod::lemma_fundamental_div_mod(distance, divisor);
    let quotient = distance / divisor;
    let interval = spec_flush_interval(policy, Some(tip), last_block);
    assert(quotient * divisor == divisor * quotient) by (nonlinear_arith);
    assert((quotient + 1) * divisor == quotient * divisor + divisor) by (nonlinear_arith);
    assert(0 <= distance % divisor < divisor) by {
        vstd::arithmetic::div_mod::lemma_mod_bound(distance, divisor);
    }
    if quotient < 1 {
        assert(quotient >= 0) by {
            vstd::arithmetic::div_mod::lemma_div_pos_is_pos(distance, divisor);
        }
        assert(interval == 1);
        assert(quotient == 0);
        assert((1 + 1) * divisor == divisor + divisor) by (nonlinear_arith);
    }
}

/// The further behind, the rarer the flushes.
pub proof fn law_interval_grows_with_the_distance(
    policy: SignalPolicy,
    last_block: u64,
    near: u64,
    far: u64,
)
    requires
        near <= far,
    ensures
        spec_flush_interval(policy, Some(near), last_block) <= spec_flush_interval(
            policy,
            Some(far),
            last_block,
        ),
        spec_flush_interval(policy, Some(far), last_block) <= spec_flush_interval(
            policy,
            None,
            last_block,
        ),
{
    let divisor = crate::primitives::at_least_one(policy.tip_lag_divisor as int);
    vstd::arithmetic::div_mod::lemma_div_is_ordered(
        tip_distance(Some(near), last_block),
        tip_distance(Some(far), last_block),
        divisor,
    );
    vstd::arithmetic::div_mod::lemma_div_is_ordered(
        tip_distance(Some(far), last_block),
        tip_distance(None, last_block),
        divisor,
    );
}

/// A run with an explicit end takes in that block and nothing beyond, whatever
/// the count; one with neither end nor count has no last block.
pub proof fn law_explicit_end_is_the_last_block(
    end: u64,
    count: Option<u64>,
    begin: u64,
    block: u64,
)
    ensures
        spec_resolve_end(Some(end), count, begin).admits_block(block) <==> block <= end,
        spec_resolve_end(None, None, begin).admits_block(block),
{
}

/// A poll fetches everything that is uploaded and asked for, from the next block
/// on, and nothing else: a block is at or below the target exactly if it is.
pub proof fn law_fetch_takes_what_is_there(
    tip: u64,
    end: Option<u64>,
    begin: u64,
    next: u64,
    target: Option<u64>,
    block: u64,
)
    requires
        is_fetch_target(Some(tip), spec_resolve_end(end, None, begin), next, target),
        next <= block,
    ensures
        (target matches Some(last) && block <= last) <==> block <= tip && (end matches Some(
            last,
        ) ==> block <= last),
        target matches Some(last) ==> next <= last,
{
    let bound = spec_resolve_end(end, None, begin);
    if let Some(last) = target {
        assert(crate::write::producer::is_available(Some(tip), bound, last));
        if block > last {
            assert(!crate::write::producer::is_available(Some(tip), bound, block));
        }
    } else {
        assert(!crate::write::producer::is_available(Some(tip), bound, block));
    }
}

/// Nothing is fetched before a tip is known.
pub proof fn law_nothing_to_fetch_without_a_tip(bound: RunBound, next: u64, target: Option<u64>)
    requires
        is_fetch_target(None, bound, next, target),
    ensures
        target is None,
{
    if let Some(last) = target {
        assert(crate::write::producer::is_available(None, bound, last));
    }
}

/// A flush boundary is published once its rows are durable, and not before:
/// after a flush at `block` the head is that block if rows are durable through
/// it, and lies below it if they are not.
pub proof fn law_flushed_block_becomes_the_head(heads: Heads, block: u64, durable: u64)
    requires
        in_order(heads),
        block > heads.head,
        forall|i: int| 0 <= i < heads.pending.len() ==> block > #[trigger] heads.pending[i],
    ensures
        ({
            let flushed = after_event(heads, HeadEvent::Flush(block));
            let written = after_event(flushed, HeadEvent::Durable(durable));
            let head = after_event(written, HeadEvent::Publish).head;
            &&& durable >= block ==> head == block
            &&& heads.data_durable < block && durable < block ==> head < block
            &&& written.data_durable >= durable
            &&& written.data_durable >= heads.data_durable
            &&& written.data_durable == durable || written.data_durable == heads.data_durable
        }),
{
    let flushed = after_event(heads, HeadEvent::Flush(block));
    let written = after_event(flushed, HeadEvent::Durable(durable));
    assert(flushed.pending == heads.pending.push(block));
    lemma_covered_prefix(written.pending, written.data_durable);
    let n = covered(written.pending, written.data_durable);
    assert(written.pending.last() == block);
    if durable >= block {
        assert forall|i: int| 0 <= i < written.pending.len() implies (#[trigger] written.pending[i])
            <= written.data_durable by {
            if i < heads.pending.len() {
                assert(heads.pending[i] < block);
            }
        }
        assert(n == written.pending.len());
    }
}

proof fn lemma_covered_prefix(pending: Seq<u64>, durable: u64)
    ensures
        covered(pending, durable) <= pending.len(),
        forall|i: int| 0 <= i < covered(pending, durable) ==> #[trigger] pending[i] <= durable,
        covered(pending, durable) < pending.len() ==> pending[covered(pending, durable) as int]
            > durable,
    decreases pending.len(),
{
    if pending.len() > 0 && pending[0] <= durable {
        let rest = pending.drop_first();
        lemma_covered_prefix(rest, durable);
        assert forall|i: int| 0 <= i < covered(pending, durable) implies #[trigger] pending[i]
            <= durable by {
            if i > 0 {
                assert(rest[i - 1] <= durable);
            }
        }
    }
}

/// A boundary at or below one that was recorded before changes nothing.
pub proof fn law_stale_boundary_is_dropped(heads: Heads, block: u64)
    requires
        block <= heads.head || exists|i: int|
            0 <= i < heads.pending.len() && block <= #[trigger] heads.pending[i],
        in_order(heads),
    ensures
        after_event(heads, HeadEvent::Flush(block)) == heads,
{
    let n = heads.pending.len();
    if n > 0 {
        assert(heads.pending[n - 1] == heads.pending.last());
        assert(heads.head < heads.pending[n - 1]);
        if exists|i: int| 0 <= i < n && block <= #[trigger] heads.pending[i] {
            let i = choose|i: int| 0 <= i < n && block <= #[trigger] heads.pending[i];
            if i < n - 1 {
                assert(heads.pending[i] < heads.pending[n - 1]);
            }
        }
    }
}

/// A full pack is written before further blocks are taken up, one at a time; a
/// track with room and no full pack takes up the next block at once.
pub proof fn law_full_pack_leaves_first(load: TrackLoad, limit: usize, full: bool)
    ensures
        ({
            let step = spec_step(load, FlowDemand::Room(limit), full);
            &&& step == StepKind::WritePack <==> load.held > 0 && full && load.leaving == 0
            &&& step == StepKind::Proceed && load.held > 0 ==> !full
            &&& step == StepKind::Proceed ==> load.encoding < limit || load.encoding == 0
            &&& load.encoding < limit && !full ==> step == StepKind::Proceed
        }),
{
}

/// A pack is full once its blocks' bytes reach the target, or its blocks the
/// limit; adding a block never makes a full pack less than full.
pub proof fn law_pack_fills_up(cfg: PackConfig, held: Seq<PackEntry>, entry: PackEntry)
    ensures
        is_full(cfg, held) ==> is_full(cfg, held.push(entry)),
        held.len() >= cfg.max_blocks ==> is_full(cfg, held),
        entry.combined_blob@.len() >= cfg.target_bytes ==> is_full(cfg, held.push(entry)),
        cfg.max_blocks > 0 && cfg.target_bytes > 0 ==> !is_full(cfg, Seq::<PackEntry>::empty()),
        accounted_total(held.push(entry)) >= accounted_total(held)
            + entry.combined_blob@.len(),
{
    let more = held.push(entry);
    assert(more.drop_last() =~= held);
    assert(more.last() == entry);
    assert(accounted(entry) >= entry.combined_blob@.len());
}

} // verus!
