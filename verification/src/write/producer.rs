//! The producer's decisions: what to fetch next, which ids a block gets, and
//! when to flush and checkpoint.

use vstd::prelude::*;

use crate::primitives::at_least_one;
use crate::types::ingest_types::FinalizedBlock;
use crate::write::family::{assignable, log_total, AssignedBlock, FamilyFrontier, FamilyRanges};

verus! {

/// When the producer emits signals. The flush interval is a smooth function of
/// the distance to the uploaded tip: every block at the tip, coarser the
/// farther behind.
#[derive(Debug, Clone, Copy, PartialEq, Eq, Structural)]
pub struct SignalPolicy {
    /// Divides the distance to the tip to get the flush interval (min 1).
    pub tip_lag_divisor: u64,
    /// Emit a checkpoint every so many blocks.
    pub checkpoint_every_blocks: u64,
    /// Whether checkpoints are emitted at all.
    pub checkpoints_enabled: bool,
}

/// Producer fetch parallelism: `concurrency` caps active fetches; `buffer` is
/// the ordered look-ahead window.
#[derive(Debug, Clone, Copy, PartialEq, Eq, Structural)]
pub struct Prefetch {
    pub concurrency: usize,
    pub buffer: usize,
}

impl Prefetch {
    /// How many fetches run at once.
    pub fn permits(&self) -> (permits: usize)
        ensures
            permits == if self.concurrency == 0 {
                1
            } else {
                self.concurrency
            },
    {
        if self.concurrency == 0 {
            1
        } else {
            self.concurrency
        }
    }

    /// How many fetches are held in order: the buffer, but no fewer than run
    /// at once.
    pub fn window(&self) -> (window: usize)
        ensures
            window >= 1,
            window >= self.buffer,
            window >= self.concurrency,
            window == 1 || window == self.buffer || window == self.concurrency,
    {
        let wider: usize = if self.buffer < self.concurrency {
            self.concurrency
        } else {
            self.buffer
        };
        if wider == 0 {
            1
        } else {
            wider
        }
    }
}

/// Which signals to send.
#[derive(Debug, Clone, Copy, PartialEq, Eq, Structural)]
pub struct Signals {
    pub flush: bool,
    pub checkpoint: bool,
}

/// Cross-block id frontier and signal cadence counters.
#[derive(Debug, Clone, Copy)]
pub struct Signaller {
    pub frontier: FamilyFrontier,
    pub policy: SignalPolicy,
    pub since_flush: u64,
    pub since_ckpt: u64,
    /// Last block fed downstream.
    pub last_block: u64,
    /// Uploaded tip from the most recent poll; `None` before the first poll.
    pub observed_tip: Option<u64>,
}

/// The distance to the tip; before the first poll it is as large as can be.
pub open spec fn tip_distance(observed_tip: Option<u64>, last_block: u64) -> int {
    match observed_tip {
        None => u64::MAX as int,
        Some(tip) => if tip > last_block {
            tip - last_block
        } else {
            0
        },
    }
}

/// The flush interval: the distance over the divisor, at least one; without
/// checkpoints the published head is the only resume point, so it is also at
/// most the checkpoint cadence.
pub open spec fn spec_flush_interval(
    policy: SignalPolicy,
    observed_tip: Option<u64>,
    last_block: u64,
) -> int {
    let interval = at_least_one(
        tip_distance(observed_tip, last_block) / at_least_one(policy.tip_lag_divisor as int),
    );
    let cadence = at_least_one(policy.checkpoint_every_blocks as int);
    if !policy.checkpoints_enabled && cadence < interval {
        cadence
    } else {
        interval
    }
}

impl Signaller {
    /// `last_block` seeds the distance to the tip: the resume block.
    pub fn new(frontier: FamilyFrontier, policy: SignalPolicy, last_block: u64) -> (signaller:
        Signaller)
        ensures
            signaller == (Signaller {
                frontier,
                policy,
                since_flush: 0,
                since_ckpt: 0,
                last_block,
                observed_tip: None,
            }),
    {
        Signaller {
            frontier,
            policy,
            since_flush: 0,
            since_ckpt: 0,
            last_block,
            observed_tip: None,
        }
    }

    /// Assigns ids to a block and counts it toward both cadences.
    pub fn feed(&mut self, block: FinalizedBlock) -> (assigned: AssignedBlock)
        requires
            assignable(old(self).frontier, block),
            old(self).since_flush < u64::MAX,
            old(self).since_ckpt < u64::MAX,
        ensures
            assigned.wf(),
            assigned.number == block.header.number,
            assigned.block == block,
            assigned.ranges == (FamilyRanges {
                log_first: old(self).frontier.log,
                log_count: log_total(block) as u32,
                tx_first: old(self).frontier.tx,
                tx_count: block.txs@.len() as u32,
                trace_first: old(self).frontier.trace,
                trace_count: block.traces@.len() as u32,
            }),
            final(self).frontier.log == old(self).frontier.log + log_total(block),
            final(self).frontier.tx == old(self).frontier.tx + block.txs@.len(),
            final(self).frontier.trace == old(self).frontier.trace + block.traces@.len(),
            final(self).policy == old(self).policy,
            final(self).since_flush == old(self).since_flush + 1,
            final(self).since_ckpt == old(self).since_ckpt + 1,
            final(self).last_block == block.header.number,
            final(self).observed_tip == old(self).observed_tip,
    {
        let number: u64 = block.block_number();
        self.last_block = number;
        let ranges = self.frontier.assign(&block);
        self.since_flush = self.since_flush + 1;
        self.since_ckpt = self.since_ckpt + 1;
        AssignedBlock { number, ranges, block }
    }

    /// The active flush interval.
    pub fn flush_interval(&self) -> (interval: u64)
        ensures
            interval == spec_flush_interval(self.policy, self.observed_tip, self.last_block),
            interval >= 1,
    {
        let distance: u64 = match self.observed_tip {
            None => u64::MAX,
            Some(tip) => if tip > self.last_block {
                tip - self.last_block
            } else {
                0
            },
        };
        let divisor: u64 = if self.policy.tip_lag_divisor < 1 {
            1
        } else {
            self.policy.tip_lag_divisor
        };
        let quotient: u64 = distance / divisor;
        let interval: u64 = if quotient < 1 {
            1
        } else {
            quotient
        };
        let cadence: u64 = if self.policy.checkpoint_every_blocks < 1 {
            1
        } else {
            self.policy.checkpoint_every_blocks
        };
        if !self.policy.checkpoints_enabled && cadence < interval {
            cadence
        } else {
            interval
        }
    }

    /// Decides which signals are due. The cadences are independent, so both
    /// may fire together; each resets its own counter.
    pub fn maybe_signal(&mut self) -> (signals: Signals)
        ensures
            signals.flush == (old(self).since_flush >= spec_flush_interval(
                old(self).policy,
                old(self).observed_tip,
                old(self).last_block,
            )),
            signals.checkpoint == (old(self).policy.checkpoints_enabled && old(self).since_ckpt
                >= old(self).policy.checkpoint_every_blocks),
            *final(self) == (Signaller {
                since_flush: if signals.flush {
                    0
                } else {
                    old(self).since_flush
                },
                since_ckpt: if signals.checkpoint {
                    0
                } else {
                    old(self).since_ckpt
                },
                ..*old(self)
            }),
    {
        let flush: bool = self.since_flush >= self.flush_interval();
        if flush {
            self.since_flush = 0;
        }
        let checkpoint: bool = self.policy.checkpoints_enabled && self.since_ckpt
            >= self.policy.checkpoint_every_blocks;
        if checkpoint {
            self.since_ckpt = 0;
        }
        Signals { flush, checkpoint }
    }

    /// The end of a bounded run: a final flush so the head reaches the last
    /// block, then a checkpoint, if enabled, so that a resume is cheap.
    pub fn terminate(&self) -> (signals: Signals)
        ensures
            signals == (Signals { flush: true, checkpoint: self.policy.checkpoints_enabled }),
    {
        Signals { flush: true, checkpoint: self.policy.checkpoints_enabled }
    }
}

/// At the tip every fed block is flushed, whatever the divisor.
pub proof fn law_tip_flushes_every_block(policy: SignalPolicy, last_block: u64, tip: u64)
    requires
        tip <= last_block,
    ensures
        spec_flush_interval(policy, Some(tip), last_block) == 1,
{
    let divisor = at_least_one(policy.tip_lag_divisor as int);
    assert(0int / divisor == 0) by (nonlinear_arith)
        requires
            divisor >= 1,
    ;
}

/// Without checkpoints a flush comes at least every checkpoint cadence.
pub proof fn law_flushes_stand_in_for_checkpoints(
    policy: SignalPolicy,
    observed_tip: Option<u64>,
    last_block: u64,
)
    requires
        !policy.checkpoints_enabled,
    ensures
        spec_flush_interval(policy, observed_tip, last_block) <= at_least_one(
            policy.checkpoint_every_blocks as int,
        ),
{
}

/// How far a run goes.
#[derive(Debug, Clone, Copy, PartialEq, Eq, Structural)]
pub enum RunBound {
    /// It follows the tip for ever.
    Open,
    /// It ends behind this block.
    Through(u64),
    /// It fetches no block at all.
    Nothing,
}

impl RunBound {
    /// A block lies within the bound.
    pub open spec fn admits_block(self, block: u64) -> bool {
        match self {
            RunBound::Open => true,
            RunBound::Through(last) => block <= last,
            RunBound::Nothing => false,
        }
    }

    /// Whether a run whose next block is `next` is over.
    pub fn is_passed(&self, next: u64) -> (passed: bool)
        ensures
            passed == !self.admits_block(next),
    {
        match self {
            RunBound::Open => false,
            RunBound::Through(last) => next > *last,
            RunBound::Nothing => true,
        }
    }
}

/// `target` is the last block from `next` on that is uploaded and within the
/// bound; `None` says that there is none.
pub open spec fn is_fetch_target(
    latest: Option<u64>,
    bound: RunBound,
    next: u64,
    target: Option<u64>,
) -> bool {
    match target {
        Some(target) => {
            &&& next <= target
            &&& is_available(latest, bound, target)
            &&& forall|b: u64| target < b ==> !#[trigger] is_available(latest, bound, b)
        },
        None => forall|b: u64| next <= b ==> !#[trigger] is_available(latest, bound, b),
    }
}

/// A block is uploaded and within the bound.
pub open spec fn is_available(latest: Option<u64>, bound: RunBound, block: u64) -> bool {
    latest is Some && block <= latest->Some_0 && bound.admits_block(block)
}

/// The blocks to fetch after a poll: from `next` to the uploaded tip, but not
/// past the bound. `None` when there are none.
pub fn plan_fetch(latest: Option<u64>, bound: RunBound, next: u64) -> (target: Option<u64>)
    ensures
        is_fetch_target(latest, bound, next, target),
{
    match latest {
        None => None,
        Some(tip) => {
            let target: u64 = match bound {
                RunBound::Open => tip,
                RunBound::Through(last) => if last < tip {
                    last
                } else {
                    tip
                },
                RunBound::Nothing => {
                    return None;
                },
            };
            if target >= next {
                assert(is_available(latest, bound, target));
                Some(target)
            } else {
                None
            }
        },
    }
}

/// What to do once a poll's blocks are fed.
#[derive(Debug, Clone, Copy, PartialEq, Eq, Structural)]
pub enum AfterPoll {
    /// More is uploaded: poll again at once.
    Continue,
    /// The bound is passed: terminal signals, then stop.
    Terminate,
    /// The tip is drained: wait for the poll interval.
    Sleep,
}

/// Decides what follows a poll. `fed` says whether it fetched anything; `next`
/// is the next block to fetch.
pub fn after_poll(latest: Option<u64>, bound: RunBound, next: u64, fed: bool) -> (step: AfterPoll)
    ensures
        step == if fed && latest is Some && next <= latest->Some_0 {
            AfterPoll::Continue
        } else if !bound.admits_block(next) {
            AfterPoll::Terminate
        } else {
            AfterPoll::Sleep
        },
{
    if fed {
        if let Some(tip) = latest {
            if next <= tip {
                return AfterPoll::Continue;
            }
        }
    }
    if bound.is_passed(next) {
        AfterPoll::Terminate
    } else {
        AfterPoll::Sleep
    }
}

} // verus!
