//! The three record families and the ids minted for them.

use vstd::prelude::*;

use crate::types::ingest_types::{lemma_logs_before_monotonic, logs_before, FinalizedBlock};

verus! {

/// A kind of record with its own id space.
#[derive(Debug, Clone, Copy, PartialEq, Eq, Structural)]
pub enum Family {
    Log,
    Tx,
    Trace,
}

/// One value per family.
#[derive(Debug, Clone, Copy)]
pub struct PerFamily<T> {
    pub log: T,
    pub tx: T,
    pub trace: T,
}

/// Per-family next-primary-id frontier.
pub type FamilyFrontier = PerFamily<u64>;

/// The id ranges of one block.
#[derive(Debug, Clone, Copy, PartialEq, Eq, Structural)]
pub struct FamilyRanges {
    pub log_first: u64,
    pub log_count: u32,
    pub tx_first: u64,
    pub tx_count: u32,
    pub trace_first: u64,
    pub trace_count: u32,
}

impl FamilyRanges {
    /// Every range ends at a number.
    pub open spec fn wf(self) -> bool {
        &&& self.log_first + self.log_count <= u64::MAX
        &&& self.tx_first + self.tx_count <= u64::MAX
        &&& self.trace_first + self.trace_count <= u64::MAX
    }

    pub fn log_end(&self) -> (end: u64)
        requires
            self.wf(),
        ensures
            end == self.log_first + self.log_count,
    {
        self.log_first + self.log_count as u64
    }

    pub fn tx_end(&self) -> (end: u64)
        requires
            self.wf(),
        ensures
            end == self.tx_first + self.tx_count,
    {
        self.tx_first + self.tx_count as u64
    }

    pub fn trace_end(&self) -> (end: u64)
        requires
            self.wf(),
        ensures
            end == self.trace_first + self.trace_count,
    {
        self.trace_first + self.trace_count as u64
    }
}

/// How many logs a block holds.
pub open spec fn log_total(block: FinalizedBlock) -> nat {
    logs_before(block.logs_by_tx@, block.logs_by_tx@.len() as int)
}

/// A block's records can be counted and numbered from the frontier on.
pub open spec fn assignable(frontier: FamilyFrontier, block: FinalizedBlock) -> bool {
    &&& log_total(block) <= u32::MAX
    &&& block.txs@.len() <= u32::MAX
    &&& block.traces@.len() <= u32::MAX
    &&& frontier.log + log_total(block) <= u64::MAX
    &&& frontier.tx + block.txs@.len() <= u64::MAX
    &&& frontier.trace + block.traces@.len() <= u64::MAX
}

/// The ids that a block's records get from the frontier on.
pub open spec fn ranges_from(frontier: FamilyFrontier, block: FinalizedBlock) -> FamilyRanges {
    FamilyRanges {
        log_first: frontier.log,
        log_count: log_total(block) as u32,
        tx_first: frontier.tx,
        tx_count: block.txs@.len() as u32,
        trace_first: frontier.trace,
        trace_count: block.traces@.len() as u32,
    }
}

/// The frontier behind a block's records.
pub open spec fn advanced(frontier: FamilyFrontier, block: FinalizedBlock) -> FamilyFrontier {
    PerFamily {
        log: (frontier.log + log_total(block)) as u64,
        tx: (frontier.tx + block.txs@.len()) as u64,
        trace: (frontier.trace + block.traces@.len()) as u64,
    }
}

/// The frontier before block `i` of a run.
pub open spec fn frontier_before(
    frontier: FamilyFrontier,
    blocks: Seq<FinalizedBlock>,
    i: int,
) -> FamilyFrontier
    decreases i,
{
    if i <= 0 {
        frontier
    } else {
        advanced(frontier_before(frontier, blocks, i - 1), blocks[i - 1])
    }
}

/// Every block of a run can be numbered where its turn comes.
pub open spec fn run_assignable(frontier: FamilyFrontier, blocks: Seq<FinalizedBlock>) -> bool {
    forall|i: int|
        0 <= i < blocks.len() ==> assignable(
            #[trigger] frontier_before(frontier, blocks, i),
            blocks[i],
        )
}

/// The ids of block `i` of a run.
pub open spec fn ranges_at(
    frontier: FamilyFrontier,
    blocks: Seq<FinalizedBlock>,
    i: int,
) -> FamilyRanges {
    ranges_from(frontier_before(frontier, blocks, i), blocks[i])
}

/// Ids are handed out without gap or overlap: of two blocks of a run, the
/// earlier one's ids end at or below where the later one's begin, and they
/// abut where only empty blocks stand between.
pub proof fn law_ids_are_contiguous(
    frontier: FamilyFrontier,
    blocks: Seq<FinalizedBlock>,
    i: int,
    j: int,
)
    requires
        run_assignable(frontier, blocks),
        0 <= i < j < blocks.len(),
    ensures
        ({
            let a = ranges_at(frontier, blocks, i);
            let b = ranges_at(frontier, blocks, j);
            &&& a.log_first + a.log_count <= b.log_first
            &&& a.tx_first + a.tx_count <= b.tx_first
            &&& a.trace_first + a.trace_count <= b.trace_first
            &&& (forall|k: int|
                i < k < j ==> #[trigger] log_total(blocks[k]) == 0) ==> a.log_first + a.log_count
                == b.log_first
            &&& (forall|k: int|
                i < k < j ==> #[trigger] blocks[k].txs@.len() == 0) ==> a.tx_first + a.tx_count
                == b.tx_first
            &&& (forall|k: int|
                i < k < j ==> #[trigger] blocks[k].traces@.len() == 0) ==> a.trace_first
                + a.trace_count == b.trace_first
        }),
    decreases j,
{
    let at = frontier_before(frontier, blocks, j - 1);
    assert(assignable(at, blocks[j - 1]));
    assert(frontier_before(frontier, blocks, j) == advanced(at, blocks[j - 1]));
    if i < j - 1 {
        law_ids_are_contiguous(frontier, blocks, i, j - 1);
    }
}

/// How many logs a block holds, where there are fewer than `2^32`.
pub fn count_logs(block: &FinalizedBlock) -> (count: u32)
    requires
        log_total(*block) <= u32::MAX,
    ensures
        count == log_total(*block),
{
    let ghost all = block.logs_by_tx@;
    let mut count: u32 = 0;
    let mut t: usize = 0;
    while t < block.logs_by_tx.len()
        invariant
            all == block.logs_by_tx@,
            t <= all.len(),
            count == logs_before(all, t as int),
            logs_before(all, all.len() as int) <= u32::MAX,
        decreases all.len() - t,
    {
        proof {
            lemma_logs_before_monotonic(all, t + 1, all.len() as int);
        }
        count = count + block.logs_by_tx[t].len() as u32;
        t = t + 1;
    }
    count
}

impl PerFamily<u64> {
    /// Mints the next ids of every family for a block: each range starts at
    /// the frontier, which moves to the range's end.
    pub fn assign(&mut self, block: &FinalizedBlock) -> (ranges: FamilyRanges)
        requires
            assignable(*old(self), *block),
        ensures
            ranges == ranges_from(*old(self), *block),
            ranges.wf(),
            *final(self) == advanced(*old(self), *block),
    {
        let log_count: u32 = count_logs(block);
        let tx_count: u32 = block.txs.len() as u32;
        let trace_count: u32 = block.traces.len() as u32;
        let ranges = FamilyRanges {
            log_first: self.log,
            log_count,
            tx_first: self.tx,
            tx_count,
            trace_first: self.trace,
            trace_count,
        };
        self.log = self.log + log_count as u64;
        self.tx = self.tx + tx_count as u64;
        self.trace = self.trace + trace_count as u64;
        ranges
    }
}

/// A block together with the ids of its records.
pub struct AssignedBlock {
    pub number: u64,
    pub ranges: FamilyRanges,
    pub block: FinalizedBlock,
}

impl AssignedBlock {
    /// The ranges are as long as the block's record lists.
    pub open spec fn wf(self) -> bool {
        &&& self.ranges.wf()
        &&& self.ranges.log_count == log_total(self.block)
        &&& self.ranges.tx_count == self.block.txs@.len()
        &&& self.ranges.trace_count == self.block.traces@.len()
    }
}

} // verus!
