//! The index engine over all three families: accumulate a block, seal what it
//! completed, flush the tail.

use vstd::prelude::*;

use crate::errors::{QueryError, Result};
use crate::types::ingest_types::IngestTx;
use crate::types::txs::envelope_2718_body;
use crate::write::artifacts::{burst_contents, contents, seal_family, ArtifactWrite};
use crate::write::bitmap::spec_seal_boundary;
use crate::write::dir::{
    breaks_at, bucket_fails, is_compaction, linked, links, overlapping, span_starts, PrimaryDirBucket,
};
use crate::write::entries::{
    block_log_entries, block_log_streams, block_trace_entries, block_trace_streams,
    block_tx_entries, record_ids, tx_streams_at,
};
use crate::write::family::{AssignedBlock, Family, FamilyFrontier};
use crate::write::flush::{flush_contents, flush_family, is_flushed};
use crate::write::index::{
    accumulate_family, after_record, after_records, lemma_after_records_wf, ChainDigest,
    FamilyState, FamilyTail, OpenState, OpenTail,
};
use crate::write::pages::joined;
use crate::write::seal_laws::same_content;
use crate::write::seal::{family_wf, is_burst, is_left, is_span, SealBurst, SealedPage};

verus! {

/// The open working set, the next id of each family, and the last block.
pub struct IndexCore {
    pub state: OpenState,
    pub tail: OpenTail,
    /// Next id per family after the latest accumulated block.
    pub frontier: FamilyFrontier,
    pub last_block: u64,
}

/// Open pages hold ids below the frontier only.
pub open spec fn pages_below(pages: Map<(Seq<char>, u64), Set<u32>>, frontier: u64) -> bool {
    forall|key: (Seq<char>, u64)| #[trigger] pages.contains_key(key) ==> key.1 < frontier
}

/// One family's working set fits its frontier.
pub open spec fn track_wf(state: FamilyState, tail: FamilyTail, frontier: u64) -> bool {
    &&& family_wf(state, tail)
    &&& state.sealed_id <= frontier
    &&& pages_below(state.bits(), frontier)
    &&& pages_below(tail.bits(), frontier)
}

/// What accumulating one block's records of one family does to the tail.
pub open spec fn is_accumulated(
    before: FamilyTail,
    after: FamilyTail,
    first: u64,
    count: u32,
    block: u64,
    records: Seq<Seq<Seq<char>>>,
) -> bool {
    &&& after.bits() == after_records(before.bits(), first, records)
    &&& after.dir@ == if count > 0 {
        before.dir@.push((block, first, (first + count) as u64))
    } else {
        before.dir@
    }
}

/// What a seal of one family does, beside its writes.
pub open spec fn is_sealed<
    F: Fn(ChainDigest, u64, &Vec<SealedPage>, &PrimaryDirBucket) -> ChainDigest,
>(
    before: (FamilyState, FamilyTail),
    after: (FamilyState, FamilyTail),
    frontier: u64,
    fold: F,
    burst: SealBurst,
) -> bool {
    &&& is_burst(before.0, before.1, frontier, fold, burst)
    &&& is_left(before.0, before.1, frontier, burst, after.0, after.1)
}

/// A family was sealed.
pub open spec fn was_sealed<
    F: Fn(ChainDigest, u64, &Vec<SealedPage>, &PrimaryDirBucket) -> ChainDigest,
>(
    before: (FamilyState, FamilyTail),
    after: (FamilyState, FamilyTail),
    frontier: u64,
    fold: F,
) -> bool {
    exists|burst: SealBurst| #[trigger] is_sealed(before, after, frontier, fold, burst)
}

/// A seal of one family fails.
pub open spec fn seal_fails(
    state: FamilyState,
    tail: FamilyTail,
    frontier: u64,
    error: QueryError,
) -> bool {
    bucket_fails(
        state.dir@ + tail.dir@,
        span_starts(state.sealed_id, spec_seal_boundary(frontier)),
        error,
    )
}

/// A family that was sealed has nothing to fail with, so a seal of all families
/// reports the first one that fails.
pub proof fn law_sealed_family_does_not_fail<
    F: Fn(ChainDigest, u64, &Vec<SealedPage>, &PrimaryDirBucket) -> ChainDigest,
>(
    before: (FamilyState, FamilyTail),
    after: (FamilyState, FamilyTail),
    frontier: u64,
    fold: F,
    error: QueryError,
)
    requires
        was_sealed(before, after, frontier, fold),
    ensures
        !seal_fails(before.0, before.1, frontier, error),
{
    let burst = choose|burst: SealBurst| #[trigger] is_sealed(before, after, frontier, fold, burst);
    let dir = before.0.dir@ + before.1.dir@;
    let starts = span_starts(before.0.sealed_id, spec_seal_boundary(frontier));
    assert forall|k: int| 0 <= k < starts.len() implies !is_compaction(
        overlapping(dir, #[trigger] starts[k]),
        Err::<PrimaryDirBucket, QueryError>(error),
    ) by {
        let kept = overlapping(dir, starts[k]);
        assert(is_span(
            burst.spans@,
            k,
            starts[k],
            joined(before.0.bits(), before.1.bits()),
            dir,
            before.0.seal_chain,
            fold,
        ));
        assert(linked(kept));
        assert forall|i: int| !#[trigger] breaks_at(kept, i) by {
            if 0 < i < kept.len() {
                assert(links(kept, i));
            }
        }
    }
}

proof fn lemma_after_record_below(
    pages: Map<(Seq<char>, u64), Set<u32>>,
    id: u64,
    streams: Seq<Seq<char>>,
    frontier: u64,
)
    requires
        pages_below(pages, frontier),
        id < frontier,
    ensures
        pages_below(after_record(pages, id, streams), frontier),
    decreases streams.len(),
{
    if streams.len() > 0 {
        lemma_after_record_below(pages, id, streams.drop_last(), frontier);
    }
}

proof fn lemma_after_records_below(
    pages: Map<(Seq<char>, u64), Set<u32>>,
    first: u64,
    records: Seq<Seq<Seq<char>>>,
    frontier: u64,
)
    requires
        pages_below(pages, frontier),
        first + records.len() <= frontier,
    ensures
        pages_below(after_records(pages, first, records), frontier),
    decreases records.len(),
{
    if records.len() > 0 {
        lemma_after_records_below(pages, first, records.drop_last(), frontier);
        lemma_after_record_below(
            after_records(pages, first, records.drop_last()),
            (first + records.len() - 1) as u64,
            records.last(),
            frontier,
        );
    }
}

/// Between a seal and the next block one page per family is open: the one
/// that starts at the seal boundary. Fragments and inventories of a flush all
/// belong to it.
pub proof fn law_one_open_page(
    state: FamilyState,
    tail: FamilyTail,
    frontier: u64,
    key: (Seq<char>, u64),
)
    requires
        track_wf(state, tail, frontier),
        state.sealed_id == spec_seal_boundary(frontier),
        state.bits().contains_key(key) || tail.bits().contains_key(key),
    ensures
        key.1 == state.sealed_id,
{
}

impl IndexCore {
    pub open spec fn wf(self) -> bool {
        &&& track_wf(self.state.log, self.tail.log, self.frontier.log)
        &&& track_wf(self.state.tx, self.tail.tx, self.frontier.tx)
        &&& track_wf(self.state.trace, self.tail.trace, self.frontier.trace)
    }

    /// The block's ids continue where the frontier stands.
    pub open spec fn continues(self, block: AssignedBlock) -> bool {
        &&& block.wf()
        &&& block.ranges.log_first == self.frontier.log
        &&& block.ranges.tx_first == self.frontier.tx
        &&& block.ranges.trace_first == self.frontier.trace
    }

    /// Starts from a recovered working set at its resume block.
    pub fn new(state: OpenState, tail: OpenTail, frontier: FamilyFrontier, resume: u64) -> (core:
        IndexCore)
        ensures
            core == (IndexCore { state, tail, frontier, last_block: resume }),
    {
        IndexCore { state, tail, frontier, last_block: resume }
    }

    /// Inserts one block's ids into the tail and advances the seal frontier.
    /// A tx envelope that does not decode is an error and changes nothing.
    pub fn accumulate(&mut self, block: &AssignedBlock) -> (result: Result<()>)
        requires
            old(self).wf(),
            old(self).continues(*block),
        ensures
            final(self).wf(),
            match result {
                Ok(_) => {
                    &&& is_accumulated(
                        old(self).tail.log,
                        final(self).tail.log,
                        block.ranges.log_first,
                        block.ranges.log_count,
                        block.number,
                        block_log_streams(block.block.logs_by_tx@),
                    )
                    &&& is_accumulated(
                        old(self).tail.tx,
                        final(self).tail.tx,
                        block.ranges.tx_first,
                        block.ranges.tx_count,
                        block.number,
                        block.block.txs@.map_values(|tx: IngestTx| tx_streams_at(tx)),
                    )
                    &&& is_accumulated(
                        old(self).tail.trace,
                        final(self).tail.trace,
                        block.ranges.trace_first,
                        block.ranges.trace_count,
                        block.number,
                        block_trace_streams(block.block.traces@),
                    )
                    &&& forall|i: int|
                        0 <= i < block.block.txs@.len() ==> envelope_2718_body(
                            (#[trigger] block.block.txs@[i]).signed_tx_bytes@,
                        ) is Some
                    &&& final(self).state == old(self).state
                    &&& final(self).frontier.log == block.ranges.log_first
                        + block.ranges.log_count
                    &&& final(self).frontier.tx == block.ranges.tx_first + block.ranges.tx_count
                    &&& final(self).frontier.trace == block.ranges.trace_first
                        + block.ranges.trace_count
                    &&& final(self).last_block == block.number
                },
                Err(error) => {
                    &&& exists|i: int|
                        0 <= i < block.block.txs@.len() && envelope_2718_body(
                            (#[trigger] block.block.txs@[i]).signed_tx_bytes@,
                        ) is None
                    &&& error == QueryError::Decode("invalid signed tx envelope")
                    &&& *final(self) == *old(self)
                },
            },
    {
        let txs = match block_tx_entries(&block.block) {
            Ok(txs) => txs,
            Err(error) => {
                return Err(error);
            },
        };
        let logs = block_log_entries(&block.block);
        let traces = block_trace_entries(&block.block);
        let ghost log_ids = record_ids(logs@);
        let ghost tx_ids = record_ids(txs@);
        let ghost trace_ids = record_ids(traces@);
        proof {
            lemma_after_records_wf(
                self.tail.log.bits(),
                block.ranges.log_first,
                log_ids,
                self.state.log.sealed_id,
            );
            lemma_after_records_wf(
                self.tail.tx.bits(),
                block.ranges.tx_first,
                tx_ids,
                self.state.tx.sealed_id,
            );
            lemma_after_records_wf(
                self.tail.trace.bits(),
                block.ranges.trace_first,
                trace_ids,
                self.state.trace.sealed_id,
            );
            lemma_after_records_below(
                self.tail.log.bits(),
                block.ranges.log_first,
                log_ids,
                (block.ranges.log_first + block.ranges.log_count) as u64,
            );
            lemma_after_records_below(
                self.tail.tx.bits(),
                block.ranges.tx_first,
                tx_ids,
                (block.ranges.tx_first + block.ranges.tx_count) as u64,
            );
            lemma_after_records_below(
                self.tail.trace.bits(),
                block.ranges.trace_first,
                trace_ids,
                (block.ranges.trace_first + block.ranges.trace_count) as u64,
            );
        }
        let number: u64 = block.number;
        let log_done = accumulate_family(
            &mut self.tail.log,
            block.ranges.log_first,
            block.ranges.log_count,
            number,
            Ok(logs),
        );
        let tx_done = accumulate_family(
            &mut self.tail.tx,
            block.ranges.tx_first,
            block.ranges.tx_count,
            number,
            Ok(txs),
        );
        let trace_done = accumulate_family(
            &mut self.tail.trace,
            block.ranges.trace_first,
            block.ranges.trace_count,
            number,
            Ok(traces),
        );
        assert(log_done is Ok && tx_done is Ok && trace_done is Ok);
        self.frontier.log = block.ranges.log_end();
        self.frontier.tx = block.ranges.tx_end();
        self.frontier.trace = block.ranges.trace_end();
        self.last_block = number;
        Ok(())
    }

    /// Seals every granule the frontier completed, family by family. Each
    /// family has its own way to continue its seal chain.
    pub fn seal_ready<
        L: Fn(ChainDigest, u64, &Vec<SealedPage>, &PrimaryDirBucket) -> ChainDigest,
        T: Fn(ChainDigest, u64, &Vec<SealedPage>, &PrimaryDirBucket) -> ChainDigest,
        C: Fn(ChainDigest, u64, &Vec<SealedPage>, &PrimaryDirBucket) -> ChainDigest,
    >(&mut self, log_fold: &L, tx_fold: &T, trace_fold: &C) -> (result: Result<Vec<ArtifactWrite>>)
        requires
            old(self).wf(),
            forall|chain: ChainDigest, start: u64, pages: &Vec<SealedPage>, bucket: &PrimaryDirBucket|
                call_requires(*log_fold, (chain, start, pages, bucket)),
            forall|chain: ChainDigest, start: u64, pages: &Vec<SealedPage>, bucket: &PrimaryDirBucket|
                call_requires(*tx_fold, (chain, start, pages, bucket)),
            forall|chain: ChainDigest, start: u64, pages: &Vec<SealedPage>, bucket: &PrimaryDirBucket|
                call_requires(*trace_fold, (chain, start, pages, bucket)),
        ensures
            final(self).wf(),
            final(self).frontier == old(self).frontier,
            final(self).last_block == old(self).last_block,
            match result {
                Ok(writes) => exists|log: SealBurst, tx: SealBurst, trace: SealBurst|
                    {
                        &&& #[trigger] is_sealed(
                            (old(self).state.log, old(self).tail.log),
                            (final(self).state.log, final(self).tail.log),
                            old(self).frontier.log,
                            *log_fold,
                            log,
                        )
                        &&& #[trigger] is_sealed(
                            (old(self).state.tx, old(self).tail.tx),
                            (final(self).state.tx, final(self).tail.tx),
                            old(self).frontier.tx,
                            *tx_fold,
                            tx,
                        )
                        &&& #[trigger] is_sealed(
                            (old(self).state.trace, old(self).tail.trace),
                            (final(self).state.trace, final(self).tail.trace),
                            old(self).frontier.trace,
                            *trace_fold,
                            trace,
                        )
                        &&& contents(writes@) == burst_contents(
                            Family::Log,
                            old(self).last_block,
                            log,
                        ) + burst_contents(Family::Tx, old(self).last_block, tx) + burst_contents(
                            Family::Trace,
                            old(self).last_block,
                            trace,
                        )
                    },
                Err(error) => {
                    ||| {
                        &&& seal_fails(
                            old(self).state.log,
                            old(self).tail.log,
                            old(self).frontier.log,
                            error,
                        )
                        &&& *final(self) == *old(self)
                    }
                    ||| {
                        &&& was_sealed(
                            (old(self).state.log, old(self).tail.log),
                            (final(self).state.log, final(self).tail.log),
                            old(self).frontier.log,
                            *log_fold,
                        )
                        &&& seal_fails(
                            old(self).state.tx,
                            old(self).tail.tx,
                            old(self).frontier.tx,
                            error,
                        )
                        &&& final(self).state.tx == old(self).state.tx
                        &&& final(self).tail.tx == old(self).tail.tx
                        &&& final(self).state.trace == old(self).state.trace
                        &&& final(self).tail.trace == old(self).tail.trace
                    }
                    ||| {
                        &&& was_sealed(
                            (old(self).state.log, old(self).tail.log),
                            (final(self).state.log, final(self).tail.log),
                            old(self).frontier.log,
                            *log_fold,
                        )
                        &&& was_sealed(
                            (old(self).state.tx, old(self).tail.tx),
                            (final(self).state.tx, final(self).tail.tx),
                            old(self).frontier.tx,
                            *tx_fold,
                        )
                        &&& seal_fails(
                            old(self).state.trace,
                            old(self).tail.trace,
                            old(self).frontier.trace,
                            error,
                        )
                        &&& final(self).state.trace == old(self).state.trace
                        &&& final(self).tail.trace == old(self).tail.trace
                    }
                },
            },
    {
        let block: u64 = self.last_block;
        let mut writes = match seal_family(
            Family::Log,
            &mut self.state.log,
            &mut self.tail.log,
            self.frontier.log,
            block,
            log_fold,
        ) {
            Ok(writes) => writes,
            Err(error) => {
                return Err(error);
            },
        };
        proof {
            lemma_sealed_below(
                old(self).state.log,
                old(self).tail.log,
                self.state.log,
                self.tail.log,
                self.frontier.log,
            );
            let burst = choose|burst: SealBurst|
                #[trigger] is_burst(
                    old(self).state.log,
                    old(self).tail.log,
                    old(self).frontier.log,
                    *log_fold,
                    burst,
                ) && is_left(
                    old(self).state.log,
                    old(self).tail.log,
                    old(self).frontier.log,
                    burst,
                    self.state.log,
                    self.tail.log,
                );
            assert(is_sealed(
                (old(self).state.log, old(self).tail.log),
                (self.state.log, self.tail.log),
                old(self).frontier.log,
                *log_fold,
                burst,
            ));
        }
        let mut tx_writes = match seal_family(
            Family::Tx,
            &mut self.state.tx,
            &mut self.tail.tx,
            self.frontier.tx,
            block,
            tx_fold,
        ) {
            Ok(writes) => writes,
            Err(error) => {
                return Err(error);
            },
        };
        proof {
            lemma_sealed_below(
                old(self).state.tx,
                old(self).tail.tx,
                self.state.tx,
                self.tail.tx,
                self.frontier.tx,
            );
            let burst = choose|burst: SealBurst|
                #[trigger] is_burst(
                    old(self).state.tx,
                    old(self).tail.tx,
                    old(self).frontier.tx,
                    *tx_fold,
                    burst,
                ) && is_left(
                    old(self).state.tx,
                    old(self).tail.tx,
                    old(self).frontier.tx,
                    burst,
                    self.state.tx,
                    self.tail.tx,
                );
            assert(is_sealed(
                (old(self).state.tx, old(self).tail.tx),
                (self.state.tx, self.tail.tx),
                old(self).frontier.tx,
                *tx_fold,
                burst,
            ));
        }
        let mut trace_writes = match seal_family(
            Family::Trace,
            &mut self.state.trace,
            &mut self.tail.trace,
            self.frontier.trace,
            block,
            trace_fold,
        ) {
            Ok(writes) => writes,
            Err(error) => {
                return Err(error);
            },
        };
        proof {
            lemma_sealed_below(
                old(self).state.trace,
                old(self).tail.trace,
                self.state.trace,
                self.tail.trace,
                self.frontier.trace,
            );
        }
        let ghost log_contents = contents(writes@);
        let ghost tx_contents = contents(tx_writes@);
        let ghost trace_contents = contents(trace_writes@);
        writes.append(&mut tx_writes);
        writes.append(&mut trace_writes);
        assert(contents(writes@) =~= log_contents + tx_contents + trace_contents);
        proof {
            let log = choose|burst: SealBurst|
                #[trigger] is_burst(
                    old(self).state.log,
                    old(self).tail.log,
                    old(self).frontier.log,
                    *log_fold,
                    burst,
                ) && is_left(
                    old(self).state.log,
                    old(self).tail.log,
                    old(self).frontier.log,
                    burst,
                    self.state.log,
                    self.tail.log,
                ) && log_contents == burst_contents(Family::Log, block, burst);
            let tx = choose|burst: SealBurst|
                #[trigger] is_burst(
                    old(self).state.tx,
                    old(self).tail.tx,
                    old(self).frontier.tx,
                    *tx_fold,
                    burst,
                ) && is_left(
                    old(self).state.tx,
                    old(self).tail.tx,
                    old(self).frontier.tx,
                    burst,
                    self.state.tx,
                    self.tail.tx,
                ) && tx_contents == burst_contents(Family::Tx, block, burst);
            let trace = choose|burst: SealBurst|
                #[trigger] is_burst(
                    old(self).state.trace,
                    old(self).tail.trace,
                    old(self).frontier.trace,
                    *trace_fold,
                    burst,
                ) && is_left(
                    old(self).state.trace,
                    old(self).tail.trace,
                    old(self).frontier.trace,
                    burst,
                    self.state.trace,
                    self.tail.trace,
                ) && trace_contents == burst_contents(Family::Trace, block, burst);
            assert(is_sealed(
                (old(self).state.log, old(self).tail.log),
                (self.state.log, self.tail.log),
                old(self).frontier.log,
                *log_fold,
                log,
            ));
            assert(is_sealed(
                (old(self).state.tx, old(self).tail.tx),
                (self.state.tx, self.tail.tx),
                old(self).frontier.tx,
                *tx_fold,
                tx,
            ));
            assert(is_sealed(
                (old(self).state.trace, old(self).tail.trace),
                (self.state.trace, self.tail.trace),
                old(self).frontier.trace,
                *trace_fold,
                trace,
            ));
        }
        Ok(writes)
    }

    /// Flushes every family's tail at the last block, which becomes a
    /// publishable boundary once the writes are durable.
    pub fn batch_flush(&mut self) -> (writes: Vec<ArtifactWrite>)
        requires
            old(self).wf(),
        ensures
            final(self).wf(),
            contents(writes@) == flush_contents(
                Family::Log,
                old(self).last_block,
                old(self).tail.log.pages.entries@,
                old(self).state.log.open_streams_seen.set(),
                old(self).tail.log.dir@,
            ) + flush_contents(
                Family::Tx,
                old(self).last_block,
                old(self).tail.tx.pages.entries@,
                old(self).state.tx.open_streams_seen.set(),
                old(self).tail.tx.dir@,
            ) + flush_contents(
                Family::Trace,
                old(self).last_block,
                old(self).tail.trace.pages.entries@,
                old(self).state.trace.open_streams_seen.set(),
                old(self).tail.trace.dir@,
            ),
            is_flushed(
                (old(self).state.log, old(self).tail.log),
                (final(self).state.log, final(self).tail.log),
            ),
            is_flushed(
                (old(self).state.tx, old(self).tail.tx),
                (final(self).state.tx, final(self).tail.tx),
            ),
            is_flushed(
                (old(self).state.trace, old(self).tail.trace),
                (final(self).state.trace, final(self).tail.trace),
            ),
            same_content(
                old(self).state.log,
                old(self).tail.log,
                final(self).state.log,
                final(self).tail.log,
            ),
            same_content(
                old(self).state.tx,
                old(self).tail.tx,
                final(self).state.tx,
                final(self).tail.tx,
            ),
            same_content(
                old(self).state.trace,
                old(self).tail.trace,
                final(self).state.trace,
                final(self).tail.trace,
            ),
            final(self).frontier == old(self).frontier,
            final(self).last_block == old(self).last_block,
    {
        let block: u64 = self.last_block;
        let mut writes = flush_family(
            Family::Log,
            &mut self.state.log,
            &mut self.tail.log,
            block,
        );
        let mut tx_writes = flush_family(
            Family::Tx,
            &mut self.state.tx,
            &mut self.tail.tx,
            block,
        );
        let mut trace_writes = flush_family(
            Family::Trace,
            &mut self.state.trace,
            &mut self.tail.trace,
            block,
        );
        let ghost log_contents = contents(writes@);
        let ghost tx_contents = contents(tx_writes@);
        let ghost trace_contents = contents(trace_writes@);
        writes.append(&mut tx_writes);
        writes.append(&mut trace_writes);
        proof {
            assert(contents(writes@) =~= log_contents + tx_contents + trace_contents);
            lemma_flushed_below(
                old(self).state.log,
                old(self).tail.log,
                self.state.log,
                self.tail.log,
                self.frontier.log,
            );
            lemma_flushed_below(
                old(self).state.tx,
                old(self).tail.tx,
                self.state.tx,
                self.tail.tx,
                self.frontier.tx,
            );
            lemma_flushed_below(
                old(self).state.trace,
                old(self).tail.trace,
                self.state.trace,
                self.tail.trace,
                self.frontier.trace,
            );
        }
        writes
    }
}

proof fn lemma_sealed_below(
    state: FamilyState,
    tail: FamilyTail,
    state_after: FamilyState,
    tail_after: FamilyTail,
    frontier: u64,
)
    requires
        track_wf(state, tail, frontier),
        family_wf(state_after, tail_after),
        exists|burst: SealBurst|
            #[trigger] is_left(state, tail, frontier, burst, state_after, tail_after),
    ensures
        track_wf(state_after, tail_after, frontier),
{
    assert forall|key: (Seq<char>, u64)| #[trigger] state_after.bits().contains_key(key) implies key.1
        < frontier by {
        assert(state.bits().contains_key(key));
    }
    assert forall|key: (Seq<char>, u64)| #[trigger] tail_after.bits().contains_key(key) implies key.1
        < frontier by {
        assert(tail.bits().contains_key(key));
    }
}

proof fn lemma_flushed_below(
    state: FamilyState,
    tail: FamilyTail,
    state_after: FamilyState,
    tail_after: FamilyTail,
    frontier: u64,
)
    requires
        track_wf(state, tail, frontier),
        family_wf(state_after, tail_after),
        state_after.sealed_id == state.sealed_id,
        state_after.bits() == joined(state.bits(), tail.bits()),
        tail_after.is_new(),
    ensures
        track_wf(state_after, tail_after, frontier),
{
    assert forall|key: (Seq<char>, u64)| #[trigger] state_after.bits().contains_key(key) implies key.1
        < frontier by {
        assert(state.bits().contains_key(key) || tail.bits().contains_key(key));
    }
    assert(tail_after.pages.map() =~= Map::empty());
    assert(tail_after.bits() =~= Map::empty());
}

} // verus!
