//! Run configuration and the decisions around a run: where it begins and
//! ends, and what its tasks' outcomes add up to.

use vstd::prelude::*;
use vstd::string::StringExecFns;

use crate::errors::{QueryError, Result};
use crate::write::data_track::{PackConfig, PayloadMode};
use crate::write::index::{empty_digest, is_empty_digest, ChainDigest};
use crate::write::producer::{is_fetch_target, RunBound, SignalPolicy};

verus! {

/// Run knobs. A run always follows the tip; `end` and `count` bound it.
#[derive(Debug, Clone, Copy)]
pub struct IngestRunConfig {
    /// The begin block when the store is empty. A warm resume overrides it.
    pub start: u64,
    /// Inclusive absolute end. At most one of `end` and `count` is set.
    pub end: Option<u64>,
    /// Block count from the begin block.
    pub count: Option<u64>,
    pub policy: SignalPolicy,
    pub pack: PackConfig,
    /// Where row payloads live. A store is ingested under one mode for its
    /// whole life.
    pub payload: PayloadMode,
    pub track_buffer: usize,
    /// Tip poll interval (ms) once caught up.
    pub poll_ms: u64,
}

/// The boot values of a run.
#[derive(Debug, Clone, Copy, PartialEq, Eq, Structural)]
pub struct BootPoint {
    /// Last durable block (one below the start on a cold run).
    pub resume: u64,
    /// Initial durable watermark of the data track.
    pub durable_floor: u64,
    /// First block to fetch.
    pub begin: u64,
}

/// Where a run boots: behind the resume block on a warm store, at the start on
/// a cold one, where nothing is durable.
pub fn boot_point(resume: Option<u64>, start: u64) -> (boot: BootPoint)
    requires
        resume matches Some(block) ==> block < u64::MAX,
    ensures
        boot == match resume {
            Some(block) => BootPoint {
                resume: block,
                durable_floor: block,
                begin: if block + 1 < start {
                    start
                } else {
                    (block + 1) as u64
                },
            },
            None => BootPoint {
                resume: if start == 0 {
                    0
                } else {
                    (start - 1) as u64
                },
                durable_floor: 0,
                begin: start,
            },
        },
{
    match resume {
        Some(block) => BootPoint {
            resume: block,
            durable_floor: block,
            begin: if block + 1 < start {
                start
            } else {
                block + 1
            },
        },
        None => BootPoint {
            resume: if start == 0 {
                0
            } else {
                start - 1
            },
            durable_floor: 0,
            begin: start,
        },
    }
}

/// The row chain that a run continues. A warm start continues the one stored
/// with its resume block, also where that is the genesis block; a record without
/// one starts anew, and so does a cold start, which ingests every block again
/// whatever records an earlier attempt left.
pub fn boot_chain(resume: Option<u64>, stored: Option<ChainDigest>) -> (seed: ChainDigest)
    ensures
        match (resume, stored) {
            (Some(_), Some(chain)) => seed == chain,
            _ => is_empty_digest(seed),
        },
{
    match (resume, stored) {
        (Some(_), Some(chain)) => chain,
        _ => empty_digest(),
    }
}

/// How far a run goes: to the explicit end, or as many blocks from the begin
/// block as asked for. A count of zero is no block; a count that reaches past
/// the last block number ends at it.
pub open spec fn spec_resolve_end(end: Option<u64>, count: Option<u64>, begin: u64) -> RunBound {
    match (end, count) {
        (Some(end), _) => RunBound::Through(end),
        (None, Some(count)) => if count == 0 {
            RunBound::Nothing
        } else if begin + count - 1 > u64::MAX {
            RunBound::Through(u64::MAX)
        } else {
            RunBound::Through((begin + count - 1) as u64)
        },
        (None, None) => RunBound::Open,
    }
}

pub fn resolve_end(end: Option<u64>, count: Option<u64>, begin: u64) -> (bound: RunBound)
    ensures
        bound == spec_resolve_end(end, count, begin),
{
    match end {
        Some(end) => RunBound::Through(end),
        None => match count {
            Some(count) => if count == 0 {
                RunBound::Nothing
            } else {
                RunBound::Through(begin.saturating_add(count - 1))
            },
            None => RunBound::Open,
        },
    }
}

/// Whether a run is over before it begins: nothing is durable, the first block
/// of all is not fetched either, and so there is no block that its terminal
/// signals could name. Flushing or checkpointing would mark the first block as
/// ingested.
pub fn is_void_run(resume: Option<u64>, begin: u64, bound: RunBound) -> (void: bool)
    ensures
        void == (resume is None && begin == 0 && !bound.admits_block(begin)),
{
    match resume {
        Some(_) => false,
        None => begin == 0 && bound.is_passed(begin),
    }
}

/// A counted run covers as many blocks as asked for, from the begin block on:
/// a block from the begin block on lies within the bound exactly when fewer
/// than that many come before it.
pub proof fn law_count_covers_that_many(begin: u64, count: u64, block: u64)
    requires
        begin <= block,
    ensures
        spec_resolve_end(None, Some(count), begin).admits_block(block) <==> block - begin < count,
{
}

/// A run with a count of zero fetches nothing, whatever is uploaded, and ends
/// after its first poll.
pub proof fn law_zero_count_fetches_nothing(begin: u64, latest: Option<u64>, target: Option<u64>)
    requires
        is_fetch_target(latest, spec_resolve_end(None, Some(0), begin), begin, target),
    ensures
        target is None,
        !spec_resolve_end(None, Some(0), begin).admits_block(begin),
{
}

/// How a spawned task ended.
pub enum TaskEnd {
    /// With its own result.
    Finished(Result<()>),
    /// Cancelled by an abort that the run issued.
    Cancelled,
    /// With a panic, as text.
    Panicked(String),
}

/// A task's own result, or `None` when it was cancelled. A panic becomes a
/// backend error tagged with `what`.
pub fn join_to_result(ended: TaskEnd, what: &str) -> (result: Option<Result<()>>)
    ensures
        match ended {
            TaskEnd::Finished(own) => result == Some(own),
            TaskEnd::Cancelled => result is None,
            TaskEnd::Panicked(text) => result matches Some(Err(error)) && error is Backend
                && error.spec_detail() == what@ + " panicked: "@ + text@,
        },
{
    match ended {
        TaskEnd::Finished(own) => Some(own),
        TaskEnd::Cancelled => None,
        TaskEnd::Panicked(text) => {
            let mut message = what.to_owned();
            message.append(" panicked: ");
            message.append(text.as_str());
            Some(Err(QueryError::Backend(message)))
        },
    }
}

/// Records the first failure; says whether the other tasks are to be torn
/// down. Later results are ignored.
pub fn capture_first(outcome: &mut Result<()>, result: Result<()>) -> (abort: bool)
    ensures
        abort == (*old(outcome) is Ok && result is Err),
        *final(outcome) == if abort {
            result
        } else {
            *old(outcome)
        },
{
    if let Err(error) = result {
        if outcome.is_ok() {
            *outcome = Err(error);
            return true;
        }
    }
    false
}

/// The outcome of a run after a graceful shutdown: the pipeline's failure if
/// it had one, else the publisher's.
pub fn run_outcome(pipeline: Result<()>, publisher: Option<Result<()>>) -> (outcome: Result<()>)
    ensures
        outcome == match pipeline {
            Err(error) => Err::<(), QueryError>(error),
            Ok(_) => match publisher {
                Some(result) => result,
                None => Ok(()),
            },
        },
{
    match pipeline {
        Err(error) => Err(error),
        Ok(_) => match publisher {
            Some(result) => result,
            None => Ok(()),
        },
    }
}

} // verus!
