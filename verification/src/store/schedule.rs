//! Which batch-write chunk to send next.
//!
//! Chunks are taken up in order, as many at once as the global limit allows;
//! of those taken up, no more than the table limit are sent to one physical
//! table at a time.

use vstd::prelude::*;

use crate::errors::Result;
use crate::text::str_eq;

verus! {

/// Where a chunk stands.
#[derive(Debug, Clone, Copy, PartialEq, Eq, Structural)]
pub enum ChunkState {
    Waiting,
    Sending,
    Done,
}

/// The chunks of one batch.
pub struct BatchSchedule {
    /// Physical table and state of each chunk.
    pub chunks: Vec<(String, ChunkState)>,
    pub concurrency: usize,
    pub table_concurrency: usize,
}

/// How many of the first `n` chunks are not done.
pub open spec fn unfinished(chunks: Seq<(String, ChunkState)>, n: int) -> nat
    decreases n,
{
    if n <= 0 {
        0
    } else {
        unfinished(chunks, n - 1) + if chunks[n - 1].1 == ChunkState::Done {
            0nat
        } else {
            1nat
        }
    }
}

/// How many of the first `n` chunks are being sent.
pub open spec fn sending(chunks: Seq<(String, ChunkState)>, n: int) -> nat
    decreases n,
{
    if n <= 0 {
        0
    } else {
        sending(chunks, n - 1) + if chunks[n - 1].1 == ChunkState::Sending {
            1nat
        } else {
            0nat
        }
    }
}

/// How many of the first `n` chunks are being sent to a table.
pub open spec fn sending_to(
    chunks: Seq<(String, ChunkState)>,
    n: int,
    table: Seq<char>,
) -> nat
    decreases n,
{
    if n <= 0 {
        0
    } else {
        sending_to(chunks, n - 1, table) + if chunks[n - 1].1 == ChunkState::Sending
            && chunks[n - 1].0@ == table {
            1nat
        } else {
            0nat
        }
    }
}

impl BatchSchedule {
    pub open spec fn wf(self) -> bool {
        self.concurrency > 0 && self.table_concurrency > 0
    }

    /// Chunk `i` can be sent now: it waits, fewer than the limit of the chunks
    /// before it are unfinished, and its table has a slot left.
    pub open spec fn can_send(self, i: int) -> bool {
        &&& 0 <= i < self.chunks@.len()
        &&& self.chunks@[i].1 == ChunkState::Waiting
        &&& unfinished(self.chunks@, i) < self.concurrency
        &&& sending_to(self.chunks@, self.chunks@.len() as int, self.chunks@[i].0@)
            < self.table_concurrency
    }

    /// Every chunk is done.
    pub open spec fn all_done(self) -> bool {
        forall|i: int| 0 <= i < self.chunks@.len() ==> (#[trigger] self.chunks@[i]).1
            == ChunkState::Done
    }

    /// Both limits hold: no table is sent to more than its limit at once, and
    /// every chunk being sent is among the first unfinished ones.
    pub open spec fn within_limits(self) -> bool {
        &&& forall|table: Seq<char>| #[trigger]
            sending_to(self.chunks@, self.chunks@.len() as int, table) <= self.table_concurrency
        &&& forall|i: int|
            0 <= i < self.chunks@.len() && (#[trigger] self.chunks@[i]).1 == ChunkState::Sending
                ==> unfinished(self.chunks@, i) < self.concurrency
    }

    /// All chunks wait.
    pub fn new(tables: Vec<String>, concurrency: usize, table_concurrency: usize) -> (schedule:
        BatchSchedule)
        requires
            concurrency > 0,
            table_concurrency > 0,
        ensures
            schedule.wf(),
            schedule.within_limits(),
            schedule.concurrency == concurrency,
            schedule.table_concurrency == table_concurrency,
            schedule.chunks@.len() == tables@.len(),
            forall|i: int|
                0 <= i < tables@.len() ==> #[trigger] schedule.chunks@[i] == (
                    tables@[i],
                    ChunkState::Waiting,
                ),
    {
        let ghost all = tables@;
        let mut chunks: Vec<(String, ChunkState)> = Vec::new();
        for table in iter: tables
            invariant
                iter.seq() == all,
                chunks@.len() == iter.index(),
                forall|i: int|
                    0 <= i < chunks@.len() ==> #[trigger] chunks@[i] == (
                        all[i],
                        ChunkState::Waiting,
                    ),
        {
            chunks.push((table, ChunkState::Waiting));
        }
        let schedule = BatchSchedule { chunks, concurrency, table_concurrency };
        proof {
            assert forall|table: Seq<char>| #[trigger] sending_to(
                schedule.chunks@,
                schedule.chunks@.len() as int,
                table,
            ) <= table_concurrency by {
                lemma_none_sending(schedule.chunks@, schedule.chunks@.len() as int, table);
            }
        }
        schedule
    }

    fn count_sending_to(&self, table: &str) -> (count: usize)
        ensures
            count == sending_to(self.chunks@, self.chunks@.len() as int, table@),
    {
        let mut count: usize = 0;
        let mut i: usize = 0;
        while i < self.chunks.len()
            invariant
                i <= self.chunks@.len(),
                count == sending_to(self.chunks@, i as int, table@),
                count <= i,
            decreases self.chunks@.len() - i,
        {
            if self.chunks[i].1 == ChunkState::Sending && str_eq(self.chunks[i].0.as_str(), table) {
                count = count + 1;
            }
            i = i + 1;
        }
        count
    }

    /// The first chunk that can be sent now.
    pub fn next_chunk(&self) -> (next: Option<usize>)
        requires
            self.wf(),
        ensures
            match next {
                Some(next) => {
                    &&& self.can_send(next as int)
                    &&& forall|i: int| 0 <= i < next ==> !#[trigger] self.can_send(i)
                },
                None => forall|i: int| !#[trigger] self.can_send(i),
            },
    {
        let mut ahead: usize = 0;
        let mut i: usize = 0;
        while i < self.chunks.len()
            invariant
                i <= self.chunks@.len(),
                ahead == unfinished(self.chunks@, i as int),
                ahead <= i,
                forall|k: int| 0 <= k < i ==> !#[trigger] self.can_send(k),
            decreases self.chunks@.len() - i,
        {
            if self.chunks[i].1 == ChunkState::Waiting && ahead < self.concurrency {
                let busy: usize = self.count_sending_to(self.chunks[i].0.as_str());
                if busy < self.table_concurrency {
                    return Some(i);
                }
            }
            if self.chunks[i].1 != ChunkState::Done {
                ahead = ahead + 1;
            }
            i = i + 1;
        }
        None
    }

    /// Whether every chunk is done.
    pub fn is_done(&self) -> (done: bool)
        ensures
            done == self.all_done(),
    {
        let mut i: usize = 0;
        while i < self.chunks.len()
            invariant
                i <= self.chunks@.len(),
                forall|k: int|
                    0 <= k < i ==> (#[trigger] self.chunks@[k]).1 == ChunkState::Done,
            decreases self.chunks@.len() - i,
        {
            if self.chunks[i].1 != ChunkState::Done {
                return false;
            }
            i = i + 1;
        }
        true
    }

    fn set_state(&mut self, chunk: usize, state: ChunkState)
        requires
            chunk < old(self).chunks@.len(),
        ensures
            final(self).chunks@ == old(self).chunks@.update(
                chunk as int,
                (old(self).chunks@[chunk as int].0, state),
            ),
            final(self).concurrency == old(self).concurrency,
            final(self).table_concurrency == old(self).table_concurrency,
    {
        self.chunks[chunk].1 = state;
    }

    /// Starts sending a chunk.
    pub fn start(&mut self, chunk: usize)
        requires
            old(self).wf(),
            old(self).within_limits(),
            old(self).can_send(chunk as int),
        ensures
            final(self).wf(),
            final(self).within_limits(),
            final(self).chunks@ == old(self).chunks@.update(
                chunk as int,
                (old(self).chunks@[chunk as int].0, ChunkState::Sending),
            ),
            final(self).concurrency == old(self).concurrency,
            final(self).table_concurrency == old(self).table_concurrency,
    {
        let ghost before = self.chunks@;
        self.set_state(chunk, ChunkState::Sending);
        proof {
            let n = before.len() as int;
            assert forall|table: Seq<char>| #[trigger] sending_to(self.chunks@, n, table)
                <= self.table_concurrency by {
                lemma_started(before, self.chunks@, chunk as int, n, table);
                assert(sending_to(before, n, table) <= self.table_concurrency);
            }
            assert forall|i: int|
                0 <= i < n && (#[trigger] self.chunks@[i]).1 == ChunkState::Sending implies
                unfinished(self.chunks@, i) < self.concurrency by {
                lemma_unfinished_same(before, self.chunks@, i);
                if i != chunk {
                    assert(before[i].1 == ChunkState::Sending);
                }
            }
        }
    }

    /// A chunk's write ended: its slot is free. The first error ends the run.
    pub fn finish(&mut self, chunk: usize, result: Result<()>) -> (ended: Option<Result<()>>)
        requires
            old(self).wf(),
            old(self).within_limits(),
            chunk < old(self).chunks@.len(),
            old(self).chunks@[chunk as int].1 == ChunkState::Sending,
        ensures
            final(self).wf(),
            final(self).within_limits(),
            final(self).chunks@ == old(self).chunks@.update(
                chunk as int,
                (old(self).chunks@[chunk as int].0, ChunkState::Done),
            ),
            final(self).concurrency == old(self).concurrency,
            final(self).table_concurrency == old(self).table_concurrency,
            match ended {
                Some(Err(error)) => result == Err::<(), crate::errors::QueryError>(error),
                Some(Ok(_)) => result is Ok && final(self).all_done(),
                None => result is Ok && !final(self).all_done(),
            },
    {
        let ghost before = self.chunks@;
        self.set_state(chunk, ChunkState::Done);
        proof {
            let n = before.len() as int;
            assert forall|table: Seq<char>| #[trigger] sending_to(self.chunks@, n, table)
                <= self.table_concurrency by {
                lemma_ended(before, self.chunks@, chunk as int, n, table);
                assert(sending_to(before, n, table) <= self.table_concurrency);
            }
            assert forall|i: int|
                0 <= i < n && (#[trigger] self.chunks@[i]).1 == ChunkState::Sending implies
                unfinished(self.chunks@, i) < self.concurrency by {
                lemma_unfinished_less(before, self.chunks@, i);
                assert(before[i].1 == ChunkState::Sending);
            }
        }
        if let Err(error) = result {
            return Some(Err(error));
        }
        if self.is_done() {
            Some(Ok(()))
        } else {
            None
        }
    }
}

proof fn lemma_none_sending(chunks: Seq<(String, ChunkState)>, n: int, table: Seq<char>)
    requires
        n <= chunks.len(),
        forall|i: int| 0 <= i < chunks.len() ==> (#[trigger] chunks[i]).1 != ChunkState::Sending,
    ensures
        sending_to(chunks, n, table) == 0,
    decreases n,
{
    if n > 0 {
        lemma_none_sending(chunks, n - 1, table);
    }
}

proof fn lemma_started(
    before: Seq<(String, ChunkState)>,
    after: Seq<(String, ChunkState)>,
    chunk: int,
    n: int,
    table: Seq<char>,
)
    requires
        0 <= chunk < before.len(),
        0 <= n <= before.len(),
        before[chunk].1 == ChunkState::Waiting,
        after == before.update(chunk, (before[chunk].0, ChunkState::Sending)),
    ensures
        sending_to(after, n, table) == sending_to(before, n, table) + if chunk < n
            && before[chunk].0@ == table {
            1nat
        } else {
            0nat
        },
    decreases n,
{
    if n > 0 {
        lemma_started(before, after, chunk, n - 1, table);
    }
}

proof fn lemma_ended(
    before: Seq<(String, ChunkState)>,
    after: Seq<(String, ChunkState)>,
    chunk: int,
    n: int,
    table: Seq<char>,
)
    requires
        0 <= chunk < before.len(),
        0 <= n <= before.len(),
        after == before.update(chunk, (before[chunk].0, ChunkState::Done)),
    ensures
        sending_to(after, n, table) <= sending_to(before, n, table),
    decreases n,
{
    if n > 0 {
        lemma_ended(before, after, chunk, n - 1, table);
    }
}

proof fn lemma_unfinished_same(
    before: Seq<(String, ChunkState)>,
    after: Seq<(String, ChunkState)>,
    n: int,
)
    requires
        0 <= n <= before.len(),
        before.len() == after.len(),
        forall|i: int|
            0 <= i < before.len() ==> ((#[trigger] after[i]).1 == ChunkState::Done) == (before[i].1
                == ChunkState::Done),
    ensures
        unfinished(after, n) == unfinished(before, n),
    decreases n,
{
    if n > 0 {
        lemma_unfinished_same(before, after, n - 1);
        assert((after[n - 1].1 == ChunkState::Done) == (before[n - 1].1 == ChunkState::Done));
    }
}

proof fn lemma_unfinished_less(
    before: Seq<(String, ChunkState)>,
    after: Seq<(String, ChunkState)>,
    n: int,
)
    requires
        0 <= n <= before.len(),
        before.len() == after.len(),
        forall|i: int|
            0 <= i < before.len() ==> (before[i].1 == ChunkState::Done ==> (
            #[trigger] after[i]).1 == ChunkState::Done),
    ensures
        unfinished(after, n) <= unfinished(before, n),
    decreases n,
{
    if n > 0 {
        lemma_unfinished_less(before, after, n - 1);
        assert(before[n - 1].1 == ChunkState::Done ==> after[n - 1].1 == ChunkState::Done);
    }
}

proof fn lemma_sending_within_unfinished(chunks: Seq<(String, ChunkState)>, n: int, limit: nat)
    requires
        0 <= n <= chunks.len(),
        limit > 0,
        forall|i: int|
            0 <= i < chunks.len() && (#[trigger] chunks[i]).1 == ChunkState::Sending ==> unfinished(
                chunks,
                i,
            ) < limit,
    ensures
        sending(chunks, n) <= unfinished(chunks, n),
        sending(chunks, n) <= limit,
    decreases n,
{
    if n > 0 {
        lemma_sending_within_unfinished(chunks, n - 1, limit);
        assert(chunks[n - 1].1 == ChunkState::Sending ==> unfinished(chunks, n - 1) < limit);
    }
}

/// No more chunks are sent at once than the global limit.
pub proof fn law_sends_within_concurrency(schedule: BatchSchedule)
    requires
        schedule.wf(),
        schedule.within_limits(),
    ensures
        sending(schedule.chunks@, schedule.chunks@.len() as int) <= schedule.concurrency,
{
    lemma_sending_within_unfinished(
        schedule.chunks@,
        schedule.chunks@.len() as int,
        schedule.concurrency as nat,
    );
}

proof fn lemma_quiet_front(chunks: Seq<(String, ChunkState)>, n: int)
    requires
        0 <= n <= chunks.len(),
        forall|i: int| 0 <= i < n ==> (#[trigger] chunks[i]).1 == ChunkState::Done,
    ensures
        unfinished(chunks, n) == 0,
    decreases n,
{
    if n > 0 {
        lemma_quiet_front(chunks, n - 1);
    }
}

/// A batch does not stall: while a chunk is left and none is being sent, some
/// chunk can be sent.
pub proof fn law_batch_does_not_stall(schedule: BatchSchedule)
    requires
        schedule.wf(),
        !schedule.all_done(),
        forall|i: int|
            0 <= i < schedule.chunks@.len() ==> (#[trigger] schedule.chunks@[i]).1
                != ChunkState::Sending,
    ensures
        exists|i: int| #[trigger] schedule.can_send(i),
{
    let chunks = schedule.chunks@;
    let i = lemma_first_waiting(chunks, 0);
    lemma_quiet_front(chunks, i);
    lemma_none_sending(chunks, chunks.len() as int, chunks[i].0@);
    assert(schedule.can_send(i));
}

proof fn lemma_first_waiting(chunks: Seq<(String, ChunkState)>, from: int) -> (first: int)
    requires
        0 <= from <= chunks.len(),
        forall|i: int| 0 <= i < from ==> (#[trigger] chunks[i]).1 == ChunkState::Done,
        exists|i: int| 0 <= i < chunks.len() && (#[trigger] chunks[i]).1 != ChunkState::Done,
        forall|i: int| 0 <= i < chunks.len() ==> (#[trigger] chunks[i]).1 != ChunkState::Sending,
    ensures
        0 <= first < chunks.len(),
        chunks[first].1 == ChunkState::Waiting,
        forall|i: int| 0 <= i < first ==> (#[trigger] chunks[i]).1 == ChunkState::Done,
    decreases chunks.len() - from,
{
    if chunks[from].1 == ChunkState::Done {
        lemma_first_waiting(chunks, from + 1)
    } else {
        from
    }
}

} // verus!
