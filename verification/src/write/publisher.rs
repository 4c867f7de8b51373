//! The publishable head.
//!
//! Every candidate head must be safe to recover from and complete for readers:
//! an index flush boundary, or the seed, the prior published head, which was
//! one. The data track's durable block alone is not safe: it advances at
//! arbitrary pack boundaries. Nor is a checkpoint block, whose tail index has
//! no fragments.

use std::collections::VecDeque;

use vstd::prelude::*;

verus! {

/// Publishable-head bookkeeping.
pub struct Progress {
    data_durable: u64,
    /// Flush boundaries not yet covered by `data_durable`, ascending. The data
    /// track can lag several flush intervals, so this is a queue.
    pending: VecDeque<u64>,
    /// Largest recorded boundary covered by `data_durable`, or the seed.
    head: u64,
}

/// The contents of a [`Progress`].
pub struct Heads {
    pub data_durable: u64,
    pub pending: Seq<u64>,
    pub head: u64,
}

/// What can happen to the head bookkeeping.
pub enum HeadEvent {
    /// The data track made rows durable through a block.
    Durable(u64),
    /// The index track flushed at a block.
    Flush(u64),
    /// The publisher asked for the head.
    Publish,
}

/// How many leading boundaries a durable block covers.
pub open spec fn covered(pending: Seq<u64>, durable: u64) -> nat
    decreases pending.len(),
{
    if pending.len() == 0 || pending[0] > durable {
        0
    } else {
        1 + covered(pending.drop_first(), durable)
    }
}

/// The newest value that a boundary must exceed.
pub open spec fn newest(heads: Heads) -> u64 {
    if heads.pending.len() == 0 {
        heads.head
    } else {
        heads.pending.last()
    }
}

/// What an event does.
pub open spec fn after_event(heads: Heads, event: HeadEvent) -> Heads {
    match event {
        HeadEvent::Durable(block) => Heads {
            data_durable: if block > heads.data_durable {
                block
            } else {
                heads.data_durable
            },
            pending: heads.pending,
            head: heads.head,
        },
        HeadEvent::Flush(block) => Heads {
            data_durable: heads.data_durable,
            pending: if block > newest(heads) {
                heads.pending.push(block)
            } else {
                heads.pending
            },
            head: heads.head,
        },
        HeadEvent::Publish => {
            let n = covered(heads.pending, heads.data_durable);
            Heads {
                data_durable: heads.data_durable,
                pending: heads.pending.skip(n as int),
                head: if n == 0 {
                    heads.head
                } else {
                    heads.pending[n - 1]
                },
            }
        },
    }
}

impl View for Progress {
    type V = Heads;

    closed spec fn view(&self) -> Heads {
        Heads { data_durable: self.data_durable, pending: self.pending@, head: self.head }
    }
}

impl Progress {
    /// `data_floor` seeds the data frontier at the resume block; `head_floor`
    /// re-seeds the prior published head, never the checkpoint block.
    pub fn new(data_floor: u64, head_floor: u64) -> (progress: Progress)
        requires
            head_floor <= data_floor,
        ensures
            progress@ == (Heads {
                data_durable: data_floor,
                pending: Seq::empty(),
                head: head_floor,
            }),
    {
        let progress = Progress { data_durable: data_floor, pending: VecDeque::new(), head: head_floor };
        assert(progress@.pending =~= Seq::empty());
        progress
    }

    pub fn set_data_durable(&mut self, block: u64)
        ensures
            final(self)@ == after_event(old(self)@, HeadEvent::Durable(block)),
    {
        if block > self.data_durable {
            self.data_durable = block;
        }
    }

    /// Records `block` as a publishable-head candidate. Boundaries arrive
    /// ascending; a repeat is dropped.
    pub fn record_flush_boundary(&mut self, block: u64)
        ensures
            final(self)@ == after_event(old(self)@, HeadEvent::Flush(block)),
    {
        let n: usize = self.pending.len();
        let newest: u64 = if n == 0 {
            self.head
        } else {
            self.pending[n - 1]
        };
        if block > newest {
            self.pending.push_back(block);
        }
    }

    pub fn data_durable(&self) -> (block: u64)
        ensures
            block == self@.data_durable,
    {
        self.data_durable
    }

    /// The newest recorded flush boundary at or below `data_durable`. Promotes
    /// covered boundaries and drops them from the queue.
    pub fn publishable_head(&mut self) -> (head: u64)
        ensures
            final(self)@ == after_event(old(self)@, HeadEvent::Publish),
            head == final(self)@.head,
    {
        let durable: u64 = self.data_durable;
        let ghost all = self.pending@;
        let mut n: usize = 0;
        assert(all.skip(0) =~= all);
        while n < self.pending.len() && self.pending[n] <= durable
            invariant
                self.pending@ == all,
                self.data_durable == durable,
                self.head == old(self).head,
                n <= all.len(),
                covered(all, durable) == n + covered(all.skip(n as int), durable),
            decreases all.len() - n,
        {
            assert(all.skip(n as int).drop_first() =~= all.skip(n + 1));
            n = n + 1;
        }
        assert(covered(all, durable) == n);
        if n > 0 {
            self.head = self.pending[n - 1];
            let mut rest = self.pending.split_off(n);
            assert(rest@ =~= all.skip(n as int));
            std::mem::swap(&mut self.pending, &mut rest);
        }
        assert(self@.pending =~= all.skip(n as int));
        self.head
    }

    /// The head to publish, if it moved past what is published.
    pub fn next_publish(&mut self, published: u64) -> (head: Option<u64>)
        ensures
            final(self)@ == after_event(old(self)@, HeadEvent::Publish),
            head == if final(self)@.head > published {
                Some(final(self)@.head)
            } else {
                None
            },
    {
        let head: u64 = self.publishable_head();
        if head > published {
            Some(head)
        } else {
            None
        }
    }
}

/// The bookkeeping after a run of events.
pub open spec fn after_events(heads: Heads, events: Seq<HeadEvent>) -> Heads
    decreases events.len(),
{
    if events.len() == 0 {
        heads
    } else {
        after_event(after_events(heads, events.drop_last()), events.last())
    }
}

/// Boundaries ascend above the head, which rows cover.
pub open spec fn in_order(heads: Heads) -> bool {
    &&& forall|i: int, j: int|
        0 <= i < j < heads.pending.len() ==> (#[trigger] heads.pending[i]) < (
        #[trigger] heads.pending[j])
    &&& forall|i: int| 0 <= i < heads.pending.len() ==> heads.head < #[trigger] heads.pending[i]
    &&& heads.head <= heads.data_durable
}

/// Some event of the run flushed at the block.
pub open spec fn was_flushed(events: Seq<HeadEvent>, block: u64) -> bool {
    events.contains(HeadEvent::Flush(block))
}

/// Every candidate is the seed or was flushed at.
pub open spec fn candidates_flushed(heads: Heads, seed: u64, events: Seq<HeadEvent>) -> bool {
    &&& heads.head == seed || was_flushed(events, heads.head)
    &&& forall|i: int|
        0 <= i < heads.pending.len() ==> was_flushed(events, #[trigger] heads.pending[i])
}

proof fn lemma_covered(pending: Seq<u64>, durable: u64)
    ensures
        covered(pending, durable) <= pending.len(),
        forall|i: int| 0 <= i < covered(pending, durable) ==> #[trigger] pending[i] <= durable,
        covered(pending, durable) < pending.len() ==> pending[covered(pending, durable) as int]
            > durable,
    decreases pending.len(),
{
    if pending.len() > 0 && pending[0] <= durable {
        let rest = pending.drop_first();
        lemma_covered(rest, durable);
        assert forall|i: int| 0 <= i < covered(pending, durable) implies #[trigger] pending[i]
            <= durable by {
            if i > 0 {
                assert(rest[i - 1] == pending[i]);
            }
        }
    }
}

proof fn lemma_event_in_order(heads: Heads, event: HeadEvent)
    requires
        in_order(heads),
    ensures
        in_order(after_event(heads, event)),
        after_event(heads, event).head >= heads.head,
        after_event(heads, event).data_durable >= heads.data_durable,
        after_event(heads, event).head == heads.head || heads.pending.contains(
            after_event(heads, event).head,
        ),
        event is Publish ==> forall|i: int|
            0 <= i < after_event(heads, event).pending.len() ==> heads.data_durable < (
            #[trigger] after_event(heads, event).pending[i]),
{
    let after = after_event(heads, event);
    lemma_covered(heads.pending, heads.data_durable);
    let n = covered(heads.pending, heads.data_durable) as int;
    match event {
        HeadEvent::Durable(block) => {},
        HeadEvent::Flush(block) => {
            assert forall|i: int, j: int| 0 <= i < j < after.pending.len() implies (
            #[trigger] after.pending[i]) < (#[trigger] after.pending[j]) by {
                if j == heads.pending.len() && i < heads.pending.len() - 1 {
                    assert(heads.pending[i] < heads.pending[heads.pending.len() - 1]);
                }
            }
            assert forall|i: int| 0 <= i < after.pending.len() implies after.head
                < #[trigger] after.pending[i] by {
                if heads.pending.len() > 0 {
                    assert(heads.head < heads.pending[heads.pending.len() - 1]);
                }
            }
        },
        HeadEvent::Publish => {
            assert forall|i: int, j: int| 0 <= i < j < after.pending.len() implies (
            #[trigger] after.pending[i]) < (#[trigger] after.pending[j]) by {
                assert(heads.pending[i + n] < heads.pending[j + n]);
            }
            assert forall|i: int| 0 <= i < after.pending.len() implies after.head
                < #[trigger] after.pending[i] && heads.data_durable < after.pending[i] by {
                assert(after.pending[i] == heads.pending[i + n]);
                if n > 0 {
                    assert(heads.pending[n - 1] < heads.pending[i + n]);
                }
                if i > 0 {
                    assert(heads.pending[n] < heads.pending[i + n]);
                }
            }
        },
    }
}

proof fn lemma_event_flushed(
    heads: Heads,
    seed: u64,
    events: Seq<HeadEvent>,
    event: HeadEvent,
)
    requires
        in_order(heads),
        candidates_flushed(heads, seed, events),
    ensures
        candidates_flushed(after_event(heads, event), seed, events.push(event)),
{
    let after = after_event(heads, event);
    let longer = events.push(event);
    assert forall|block: u64| was_flushed(events, block) implies #[trigger] was_flushed(
        longer,
        block,
    ) by {
        let i = choose|i: int| 0 <= i < events.len() && events[i] == HeadEvent::Flush(block);
        assert(longer[i] == HeadEvent::Flush(block));
    }
    lemma_event_in_order(heads, event);
    lemma_covered(heads.pending, heads.data_durable);
    let n = covered(heads.pending, heads.data_durable) as int;
    assert(longer[events.len() as int] == event);
    assert forall|i: int| 0 <= i < after.pending.len() implies was_flushed(
        longer,
        #[trigger] after.pending[i],
    ) by {
        match event {
            HeadEvent::Durable(block) => {
                assert(was_flushed(events, heads.pending[i]));
            },
            HeadEvent::Flush(block) => {
                if i < heads.pending.len() {
                    assert(was_flushed(events, heads.pending[i]));
                }
            },
            HeadEvent::Publish => {
                assert(after.pending[i] == heads.pending[i + n]);
                assert(was_flushed(events, heads.pending[i + n]));
            },
        }
    }
    if after.head != heads.head {
        let i = choose|i: int| 0 <= i < heads.pending.len() && heads.pending[i] == after.head;
        assert(was_flushed(events, heads.pending[i]));
    }
}

/// In every run the head is the seed or a recorded flush boundary, rows are
/// durable through it, and it never moves back.
pub proof fn law_head_is_a_covered_boundary(
    data_floor: u64,
    head_floor: u64,
    events: Seq<HeadEvent>,
)
    requires
        head_floor <= data_floor,
    ensures
        ({
            let seed = Heads {
                data_durable: data_floor,
                pending: Seq::empty(),
                head: head_floor,
            };
            let heads = after_events(seed, events);
            &&& in_order(heads)
            &&& candidates_flushed(heads, head_floor, events)
            &&& heads.head <= heads.data_durable
            &&& events.len() > 0 ==> after_events(seed, events.drop_last()).head <= heads.head
        }),
    decreases events.len(),
{
    let seed = Heads { data_durable: data_floor, pending: Seq::empty(), head: head_floor };
    if events.len() > 0 {
        law_head_is_a_covered_boundary(data_floor, head_floor, events.drop_last());
        let before = after_events(seed, events.drop_last());
        lemma_event_in_order(before, events.last());
        lemma_event_flushed(before, head_floor, events.drop_last(), events.last());
        assert(events.drop_last().push(events.last()) =~= events);
    }
}

/// Asking for the head gives the newest covered boundary: what is left in the
/// queue lies above the durable block.
pub proof fn law_head_is_the_newest_covered(heads: Heads, i: int)
    requires
        in_order(heads),
        0 <= i < heads.pending.len(),
    ensures
        ({
            let after = after_event(heads, HeadEvent::Publish);
            if heads.pending[i] <= heads.data_durable {
                heads.pending[i] <= after.head
            } else {
                after.pending.contains(heads.pending[i])
            }
        }),
{
    lemma_covered(heads.pending, heads.data_durable);
    lemma_event_in_order(heads, HeadEvent::Publish);
    let after = after_event(heads, HeadEvent::Publish);
    let n = covered(heads.pending, heads.data_durable) as int;
    if i < n {
        if i < n - 1 {
            assert(heads.pending[i] < heads.pending[n - 1]);
        }
    } else {
        assert(after.pending[i - n] == heads.pending[i]);
        assert(heads.data_durable < after.pending[i - n]);
    }
}

} // verus!
