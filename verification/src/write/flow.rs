//! The order in which the tracks make blocks durable: which outside step comes
//! next, and when a barrier may be passed.
//!
//! A barrier of the data track (an epoch's codec change, a batch flush, a
//! checkpoint, the end of the stream) is passed only when no encode is in
//! flight, no pack is held and no pack is being written, so it never claims
//! durability for a block whose rows are not written yet.

use vstd::prelude::*;

use crate::write::data_track::{
    accounted, accounted_total, stamped, DataCore, PackConfig, PackEntry,
};
use crate::write::index::ChainDigest;
use crate::write::publisher::{after_event, HeadEvent, Progress};

verus! {

/// Where the blocks are that the data track took up and that are not durable.
pub struct TrackLoad {
    /// Being encoded.
    pub encoding: nat,
    /// Encoded, held for the next pack.
    pub held: nat,
    /// In the pack that is being written.
    pub leaving: nat,
}

impl TrackLoad {
    /// Every block taken up is durable.
    pub open spec fn is_drained(self) -> bool {
        self.encoding == 0 && self.held == 0 && self.leaving == 0
    }
}

/// What moves a block on.
pub enum LoadEvent {
    /// A block's encode starts.
    Started,
    /// The oldest encode ends.
    Encoded,
    /// The held blocks leave as a pack.
    PackLeft,
    /// The pack that left is written.
    PackDurable,
}

pub open spec fn after_load_event(load: TrackLoad, event: LoadEvent) -> TrackLoad {
    match event {
        LoadEvent::Started => TrackLoad { encoding: load.encoding + 1, ..load },
        LoadEvent::Encoded => TrackLoad {
            encoding: (load.encoding - 1) as nat,
            held: load.held + 1,
            ..load
        },
        LoadEvent::PackLeft => TrackLoad { held: 0, leaving: load.held, ..load },
        LoadEvent::PackDurable => TrackLoad { leaving: 0, ..load },
    }
}

/// Whether an event can happen: an encode ends that was started, and a pack
/// leaves when none is being written.
pub open spec fn can_happen(load: TrackLoad, event: LoadEvent) -> bool {
    match event {
        LoadEvent::Started => true,
        LoadEvent::Encoded => load.encoding > 0,
        LoadEvent::PackLeft => load.leaving == 0 && load.held > 0,
        LoadEvent::PackDurable => load.leaving > 0,
    }
}

/// The load after events, from an idle track on.
pub open spec fn load_after(events: Seq<LoadEvent>) -> TrackLoad
    decreases events.len(),
{
    if events.len() == 0 {
        TrackLoad { encoding: 0, held: 0, leaving: 0 }
    } else {
        after_load_event(load_after(events.drop_last()), events.last())
    }
}

/// Every event happens where it can.
pub open spec fn is_history(events: Seq<LoadEvent>) -> bool {
    forall|n: int|
        0 <= n < events.len() ==> can_happen(load_after(events.take(n)), #[trigger] events[n])
}

/// How many blocks the events took up.
pub open spec fn taken_up(events: Seq<LoadEvent>) -> nat
    decreases events.len(),
{
    if events.len() == 0 {
        0
    } else {
        taken_up(events.drop_last()) + if events.last() is Started {
            1nat
        } else {
            0
        }
    }
}

/// How many blocks the events made durable.
pub open spec fn made_durable(events: Seq<LoadEvent>) -> nat
    decreases events.len(),
{
    if events.len() == 0 {
        0
    } else {
        made_durable(events.drop_last()) + if events.last() is PackDurable {
            load_after(events.drop_last()).leaving
        } else {
            0
        }
    }
}

/// No block is lost between its encode and its write: those taken up are
/// durable, being written, held, or being encoded. So a drained track has made
/// every one of them durable.
pub proof fn law_drained_track_is_durable(events: Seq<LoadEvent>)
    requires
        is_history(events),
    ensures
        taken_up(events) == made_durable(events) + load_after(events).leaving + load_after(
            events,
        ).held + load_after(events).encoding,
        load_after(events).is_drained() ==> made_durable(events) == taken_up(events),
    decreases events.len(),
{
    if events.len() > 0 {
        let before = events.drop_last();
        let n = events.len() - 1;
        assert forall|k: int| 0 <= k < before.len() implies can_happen(
            load_after(before.take(k)),
            #[trigger] before[k],
        ) by {
            assert(before.take(k) =~= events.take(k));
            assert(before[k] == events[k]);
        }
        law_drained_track_is_durable(before);
        assert(events.take(n) =~= before);
        assert(can_happen(load_after(before), events[n]));
    }
}

/// What the data track waits for.
#[derive(Debug, Clone, Copy, PartialEq, Eq, Structural)]
pub enum FlowDemand {
    /// Room for the next block: fewer than so many encodes in flight.
    Room(usize),
    /// Everything taken up is durable.
    Barrier,
}

/// The kind of an outside step.
#[derive(Debug, Clone, Copy, PartialEq, Eq, Structural)]
pub enum StepKind {
    AwaitEncode,
    WritePack,
    AwaitPack,
    Proceed,
}

/// The step that comes next, where `full` says that the held pack is full. Only
/// one pack is written at a time.
pub open spec fn spec_step(load: TrackLoad, demand: FlowDemand, full: bool) -> StepKind {
    let flush = if load.leaving > 0 {
        StepKind::AwaitPack
    } else {
        StepKind::WritePack
    };
    match demand {
        FlowDemand::Room(limit) => if load.held > 0 && full {
            flush
        } else if load.encoding > 0 && load.encoding >= limit {
            StepKind::AwaitEncode
        } else {
            StepKind::Proceed
        },
        FlowDemand::Barrier => if load.encoding > 0 {
            StepKind::AwaitEncode
        } else if load.held > 0 {
            flush
        } else if load.leaving > 0 {
            StepKind::AwaitPack
        } else {
            StepKind::Proceed
        },
    }
}

/// What a step's end does to the load; passing on does nothing.
pub open spec fn after_step(load: TrackLoad, step: StepKind) -> TrackLoad {
    match step {
        StepKind::AwaitEncode => after_load_event(load, LoadEvent::Encoded),
        StepKind::WritePack => after_load_event(load, LoadEvent::PackLeft),
        StepKind::AwaitPack => after_load_event(load, LoadEvent::PackDurable),
        StepKind::Proceed => load,
    }
}

/// How many steps are left at most.
pub open spec fn steps_left(load: TrackLoad) -> nat {
    3 * load.encoding + 2 * load.held + load.leaving
}

/// A barrier is passed exactly when the track is drained. Every other step can
/// be taken and brings that nearer, so it is passed in the end.
pub proof fn law_barrier_drains(load: TrackLoad, demand: FlowDemand, full: bool)
    ensures
        demand == FlowDemand::Barrier ==> (spec_step(load, demand, full) == StepKind::Proceed
            <==> load.is_drained()),
        match spec_step(load, demand, full) {
            StepKind::AwaitEncode => can_happen(load, LoadEvent::Encoded),
            StepKind::WritePack => can_happen(load, LoadEvent::PackLeft),
            StepKind::AwaitPack => can_happen(load, LoadEvent::PackDurable),
            StepKind::Proceed => true,
        },
        spec_step(load, demand, full) != StepKind::Proceed ==> steps_left(
            after_step(load, spec_step(load, demand, full)),
        ) < steps_left(load),
{
}

/// An outside step of the data track.
pub enum FlowStep {
    /// Await the oldest encode and hand its entry to [`DataFlow::encoded`].
    AwaitEncode,
    /// Start writing a pack.
    WritePack(Vec<PackEntry>),
    /// Await the pack being written, then call [`DataFlow::pack_durable`].
    AwaitPack,
    /// What was waited for holds.
    Proceed,
}

impl FlowStep {
    pub open spec fn kind(self) -> StepKind {
        match self {
            FlowStep::AwaitEncode => StepKind::AwaitEncode,
            FlowStep::WritePack(_) => StepKind::WritePack,
            FlowStep::AwaitPack => StepKind::AwaitPack,
            FlowStep::Proceed => StepKind::Proceed,
        }
    }
}

/// A pack that is being written.
#[derive(Debug, Clone, Copy, PartialEq, Eq, Structural)]
pub struct PackInFlight {
    pub blocks: usize,
    pub last_block: u64,
}

/// The data track with what it has in flight.
pub struct DataFlow {
    pub core: DataCore,
    /// Encodes in flight.
    pub encoding: usize,
    pub leaving: Option<PackInFlight>,
}

/// The held pack is full.
pub open spec fn is_full(cfg: PackConfig, held: Seq<PackEntry>) -> bool {
    accounted_total(held) >= cfg.target_bytes || held.len() >= cfg.max_blocks
}

impl DataFlow {
    pub open spec fn wf(self) -> bool {
        &&& self.core.wf()
        &&& self.leaving matches Some(pack) ==> pack.blocks > 0
    }

    pub open spec fn load(self) -> TrackLoad {
        TrackLoad {
            encoding: self.encoding as nat,
            held: self.core.packer.entries@.len(),
            leaving: match self.leaving {
                Some(pack) => pack.blocks as nat,
                None => 0,
            },
        }
    }

    /// A track with nothing in flight.
    pub fn new(core: DataCore) -> (flow: DataFlow)
        requires
            core.wf(),
        ensures
            flow.wf(),
            flow.core == core,
            flow.encoding == 0,
            flow.leaving is None,
    {
        DataFlow { core, encoding: 0, leaving: None }
    }

    /// The encode of a block starts.
    pub fn started(&mut self)
        requires
            old(self).wf(),
            old(self).encoding < usize::MAX,
        ensures
            final(self).wf(),
            final(self).core == old(self).core,
            final(self).leaving == old(self).leaving,
            final(self).load() == after_load_event(old(self).load(), LoadEvent::Started),
    {
        self.encoding = self.encoding + 1;
    }

    /// The oldest encode ended: the block is chained and packed.
    pub fn encoded<C: Fn(ChainDigest, ChainDigest) -> ChainDigest>(
        &mut self,
        entry: PackEntry,
        chain: &C,
    )
        requires
            old(self).wf(),
            old(self).encoding > 0,
            old(self).core.packer.bytes + accounted(entry) <= usize::MAX,
            call_requires(*chain, (old(self).core.chain_head, entry.content_digest)),
        ensures
            final(self).wf(),
            call_ensures(
                *chain,
                (old(self).core.chain_head, entry.content_digest),
                final(self).core.chain_head,
            ),
            final(self).core.packer.entries@ == old(self).core.packer.entries@.push(
                stamped(entry, final(self).core.chain_head),
            ),
            final(self).core.packer.last_block == entry.record.block_number,
            final(self).core.packer.cfg == old(self).core.packer.cfg,
            final(self).core.payload == old(self).core.payload,
            final(self).core.dict_config == old(self).core.dict_config,
            final(self).core.codec_version == old(self).core.codec_version,
            final(self).core.last_prewarmed == old(self).core.last_prewarmed,
            final(self).leaving == old(self).leaving,
            final(self).load() == after_load_event(old(self).load(), LoadEvent::Encoded),
    {
        self.core.pop_encode(entry, chain);
        self.encoding = self.encoding - 1;
    }

    /// The next outside step towards a demand. A mid-stream pack is pipelined:
    /// it is written while further encodes drain.
    pub fn next(&mut self, demand: FlowDemand) -> (step: FlowStep)
        requires
            old(self).wf(),
        ensures
            final(self).wf(),
            step.kind() == spec_step(
                old(self).load(),
                demand,
                is_full(old(self).core.packer.cfg, old(self).core.packer.entries@),
            ),
            step is Proceed && demand == FlowDemand::Barrier ==> final(self).load().is_drained(),
            match step {
                FlowStep::WritePack(entries) => {
                    &&& entries@ == old(self).core.packer.entries@
                    &&& final(self).leaving == Some(
                        PackInFlight {
                            blocks: entries.len(),
                            last_block: old(self).core.packer.last_block,
                        },
                    )
                    &&& final(self).load() == after_load_event(
                        old(self).load(),
                        LoadEvent::PackLeft,
                    )
                    &&& final(self).core.packer.cfg == old(self).core.packer.cfg
                    &&& final(self).core.packer.last_block == old(self).core.packer.last_block
                    &&& final(self).core.payload == old(self).core.payload
                    &&& final(self).core.dict_config == old(self).core.dict_config
                    &&& final(self).core.codec_version == old(self).core.codec_version
                    &&& final(self).core.chain_head == old(self).core.chain_head
                    &&& final(self).core.last_prewarmed == old(self).core.last_prewarmed
                },
                _ => *final(self) == *old(self),
            },
    {
        let (drain, flush) = match demand {
            FlowDemand::Room(limit) => {
                let flush: bool = self.core.packer.entries.len() > 0
                    && self.core.packer.should_flush();
                (!flush && self.encoding >= limit, flush)
            },
            FlowDemand::Barrier => (true, true),
        };
        if drain && self.encoding > 0 {
            return FlowStep::AwaitEncode;
        }
        if flush && self.leaving.is_some() {
            return FlowStep::AwaitPack;
        }
        if !flush || self.core.packer.entries.len() == 0 {
            return FlowStep::Proceed;
        }
        match self.core.packer.take() {
            Some((entries, last_block)) => {
                self.leaving = Some(PackInFlight { blocks: entries.len(), last_block });
                FlowStep::WritePack(entries)
            },
            None => FlowStep::Proceed,
        }
    }

    /// The pack being written became durable, and with it every block up to its
    /// last.
    pub fn pack_durable(&mut self, progress: &mut Progress)
        requires
            old(self).wf(),
            old(self).leaving is Some,
        ensures
            final(self).wf(),
            final(self).core == old(self).core,
            final(self).leaving is None,
            final(self).load() == after_load_event(old(self).load(), LoadEvent::PackDurable),
            final(progress)@ == after_event(
                old(progress)@,
                HeadEvent::Durable(old(self).leaving->Some_0.last_block),
            ),
    {
        if let Some(pack) = self.leaving {
            self.core.flush_done(pack.last_block, progress);
        }
        self.leaving = None;
    }
}

/// What the index track waits for before it goes on.
#[derive(Debug, Clone, Copy, PartialEq, Eq, Structural)]
pub enum IndexDemand {
    /// Starting a write burst: one is in flight at a time.
    Write,
    /// Recording a flush boundary, or ending: every burst is written.
    Boundary,
    /// Persisting the working set: every burst is written, and so is the row
    /// data of its blocks.
    Checkpoint,
}

/// An outside step of the index track.
#[derive(Debug, Clone, Copy, PartialEq, Eq, Structural)]
pub enum IndexStep {
    AwaitWrite,
    AwaitData,
    Proceed,
}

/// The next outside step of the index track, where `writing` says that a burst
/// is in flight and `data_durable` that the data track passed the checkpoint's
/// barrier: no boundary is recorded and no working set persisted before what it
/// stands for is written.
pub fn index_step(writing: bool, data_durable: bool, demand: IndexDemand) -> (step: IndexStep)
    ensures
        step == if writing {
            IndexStep::AwaitWrite
        } else if demand == IndexDemand::Checkpoint && !data_durable {
            IndexStep::AwaitData
        } else {
            IndexStep::Proceed
        },
{
    if writing {
        IndexStep::AwaitWrite
    } else if demand == IndexDemand::Checkpoint && !data_durable {
        IndexStep::AwaitData
    } else {
        IndexStep::Proceed
    }
}

} // verus!
