use monad_query::errors::QueryError;
use monad_query::primitives::CallKind;
use monad_query::store::blob::{BlobTableId, BlobWriteOp};
use monad_query::store::cache::{
    decode_weighted, weigh_weighted, CachedInner, CachedScannableKvTable, StampWeigher, Weighted,
    CACHE_ENTRY_OVERHEAD,
};
use monad_query::store::dynamo::{scan_pk, DynamoTableLayout};
use monad_query::store::dynamo_ops::{
    assemble_blob, backend_error, blob_requests, delete_requests, plan_apply_writes, plan_marker,
    probe_key, read_blob_len, read_chunk_size_marker, settle_marker_conflict, CreateStep,
    MarkerStep, NumberRead, TableCreation, CREATE_TABLE_POLLS,
};
use monad_query::store::flights::{unshare, CoalescedCache, Flights, ReadStep};
use monad_query::store::memory::InMemoryMetaStore;
use monad_query::store::meta::{MetaStore, MetaWriteOp, ScannableTableId, TableId};
use monad_query::store::schedule::{BatchSchedule, ChunkState};
use monad_query::types::external::{ExternalFamilyRegion, ExternalPayloadSpec};
use monad_query::types::ingest_types::{
    EvmBlockHeader, FinalizedBlock, IngestTrace, IngestTx, Log,
};
use monad_query::write::data_track::{
    block_record, block_rows, encode_external_pack_entry, encode_pack_entry, epoch_version,
    maybe_prewarm, BlobPacker, BlockBlobHeader, DataCore, DictConfig, EncodedFamily,
    FamilyWindowRecord, PackConfig, PackEntry, PayloadMode, RowEncoding, DICT_VERSION_NONE,
};
use monad_query::write::family::{AssignedBlock, FamilyFrontier, FamilyRanges};
use monad_query::write::flow::{
    index_step, DataFlow, FlowDemand, FlowStep, IndexDemand, IndexStep,
};
use monad_query::write::ingest::{
    boot_chain, boot_point, capture_first, is_void_run, join_to_result, resolve_end, run_outcome, TaskEnd,
};
use monad_query::write::probe::ProbeSnapshot;
use monad_query::write::producer::{
    after_poll, plan_fetch, AfterPoll, Prefetch, RunBound, SignalPolicy, Signaller,
};
use monad_query::write::publisher::Progress;

#[test]
fn head_holds_at_last_covered_flush_boundary() {
    let mut p = Progress::new(0, 0);
    p.record_flush_boundary(92);
    p.record_flush_boundary(99);
    p.set_data_durable(96);
    assert_eq!(p.publishable_head(), 92);
    p.set_data_durable(99);
    assert_eq!(p.publishable_head(), 99);
}

#[test]
fn data_durable_alone_never_advances_the_head() {
    let mut p = Progress::new(0, 0);
    p.set_data_durable(1_000);
    assert_eq!(p.publishable_head(), 0);
    p.record_flush_boundary(10);
    assert_eq!(p.publishable_head(), 10);
}

#[test]
fn several_pending_boundaries_promote_to_the_newest_covered() {
    let mut p = Progress::new(0, 0);
    for boundary in [10, 20, 30, 40] {
        p.record_flush_boundary(boundary);
    }
    p.set_data_durable(25);
    assert_eq!(p.publishable_head(), 20);
    p.set_data_durable(40);
    assert_eq!(p.publishable_head(), 40);
}

#[test]
fn boundary_equal_to_data_durable_is_publishable() {
    let mut p = Progress::new(0, 0);
    p.set_data_durable(50);
    p.record_flush_boundary(50);
    assert_eq!(p.publishable_head(), 50);
}

#[test]
fn seed_is_immediately_publishable_and_never_regresses() {
    let mut p = Progress::new(7, 7);
    assert_eq!(p.publishable_head(), 7);
    assert_eq!(p.data_durable(), 7);
    p.record_flush_boundary(7);
    assert_eq!(p.publishable_head(), 7);
    p.record_flush_boundary(9);
    assert_eq!(p.publishable_head(), 7); // data still at the seed
    p.set_data_durable(12);
    assert_eq!(p.publishable_head(), 9);
}

#[test]
fn checkpoint_floor_is_not_published_before_a_flush_boundary() {
    let mut p = Progress::new(5, 2);
    assert_eq!(p.publishable_head(), 2);
    assert_eq!(p.data_durable(), 5);
    // The terminal/first flush at the resume block is already covered by
    // the seeded data frontier and promotes immediately.
    p.record_flush_boundary(5);
    assert_eq!(p.publishable_head(), 5);
}

#[test]
fn head_is_published_only_when_it_moved() {
    let mut p = Progress::new(5, 2);
    assert_eq!(p.next_publish(2), None);
    p.record_flush_boundary(4);
    assert_eq!(p.next_publish(2), Some(4));
    assert_eq!(p.next_publish(4), None);
    p.set_data_durable(3);
    assert_eq!(p.data_durable(), 5);
}

fn dict_config(epoch_blocks: u64, sample_span_blocks: u64) -> DictConfig {
    DictConfig { epoch_blocks, sample_span_blocks }
}

#[test]
fn maybe_prewarm_fires_once_per_epoch_when_corpus_durable() {
    let mut fired = Vec::new();
    let mut last = 0u32;
    let cfg = dict_config(100, 60);

    // Corpus for epoch 1 is blocks [0, 60); through 58 it is incomplete.
    fired.extend(maybe_prewarm(58, &cfg, &mut last));
    assert!(fired.is_empty());
    // Block 59 durable completes the corpus: pre-train epoch 1.
    fired.extend(maybe_prewarm(59, &cfg, &mut last));
    assert_eq!(fired, vec![1]);
    // Further durable progress in the same epoch: no repeat.
    fired.extend(maybe_prewarm(99, &cfg, &mut last));
    assert_eq!(fired, vec![1]);
    // Next epoch's corpus [100, 160) complete: pre-train epoch 2.
    fired.extend(maybe_prewarm(159, &cfg, &mut last));
    assert_eq!(fired, vec![1, 2]);
}

#[test]
fn maybe_prewarm_fires_with_span_clamped_to_epoch() {
    let mut fired = Vec::new();
    let mut last = 0u32;
    let cfg = dict_config(100, 900_000);

    // Epoch 0 not fully durable: corpus for epoch 1 incomplete.
    fired.extend(maybe_prewarm(98, &cfg, &mut last));
    assert!(fired.is_empty());
    // Last block of epoch 0 durable: pre-train epoch 1, exactly once.
    fired.extend(maybe_prewarm(99, &cfg, &mut last));
    fired.extend(maybe_prewarm(150, &cfg, &mut last));
    assert_eq!(fired, vec![1]);
    // Last block of epoch 1 durable: pre-train epoch 2.
    fired.extend(maybe_prewarm(199, &cfg, &mut last));
    assert_eq!(fired, vec![1, 2]);
}

#[test]
fn maybe_prewarm_skips_degenerate_span() {
    let mut fired = Vec::new();
    let mut last = 0u32;

    // sample_span_blocks == 1: no fire on the cold-boot sentinel or later.
    let cfg = dict_config(100, 1);
    fired.extend(maybe_prewarm(0, &cfg, &mut last));
    fired.extend(maybe_prewarm(100, &cfg, &mut last));
    // epoch_blocks == 1 clamps any span to 1: same skip.
    let cfg = dict_config(1, 900_000);
    fired.extend(maybe_prewarm(0, &cfg, &mut last));
    assert!(fired.is_empty());
}

#[test]
fn epochs_overflow_loudly() {
    assert_eq!(epoch_version(250, 100, false).expect("fits"), 2);
    assert_eq!(epoch_version(u64::MAX, 1, true).expect("external"), DICT_VERSION_NONE);
    assert!(matches!(
        epoch_version(u64::MAX, 1, false),
        Err(QueryError::Decode("dict epoch/version overflow"))
    ));
    let mut last = 0u32;
    assert_eq!(maybe_prewarm(u64::MAX, &dict_config(2, 2), &mut last), None);
}

fn policy(divisor: u64, every: u64, enabled: bool) -> SignalPolicy {
    SignalPolicy {
        tip_lag_divisor: divisor,
        checkpoint_every_blocks: every,
        checkpoints_enabled: enabled,
    }
}

fn signaller(policy: SignalPolicy) -> Signaller {
    Signaller::new(FamilyFrontier { log: 0, tx: 0, trace: 0 }, policy, 100)
}

#[test]
fn flush_interval_follows_the_distance() {
    let mut sig = signaller(policy(10, 7, true));
    assert_eq!(sig.flush_interval(), u64::MAX / 10);
    sig.observed_tip = Some(1_100);
    assert_eq!(sig.flush_interval(), 100);
    sig.observed_tip = Some(105);
    assert_eq!(sig.flush_interval(), 1);
    sig.observed_tip = Some(50);
    assert_eq!(sig.flush_interval(), 1);
    // Without checkpoints the cadence bounds the interval.
    let mut bounded = signaller(policy(10, 7, false));
    assert_eq!(bounded.flush_interval(), 7);
    bounded.observed_tip = Some(130);
    assert_eq!(bounded.flush_interval(), 3);
    assert_eq!(signaller(policy(0, 0, false)).flush_interval(), 1);
}

fn block(number: u64) -> FinalizedBlock {
    FinalizedBlock {
        header: EvmBlockHeader { number, parent_hash: [9; 32], rlp: vec![0xc0] },
        logs_by_tx: vec![vec![Log { address: [1; 20], topics: vec![], data: vec![1] }]],
        txs: vec![IngestTx { tx_hash: [2; 32], sender: [3; 20], signed_tx_bytes: vec![4] }],
        traces: vec![IngestTrace {
            typ: CallKind::Call,
            from: [0; 20],
            to: None,
            value: [0; 32],
            gas: 0,
            gas_used: 0,
            input: vec![],
            output: vec![],
            status: 0,
            depth: 0,
            tx_index: 0,
            trace_address: vec![],
            tx_status: true,
        }],
        external: None,
    }
}

#[test]
fn signals_fire_independently() {
    let mut sig = signaller(policy(1, 2, true));
    sig.observed_tip = Some(104);
    let assigned = sig.feed(block(101));
    assert_eq!((assigned.number, assigned.ranges.log_first), (101, 0));
    assert_eq!((sig.since_flush, sig.since_ckpt, sig.frontier.log), (1, 1, 1));
    // Distance three: one block since the last flush is not enough.
    let signals = sig.maybe_signal();
    assert!(!signals.flush && !signals.checkpoint);
    sig.feed(block(102));
    let signals = sig.maybe_signal();
    assert!(signals.flush && signals.checkpoint);
    assert_eq!((sig.since_flush, sig.since_ckpt), (0, 0));
    let end = sig.terminate();
    assert!(end.flush && end.checkpoint);
    assert!(!signaller(policy(1, 1, false)).terminate().checkpoint);
}

#[test]
fn polls_decide_what_to_fetch() {
    assert_eq!(plan_fetch(None, RunBound::Open, 5), None);
    assert_eq!(plan_fetch(Some(4), RunBound::Open, 5), None);
    assert_eq!(plan_fetch(Some(9), RunBound::Open, 5), Some(9));
    assert_eq!(plan_fetch(Some(9), RunBound::Through(7), 5), Some(7));
    assert_eq!(plan_fetch(Some(9), RunBound::Through(4), 5), None);
    assert_eq!(after_poll(Some(9), RunBound::Open, 8, true), AfterPoll::Continue);
    assert_eq!(after_poll(Some(9), RunBound::Through(9), 10, true), AfterPoll::Terminate);
    assert_eq!(after_poll(Some(9), RunBound::Open, 10, true), AfterPoll::Sleep);
    assert_eq!(after_poll(Some(9), RunBound::Through(4), 5, false), AfterPoll::Terminate);
    let wide = Prefetch { concurrency: 4, buffer: 8 };
    assert_eq!((wide.permits(), wide.window()), (4, 8));
    let zero = Prefetch { concurrency: 0, buffer: 0 };
    assert_eq!((zero.permits(), zero.window()), (1, 1));
    assert_eq!(Prefetch { concurrency: 9, buffer: 2 }.window(), 9);
}

#[test]
fn runs_boot_behind_the_resume_block() {
    let warm = boot_point(Some(10), 5);
    assert_eq!((warm.resume, warm.durable_floor, warm.begin), (10, 10, 11));
    assert_eq!(boot_point(Some(10), 50).begin, 50);
    let cold = boot_point(None, 5);
    assert_eq!((cold.resume, cold.durable_floor, cold.begin), (4, 0, 5));
    assert_eq!(boot_point(None, 0).resume, 0);
    assert_eq!(resolve_end(Some(3), Some(9), 5), RunBound::Through(3));
    assert_eq!(resolve_end(None, Some(9), 5), RunBound::Through(13));
    assert_eq!(resolve_end(None, Some(u64::MAX), 5), RunBound::Through(u64::MAX));
    assert_eq!(resolve_end(None, Some(1), 0), RunBound::Through(0));
    assert_eq!(resolve_end(None, None, 5), RunBound::Open);
}

#[test]
fn count_of_zero_fetches_no_block() {
    for begin in [0, 5] {
        let bound = resolve_end(None, Some(0), begin);
        assert_eq!(bound, RunBound::Nothing);
        assert_eq!(plan_fetch(Some(9), bound, begin), None);
        assert_eq!(plan_fetch(None, bound, begin), None);
        assert_eq!(after_poll(Some(9), bound, begin, false), AfterPoll::Terminate);
    }
    // Only a cold store at the first block has no block to signal for.
    assert!(is_void_run(None, 0, RunBound::Nothing));
    assert!(!is_void_run(None, 5, RunBound::Nothing));
    assert!(!is_void_run(Some(0), 1, RunBound::Nothing));
    assert!(!is_void_run(None, 0, RunBound::Through(0)));
    assert!(!is_void_run(None, 0, RunBound::Open));
}

#[test]
fn count_covers_that_many_blocks() {
    for (begin, count) in [(0, 1), (0, 3), (7, 2)] {
        let bound = resolve_end(None, Some(count), begin);
        let covered = (begin..begin + 10).filter(|block| !bound.is_passed(*block)).count();
        assert_eq!(covered as u64, count);
    }
}

#[test]
fn first_failure_wins() {
    let mut outcome = Ok(());
    assert!(!capture_first(&mut outcome, Ok(())));
    assert!(capture_first(&mut outcome, Err(QueryError::Decode("first"))));
    assert!(!capture_first(&mut outcome, Err(QueryError::Decode("second"))));
    assert_eq!(outcome.as_ref().expect_err("failed").detail(), "first");
    assert!(join_to_result(TaskEnd::Cancelled, "task").is_none());
    assert!(matches!(join_to_result(TaskEnd::Finished(Ok(())), "task"), Some(Ok(()))));
    match join_to_result(TaskEnd::Panicked("boom".to_string()), "ingest task") {
        Some(Err(error)) => assert_eq!(error.detail(), "ingest task panicked: boom"),
        _ => panic!("an error"),
    }
    let publisher = Some(Err(QueryError::Decode("publisher")));
    assert_eq!(run_outcome(outcome, publisher).expect_err("failed").detail(), "first");
    let publisher = Some(Err(QueryError::Decode("publisher")));
    assert_eq!(run_outcome(Ok(()), publisher).expect_err("failed").detail(), "publisher");
    assert!(run_outcome(Ok(()), None).is_ok());
}

#[test]
fn probe_deltas_never_go_below_zero() {
    let mut now = ProbeSnapshot {
        blocks: 0,
        producer_send_data_blocked_ns: 0,
        producer_send_index_blocked_ns: 0,
        fetch_decode_ns: 0,
        data_recv_blocked_ns: 0,
        data_encode_ns: 0,
        data_flush_ns: 0,
        index_recv_blocked_ns: 0,
        index_work_ns: 100,
        index_write_ns: 30,
        index_ckpt_wait_ns: 20,
        txs: 0,
        logs: 0,
        callframes: 0,
    };
    let earlier = ProbeSnapshot { index_work_ns: 200, ..now };
    assert_eq!(now.since(&earlier).index_work_ns, 0);
    assert_eq!(now.index_cpu_ns(), 50);
    now.count_block(&FamilyRanges {
        log_first: 0,
        log_count: 3,
        tx_first: 0,
        tx_count: 2,
        trace_first: 0,
        trace_count: 1,
    });
    let delta = now.since(&ProbeSnapshot { index_work_ns: 40, ..earlier });
    assert_eq!((delta.blocks, delta.logs, delta.txs, delta.callframes), (1, 3, 2, 1));
    assert_eq!(delta.index_work_ns, 60);
}

fn assigned(external: Option<ExternalPayloadSpec>) -> AssignedBlock {
    let mut block = block(7);
    block.external = external;
    AssignedBlock {
        number: 7,
        ranges: FamilyRanges {
            log_first: 10,
            log_count: 1,
            tx_first: 20,
            tx_count: 1,
            trace_first: 30,
            trace_count: 1,
        },
        block,
    }
}

fn encoded(blob: &[u8]) -> EncodedFamily {
    EncodedFamily {
        header: BlockBlobHeader {
            offsets: vec![0, blob.len() as u32],
            dict_version: 3,
            base_offset: 99,
            physical_key: vec![],
            physical_base_offset: 0,
            encoding: RowEncoding::Native,
            container_rows: vec![],
            container_status: vec![],
        },
        blob: blob.to_vec(),
    }
}

fn entry(block: u64, blob_len: usize) -> PackEntry {
    let mut assigned = assigned(None);
    assigned.number = block;
    encode_pack_entry(
        &assigned,
        encoded(&vec![1; blob_len]),
        encoded(&[]),
        encoded(&[]),
        [block as u8; 32],
    )
    .expect("pack")
}

#[test]
fn families_concatenate_at_their_base_offsets() {
    let entry = encode_pack_entry(
        &assigned(None),
        encoded(b"log"),
        encoded(b"tx"),
        encoded(b"trace"),
        [5; 32],
    )
    .expect("pack");
    assert_eq!(entry.combined_blob, b"logtxtrace");
    assert_eq!(entry.log_header.base_offset, 0);
    assert_eq!(entry.tx_header.base_offset, 3);
    assert_eq!(entry.trace_header.base_offset, 5);
    assert_eq!(entry.trace_header.dict_version, 3);
    assert_eq!(entry.record.block_number, 7);
    assert_eq!(entry.record.block_hash, alloy_primitives::keccak256([0xc0]).0);
    assert_eq!(entry.record.txs.first_primary_id, 20);
    assert_eq!(entry.record.row_chain, [0; 32]);
    assert_eq!(entry.hash_locations.len(), 1);
    assert_eq!(entry.content_digest, [5; 32]);
    assert_eq!(entry.evm_header.rlp, vec![0xc0]);
    assert_eq!(block_record(&assigned(None)).traces.first_primary_id, 30);
}

#[test]
fn block_rows_are_the_stored_rows() {
    let assigned = assigned(None);
    let rows = block_rows(&assigned).expect("rows");
    assert_eq!(rows.logs.len(), 1);
    assert_eq!(rows.txs, vec![assigned.block.txs[0].encode_row()]);
    assert_eq!(rows.traces, vec![assigned.block.traces[0].encode_row()]);
}

fn region(rows: Vec<u32>, status: Vec<u8>) -> ExternalFamilyRegion {
    ExternalFamilyRegion {
        key: b"block/7".to_vec(),
        base_offset: 4,
        container_offsets: vec![0, 6],
        container_rows: rows,
        container_status: status,
    }
}

fn external() -> ExternalPayloadSpec {
    ExternalPayloadSpec {
        block_number: 7,
        logs: region(vec![1], vec![]),
        txs: region(vec![], vec![]),
        traces: region(vec![1], vec![1]),
    }
}

#[test]
fn external_entries_point_into_the_archive() {
    let digest = |rows: &monad_query::write::data_track::BlockRows| [rows.txs.len() as u8; 32];
    let entry =
        encode_external_pack_entry(&assigned(Some(external())), &digest).expect("pack");
    assert!(entry.combined_blob.is_empty());
    assert_eq!(entry.tx_header.encoding, RowEncoding::ExternalV1);
    assert_eq!(entry.log_header.physical_key, b"block/7".to_vec());
    assert_eq!(entry.trace_header.container_status, vec![1]);
    assert_eq!(entry.trace_header.base_offset, 4);
    assert_eq!(entry.log_header.dict_version, DICT_VERSION_NONE);
    assert_eq!(entry.content_digest, [1; 32]);
    let missing = encode_external_pack_entry(&assigned(None), &digest).err().expect("no spec");
    assert_eq!(
        missing.detail(),
        "external payload mode requires an external payload spec on every block"
    );
    let other = ExternalPayloadSpec { block_number: 8, ..external() };
    assert!(encode_external_pack_entry(&assigned(Some(other)), &digest).is_err());
}

#[test]
fn packs_fill_by_bytes_or_blocks() {
    let mut packer = BlobPacker::new(PackConfig { target_bytes: 4096, max_blocks: 3 });
    assert!(packer.take().is_none());
    packer.push(1, entry(1, 10));
    assert_eq!(packer.bytes, 1024);
    packer.push(2, entry(2, 3072));
    assert!(packer.should_flush());
    let (entries, last) = packer.take().expect("held");
    assert_eq!((entries.len(), last, packer.bytes), (2, 2, 0));
    for number in 3..=5 {
        assert!(!packer.should_flush());
        packer.push(number, entry(number, 0));
    }
    assert!(packer.should_flush());
}

#[test]
fn data_core_folds_in_block_order() {
    let pack = PackConfig { target_bytes: usize::MAX, max_blocks: 10 };
    let mut core = DataCore::new(pack, PayloadMode::default(), dict_config(100, 60), [1; 32]);
    let plan = core.on_block(99).expect("plan");
    assert!(plan.epoch_barrier && plan.version == 0);
    assert!(!core.on_block(99).expect("plan").epoch_barrier);
    let plan = core.on_block(100).expect("plan");
    assert!(plan.epoch_barrier && plan.version == 1);
    let chain = |a: [u8; 32], b: [u8; 32]| [a[0] * 3 + b[0]; 32];
    core.pop_encode(entry(2, 0), &chain);
    core.pop_encode(entry(3, 0), &chain);
    assert_eq!(core.chain_head, [18; 32]);
    assert_eq!(core.packer.entries[0].record.row_chain, [5; 32]);
    assert_eq!(core.packer.entries[1].record.row_chain, [18; 32]);
    assert_eq!(core.packer.last_block, 3);
    let mut progress = Progress::new(0, 0);
    core.flush_done(3, &mut progress);
    assert_eq!(progress.data_durable(), 3);
    assert_eq!(core.prewarm(59), Some(1));
    assert_eq!(core.prewarm(60), None);

    let mut archive =
        DataCore::new(pack, PayloadMode::ExternalArchive, dict_config(1, 900), [0; 32]);
    assert_eq!(archive.on_block(u64::MAX).expect("plan").version, DICT_VERSION_NONE);
    assert_eq!(archive.prewarm(59), None);
}

#[test]
fn chain_continues_on_a_warm_start_only() {
    assert_eq!(boot_chain(Some(7), Some([3; 32])), [3; 32]);
    // The genesis block is a resume point like any other.
    assert_eq!(boot_chain(Some(0), Some([3; 32])), [3; 32]);
    assert_eq!(boot_chain(Some(7), None), [0; 32]);
    assert_eq!(boot_chain(None, Some([3; 32])), [0; 32]);
    assert_eq!(boot_chain(None, None), [0; 32]);
}

#[test]
fn window_ends_behind_its_last_id() {
    let window = FamilyWindowRecord { first_primary_id: 40, count: 2 };
    assert_eq!(window.next_primary_id_exclusive().expect("fits"), 42);
    let last = FamilyWindowRecord { first_primary_id: u64::MAX, count: 0 };
    assert_eq!(last.next_primary_id_exclusive().expect("fits"), u64::MAX);
    let past = FamilyWindowRecord { first_primary_id: u64::MAX, count: 1 };
    assert!(matches!(past.next_primary_id_exclusive(), Err(QueryError::Decode(_))));
}

#[test]
fn barrier_is_passed_when_everything_is_durable() {
    let pack = PackConfig { target_bytes: usize::MAX, max_blocks: 2 };
    let core = DataCore::new(pack, PayloadMode::default(), dict_config(100, 60), [1; 32]);
    let mut flow = DataFlow::new(core);
    let mut progress = Progress::new(0, 0);
    let chain = |a: [u8; 32], _: [u8; 32]| a;
    assert!(matches!(flow.next(FlowDemand::Barrier), FlowStep::Proceed));
    // Two encodes may be in flight; the third block waits for room.
    let mut number = 0;
    for _ in 0..3 {
        flow.started();
    }
    for _ in 0..2 {
        assert!(matches!(flow.next(FlowDemand::Room(2)), FlowStep::AwaitEncode));
        number += 1;
        flow.encoded(entry(number, 0), &chain);
    }
    // The pack is full and leaves; meanwhile the next blocks are taken up.
    match flow.next(FlowDemand::Room(2)) {
        FlowStep::WritePack(entries) => assert_eq!(entries.len(), 2),
        _ => panic!("a full pack leaves"),
    }
    assert!(matches!(flow.next(FlowDemand::Room(2)), FlowStep::Proceed));
    assert_eq!(progress.data_durable(), 0);
    // A barrier drains the encode, then one pack after the other.
    assert!(matches!(flow.next(FlowDemand::Barrier), FlowStep::AwaitEncode));
    flow.encoded(entry(3, 0), &chain);
    assert!(matches!(flow.next(FlowDemand::Barrier), FlowStep::AwaitPack));
    flow.pack_durable(&mut progress);
    assert_eq!(progress.data_durable(), 2);
    assert!(matches!(flow.next(FlowDemand::Barrier), FlowStep::WritePack(_)));
    assert!(matches!(flow.next(FlowDemand::Barrier), FlowStep::AwaitPack));
    flow.pack_durable(&mut progress);
    assert_eq!(progress.data_durable(), 3);
    assert!(matches!(flow.next(FlowDemand::Barrier), FlowStep::Proceed));
}

#[test]
fn index_track_waits_for_what_it_stands_for() {
    for demand in [IndexDemand::Write, IndexDemand::Boundary, IndexDemand::Checkpoint] {
        for data_durable in [false, true] {
            assert_eq!(index_step(true, data_durable, demand), IndexStep::AwaitWrite);
        }
        assert_eq!(index_step(false, true, demand), IndexStep::Proceed);
    }
    assert_eq!(index_step(false, false, IndexDemand::Write), IndexStep::Proceed);
    assert_eq!(index_step(false, false, IndexDemand::Boundary), IndexStep::Proceed);
    assert_eq!(index_step(false, false, IndexDemand::Checkpoint), IndexStep::AwaitData);
}

#[test]
fn schedule_respects_both_limits() {
    let tables = ["a", "b", "a", "a", "b"].iter().map(|t| t.to_string()).collect();
    let mut schedule = BatchSchedule::new(tables, 3, 1);
    assert_eq!(schedule.next_chunk(), Some(0));
    schedule.start(0);
    assert_eq!(schedule.next_chunk(), Some(1));
    schedule.start(1);
    // Chunk 2 waits for table `a`; chunk 3 is past the window of three.
    assert_eq!(schedule.next_chunk(), None);
    assert!(schedule.finish(1, Ok(())).is_none());
    assert_eq!(schedule.next_chunk(), None);
    assert!(schedule.finish(0, Ok(())).is_none());
    assert_eq!(schedule.next_chunk(), Some(2));
    schedule.start(2);
    assert_eq!(schedule.next_chunk(), Some(4));
    schedule.start(4);
    assert!(schedule.finish(4, Ok(())).is_none());
    assert!(schedule.finish(2, Ok(())).is_none());
    schedule.start(3);
    assert!(matches!(schedule.finish(3, Ok(())), Some(Ok(()))));
    assert!(schedule.is_done());
    assert!(schedule.chunks.iter().all(|(_, state)| *state == ChunkState::Done));

    let mut failing = BatchSchedule::new(vec!["a".to_string(), "a".to_string()], 2, 2);
    failing.start(0);
    assert!(matches!(failing.finish(0, Err(QueryError::Decode("down"))), Some(Err(_))));
}

#[test]
fn misses_share_one_flight() {
    let mut cache = CoalescedCache {
        cache: CachedInner::with_weigher(1 << 20, StampWeigher),
        flights: Flights::new(),
    };
    let key = vec![1];
    assert!(matches!(cache.begin(&key), ReadStep::Lead));
    assert!(matches!(cache.begin(&key), ReadStep::Follow));
    // A follower populates the cache when the leader is gone.
    let nine = || Ok(Some(Weighted { value: 9u8, weight: 1 }));
    let value = cache.finish(key.clone(), nine(), false).expect("value").expect("present");
    assert_eq!((value.value, value.weight), (9, 1));
    assert!(matches!(cache.begin(&key), ReadStep::Hit(held) if held.value == 9));
    let _ = cache.finish(key.clone(), nine(), true);
    // Failed and absent fetches are not cached; the next reader leads again.
    let other = vec![2];
    assert!(matches!(cache.begin(&other), ReadStep::Lead));
    assert!(cache.finish(other.clone(), Err(QueryError::Decode("down")), true).is_err());
    assert!(matches!(cache.begin(&other), ReadStep::Lead));
    assert!(cache.finish(other.clone(), Ok(None), true).expect("absent").is_none());
    assert!(matches!(cache.begin(&other), ReadStep::Lead));

    assert!(matches!(unshare(Ok(QueryError::Decode("x"))), QueryError::Decode("x")));
    assert_eq!(unshare(Err("shared".to_string())).detail(), "shared");
}

#[test]
fn scannable_cache_keeps_partitions_apart() {
    let table = ScannableTableId::new("s");
    let mut store = InMemoryMetaStore::default();
    store.scan_put(table, b"ab", b"c", b"one".to_vec()).expect("put");
    store.scan_put(table, b"a", b"bc", b"two".to_vec()).expect("put");
    let mut cached = CachedScannableKvTable::new(store.scannable_table(table), 1 << 20, Ok);
    for _ in 0..2 {
        assert_eq!(cached.get(b"ab", b"c").expect("get"), Some(b"one".to_vec()));
        assert_eq!(cached.get(b"a", b"bc").expect("get"), Some(b"two".to_vec()));
    }
    assert_eq!(cached.take_window_stats(), (2, 2));
    cached.put(b"a", b"d", b"three".to_vec()).expect("put");
    assert_eq!(cached.get(b"a", b"d").expect("get"), Some(b"three".to_vec()));
    assert_eq!(cached.scan_keys(b"a").expect("scan"), vec![b"bc".to_vec(), b"d".to_vec()]);
    assert_eq!(cached.table_id().as_str(), "s");
}

#[test]
fn metadata_batches_plan_chunks() {
    let layout = DynamoTableLayout::single("rows".to_string());
    let writes: Vec<MetaWriteOp> = (0..3u8)
        .map(|i| MetaWriteOp::ScanPut {
            table: ScannableTableId::new("dir"),
            partition: vec![i],
            clustering_key: vec![7],
            row_data: vec![i],
        })
        .chain([MetaWriteOp::Put {
            table: TableId::new("t"),
            row_key: vec![1],
            row_data: vec![],
        }])
        .collect();
    let chunks = plan_apply_writes(&layout, &writes, 3);
    assert_eq!(chunks.iter().map(|(_, c)| c.len()).collect::<Vec<_>>(), vec![3, 1]);
    assert_eq!(chunks[0].1[1].partition_key, scan_pk(ScannableTableId::new("dir"), &[1]));
    assert!(plan_apply_writes(&layout, &[], 3).is_empty());
}

#[test]
fn blobs_cut_into_items_and_back() {
    let op = BlobWriteOp {
        table: BlobTableId::new("b"),
        blob_key: vec![1],
        blob_data: (0..7).collect(),
    };
    let requests = blob_requests("blobs", &op, 3).expect("cut");
    assert_eq!(requests.len(), 3);
    assert_eq!(requests[0].0, "blobs");
    assert_eq!(requests[0].1.put.total_length, Some(7));
    assert_eq!(requests[2].1.put.value, vec![6]);
    assert_eq!(requests[0].2, 512 + 16 + 8 + 4);
    let values: Vec<Vec<u8>> = requests.iter().map(|r| r.1.put.value.clone()).collect();
    assert_eq!(assemble_blob(&values), Some((0..7).collect()));
    assert_eq!(assemble_blob(&[]), None);
    let deletes = delete_requests("blobs", b"pk", vec![vec![0, 0, 0, 1]]);
    assert_eq!(deletes[0].1, (b"pk".to_vec(), vec![0, 0, 0, 1]));
    assert_eq!(deletes[0].2, 512 + 4 + 8);
}

fn number(text: &str) -> NumberRead {
    NumberRead::Number(text.to_string())
}

#[test]
fn numeric_attributes_are_read_strictly() {
    assert_eq!(read_blob_len(NumberRead::NoItem).expect("none"), None);
    assert_eq!(read_blob_len(number("65536")).expect("some"), Some(65_536));
    assert_eq!(read_blob_len(number("+7")).expect("some"), Some(7));
    for bad in ["", "+", "-1", " 1", "1_0", "0x1", "99999999999999999999999"] {
        assert_eq!(
            read_blob_len(number(bad)).expect_err("bad").detail(),
            format!("dynamo blob len not a usize: {bad}")
        );
    }
    assert_eq!(
        read_blob_len(NumberRead::Missing).expect_err("missing").detail(),
        "dynamo blob chunk 0 missing numeric `len` attribute"
    );
    assert_eq!(
        read_chunk_size_marker(NumberRead::Missing).expect_err("missing").detail(),
        "dynamo blob chunk-size marker missing numeric `val` attribute"
    );
    assert_eq!(
        read_chunk_size_marker(number("x")).expect_err("bad").detail(),
        "dynamo blob chunk-size marker not a usize: x"
    );
}

#[test]
fn markers_are_never_overwritten() {
    assert_eq!(plan_marker("t", 64, None).expect("stamp"), MarkerStep::Stamp);
    assert_eq!(plan_marker("t", 64, Some(64)).expect("keep"), MarkerStep::Keep);
    assert!(plan_marker("t", 64, Some(65)).is_err());
    assert!(settle_marker_conflict("t", 64, Some(64)).is_ok());
    assert!(settle_marker_conflict("t", 64, Some(65)).is_err());
    assert_eq!(
        settle_marker_conflict("t", 64, None).expect_err("gone").detail(),
        "dynamo blob chunk-size marker absent after conditional-put conflict"
    );
}

#[test]
fn table_creation_polls_until_active() {
    let creation = TableCreation::new("t".to_string());
    assert!(matches!(creation.on_created(None), CreateStep::Describe));
    let in_use = Some((Some("ResourceInUseException".to_string()), QueryError::Decode("x")));
    assert!(matches!(creation.on_created(in_use), CreateStep::Describe));
    let failed = Some((Some("Other".to_string()), QueryError::Decode("x")));
    assert!(matches!(creation.on_created(failed), CreateStep::Fail(QueryError::Decode("x"))));
    let mut creation = creation;
    assert!(matches!(creation.on_described(true), CreateStep::Done));
    for _ in 1..CREATE_TABLE_POLLS {
        assert!(matches!(creation.on_described(false), CreateStep::Wait));
    }
    match creation.on_described(false) {
        CreateStep::Fail(error) => assert_eq!(
            error.detail(),
            "dynamo create_table: table t did not become ACTIVE in time"
        ),
        _ => panic!("out of polls"),
    }
    assert_eq!(probe_key(12), "__alternator_batch_probe__#12");
    assert_eq!(
        backend_error("query", Some("Throttled"), Some("slow"), "x").detail(),
        "dynamo query: Throttled: slow"
    );
    assert_eq!(backend_error("query", Some("C"), None, "x").detail(), "dynamo query: C: ");
    assert_eq!(backend_error("query", None, None, "lost").detail(), "dynamo query: lost");
}

#[test]
fn decoded_values_weigh_their_stored_bytes() {
    let count = |bytes: Vec<u8>| match bytes.first() {
        Some(_) => Ok(bytes.len() as u64 * 100),
        None => Err(QueryError::Decode("empty")),
    };
    let weighted = decode_weighted(Some(vec![1, 2, 3]), &count).expect("decodes").expect("some");
    assert_eq!((weighted.value, weighted.weight), (300, 3));
    assert_eq!(weigh_weighted(&weighted), 3 + CACHE_ENTRY_OVERHEAD);
    assert!(decode_weighted(None, &count).expect("absent").is_none());
    assert!(matches!(
        decode_weighted(Some(vec![]), &count),
        Err(QueryError::Decode("empty"))
    ));
}
