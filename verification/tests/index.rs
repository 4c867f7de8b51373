use std::collections::VecDeque;

use alloy_consensus::{SignableTransaction, TxEnvelope, TxLegacy};
use alloy_eips::eip2718::Encodable2718;
use monad_query::errors::QueryError;
use monad_query::primitives::CallKind;
use monad_query::types::ingest_types::{
    EvmBlockHeader, FinalizedBlock, IngestTrace, IngestTx, Log,
};
use monad_query::write::artifacts::{seal_family, ArtifactWrite};
use monad_query::write::bitmap::{
    last_sealed_span, page_group_start, page_meta, page_offset, page_start, page_start_in_group,
    seal_boundary, BitmapPageMeta, BUCKET_SPAN, PAGE_GROUP_ID_SPAN, PAGE_SPAN,
    STREAM_PAGE_ID_SPAN,
};
use monad_query::write::dir::{
    compact_dir_bucket, drain_sealed_dir_entries, seal_family_dir, PrimaryDirBucket,
};
use monad_query::write::engine::IndexCore;
use monad_query::write::entries::{
    stream_entries_for_log, stream_entries_for_trace, stream_entries_for_tx,
};
use monad_query::write::family::{AssignedBlock, Family, FamilyFrontier};
use monad_query::write::flush::flush_family;
use monad_query::write::index::{
    accumulate_family, empty_digest, ChainDigest, FamilyState, FamilyTail, OpenState, OpenTail,
};
use monad_query::write::pages::set_bit;
use monad_query::write::producer::{SignalPolicy, Signaller};
use monad_query::write::seal::SealedPage;
use monad_query::write::stage::{split_open_streams, stage_artifact_write, StagedRow};
use monad_query::write::streams::{IndexKind, StreamKey, StreamMap};
use roaring::RoaringBitmap;

const GROUP: u64 = PAGE_GROUP_ID_SPAN; // ids per page group (2^24)
const SPAN: u64 = BUCKET_SPAN; // 2^16 after page/bucket alignment

/// Page-relative bits `[start, start + count)`.
fn bits(start: u32, count: u32) -> RoaringBitmap {
    (start..start + count).collect()
}

/// An address-kind stream key from a repeated byte (test shorthand).
fn skey(byte: u8) -> StreamKey {
    StreamKey::new(IndexKind::Addr, &[byte; 20])
}

/// One emitted manifest row: `(stream_id, group_start, pages)`.
type ManifestRow = (String, u64, Vec<(u32, u32)>);

/// The burst's manifest rows.
fn manifest_writes(writes: &[ArtifactWrite]) -> Vec<ManifestRow> {
    writes
        .iter()
        .filter_map(|w| match w {
            ArtifactWrite::PageCounts { stream_id, group_start, pairs, .. } => {
                Some((stream_id.clone(), *group_start, pairs.clone()))
            }
            _ => None,
        })
        .collect()
}

/// The burst's seal-time page inventories as `(page, stream ids)`.
fn inventory_writes(writes: &[ArtifactWrite]) -> Vec<(u64, Vec<String>)> {
    writes
        .iter()
        .filter_map(|w| match w {
            ArtifactWrite::OpenStreams { page_start, streams, .. } => {
                Some((*page_start, streams.clone()))
            }
            _ => None,
        })
        .collect()
}

/// A seal-chain step over the span's content.
fn fold(
    chain: ChainDigest,
    start: u64,
    pages: &Vec<SealedPage>,
    bucket: &PrimaryDirBucket,
) -> ChainDigest {
    let mut hasher = blake3::Hasher::new();
    hasher.update(&chain);
    hasher.update(&start.to_be_bytes());
    for page in pages {
        hasher.update(page.stream.render().as_bytes());
        for bit in page.bitmap.iter() {
            hasher.update(&bit.to_be_bytes());
        }
    }
    for entry in &bucket.entries {
        hasher.update(&entry.block_number.to_be_bytes());
        hasher.update(&entry.first_primary_id.to_be_bytes());
    }
    hasher.update(&bucket.end_primary_id_exclusive.to_be_bytes());
    *hasher.finalize().as_bytes()
}

fn seal(
    state: &mut FamilyState,
    tail: &mut FamilyTail,
    frontier: u64,
    block: u64,
) -> Result<Vec<ArtifactWrite>, QueryError> {
    seal_family(Family::Log, state, tail, frontier, block, &fold)
}

#[test]
fn manifest_rows_emit_once_at_group_completion() {
    let stream_a = skey(0xa);
    let last_page_in_group = page_start_in_group(GROUP - SPAN);

    // A deterministic mid-group position: page 0 sealed for stream A, the
    // rest of group 0 still open.
    let mid_group = || {
        let mut state = FamilyState::new();
        let mut tail = FamilyTail::new();
        tail.dir = vec![(1, 0, SPAN)];
        tail.pages.insert(skey(0xa), 0, bits(0, 3));
        let writes = seal(&mut state, &mut tail, SPAN, 1).expect("mid-group seal");
        (state, tail, writes)
    };

    let (mut state, mut tail, writes) = mid_group();
    // Mid-group: counts accumulate in state, no manifest row; the sealed
    // page staged its complete inventory.
    assert!(manifest_writes(&writes).is_empty());
    assert_eq!(
        state.sealed_page_counts.get(&stream_a, 0),
        Some(&vec![(0, 3)])
    );
    assert_eq!(
        inventory_writes(&writes),
        vec![(0, vec![stream_a.render()])]
    );

    // Fill out group 0 (stream A's last page, stream B's only page) and
    // seal across the group boundary.
    let cross_group = |state: &mut FamilyState, tail: &mut FamilyTail| {
        tail.pages.insert(skey(0xa), GROUP - SPAN, bits(0, 5));
        tail.pages.insert(skey(0xb), 2 * SPAN, bits(9, 7));
        tail.dir.push((2, SPAN, GROUP));
        seal(state, tail, GROUP, 2).expect("crossing seal")
    };
    let writes = cross_group(&mut state, &mut tail);
    let rows = manifest_writes(&writes);
    assert_eq!(
        rows,
        vec![
            (stream_a.render(), 0, vec![(0, 3), (last_page_in_group, 5)]),
            (skey(0xb).render(), 0, vec![(2 * SPAN as u32, 7)]),
        ]
    );
    assert!(
        state.sealed_page_counts.entries.is_empty(),
        "completed group's accumulator entries dropped"
    );

    // Replay: recovery re-runs the crossing from the same mid-group state
    // (the checkpoint carries the accumulator) and must re-emit the
    // identical rows.
    let (mut state, mut tail, _) = mid_group();
    assert_eq!(manifest_writes(&cross_group(&mut state, &mut tail)), rows);
}

#[test]
fn manifest_emission_handles_multi_group_crossings() {
    let stream = skey(1);
    let mut state = FamilyState::new();
    let mut tail = FamilyTail::new();
    tail.dir = vec![(1, 0, 2 * GROUP)];
    tail.pages.insert(skey(1), 0, bits(0, 2));
    tail.pages.insert(skey(1), GROUP + SPAN, bits(3, 4));

    let writes = seal(&mut state, &mut tail, 2 * GROUP, 1).expect("seal");
    assert_eq!(
        manifest_writes(&writes),
        vec![
            (stream.render(), 0, vec![(0, 2)]),
            (stream.render(), GROUP, vec![(SPAN as u32, 4)]),
        ]
    );
    assert!(state.sealed_page_counts.entries.is_empty());
}

fn entry(block: u64, first: u64, end: u64) -> (u64, u64, u64) {
    (block, first, end)
}

fn bucket_entries(b: &PrimaryDirBucket) -> Vec<(u64, u64)> {
    b.entries
        .iter()
        .map(|e| (e.block_number, e.first_primary_id))
        .collect()
}

#[test]
fn compact_single_bucket_from_tail() {
    let state = VecDeque::new();
    let tail = vec![entry(1, 0, 30_000), entry(2, 30_000, 60_000)];
    let bucket = compact_dir_bucket(&state, &tail, 0).expect("compact");
    assert_eq!(bucket_entries(&bucket), vec![(1, 0), (2, 30_000)]);
    assert_eq!(bucket.end_primary_id_exclusive, 60_000);
}

#[test]
fn straddler_appears_in_both_buckets() {
    // Block 3 spans the 2^16 boundary: id range [65_000, 70_000).
    let state = VecDeque::new();
    let tail = vec![
        entry(1, 0, 30_000),
        entry(2, 30_000, 65_000),
        entry(3, 65_000, 70_000),
    ];

    // Bucket 0: straddler is the last entry; sentinel exceeds the span.
    let b0 = compact_dir_bucket(&state, &tail, 0).expect("bucket 0");
    assert_eq!(bucket_entries(&b0), vec![(1, 0), (2, 30_000), (3, 65_000)]);
    assert_eq!(b0.end_primary_id_exclusive, 70_000);

    // Bucket 1: straddler is the first entry, with first_id < bucket_start.
    let b1 = compact_dir_bucket(&state, &tail, SPAN).expect("bucket 1");
    assert_eq!(bucket_entries(&b1), vec![(3, 65_000)]);
    assert!(b1.entries[0].first_primary_id < SPAN);
    assert_eq!(b1.end_primary_id_exclusive, 70_000);
}

#[test]
fn compaction_spans_state_tail_seam() {
    // Carry-over in state.dir + batch in tail.dir must compact identically across the seam.
    let state = VecDeque::from(vec![entry(1, 0, 30_000), entry(2, 30_000, 65_000)]);
    let tail = vec![entry(3, 65_000, 70_000)];
    let b0 = compact_dir_bucket(&state, &tail, 0).expect("bucket 0");
    assert_eq!(bucket_entries(&b0), vec![(1, 0), (2, 30_000), (3, 65_000)]);
    assert_eq!(b0.end_primary_id_exclusive, 70_000);
}

#[test]
fn compaction_rejects_id_gap() {
    let state = VecDeque::new();
    let tail = vec![entry(1, 0, 100), entry(2, 105, 200)]; // 100 != 105
    let err = compact_dir_bucket(&state, &tail, 0).expect_err("id gap");
    assert!(err.detail().contains("primary-id sequence"));
}

#[test]
fn compaction_rejects_out_of_order_blocks() {
    let state = VecDeque::new();
    let tail = vec![entry(9, 0, 100), entry(7, 100, 200)];
    let err = compact_dir_bucket(&state, &tail, 0).expect_err("block order");
    assert!(err.detail().contains("block sequence"));
}

#[test]
fn empty_sealed_bucket_is_an_error() {
    let state = VecDeque::new();
    let tail: Vec<(u64, u64, u64)> = vec![];
    let err = compact_dir_bucket(&state, &tail, 0).expect_err("no entries");
    assert!(matches!(err, QueryError::MissingData(_)));
}

#[test]
fn drain_keeps_straddler_drops_sealed_across_seam() {
    let mut state = VecDeque::from(vec![entry(1, 0, 30_000), entry(2, 30_000, 65_000)]);
    let mut tail = vec![entry(3, 65_000, 70_000)];
    drain_sealed_dir_entries(&mut state, &mut tail, SPAN); // open bucket starts at 2^16
    assert!(state.is_empty(), "fully-sealed carry-over dropped");
    assert_eq!(tail, vec![entry(3, 65_000, 70_000)], "straddler kept");
}

#[test]
fn drain_stops_at_first_open_entry_in_state() {
    // Entry 2 reaches into the open bucket: it and everything after must survive.
    let mut state = VecDeque::from(vec![entry(1, 0, 60_000), entry(2, 60_000, 70_000)]);
    let mut tail = vec![entry(3, 70_000, 80_000)];
    drain_sealed_dir_entries(&mut state, &mut tail, SPAN);
    assert_eq!(state, vec![entry(2, 60_000, 70_000)]);
    assert_eq!(tail, vec![entry(3, 70_000, 80_000)]);
}

#[test]
fn seal_family_dir_seals_two_buckets_and_retains_open_straddler() {
    // Frontier 140_000 → open bucket starts at 2*2^16 = 131_072; buckets 0 and 1 seal.
    let mut state = VecDeque::new();
    let mut tail = vec![
        entry(1, 0, 30_000),
        entry(2, 30_000, 65_000),
        entry(3, 65_000, 70_000),    // straddles bucket 0 / 1
        entry(4, 70_000, 2 * SPAN),  // fills bucket 1 to its end
        entry(5, 2 * SPAN, 140_000), // straddles bucket 1 / open
    ];
    let sealed = seal_family_dir(&mut state, &mut tail, 0, 2 * SPAN).expect("seal");

    // The sealed buckets (the seal-chain digest inputs) cover each sealed
    // span in ascending order.
    assert_eq!(
        sealed.iter().map(|(bs, _)| *bs).collect::<Vec<_>>(),
        vec![0, SPAN]
    );

    assert!(state.is_empty());
    assert_eq!(tail, vec![entry(5, 2 * SPAN, 140_000)]);
}

#[test]
fn sealed_pages_are_written_by_stream_then_page() {
    let mut state = FamilyState::new();
    let mut tail = FamilyTail::new();
    tail.dir = vec![(1, 0, 3 * SPAN)];
    for (stream, page) in [(1, SPAN), (2, 0), (1, 2 * SPAN), (3, SPAN), (2, 2 * SPAN), (1, 0)] {
        tail.pages.insert(skey(stream), page, bits(0, 1));
    }
    let writes = seal(&mut state, &mut tail, 3 * SPAN, 1).expect("seal");
    let pages: Vec<(String, u64)> = writes
        .iter()
        .filter_map(|w| match w {
            ArtifactWrite::Page { stream_id, page_start, .. } => {
                Some((stream_id.clone(), *page_start))
            }
            _ => None,
        })
        .collect();
    let expected: Vec<(String, u64)> =
        [(1, 0), (1, SPAN), (1, 2 * SPAN), (2, 0), (2, 2 * SPAN), (3, SPAN)]
            .iter()
            .map(|(stream, page)| (skey(*stream).render(), *page))
            .collect();
    assert_eq!(pages, expected);
    // The pages come first, then each span's bucket, chain value and inventory.
    assert!(writes[..6].iter().all(|w| matches!(w, ArtifactWrite::Page { .. })));
    assert_eq!(writes.len(), 6 + 3 * 3);
    assert_eq!(
        inventory_writes(&writes)[1],
        (SPAN, vec![skey(1).render(), skey(3).render()])
    );
}

#[test]
fn failed_seal_changes_nothing() {
    let mut state = FamilyState::new();
    let mut tail = FamilyTail::new();
    tail.dir = vec![(1, 0, 100), (2, 105, SPAN)];
    tail.pages.insert(skey(1), 0, bits(0, 3));
    let err = seal(&mut state, &mut tail, SPAN, 2).err().expect("gap");
    assert!(matches!(err, QueryError::Decode(_)));
    assert_eq!(state.sealed_id, 0);
    assert_eq!(tail.dir.len(), 2);
    assert_eq!(tail.pages.get(&skey(1), 0), Some(&bits(0, 3)));
}

#[test]
fn accumulate_family_sets_page_offsets_and_one_dir_entry() {
    let mut tail = FamilyTail::new();
    let records = Ok((0..3).map(|_| vec![skey(1)]).collect());
    accumulate_family(&mut tail, 5, 3, 42, records).expect("accumulate");

    assert_eq!(tail.dir, vec![(42, 5, 8)]);
    let page = page_start(5);
    let bm = tail.pages.get(&skey(1), page).expect("page");
    assert_eq!(bm.iter().collect::<Vec<_>>(), vec![5, 6, 7]);
}

#[test]
fn accumulate_family_stores_bits_page_relative_past_page_zero() {
    // Ids straddling a page boundary land in two pages, each bit relative
    // to ITS page's start.
    let mut tail = FamilyTail::new();
    let records = Ok((0..2).map(|_| vec![skey(1)]).collect());
    accumulate_family(&mut tail, PAGE_SPAN - 1, 2, 7, records).expect("accumulate");

    let last_of_page0 = tail.pages.get(&skey(1), 0).expect("page 0");
    assert_eq!(
        last_of_page0.iter().collect::<Vec<_>>(),
        vec![STREAM_PAGE_ID_SPAN - 1]
    );
    let first_of_page1 = tail.pages.get(&skey(1), PAGE_SPAN).expect("page 1");
    assert_eq!(first_of_page1.iter().collect::<Vec<_>>(), vec![0]);
}

#[test]
fn accumulate_family_unions_multiple_streams_per_record() {
    let mut tail = FamilyTail::new();
    accumulate_family(&mut tail, 0, 1, 1, Ok(vec![vec![skey(0xa), skey(0xb)]]))
        .expect("accumulate");

    let page = page_start(0);
    for stream in [skey(0xa), skey(0xb)] {
        let bm = tail.pages.get(&stream, page).expect("page");
        assert_eq!(bm.iter().collect::<Vec<_>>(), vec![0]);
    }
}

#[test]
fn accumulate_family_empty_pushes_no_dir_entry() {
    let mut tail = FamilyTail::new();
    accumulate_family(&mut tail, 0, 0, 1, Ok(Vec::new())).expect("accumulate");
    assert!(tail.dir.is_empty());
    assert!(tail.pages.entries.is_empty());
}

#[test]
fn accumulate_family_propagates_extractor_error() {
    let mut tail = FamilyTail::new();
    let err = accumulate_family(&mut tail, 0, 1, 1, Err(QueryError::Decode("boom")))
        .expect_err("extractor error propagates");
    assert!(err.detail().contains("boom"));
}

#[test]
fn ids_split_into_page_and_offset() {
    let id = 5 * GROUP + 3 * SPAN + 17;
    assert_eq!(page_start(id), 5 * GROUP + 3 * SPAN);
    assert_eq!(page_offset(id), 17);
    assert_eq!(page_group_start(id), 5 * GROUP);
    assert_eq!(page_start_in_group(page_start(id)), 3 * SPAN as u32);
    assert_eq!(seal_boundary(2 * SPAN - 1), SPAN);
    assert_eq!(last_sealed_span(0), None);
    assert_eq!(last_sealed_span(2 * SPAN), Some(SPAN));
}

#[test]
fn page_meta_describes_the_bits() {
    assert_eq!(
        page_meta(&bits(9, 7)),
        BitmapPageMeta { min_offset: 9, max_offset: 15, count: 7 }
    );
    assert_eq!(
        page_meta(&RoaringBitmap::new()),
        BitmapPageMeta { min_offset: 0, max_offset: 0, count: 0 }
    );
}

#[test]
fn stream_ids_render_and_parse() {
    let key = StreamKey::new(IndexKind::From, &[0xbb; 20]);
    assert_eq!(key.render(), format!("from/{}", "bb".repeat(20)));
    assert_eq!(StreamKey::new(IndexKind::TopLevel, &[]).render(), "top_level/");
    for kind in [
        IndexKind::Addr,
        IndexKind::Topic0,
        IndexKind::Topic1,
        IndexKind::Topic2,
        IndexKind::Topic3,
        IndexKind::From,
        IndexKind::To,
        IndexKind::Selector,
        IndexKind::TopLevel,
        IndexKind::HasTransfer,
    ] {
        let id = StreamKey::new(kind, &[0x0f, 0xa0]).render();
        assert_eq!(id, format!("{}/0fa0", kind.name()));
        assert_eq!(StreamKey::parse(&id).expect("parse").render(), id);
    }
    for bad in ["", "addr", "addr/0", "addr/0G", "addr/AA", "addr/0xaa", "other/aa", "adr/aa"] {
        assert!(matches!(
            StreamKey::parse(bad),
            Err(QueryError::Decode("invalid stream id"))
        ));
    }
}

fn ids(streams: Vec<StreamKey>) -> Vec<String> {
    streams.iter().map(StreamKey::render).collect()
}

#[test]
fn logs_index_address_and_four_topics() {
    let topics: Vec<[u8; 32]> = (0..5u8).map(|i| [i; 32]).collect();
    let entries = ids(stream_entries_for_log(&[7; 20], &topics));
    assert_eq!(entries.len(), 5);
    assert_eq!(entries[0], format!("addr/{}", "07".repeat(20)));
    assert_eq!(entries[4], format!("topic3/{}", "03".repeat(32)));
    assert_eq!(ids(stream_entries_for_log(&[7; 20], &topics[..1])).len(), 2);
}

fn frame(to: Option<[u8; 20]>, input: Vec<u8>, path: Vec<u32>, value: u8) -> IngestTrace {
    let mut amount = [0u8; 32];
    amount[31] = value;
    IngestTrace {
        typ: CallKind::Call,
        from: [1; 20],
        to,
        value: amount,
        gas: 0,
        gas_used: 0,
        input,
        output: vec![],
        status: 0,
        depth: path.len() as u32,
        tx_index: 0,
        trace_address: path,
        tx_status: true,
    }
}

#[test]
fn traces_index_what_they_have() {
    let full = frame(Some([2; 20]), vec![1, 2, 3, 4], vec![], 1);
    assert_eq!(
        ids(stream_entries_for_trace(&full, false)),
        vec![
            format!("from/{}", "01".repeat(20)),
            format!("to/{}", "02".repeat(20)),
            "selector/01020304".to_string(),
            "top_level/".to_string(),
            "has_transfer/".to_string(),
        ]
    );
    assert_eq!(ids(stream_entries_for_trace(&full, true)).len(), 4);
    let bare = frame(None, vec![1], vec![0], 0);
    assert_eq!(
        ids(stream_entries_for_trace(&bare, false)),
        vec![format!("from/{}", "01".repeat(20))]
    );
}

fn signed_legacy(to: [u8; 20]) -> Vec<u8> {
    let tx = TxLegacy {
        to: alloy_primitives::TxKind::Call(alloy_primitives::Address::from(to)),
        input: alloy_primitives::Bytes::from_static(&[9, 8, 7, 6, 5]),
        ..Default::default()
    };
    let mut bytes = Vec::new();
    TxEnvelope::Legacy(tx.into_signed(alloy_primitives::Signature::test_signature()))
        .encode_2718(&mut bytes);
    bytes
}

#[test]
fn txs_index_what_their_envelope_holds() {
    let tx = IngestTx {
        tx_hash: [0; 32],
        sender: [3; 20],
        signed_tx_bytes: signed_legacy([4; 20]),
    };
    assert_eq!(
        ids(stream_entries_for_tx(&tx).expect("decodes")),
        vec![
            format!("from/{}", "03".repeat(20)),
            format!("to/{}", "04".repeat(20)),
            "selector/09080706".to_string(),
        ]
    );
    let broken = IngestTx { signed_tx_bytes: vec![0xff], ..IngestTx::default() };
    assert!(matches!(
        stream_entries_for_tx(&broken),
        Err(QueryError::Decode("invalid signed tx envelope"))
    ));
}

fn block(
    number: u64,
    logs: Vec<Vec<Log>>,
    txs: Vec<IngestTx>,
    traces: Vec<IngestTrace>,
) -> FinalizedBlock {
    FinalizedBlock {
        header: EvmBlockHeader { number, parent_hash: [0; 32], rlp: vec![] },
        logs_by_tx: logs,
        txs,
        traces,
        external: None,
    }
}

fn log(address: u8) -> Log {
    Log { address: [address; 20], topics: vec![], data: vec![] }
}

fn policy() -> SignalPolicy {
    SignalPolicy { tip_lag_divisor: 1, checkpoint_every_blocks: 1, checkpoints_enabled: true }
}

fn index_core() -> IndexCore {
    IndexCore::new(
        OpenState { log: FamilyState::new(), tx: FamilyState::new(), trace: FamilyState::new() },
        OpenTail { log: FamilyTail::new(), tx: FamilyTail::new(), trace: FamilyTail::new() },
        FamilyFrontier { log: 0, tx: 0, trace: 0 },
        0,
    )
}

#[test]
fn engine_accumulates_every_family() {
    let mut signaller = Signaller::new(FamilyFrontier { log: 0, tx: 0, trace: 0 }, policy(), 0);
    let mut core = index_core();
    let tx = IngestTx { signed_tx_bytes: signed_legacy([4; 20]), ..IngestTx::default() };
    let assigned = signaller.feed(block(
        7,
        vec![vec![log(1), log(2)], vec![log(1)]],
        vec![tx],
        vec![frame(None, vec![], vec![], 1)],
    ));
    core.accumulate(&assigned).expect("accumulate");
    assert_eq!(core.last_block, 7);
    assert_eq!((core.frontier.log, core.frontier.tx, core.frontier.trace), (3, 1, 1));
    let addr1 = core.tail.log.pages.get(&skey(1), 0).expect("stream");
    assert_eq!(addr1.iter().collect::<Vec<_>>(), vec![0, 2]);
    assert_eq!(core.tail.tx.dir, vec![(7, 0, 1)]);
    assert!(core.tail.trace.pages.get(&StreamKey::new(IndexKind::HasTransfer, &[]), 0).is_some());

    let writes = core.batch_flush();
    assert!(core.tail.log.pages.entries.is_empty() && core.tail.log.dir.is_empty());
    let dirs = writes.iter().filter(|w| matches!(w, ArtifactWrite::DirFragment { .. })).count();
    assert_eq!(dirs, 3);
    assert!(core.seal_ready(&fold, &fold, &fold).expect("nothing to seal").is_empty());

    let broken = IngestTx { signed_tx_bytes: vec![0xff], ..IngestTx::default() };
    let assigned = signaller.feed(block(8, vec![vec![log(9)]], vec![broken], vec![]));
    assert!(core.accumulate(&assigned).is_err());
    assert_eq!(core.last_block, 7);
    assert!(core.tail.log.pages.entries.is_empty());
}

#[test]
fn first_failing_family_is_reported() {
    // A completed page whose directory has a gap in the ids, or in the blocks.
    let gap = || vec![(1, 0, 10), (2, 20, 65_540)];
    let disorder = || vec![(2, 0, 10), (1, 10, 65_540)];
    let whole = || vec![(1, 0, 65_540)];
    let sealed = |log: Vec<_>, tx: Vec<_>, trace: Vec<_>| {
        let mut core = index_core();
        core.tail.log.dir = log;
        core.tail.tx.dir = tx;
        core.tail.trace.dir = trace;
        core.frontier = FamilyFrontier { log: 65_540, tx: 65_540, trace: 65_540 };
        let result = core.seal_ready(&fold, &fold, &fold);
        let error = result.err().expect("gap").detail().to_string();
        let at = [core.state.log.sealed_id, core.state.tx.sealed_id, core.state.trace.sealed_id];
        (error, at)
    };
    let ids = "inconsistent primary directory bucket primary-id sequence";
    let blocks = "inconsistent primary directory bucket block sequence";
    assert_eq!(sealed(gap(), disorder(), disorder()), (ids.to_string(), [0, 0, 0]));
    assert_eq!(sealed(whole(), disorder(), gap()), (blocks.to_string(), [65_536, 0, 0]));
    assert_eq!(sealed(whole(), whole(), gap()), (ids.to_string(), [65_536, 65_536, 0]));
}

/// Everything a burst says, as comparable text.
fn shown(writes: &[ArtifactWrite]) -> Vec<String> {
    writes
        .iter()
        .map(|w| match w {
            ArtifactWrite::Page { stream_id, page_start, meta, bitmap, .. } => {
                format!("page {stream_id} {page_start} {meta:?} {bitmap:?}")
            }
            ArtifactWrite::Bucket { bucket_start, bucket, .. } => {
                format!("bucket {bucket_start} {bucket:?}")
            }
            ArtifactWrite::SealChain { span_start, value, .. } => {
                format!("chain {span_start} {value:?}")
            }
            ArtifactWrite::OpenStreams { page_start, marker_block, streams, .. } => {
                format!("streams {page_start} {marker_block} {streams:?}")
            }
            ArtifactWrite::PageCounts { stream_id, group_start, pairs, .. } => {
                format!("counts {stream_id} {group_start} {pairs:?}")
            }
            ArtifactWrite::PageFragment { stream_id, page_start, flush_block, meta, bitmap, .. } => {
                format!("fragment {stream_id} {page_start} {flush_block} {meta:?} {bitmap:?}")
            }
            ArtifactWrite::DirFragment { block, first_id, end_id, .. } => {
                format!("dir {block} {first_id} {end_id}")
            }
        })
        .collect()
}

/// Two blocks of log ids that complete the first page, with or without a flush
/// in between.
fn run(flush: bool) -> (Vec<String>, ChainDigest) {
    let mut state = FamilyState::new();
    let mut tail = FamilyTail::new();
    let half = (SPAN / 2) as usize;
    let first = (0..half).map(|i| vec![skey((i % 3) as u8)]).collect();
    accumulate_family(&mut tail, 0, half as u32, 1, Ok(first)).expect("first");
    if flush {
        flush_family(Family::Log, &mut state, &mut tail, 1);
    }
    let second = (0..half + 10).map(|i| vec![skey((i % 5) as u8)]).collect();
    accumulate_family(&mut tail, half as u64, half as u32 + 10, 2, Ok(second)).expect("second");
    let writes = seal(&mut state, &mut tail, SPAN + 10, 2).expect("seal");
    (shown(&writes), state.seal_chain)
}

#[test]
fn seals_do_not_depend_on_flush_cadence() {
    let (plain, chain) = run(false);
    let (flushed, flushed_chain) = run(true);
    assert_eq!(plain, flushed);
    assert_eq!(chain, flushed_chain);
    assert_ne!(chain, empty_digest());
    // Five pages, then the span's bucket, chain value and inventory.
    assert_eq!(plain.len(), 8);
    assert!(plain[0].starts_with("page addr/00"));
    assert!(plain[5].starts_with("bucket 0"));
    assert!(plain[6].starts_with("chain 0"));
    assert!(plain[7].starts_with("streams 0 2"));
}

#[test]
fn seal_without_a_completed_span_does_nothing() {
    let mut state = FamilyState::new();
    let mut tail = FamilyTail::new();
    accumulate_family(&mut tail, 0, 1, 1, Ok(vec![vec![skey(1)]])).expect("accumulate");
    assert!(seal(&mut state, &mut tail, SPAN - 1, 1).expect("seal").is_empty());
    assert_eq!(state.sealed_id, 0);
    assert_eq!(tail.dir.len(), 1);
}

#[test]
fn flush_lists_a_stream_once_per_page() {
    let mut state = FamilyState::new();
    let mut tail = FamilyTail::new();
    accumulate_family(&mut tail, 0, 2, 1, Ok(vec![vec![skey(2)], vec![skey(1)]])).expect("one");
    let first = shown(&flush_family(Family::Log, &mut state, &mut tail, 1));
    assert_eq!(first.len(), 4);
    assert_eq!(first[2], format!("streams 0 1 {:?}", [skey(1).render(), skey(2).render()]));
    assert_eq!(first[3], "dir 1 0 2");
    accumulate_family(&mut tail, 2, 2, 2, Ok(vec![vec![skey(2)], vec![skey(3)]])).expect("two");
    let second = shown(&flush_family(Family::Log, &mut state, &mut tail, 2));
    assert_eq!(second[2], format!("streams 0 2 {:?}", [skey(3).render()]));
    assert_eq!(
        state.pages.get(&skey(2), 0).expect("carried").iter().collect::<Vec<_>>(),
        vec![0, 2]
    );
    accumulate_family(&mut tail, 4, 1, 3, Ok(vec![vec![skey(2)]])).expect("three");
    let third = shown(&flush_family(Family::Log, &mut state, &mut tail, 3));
    assert_eq!(third.len(), 2);
    assert!(flush_family(Family::Log, &mut state, &mut tail, 4).is_empty());
}

#[test]
fn stream_map_orders_and_splits() {
    let mut map = StreamMap::new();
    map.insert(skey(2), 0, 20);
    map.insert(skey(1), SPAN, 11);
    map.insert(skey(1), 0, 10);
    map.insert(skey(2), 0, 21);
    let order: Vec<(String, u64, i32)> =
        map.entries.iter().map(|e| (e.stream.render(), e.start, e.value)).collect();
    assert_eq!(
        order,
        vec![
            (skey(1).render(), 0, 10),
            (skey(1).render(), SPAN, 11),
            (skey(2).render(), 0, 21),
        ]
    );
    assert_eq!(map.get(&skey(1), 1), None);
    let (lower, upper) = map.split_below(SPAN);
    assert_eq!((lower.entries.len(), upper.entries.len()), (2, 1));
}

#[test]
fn set_bit_keeps_other_bits() {
    let mut pages = StreamMap::new();
    set_bit(&mut pages, &skey(1), 0, 5);
    set_bit(&mut pages, &skey(1), 0, 3);
    set_bit(&mut pages, &skey(1), 0, 5);
    assert_eq!(pages.get(&skey(1), 0).expect("page").iter().collect::<Vec<_>>(), vec![3, 5]);
}

#[test]
fn inventories_chunk_to_the_target() {
    let names = |n: usize| (0..n).map(|i| format!("{i:06}")).collect::<Vec<_>>();
    // Each id takes ten bytes; a header takes five.
    let lens = |target: usize| {
        split_open_streams(names(7), target).iter().map(Vec::len).collect::<Vec<_>>()
    };
    assert_eq!(lens(35), vec![3, 3, 1]);
    assert_eq!(lens(34), vec![2, 2, 2, 1]);
    assert_eq!(lens(1), vec![1; 7]);
    assert_eq!(lens(usize::MAX), vec![7]);
    assert!(split_open_streams(Vec::new(), 10).is_empty());
    let flat: Vec<String> = split_open_streams(names(7), 35).concat();
    assert_eq!(flat, names(7));
}

#[test]
fn writes_stage_as_rows() {
    let dir = ArtifactWrite::DirFragment {
        family: Family::Tx,
        block: 3,
        first_id: 10,
        end_id: 14,
    };
    let rows = stage_artifact_write(dir, 100).expect("stage");
    assert!(matches!(
        rows[0],
        StagedRow::BlockFragment { family: Family::Tx, block: 3, first_id: 10, count: 4 }
    ));
    let wide = ArtifactWrite::DirFragment {
        family: Family::Tx,
        block: 3,
        first_id: 0,
        end_id: 1 << 32,
    };
    assert!(matches!(
        stage_artifact_write(wide, 100),
        Err(QueryError::Decode("primary directory fragment count exceeds u32"))
    ));
    let streams = ArtifactWrite::OpenStreams {
        family: Family::Log,
        page_start: SPAN,
        marker_block: 9,
        streams: vec!["a".to_string(), "b".to_string(), "c".to_string()],
    };
    let rows = stage_artifact_write(streams, 15).expect("stage");
    assert_eq!(rows.len(), 2);
    match &rows[1] {
        StagedRow::OpenStreamsDelta { page_start, marker_block, chunk_idx, streams, .. } => {
            assert_eq!((*page_start, *marker_block, *chunk_idx), (SPAN, 9, 1));
            assert_eq!(streams, &vec!["c".to_string()]);
        }
        _ => panic!("an inventory row"),
    }
    let chain = ArtifactWrite::SealChain { family: Family::Log, span_start: 0, value: [5; 32] };
    assert!(matches!(
        stage_artifact_write(chain, 0).expect("stage")[0],
        StagedRow::SealChain { span_start: 0, value: [5, ..], .. }
    ));
}

#[test]
fn assigned_ids_are_contiguous() {
    let mut frontier = FamilyFrontier { log: 100, tx: 10, trace: 1 };
    let block = block(1, vec![vec![log(1)], vec![log(2), log(3)]], vec![IngestTx::default()], vec![]);
    let ranges = frontier.assign(&block);
    assert_eq!((ranges.log_first, ranges.log_count, ranges.log_end()), (100, 3, 103));
    assert_eq!((ranges.tx_first, ranges.tx_count, ranges.tx_end()), (10, 1, 11));
    assert_eq!((ranges.trace_first, ranges.trace_count, ranges.trace_end()), (1, 0, 1));
    assert_eq!((frontier.log, frontier.tx, frontier.trace), (103, 11, 1));
    let assigned = AssignedBlock { number: 1, ranges, block };
    assert_eq!(assigned.ranges.tx_first, 10);
}
