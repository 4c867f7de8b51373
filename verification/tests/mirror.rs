use std::collections::BTreeMap;

use monad_query::write::artifacts::{seal_family, ArtifactWrite};
use monad_query::write::bitmap::{page_group_start, seal_boundary, PAGE_SPAN};
use monad_query::write::data_track::{
    BlockBlobHeader, BlockRecord, DataCore, DictConfig, FamilyWindowRecord, PackConfig, PackEntry,
    stage_pack, PackRow, PayloadMode, RowEncoding,
};
use monad_query::write::dir::PrimaryDirBucket;
use monad_query::write::family::{Family, FamilyFrontier};
use monad_query::write::flush::flush_family;
use monad_query::write::index::{accumulate_family, ChainDigest, FamilyState, FamilyTail};
use monad_query::write::recover::{
    rebuild_chain_span, rebuild_family, FamilyArtifacts, SealedPageListing,
};
use monad_query::write::seal::SealedPage;
use monad_query::write::streams::{IndexKind, StreamKey};
use monad_query::store::blob::BlobTableId;
use monad_query::store::memory::{InMemoryBlobStore, InMemoryMetaStore};
use monad_query::store::meta::{MetaStore, ScannableTableId, TableId};
use monad_query::types::ingest_types::{EvmBlockHeader, FinalizedBlock, Log};
use monad_query::types::txs::TxLocation;
use roaring::RoaringBitmap;

fn skey(byte: u8) -> StreamKey {
    StreamKey::new(IndexKind::Addr, &[byte; 20])
}

fn fold(
    chain: ChainDigest,
    start: u64,
    pages: &Vec<SealedPage>,
    bucket: &PrimaryDirBucket,
) -> ChainDigest {
    let mut hasher = blake3::Hasher::new();
    hasher.update(&chain);
    hasher.update(&start.to_be_bytes());
    hasher.update(&pages.len().to_be_bytes());
    hasher.update(&bucket.end_primary_id_exclusive.to_be_bytes());
    *hasher.finalize().as_bytes()
}

/// The rows of one family, as a store would keep them.
#[derive(Default)]
struct Rows {
    fragments: BTreeMap<(String, u64), Vec<RoaringBitmap>>,
    inventory: BTreeMap<u64, Vec<String>>,
    counts: BTreeMap<(String, u64), u32>,
    dir: Vec<(u64, u64, u64)>,
    chains: BTreeMap<u64, ChainDigest>,
}

impl Rows {
    fn write(&mut self, writes: Vec<ArtifactWrite>) {
        for write in writes {
            match write {
                ArtifactWrite::Page { stream_id, page_start, meta, .. } => {
                    self.counts.insert((stream_id, page_start), meta.count);
                }
                ArtifactWrite::PageFragment { stream_id, page_start, bitmap, .. } => {
                    self.fragments.entry((stream_id, page_start)).or_default().push(bitmap);
                }
                ArtifactWrite::DirFragment { block, first_id, end_id, .. } => {
                    self.dir.push((block, first_id, end_id));
                }
                ArtifactWrite::OpenStreams { page_start, streams, .. } => {
                    let listed = self.inventory.entry(page_start).or_default();
                    for stream in streams {
                        if !listed.contains(&stream) {
                            listed.push(stream);
                        }
                    }
                }
                ArtifactWrite::SealChain { span_start, value, .. } => {
                    self.chains.insert(span_start, value);
                }
                ArtifactWrite::Bucket { .. } | ArtifactWrite::PageCounts { .. } => {}
            }
        }
    }

    fn read_back(&self, bound: u64) -> FamilyArtifacts {
        let sealed_id = seal_boundary(bound);
        let listed = |page: u64| self.inventory.get(&page).cloned().unwrap_or_default();
        let mut sealed_pages = Vec::new();
        let mut page = page_group_start(sealed_id);
        while page < sealed_id {
            let streams = listed(page)
                .into_iter()
                .map(|id| {
                    let count = self.counts.get(&(id.clone(), page)).copied();
                    (id, count)
                })
                .collect();
            sealed_pages.push(SealedPageListing { page, streams });
            page += PAGE_SPAN;
        }
        FamilyArtifacts {
            chain: rebuild_chain_span(bound).and_then(|span| self.chains.get(&span).copied()),
            sealed_pages,
            streams: listed(sealed_id)
                .into_iter()
                .map(|id| {
                    let fragments = self
                        .fragments
                        .get(&(id.clone(), sealed_id))
                        .cloned()
                        .unwrap_or_default();
                    (id, fragments)
                })
                .collect(),
            dir: self.dir.iter().copied().filter(|entry| entry.2 > sealed_id).collect(),
        }
    }
}

/// A state's content, comparable.
fn shown(state: &FamilyState) -> (Vec<String>, Vec<(u64, u64, u64)>, u64, ChainDigest, Vec<String>) {
    let pages = state
        .pages
        .entries
        .iter()
        .map(|e| format!("{} {} {:?}", e.stream.render(), e.start, e.value))
        .collect();
    let counts = state
        .sealed_page_counts
        .entries
        .iter()
        .map(|e| format!("{} {} {:?}", e.stream.render(), e.start, e.value))
        .collect();
    (pages, state.dir.iter().copied().collect(), state.sealed_id, state.seal_chain, counts)
}

struct Run {
    state: FamilyState,
    tail: FamilyTail,
    frontier: u64,
    rows: Rows,
}

impl Run {
    fn block(&mut self, number: u64, count: u32) {
        let records = (0..count).map(|i| vec![skey((i % 4) as u8), skey(number as u8)]).collect();
        accumulate_family(&mut self.tail, self.frontier, count, number, Ok(records))
            .expect("accumulate");
        self.frontier += u64::from(count);
        let writes =
            seal_family(Family::Log, &mut self.state, &mut self.tail, self.frontier, number, &fold)
                .expect("seal");
        self.rows.write(writes);
    }

    fn flush(&mut self, number: u64) {
        let writes = flush_family(Family::Log, &mut self.state, &mut self.tail, number);
        self.rows.write(writes);
    }
}

#[test]
fn rebuild_matches_the_live_state() {
    let mut run = Run {
        state: FamilyState::new(),
        tail: FamilyTail::new(),
        frontier: 0,
        rows: Rows::default(),
    };
    run.block(1, 40_000);
    run.flush(1);
    run.block(2, 30_000);
    run.block(3, 100);
    run.flush(3);
    let live = shown(&run.state);
    let bound = run.frontier;
    assert_eq!(live.2, PAGE_SPAN);
    assert!(!live.0.is_empty() && !live.1.is_empty() && !live.4.is_empty());
    let rebuilt = rebuild_family(&run.rows.read_back(bound), bound).expect("rebuild");
    assert_eq!(shown(&rebuilt), live);
    let seen: Vec<String> =
        run.state.open_streams_seen.streams.iter().map(StreamKey::render).collect();
    assert!(rebuilt.open_streams_seen.streams.iter().all(|s| seen.contains(&s.render())));

    // The index runs ahead: more fragments on the same page, then a seal.
    run.block(4, 500);
    run.flush(4);
    run.block(5, 70_000);
    let rebuilt = rebuild_family(&run.rows.read_back(bound), bound).expect("rebuild");
    assert_eq!(shown(&rebuilt), live);
    assert!(rebuilt.open_streams_seen.contains(&skey(4)));
}

fn header() -> BlockBlobHeader {
    BlockBlobHeader {
        offsets: vec![],
        dict_version: 0,
        base_offset: 0,
        physical_key: vec![],
        physical_base_offset: 0,
        encoding: RowEncoding::Native,
        container_rows: vec![],
        container_status: vec![],
    }
}

fn pack_entry(block_number: u64) -> PackEntry {
    let window = FamilyWindowRecord { first_primary_id: 0, count: 0 };
    PackEntry {
        evm_header: EvmBlockHeader { number: block_number, parent_hash: [0; 32], rlp: vec![] },
        record: BlockRecord {
            block_number,
            block_hash: [0; 32],
            parent_hash: [0; 32],
            logs: window,
            txs: window,
            traces: window,
            row_chain: [0; 32],
        },
        log_header: header(),
        tx_header: header(),
        trace_header: header(),
        combined_blob: vec![],
        hash_locations: vec![],
        content_digest: [block_number as u8; 32],
    }
}

fn chain(head: ChainDigest, digest: ChainDigest) -> ChainDigest {
    let mut hasher = blake3::Hasher::new();
    hasher.update(&head);
    hasher.update(&digest);
    *hasher.finalize().as_bytes()
}

/// The row chain of blocks one to six, with packs leaving after some of them
/// and a restart after others.
fn row_chains(flush_after: &[u64], restart_after: &[u64]) -> Vec<ChainDigest> {
    let config = DictConfig { epoch_blocks: 100, sample_span_blocks: 1 };
    let pack = PackConfig { target_bytes: usize::MAX, max_blocks: 100 };
    let mut core = DataCore::new(pack, PayloadMode::Native, config, [0; 32]);
    let mut stored: Vec<PackEntry> = Vec::new();
    for number in 1..=6 {
        core.pop_encode(pack_entry(number), &chain);
        let restart = restart_after.contains(&number);
        if restart || flush_after.contains(&number) {
            stored.extend(core.packer.take().expect("held").0);
        }
        if restart {
            let seed = stored.last().expect("stored").record.row_chain;
            core = DataCore::new(pack, PayloadMode::Native, config, seed);
        }
    }
    stored.extend(core.packer.take().into_iter().flat_map(|(entries, _)| entries));
    stored.iter().map(|entry| entry.record.row_chain).collect()
}

#[test]
fn row_chains_ignore_packs_and_restarts() {
    let plain = row_chains(&[], &[]);
    assert_eq!(plain.len(), 6);
    assert_eq!(plain[0], chain([0; 32], [1; 32]));
    assert_eq!(row_chains(&[2, 3, 5], &[]), plain);
    assert_eq!(row_chains(&[1], &[4]), plain);
    // Every block moves the chain.
    assert_ne!(plain[0], [0; 32]);
    for pair in plain.windows(2) {
        assert_ne!(pair[0], pair[1]);
    }
}

#[test]
fn ids_abut_across_empty_blocks() {
    let block = |number: u64, logs: usize| FinalizedBlock {
        header: EvmBlockHeader { number, parent_hash: [0; 32], rlp: vec![] },
        logs_by_tx: vec![(0..logs)
            .map(|_| Log { address: [0; 20], topics: vec![], data: vec![] })
            .collect()],
        txs: vec![],
        traces: vec![],
        external: None,
    };
    let mut frontier = FamilyFrontier { log: 5, tx: 0, trace: 0 };
    let ranges: Vec<(u64, u32)> = [3, 0, 0, 2]
        .iter()
        .enumerate()
        .map(|(i, logs)| {
            let ranges = frontier.assign(&block(i as u64, *logs));
            (ranges.log_first, ranges.log_count)
        })
        .collect();
    assert_eq!(ranges, vec![(5, 3), (8, 0), (8, 0), (8, 2)]);
}

#[test]
fn snapshots_tell_stores_apart() {
    let mut one = InMemoryMetaStore::default();
    let mut two = InMemoryMetaStore::default();
    let (kv, scan) = (TableId::new("t"), ScannableTableId::new("t"));
    one.put(kv, b"a", vec![1]).expect("put");
    one.put(kv, b"b", vec![2]).expect("put");
    two.put(kv, b"b", vec![2]).expect("put");
    assert_ne!(one.kv_snapshot(), two.kv_snapshot());
    two.put(kv, b"a", vec![1]).expect("put");
    assert_eq!(one.kv_snapshot(), two.kv_snapshot());
    one.scan_put(scan, b"a", b"b", vec![1]).expect("put");
    two.scan_put(scan, b"ab", b"", vec![1]).expect("put");
    assert_ne!(one.scan_snapshot(), two.scan_snapshot());

    let mut blobs = InMemoryBlobStore::default();
    let empty = blobs.blob_snapshot();
    blobs.put_blob(BlobTableId::new("t"), b"a", vec![]).expect("put");
    assert_ne!(blobs.blob_snapshot(), empty);
    blobs.delete_blob(BlobTableId::new("t"), b"a").expect("delete");
    assert_eq!(blobs.blob_snapshot(), empty);
}

#[test]
fn packs_stage_block_by_block() {
    let mut first = pack_entry(4);
    first.combined_blob = vec![7];
    first.hash_locations = vec![
        ([1; 32], TxLocation { block_number: 4, tx_index: 0 }),
        ([2; 32], TxLocation { block_number: 4, tx_index: 1 }),
    ];
    let rows = stage_pack(vec![first, pack_entry(5)]);
    assert_eq!(rows.len(), 6);
    assert!(matches!(&rows[0], PackRow::Metadata { number: 4, .. }));
    assert!(matches!(&rows[1], PackRow::BlockBlob { number: 4, blob } if blob == &vec![7]));
    assert!(matches!(
        &rows[3],
        PackRow::TxHash { tx_hash: [2, ..], location: TxLocation { tx_index: 1, .. } }
    ));
    assert!(matches!(&rows[5], PackRow::BlockBlob { number: 5, .. }));
    assert!(stage_pack(vec![]).is_empty());
}

#[test]
fn replay_after_a_rebuild_seals_alike() {
    let fresh = || Run {
        state: FamilyState::new(),
        tail: FamilyTail::new(),
        frontier: 0,
        rows: Rows::default(),
    };
    let mut live = fresh();
    let mut plain = fresh();
    for run in [&mut live, &mut plain] {
        run.block(1, 50_000);
        run.block(2, 20_000);
    }
    live.flush(2);
    let bound = live.frontier;
    let mut restarted = Run {
        state: rebuild_family(&live.rows.read_back(bound), bound).expect("rebuild"),
        tail: FamilyTail::new(),
        frontier: bound,
        rows: Rows::default(),
    };
    for run in [&mut live, &mut plain, &mut restarted] {
        run.block(3, 100_000);
        run.block(4, 40_000);
        run.flush(4);
    }
    assert_eq!(shown(&live.state), shown(&restarted.state));
    assert_eq!(shown(&live.state), shown(&plain.state));
    for span in [PAGE_SPAN, 2 * PAGE_SPAN] {
        assert!(live.rows.chains.contains_key(&span));
        assert_eq!(live.rows.chains.get(&span), restarted.rows.chains.get(&span));
        assert_eq!(live.rows.chains.get(&span), plain.rows.chains.get(&span));
    }
}
