use monad_query::errors::QueryError;
use monad_query::store::blob::{BlobTableId, NullBlobStore};
use monad_query::store::memory::{InMemoryBlobStore, InMemoryMetaStore};
use monad_query::store::meta::{MetaStore, TableId};
use monad_query::write::engine::IndexCore;
use monad_query::write::family::FamilyFrontier;
use monad_query::write::index::{empty_digest, FamilyState, FamilyTail, OpenState, OpenTail};
use monad_query::write::recover::{
    open_group_pages, open_page, plan_recovery, rebuild_chain_span, rebuild_dir, rebuild_family,
    rebuild_sealed_page_counts, FamilyArtifacts, RecoverPlan, SealedPageListing,
};
use monad_query::write::snapshot::{
    check_payload, generation_key, plan_store, SnapshotManifest, SnapshotStore, StoreCall, StoreRun,
    MANIFEST_KEY, MANIFEST_LEN,
};
use monad_query::write::snapshot_codec::{decode_snapshot, encode_snapshot, SNAPSHOT_VERSION};
use monad_query::write::streams::StreamKey;
use roaring::RoaringBitmap;

type TestSnapshots = SnapshotStore<InMemoryMetaStore, InMemoryBlobStore>;

fn blob_table() -> BlobTableId {
    BlobTableId::new("ingest_snapshot")
}

fn fixture() -> TestSnapshots {
    SnapshotStore::new(InMemoryMetaStore::default(), InMemoryBlobStore::default())
}

fn payload(byte: u8, len: usize) -> Vec<u8> {
    vec![byte; len]
}

fn open_state() -> OpenState {
    OpenState { log: FamilyState::new(), tx: FamilyState::new(), trace: FamilyState::new() }
}

fn open_tail() -> OpenTail {
    OpenTail { log: FamilyTail::new(), tx: FamilyTail::new(), trace: FamilyTail::new() }
}

fn no_frontier() -> FamilyFrontier {
    FamilyFrontier { log: 0, tx: 0, trace: 0 }
}

fn empty_snapshot(block: u64) -> Vec<u8> {
    encode_snapshot(&open_state(), &open_tail(), block, no_frontier())
}

/// The generations among `1..=9` whose payload is held.
fn generations(snapshots: &mut TestSnapshots) -> Vec<u64> {
    (1..=9u64)
        .filter(|g| {
            snapshots
                .blobs
                .get_blob(blob_table(), &generation_key(*g))
                .expect("get")
                .is_some()
        })
        .collect()
}

#[test]
fn manifest_codec_round_trips() {
    for previous in [None, Some(41)] {
        let manifest = SnapshotManifest {
            generation: 42,
            payload_len: 7,
            digest: [0xd1; 32],
            previous,
        };
        let bytes = manifest.encode();
        assert_eq!(bytes.len(), MANIFEST_LEN);
        assert_eq!(SnapshotManifest::decode(&bytes), Some(manifest));
    }
    // Non-manifest bytes (wrong magic/length) decode to None.
    assert_eq!(SnapshotManifest::decode(&[SNAPSHOT_VERSION; 100]), None);
    assert_eq!(SnapshotManifest::decode(b""), None);
}

#[test]
fn manifest_rejects_each_wrong_field() {
    let manifest =
        SnapshotManifest { generation: 1, payload_len: 2, digest: [3; 32], previous: Some(4) };
    let good = manifest.encode();
    assert_eq!(&good[..13], b"CDSM\x01\x00\x00\x00\x00\x00\x00\x00\x01");
    for (at, value) in [(0usize, b'X'), (3, b'X'), (4, 2), (53, 2)] {
        let mut bad = good.clone();
        bad[at] = value;
        assert_eq!(SnapshotManifest::decode(&bad), None, "byte {at}");
    }
    assert_eq!(SnapshotManifest::decode(&good[..61]), None);
}

#[test]
fn blob_manifest_round_trip() {
    let mut snapshots = fixture();
    assert_eq!(snapshots.load().unwrap(), None);
    assert!(!snapshots.is_initialized().unwrap());

    let bytes = empty_snapshot(7);
    snapshots.store(7, bytes.clone()).unwrap();

    assert!(snapshots.is_initialized().unwrap());
    assert_eq!(snapshots.load().unwrap(), Some(bytes));
    let (_, _, _, block) =
        snapshots.recover_checkpoint(0).unwrap().expect("snapshot present");
    assert_eq!(block, 7);
    assert_eq!(generations(&mut snapshots), vec![7]);
}

#[test]
fn crash_between_blob_and_manifest_keeps_prior_generation() {
    let mut snapshots = fixture();
    let committed = payload(0xaa, 64);
    snapshots.store(1, committed.clone()).unwrap();

    // Simulate a crash AFTER the generation-2 blob write but BEFORE the
    // manifest put: the orphan blob exists, the manifest still points at
    // generation 1, and the loader must serve generation 1.
    snapshots
        .blobs
        .put_blob(blob_table(), &generation_key(2), payload(0xbb, 64))
        .unwrap();
    assert_eq!(snapshots.load().unwrap(), Some(committed));
}

#[test]
fn corrupt_payload_is_a_loud_error_not_a_rebuild() {
    let mut snapshots = fixture();
    snapshots.store(3, payload(0xcc, 64)).unwrap();

    // Same length, different content => digest mismatch.
    snapshots.blobs.put_blob(blob_table(), &generation_key(3), payload(0xdd, 64)).unwrap();
    assert_eq!(
        snapshots.load().unwrap_err().detail(),
        "ingest snapshot generation 3 payload digest mismatch"
    );

    // Different length => length mismatch.
    snapshots.blobs.put_blob(blob_table(), &generation_key(3), payload(0xcc, 8)).unwrap();
    assert_eq!(
        snapshots.load().unwrap_err().detail(),
        "ingest snapshot generation 3 payload length mismatch: manifest says 64, blob has 8"
    );

    // Manifest pointing at a missing blob is equally loud.
    snapshots.blobs.delete_blob(blob_table(), &generation_key(3)).unwrap();
    assert_eq!(
        snapshots.load().unwrap_err().detail(),
        "ingest snapshot manifest points at generation 3 but its payload blob is missing"
    );
}

#[test]
fn gc_keeps_exactly_current_and_previous() {
    let mut snapshots = fixture();
    for generation in 1..=4u64 {
        snapshots.store(generation, payload(generation as u8, 32)).unwrap();
        let expected: Vec<u64> = (generation.saturating_sub(1).max(1)..=generation).collect();
        assert_eq!(generations(&mut snapshots), expected, "after generation {generation}");
    }
    // The latest generation is still loadable after GC.
    assert_eq!(snapshots.load().unwrap(), Some(payload(4, 32)));
}

#[test]
fn non_manifest_row_is_a_load_error_but_still_initialized() {
    let mut snapshots = fixture();
    // A present meta row that is not a manifest is corruption, not a fresh
    // store: `load` must fail loudly rather than silently rebuild.
    snapshots
        .meta
        .put(TableId::new("ingest_snapshot"), &MANIFEST_KEY, empty_snapshot(9))
        .unwrap();

    assert!(matches!(
        snapshots.load(),
        Err(QueryError::Decode("ingest snapshot manifest row failed to decode"))
    ));
    assert!(snapshots.recover_checkpoint(0).is_err());
    assert!(snapshots.is_initialized().unwrap());
    // A store overwrites the row with a fresh manifest.
    snapshots.store(9, payload(1, 8)).unwrap();
    assert_eq!(snapshots.load().unwrap(), Some(payload(1, 8)));
}

#[test]
fn wrong_codec_version_payload_is_a_hard_error() {
    let mut snapshots = fixture();
    // An intact blob/manifest pair whose payload the current codec cannot
    // read (wrong version byte) is corruption or a bug: hard error, never a
    // tolerated rebuild.
    let mut wrong = empty_snapshot(9);
    wrong[0] = SNAPSHOT_VERSION.wrapping_add(1);
    snapshots.store(9, wrong).unwrap();

    assert!(snapshots.recover_checkpoint(0).is_err());
    // Decode within the CURRENT version stays strict.
    let current = empty_snapshot(9);
    assert!(decode_snapshot(&current[..current.len() - 1]).is_err());
}

#[test]
fn equal_or_lower_generation_keeps_committed_snapshot() {
    let mut snapshots = fixture();
    let committed = payload(0x11, 16);
    snapshots.store(5, committed.clone()).unwrap();

    // A warm restart that re-checkpoints its resume block must not rewrite
    // the committed blob in place (no atomic blob+manifest pair).
    snapshots.store(5, payload(0x22, 16)).unwrap();
    assert_eq!(snapshots.load().unwrap(), Some(committed.clone()));

    // A regressed generation never moves the manifest backwards.
    snapshots.store(3, payload(0x33, 16)).unwrap();
    assert_eq!(snapshots.load().unwrap(), Some(committed));
    assert_eq!(generations(&mut snapshots), vec![5]);
}

#[test]
fn blobless_recovery_handles_leftover_manifest() {
    let mut snapshots = fixture();
    snapshots.store(5, payload(0x11, 16)).unwrap();

    let mut migrated = SnapshotStore::without_payloads(snapshots.meta, NullBlobStore);
    // Head covers the generation: ignored, fragments rebuild takes over.
    assert!(migrated.recover_checkpoint(5).unwrap().is_none());
    assert!(migrated.recover_checkpoint(9).unwrap().is_none());
    // Head behind the generation: the payload would be required, and the
    // error must say how to get unstuck rather than surface a blob miss.
    let Err(err) = migrated.recover_checkpoint(3) else {
        panic!("head behind the leftover generation must error");
    };
    assert!(err.detail().contains("[store.blob]"), "{}", err.detail());

    // A fresh blob-less store (no manifest) recovers as before.
    let mut fresh = SnapshotStore::without_payloads(InMemoryMetaStore::default(), NullBlobStore);
    assert!(fresh.recover_checkpoint(0).unwrap().is_none());
}

#[test]
fn snapshot_round_trips() {
    let addr_key =
        StreamKey::parse(&format!("addr/{}", "aa".repeat(20))).expect("addr stream key");
    let from_key =
        StreamKey::parse(&format!("from/{}", "bb".repeat(20))).expect("from stream key");

    let mut state = open_state();
    state.log.sealed_id = 65_536;
    state.log.seal_chain = [0x5c; 32];
    let mut bm = RoaringBitmap::new();
    bm.insert(5);
    bm.insert(100);
    bm.insert(40_000);
    state.log.pages.insert(addr_key.copy(), 0, bm.clone());
    state.log.dir.push_back((10, 0, 50));
    // The open group's sealed-page-count accumulator rides the snapshot.
    state
        .log
        .sealed_page_counts
        .insert(addr_key.copy(), 0, vec![(0, 3), (65_536, 9)]);
    // A non-empty seen set must NOT survive (intentionally not persisted).
    state.log.open_streams_seen.insert(&addr_key);
    state.tx.dir.push_back((10, 0, 3));

    let mut tail = open_tail();
    let mut bm2 = RoaringBitmap::new();
    bm2.insert(1);
    bm2.insert(2);
    tail.trace.pages.insert(from_key.copy(), 65_536, bm2.clone());
    tail.trace.dir.push((11, 50, 60));

    let frontier = FamilyFrontier { log: 100, tx: 3, trace: 60 };

    let bytes = encode_snapshot(&state, &tail, 11, frontier);
    let (s2, t2, f2, block) = decode_snapshot(&bytes).expect("decode");

    assert_eq!(block, 11);
    assert_eq!((f2.log, f2.tx, f2.trace), (100, 3, 60));
    assert_eq!(s2.log.sealed_id, 65_536);
    assert_eq!(s2.log.seal_chain, [0x5c; 32]);
    assert_eq!(s2.tx.seal_chain, [0; 32]);
    assert_eq!(s2.log.pages.get(&addr_key, 0), Some(&bm));
    assert_eq!(s2.log.dir, vec![(10, 0, 50)]);
    assert_eq!(
        s2.log.sealed_page_counts.get(&addr_key, 0),
        Some(&vec![(0, 3), (65_536, 9)])
    );
    assert!(s2.tx.sealed_page_counts.entries.is_empty());
    assert_eq!(s2.tx.dir, vec![(10, 0, 3)]);
    assert_eq!(t2.trace.pages.get(&from_key, 65_536), Some(&bm2));
    assert_eq!(t2.trace.dir, vec![(11, 50, 60)]);
    // open_streams_seen is recovered empty (idempotent re-emit on resume).
    assert!(s2.log.open_streams_seen.streams.is_empty());
}

#[test]
fn snapshot_empty_round_trips() {
    let bytes = empty_snapshot(0);
    let (s, t, f, block) = decode_snapshot(&bytes).expect("decode");
    assert_eq!(block, 0);
    assert_eq!((f.log, f.tx, f.trace), (0, 0, 0));
    assert!(s.log.pages.entries.is_empty() && s.log.dir.is_empty() && s.log.sealed_id == 0);
    assert!(t.trace.pages.entries.is_empty() && t.trace.dir.is_empty());
    // Version, position, three states of 52 bytes, three tails of 8.
    assert_eq!(bytes.len(), 1 + 32 + 3 * 52 + 3 * 8);
}

#[test]
fn snapshot_rejects_truncation_and_bad_version() {
    let bytes = empty_snapshot(7);
    assert!(decode_snapshot(&bytes[..bytes.len() - 1]).is_err());
    let mut bad = bytes.to_vec();
    bad[0] = 0xff;
    assert!(decode_snapshot(&bad).is_err());
}

#[test]
fn no_prefix_of_a_snapshot_decodes() {
    let mut state = open_state();
    state.log.pages.insert(StreamKey::parse("addr/0a").unwrap(), 0, bits(&[1, 70]));
    state.tx.dir.push_back((1, 2, 3));
    let mut tail = open_tail();
    tail.trace.pages.insert(StreamKey::parse("addr/0b").unwrap(), 65_536, bits(&[9]));
    let bytes = encode_snapshot(&state, &tail, 9, no_frontier());
    assert!(decode_snapshot(&bytes).is_ok());
    for n in 0..bytes.len() {
        assert!(decode_snapshot(&bytes[..n]).is_err(), "prefix of {n}");
    }
    for version in (0..=255u8).filter(|version| *version != SNAPSHOT_VERSION) {
        let mut other = bytes.clone();
        other[0] = version;
        assert!(decode_snapshot(&other).is_err(), "version {version}");
    }
}

fn fault(bytes: &[u8]) -> String {
    match decode_snapshot(bytes) {
        Ok(_) => "none".to_string(),
        Err(error) => error.detail().to_string(),
    }
}

#[test]
fn snapshot_faults_are_told_apart() {
    assert_eq!(fault(&[]), "snapshot truncated");
    assert_eq!(fault(&[2]), "snapshot version");
    // The log pages' count stands behind version, position, sealed id, chain.
    let at = 1 + 32 + 8 + 32;
    let page = |id: &[u8], blob: &[u8]| {
        let mut bytes = empty_snapshot(1)[..at].to_vec();
        bytes.extend_from_slice(&1u32.to_be_bytes());
        bytes.extend_from_slice(&(id.len() as u32).to_be_bytes());
        bytes.extend_from_slice(id);
        bytes.extend_from_slice(&0u64.to_be_bytes());
        bytes.extend_from_slice(&(blob.len() as u32).to_be_bytes());
        bytes.extend_from_slice(blob);
        bytes.extend_from_slice(&empty_snapshot(1)[at + 4..]);
        bytes
    };
    let mut blob = Vec::new();
    RoaringBitmap::from_iter([7u32]).serialize_into(&mut blob).expect("serialize");
    assert_eq!(fault(&page(b"addr/aa", &blob)), "none");
    assert_eq!(fault(&page(&[0xff], &blob)), "snapshot utf8");
    assert_eq!(fault(&page(b"addr/a", &blob)), "invalid stream id");
    assert_eq!(fault(&page(b"addr/aa", &[1, 2, 3])), "snapshot bitmap");
    // Bytes behind the last tail are not looked at.
    let mut longer = empty_snapshot(1);
    longer.push(9);
    assert_eq!(fault(&longer), "none");
}

#[test]
fn persisted_working_set_comes_back() {
    let mut snapshots = fixture();
    let mut state = open_state();
    state.log.sealed_id = 65_536;
    let key = StreamKey::parse("addr/01").expect("key");
    state.log.pages.insert(key.copy(), 65_536, RoaringBitmap::from_iter([1u32, 9]));
    snapshots
        .persist_snapshot(&state, &open_tail(), 12, FamilyFrontier { log: 65_546, tx: 1, trace: 2 })
        .unwrap();
    let (restored, _, frontier, block) =
        snapshots.recover_checkpoint(0).unwrap().expect("present");
    assert_eq!((block, frontier.log), (12, 65_546));
    assert_eq!(
        restored.log.pages.get(&key, 65_536).expect("page").iter().collect::<Vec<_>>(),
        vec![1, 9]
    );
}

#[test]
fn seeded_store_resumes_before_begin() {
    let mut snapshots = fixture();
    snapshots.seed_snapshot_at(100).unwrap();
    let (_, _, frontier, block) = snapshots.recover_checkpoint(0).unwrap().expect("present");
    assert_eq!(block, 99);
    assert_eq!((frontier.log, frontier.tx, frontier.trace), (0, 0, 0));
}

#[test]
fn refused_payload_commits_nothing() {
    let mut snapshots = SnapshotStore::new(InMemoryMetaStore::default(), NullBlobStore);
    let refused = snapshots.store(3, payload(3, 8)).expect_err("no blob store");
    assert_eq!(
        refused.detail(),
        "no blob store configured ([store.blob] omitted), but delete_blob was called"
    );
    assert!(!snapshots.is_initialized().unwrap());
    assert_eq!(snapshots.load().unwrap(), None);
}

#[test]
fn payload_is_written_before_its_manifest() {
    let previous = SnapshotManifest {
        generation: 5,
        payload_len: 1,
        digest: [0; 32],
        previous: Some(3),
    };
    let row = Some(previous.encode());
    assert!(StoreRun::begin(row.clone(), 5, vec![1]).is_none());
    let mut run = StoreRun::begin(row.clone(), 7, vec![1, 2]).expect("not covered");
    assert!(matches!(run.next(Ok(())), StoreCall::Remove(key) if key == generation_key(7)));
    match run.next(Ok(())) {
        StoreCall::Write(key, payload) => {
            assert_eq!((key, payload), (generation_key(7), vec![1, 2]));
        }
        other => panic!("{other:?}"),
    }
    match run.next(Ok(())) {
        StoreCall::Commit(row) => {
            let manifest = SnapshotManifest::decode(&row).expect("manifest");
            assert_eq!((manifest.generation, manifest.previous), (7, Some(5)));
        }
        other => panic!("{other:?}"),
    }
    assert!(matches!(run.next(Ok(())), StoreCall::Discard(key) if key == generation_key(3)));
    // Failing to discard is no failure.
    let discarded = Err(QueryError::Decode("busy"));
    assert!(matches!(run.next(discarded), StoreCall::Finish(Ok(()))));

    // A failure ends the run with its error, and nothing is committed.
    for failing in 1..=3 {
        let mut run = StoreRun::begin(row.clone(), 7, vec![1]).expect("not covered");
        for _ in 0..failing {
            assert!(!matches!(run.next(Ok(())), StoreCall::Finish(_)));
        }
        match run.next(Err(QueryError::Decode("down"))) {
            StoreCall::Finish(result) => assert_eq!(result.expect_err("down").detail(), "down"),
            other => panic!("{other:?}"),
        }
    }
}

#[test]
fn store_plans_commit_over_the_previous() {
    let first = plan_store(&None, 5, b"abc").expect("stored");
    assert_eq!((first.generation, first.payload_len, first.previous), (5, 3, None));
    assert_eq!(first.digest, *blake3::hash(b"abc").as_bytes());
    assert_eq!(plan_store(&Some(first), 5, b"abd"), None);
    assert_eq!(plan_store(&Some(first), 4, b"abd"), None);
    assert_eq!(plan_store(&Some(first), 6, b"abd").expect("stored").previous, Some(5));
    assert_eq!(check_payload(&first, Some(b"abc".to_vec())).expect("matches"), b"abc".to_vec());
    assert!(generation_key(1) < generation_key(256));
}

#[test]
fn recovery_takes_the_later_of_checkpoint_and_head() {
    assert_eq!(plan_recovery(None, 0), RecoverPlan::Cold);
    assert_eq!(plan_recovery(None, 3), RecoverPlan::Rebuild);
    assert_eq!(plan_recovery(Some(0), 0), RecoverPlan::Restore);
    assert_eq!(plan_recovery(Some(5), 5), RecoverPlan::Restore);
    assert_eq!(plan_recovery(Some(4), 5), RecoverPlan::Rebuild);
}

fn bits(offsets: &[u32]) -> RoaringBitmap {
    offsets.iter().copied().collect()
}

fn artifacts() -> FamilyArtifacts {
    FamilyArtifacts {
        chain: Some([7; 32]),
        sealed_pages: vec![SealedPageListing {
            page: 0,
            streams: vec![("addr/01".to_string(), Some(3)), ("addr/02".to_string(), Some(4))],
        }],
        streams: vec![
            ("addr/01".to_string(), vec![bits(&[1, 5]), bits(&[2, 10])]),
            ("addr/02".to_string(), vec![bits(&[10, 11])]),
        ],
        dir: vec![(3, 65_000, 65_540), (4, 65_540, 65_560), (5, 65_560, 65_570)],
    }
}

#[test]
fn rebuild_clamps_to_the_head() {
    let bound = 65_536 + 10;
    let state = rebuild_family(&artifacts(), bound).expect("rebuild");
    assert_eq!(state.sealed_id, 65_536);
    assert_eq!(state.seal_chain, [7; 32]);
    let one = StreamKey::parse("addr/01").expect("key");
    let two = StreamKey::parse("addr/02").expect("key");
    assert_eq!(state.pages.get(&one, 65_536), Some(&bits(&[1, 2, 5])));
    assert_eq!(state.pages.get(&two, 65_536), None);
    assert!(state.open_streams_seen.contains(&two));
    assert_eq!(state.dir, vec![(3, 65_000, 65_540), (4, 65_540, 65_546)]);
    assert_eq!(state.sealed_page_counts.get(&one, 0), Some(&vec![(0, 3)]));
    assert_eq!(rebuild_chain_span(bound), Some(0));

    // An empty open granule has nothing to rebuild.
    let edge = rebuild_family(&artifacts(), 65_536).expect("rebuild");
    assert!(edge.pages.entries.is_empty() && edge.dir.is_empty());
    assert!(edge.open_streams_seen.streams.is_empty());
    // Nothing sealed yet: the seed chain.
    let fresh = FamilyArtifacts { chain: None, sealed_pages: vec![], ..artifacts() };
    assert_eq!(rebuild_family(&fresh, 10).expect("rebuild").seal_chain, empty_digest());
    assert_eq!(rebuild_dir(&vec![(1, 5, 9)], 5), vec![]);
}

#[test]
fn rebuild_reads_the_open_group() {
    const PAGE: u64 = 65_536;
    const GROUP: u64 = 16_777_216;
    assert!(open_group_pages(0).is_empty());
    assert!(open_group_pages(PAGE - 1).is_empty());
    assert_eq!(open_group_pages(3 * PAGE + 9), vec![0, PAGE, 2 * PAGE]);
    assert!(open_group_pages(GROUP).is_empty());
    assert_eq!(open_group_pages(GROUP + PAGE), vec![GROUP]);
    assert_eq!(open_group_pages(GROUP - 1).len(), 255);
    assert_eq!(open_page(3 * PAGE), None);
    assert_eq!(open_page(3 * PAGE + 1), Some(3 * PAGE));
}

fn core_of(log: FamilyState, log_tail: FamilyTail, frontier: u64) -> IndexCore {
    IndexCore::new(
        OpenState { log, tx: FamilyState::new(), trace: FamilyState::new() },
        OpenTail { log: log_tail, tx: FamilyTail::new(), trace: FamilyTail::new() },
        FamilyFrontier { log: frontier, tx: 0, trace: 0 },
        0,
    )
}

#[test]
fn recovered_working_sets_are_told_in_order() {
    let bound = 65_536 + 10;
    let rebuilt = || rebuild_family(&artifacts(), bound).expect("rebuild");
    let key = || StreamKey::parse("addr/01").expect("key");
    assert!(core_of(FamilyState::new(), FamilyTail::new(), 0).is_in_order());
    assert!(core_of(rebuilt(), FamilyTail::new(), bound).is_in_order());
    // A frontier below the open page.
    assert!(!core_of(rebuilt(), FamilyTail::new(), 65_536).is_in_order());
    // A page that is sealed already, one that is not aligned, an offset of the
    // next page.
    for (start, offset) in [(0, 1), (65_537, 1), (65_536, 65_536)] {
        let mut tail = FamilyTail::new();
        tail.pages.insert(key(), start, bits(&[offset]));
        assert!(!core_of(rebuilt(), tail, 2 * bound).is_in_order(), "page {start}");
    }
    // Counts of another group.
    let mut state = rebuilt();
    state.sealed_page_counts.insert(key(), 16_777_216, vec![(0, 1)]);
    assert!(!core_of(state, FamilyTail::new(), bound).is_in_order());
    // Keys out of order.
    let mut state = rebuilt();
    state.pages.insert(StreamKey::parse("addr/03").expect("key"), 65_536, bits(&[1]));
    assert!(state.pages.is_sorted());
    state.pages.entries.swap(0, 1);
    assert!(!state.pages.is_sorted());
    assert!(!core_of(state, FamilyTail::new(), bound).is_in_order());
}

#[test]
fn rebuild_faults_are_told_apart() {
    let bound = 65_536 + 10;
    let no_chain = FamilyArtifacts { chain: None, ..artifacts() };
    assert_eq!(
        rebuild_family(&no_chain, bound).err().expect("fails").detail(),
        "seal-chain row missing for sealed span 0; the store is corrupt"
    );
    let listing = vec![SealedPageListing {
        page: 65_536,
        streams: vec![("addr/01".to_string(), None)],
    }];
    match rebuild_sealed_page_counts(&listing) {
        Err(QueryError::SealedPageMissingArtifact { stream_id, page_start }) => {
            assert_eq!((stream_id.as_str(), page_start), ("addr/01", 65_536));
        }
        _ => panic!("a missing artifact"),
    }
    let bad_id = FamilyArtifacts {
        streams: vec![("nothing".to_string(), vec![])],
        ..artifacts()
    };
    assert!(matches!(
        rebuild_family(&bad_id, bound),
        Err(QueryError::Decode("invalid stream id"))
    ));
}
