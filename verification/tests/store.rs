use std::cell::Cell;
use std::rc::Rc;

use monad_query::errors::QueryError;
use monad_query::store::aws::StaticCredentials;
use monad_query::store::batch::{
    estimated_batch_write_item_bytes, split_batch_write_chunks, BATCH_WRITE_LIMIT,
    BATCH_WRITE_PAYLOAD_SOFT_LIMIT,
};
use monad_query::store::blob::{
    check_chunk_size, chunk_puts, chunk_sk, chunk_span, concat_chunk_values, plan_range,
    slice_range, BlobTableId, BlobWriteOp, DynamoBlobStoreConfig, NullBlobStore, RangePlan,
    DEFAULT_CHUNK_SIZE, MAX_CHUNK_SIZE,
};
use monad_query::store::cache::{
    estimated_entries, shard_count, weigh_weighted, CacheConfig, CachedInner, CachedKvTable,
    ByteWeigher, StampWeigher, Weighted, CACHE_ENTRY_OVERHEAD,
};
use monad_query::store::dynamo::{
    blob_pk, chunk_size_marker_pk, dynamo_safe_name, encode_pk, kv_pk, next_slot, payload_split,
    plan_limit_probe, put_requests, scan_pk, settle_limit_probe, take_binary,
    validate_pk_sk_table, DynamoMetaStoreConfig, DynamoTableLayout, KeyRole, LimitProbe,
    ProbeAnswer, TableDescription, KIND_KV, KIND_SCAN,
};
use monad_query::store::memory::{InMemoryBlobStore, InMemoryMetaStore};
use monad_query::store::meta::{MetaStore, MetaWriteOp, ScannableTableId, TableId};
use monad_query::store::mongo::{
    binary_value, clustering_from_id, documents, kv_id, scan_id, scan_partition_prefix,
    scan_partition_upper_bound, MongoMetaStoreConfig, MAX_VALUE_LEN,
};
use monad_query::store::retry::{summarize_names, BatchWriteProgress, ChunkStep, ChunkWrite};

fn owned(names: &[&str]) -> Vec<String> {
    names.iter().map(|name| name.to_string()).collect()
}

#[test]
fn batch_write_chunks_respect_item_count_limit() {
    let items = (0..(BATCH_WRITE_LIMIT * 2 + 1))
        .map(|i| ("table-a".to_string(), i, 1usize))
        .collect();

    let chunks = split_batch_write_chunks(items, BATCH_WRITE_LIMIT);

    assert_eq!(chunks.len(), 3);
    // Larger max_items (Alternator's 100) yields proportionally fewer chunks.
    let items100: Vec<_> = (0..250)
        .map(|i| ("table-a".to_string(), i, 1usize))
        .collect();
    let chunks100 = split_batch_write_chunks(items100, 100);
    let mut lens100: Vec<_> = chunks100.iter().map(|(_, c)| c.len()).collect();
    lens100.sort_unstable();
    assert_eq!(lens100, vec![50, 100, 100]);
    let mut lens: Vec<_> = chunks
        .iter()
        .map(|(table, chunk)| (table.as_str(), chunk.len()))
        .collect();
    lens.sort();
    assert_eq!(
        lens,
        vec![
            ("table-a", 1),
            ("table-a", BATCH_WRITE_LIMIT),
            ("table-a", BATCH_WRITE_LIMIT)
        ]
    );
}

#[test]
fn batch_write_chunks_respect_payload_soft_limit() {
    let large = BATCH_WRITE_PAYLOAD_SOFT_LIMIT / 2 + 1;
    let chunks = split_batch_write_chunks(
        vec![
            ("table-a".to_string(), 0, large),
            ("table-a".to_string(), 1, large),
            ("table-a".to_string(), 2, large),
        ],
        BATCH_WRITE_LIMIT,
    );

    let mut payloads: Vec<_> = chunks.into_iter().collect();
    payloads.sort_by(|a, b| a.1[0].cmp(&b.1[0]));
    assert_eq!(
        payloads,
        vec![
            ("table-a".to_string(), vec![0]),
            ("table-a".to_string(), vec![1]),
            ("table-a".to_string(), vec![2])
        ]
    );
}

#[test]
fn batch_write_chunks_do_not_mix_physical_tables() {
    let chunks = split_batch_write_chunks(
        vec![
            ("table-a".to_string(), 1, 1),
            ("table-b".to_string(), 2, 1),
            ("table-a".to_string(), 3, 1),
        ],
        BATCH_WRITE_LIMIT,
    );

    let mut chunks: Vec<_> = chunks.into_iter().collect();
    chunks.sort_by(|a, b| a.0.cmp(&b.0));
    assert_eq!(
        chunks,
        vec![
            ("table-a".to_string(), vec![1, 3]),
            ("table-b".to_string(), vec![2])
        ]
    );
}

#[test]
fn batch_write_chunks_interleave_physical_tables() {
    let mut items = Vec::new();
    for i in 0..(BATCH_WRITE_LIMIT * 2) {
        items.push(("table-a".to_string(), i, 1));
    }
    for i in 0..(BATCH_WRITE_LIMIT * 2) {
        items.push(("table-b".to_string(), 100 + i, 1));
    }
    for i in 0..(BATCH_WRITE_LIMIT * 2) {
        items.push(("table-c".to_string(), 200 + i, 1));
    }

    let chunk_tables: Vec<_> = split_batch_write_chunks(items, BATCH_WRITE_LIMIT)
        .into_iter()
        .map(|(table, _)| table)
        .collect();

    assert_eq!(
        chunk_tables,
        vec!["table-a", "table-b", "table-c", "table-a", "table-b", "table-c"]
    );
}

#[test]
fn batch_write_chunks_keep_order_and_treat_zero_as_one() {
    let chunks = split_batch_write_chunks(
        vec![
            ("b".to_string(), 1, 1),
            ("a".to_string(), 2, 1),
            ("b".to_string(), 3, 1),
        ],
        0,
    );
    assert_eq!(
        chunks,
        vec![
            ("a".to_string(), vec![2]),
            ("b".to_string(), vec![1]),
            ("b".to_string(), vec![3])
        ]
    );
}

#[test]
fn wire_estimate_counts_base64_groups() {
    assert_eq!(estimated_batch_write_item_bytes(0, 0, 0), 512);
    assert_eq!(estimated_batch_write_item_bytes(1, 3, 4), 512 + 4 + 4 + 8);
}

#[test]
fn blob_pk_uses_blob_kind_and_is_length_prefixed() {
    let pk = blob_pk(BlobTableId::new("block_blob"), &[0xaa, 0xbb]);
    assert_eq!(
        pk,
        [
            0x00, 0x04, b'b', b'l', b'o', b'b', // len(kind)=4, "blob"
            0x00, 0x0a, b'b', b'l', b'o', b'c', b'k', b'_', b'b', b'l', b'o',
            b'b', // len(table)=10, "block_blob"
            0xaa, 0xbb, // raw key
        ]
    );
}

#[test]
fn chunk_sk_is_fixed_width_byte_ordered() {
    let mut sks: Vec<[u8; 4]> = vec![chunk_sk(0), chunk_sk(255), chunk_sk(256), chunk_sk(1)];
    sks.sort();
    assert_eq!(
        sks,
        vec![chunk_sk(0), chunk_sk(1), chunk_sk(255), chunk_sk(256)]
    );
    assert_eq!(chunk_sk(256), [0x00, 0x00, 0x01, 0x00]);
}

#[test]
fn chunk_span_single_chunk() {
    assert_eq!(chunk_span(2, 6, 4), (0, 1, 2));
    assert_eq!(chunk_span(0, 4, 4), (0, 0, 0));
    assert_eq!(chunk_span(4, 8, 4), (1, 1, 0));
}

#[test]
fn chunk_span_crosses_chunks() {
    assert_eq!(chunk_span(7, 9, 4), (1, 2, 3));
    assert_eq!(chunk_span(10, 12, 4), (2, 2, 2));
}

#[test]
fn chunk_span_reassembles_to_request_window() {
    let chunk_size = 64 * 1024;
    for &(start, end) in &[(0usize, 1usize), (100, 200_000), (64 * 1024, 64 * 1024 + 1)] {
        let (first, _last, offset) = chunk_span(start, end, chunk_size);
        assert_eq!(first as usize * chunk_size + offset, start);
    }
}

#[test]
fn chunks_reassemble_and_ranges_cut_out() {
    let data: Vec<u8> = (0..23u8).collect();
    let puts = chunk_puts(&data, 5).expect("few chunks");
    assert_eq!(puts.len(), 5);
    assert_eq!(puts[0].total_length, Some(23));
    assert_eq!(puts[4].total_length, None);
    assert_eq!(puts[4].value, vec![20, 21, 22]);
    let values: Vec<Vec<u8>> = puts.iter().map(|put| put.value.clone()).collect();
    assert_eq!(concat_chunk_values(&values), data);

    match plan_range(7, 99, data.len(), 5) {
        RangePlan::Chunks { first, last, offset, want } => {
            assert_eq!((first, last, offset, want), (1, 4, 2, 16));
            let buf = concat_chunk_values(&values[first as usize..=last as usize]);
            assert_eq!(slice_range(&buf, offset, want).expect("held"), data[7..].to_vec());
            assert!(matches!(
                slice_range(&buf[..3], offset, want),
                Err(QueryError::Decode("blob range exceeds stored chunks"))
            ));
        }
        _ => panic!("a range to fetch"),
    }
    assert!(matches!(plan_range(4, 3, 23, 5), RangePlan::Invalid));
    assert!(matches!(plan_range(24, 30, 23, 5), RangePlan::Invalid));
    assert!(matches!(plan_range(23, 30, 23, 5), RangePlan::Empty));

    let empty = chunk_puts(&[], 5).expect("one chunk");
    assert_eq!(empty.len(), 1);
    assert_eq!(empty[0].total_length, Some(0));
    assert!(empty[0].value.is_empty());
}

#[test]
fn chunk_size_mismatch_is_loud() {
    assert!(check_chunk_size("t", 64, 64).is_ok());
    let error = check_chunk_size("t", 64, 128).expect_err("mismatch");
    assert!(matches!(error, QueryError::Backend(_)));
    assert_eq!(
        error.detail(),
        "dynamo blob table t chunk_size mismatch: configured 64, data written with 128 (the \
         byte->chunk-index mapping is a wire contract; a mismatched size mis-slices range reads)"
    );
}

#[test]
fn pk_encoding_is_length_prefixed() {
    // u16-be(2)="kv", u16-be(6)="blocks", then the raw key bytes.
    let pk = kv_pk(TableId::new("blocks"), &[0xaa, 0xbb]);
    assert_eq!(
        pk,
        [
            0x00, 0x02, b'k', b'v', // len(kind)=2, "kv"
            0x00, 0x06, b'b', b'l', b'o', b'c', b'k', b's', // len(table)=6, "blocks"
            0xaa, 0xbb, // raw key
        ]
    );
}

#[test]
fn pk_kinds_are_disjoint() {
    let a = encode_pk(&KIND_KV, "t", b"x");
    let b = encode_pk(&KIND_SCAN, "t", b"x");
    assert_ne!(a, b);
}

#[test]
fn pk_table_boundary_is_unambiguous() {
    // ("ab", "c") vs ("a", "bc"): the table length prefix must disambiguate.
    let lhs = encode_pk(&KIND_KV, "ab", b"c");
    let rhs = encode_pk(&KIND_KV, "a", b"bc");
    assert_ne!(lhs, rhs);
}

#[test]
fn marker_and_scan_keys_spell_their_kinds() {
    assert_eq!(chunk_size_marker_pk(), b"\x00\x0fblob_chunk_size\x00\x00".to_vec());
    assert_eq!(
        scan_pk(ScannableTableId::new("s"), b"p"),
        b"\x00\x04scan\x00\x01sp".to_vec()
    );
}

#[test]
fn layout_maps_logical_tables() {
    assert_eq!(dynamo_safe_name("log_dir_bucket"), "log-dir-bucket");
    let single = DynamoTableLayout::single("rows".to_string());
    assert_eq!(single.table_name_for("log_dir"), "rows");
    assert_eq!(single.physical_table_names(), vec!["rows"]);
    let split = DynamoTableLayout::PerLogicalTable {
        prefix: "main".to_string(),
        logical_names: owned(&["log_dir", "blocks"]),
    };
    assert_eq!(split.table_name_for("log_dir"), "main-log-dir");
    assert_eq!(split.physical_table_names(), vec!["main-log-dir", "main-blocks"]);
}

#[test]
fn put_requests_follow_the_batch() {
    let layout = DynamoTableLayout::single("rows".to_string());
    let requests = put_requests(
        &layout,
        &[
            MetaWriteOp::Put {
                table: TableId::new("blocks"),
                row_key: vec![1],
                row_data: vec![7; 6],
            },
            MetaWriteOp::ScanPut {
                table: ScannableTableId::new("dir"),
                partition: vec![2],
                clustering_key: vec![3],
                row_data: vec![8],
            },
        ],
    );
    assert_eq!(requests.len(), 2);
    assert_eq!(requests[0].0, "rows");
    assert_eq!(requests[0].1.partition_key, kv_pk(TableId::new("blocks"), &[1]));
    assert_eq!(requests[0].1.sort_key, vec![0]);
    assert_eq!(requests[0].1.row_data, vec![7; 6]);
    assert_eq!(
        requests[0].2,
        estimated_batch_write_item_bytes(requests[0].1.partition_key.len(), 1, 6)
    );
    assert_eq!(requests[1].1.partition_key, scan_pk(ScannableTableId::new("dir"), &[2]));
    assert_eq!(requests[1].1.sort_key, vec![3]);
}

#[test]
fn payload_split_is_noticed() {
    let by_count = vec![("a".to_string(), 25), ("a".to_string(), 5), ("b".to_string(), 1)];
    assert!(!payload_split(&by_count, 25));
    let by_bytes = vec![("a".to_string(), 1), ("b".to_string(), 1), ("a".to_string(), 1)];
    assert!(payload_split(&by_bytes, 25));
    let huge = vec![("a".to_string(), usize::MAX), ("a".to_string(), usize::MAX)];
    assert!(!payload_split(&huge, usize::MAX));
    let half = vec![("a".to_string(), usize::MAX / 2), ("a".to_string(), usize::MAX / 2)];
    assert!(payload_split(&half, usize::MAX));
}

#[test]
fn limit_probe_decisions() {
    assert!(matches!(plan_limit_probe(0), LimitProbe::Use(1)));
    assert!(matches!(plan_limit_probe(25), LimitProbe::Use(25)));
    assert!(matches!(plan_limit_probe(100), LimitProbe::Send(100)));
    assert_eq!(settle_limit_probe(100, ProbeAnswer::Accepted).expect("ok"), 100);
    assert_eq!(settle_limit_probe(100, ProbeAnswer::Rejected).expect("ok"), 25);
    assert!(settle_limit_probe(100, ProbeAnswer::Failed(QueryError::Decode("x"))).is_err());
}

fn description() -> TableDescription {
    TableDescription {
        active: true,
        status_text: "Some(Active)".to_string(),
        attributes: vec![("pk".to_string(), true), ("sk".to_string(), true)],
        keys: vec![("pk".to_string(), KeyRole::Hash), ("sk".to_string(), KeyRole::Range)],
    }
}

#[test]
fn table_schema_is_checked() {
    assert!(validate_pk_sk_table("t", &Some(description())).is_ok());
    let missing = validate_pk_sk_table("t", &None).expect_err("missing");
    assert_eq!(missing.detail(), "dynamo describe_table: table t missing from response");
    let creating = TableDescription {
        active: false,
        status_text: "Some(Creating)".to_string(),
        ..description()
    };
    let inactive = validate_pk_sk_table("t", &Some(creating)).expect_err("inactive");
    assert_eq!(inactive.detail(), "dynamo table t is not ACTIVE: Some(Creating)");
    let swapped = TableDescription {
        keys: vec![("pk".to_string(), KeyRole::Range), ("sk".to_string(), KeyRole::Hash)],
        ..description()
    };
    let mismatch = validate_pk_sk_table("t", &Some(swapped)).expect_err("schema");
    assert_eq!(
        mismatch.detail(),
        "dynamo table t schema mismatch: expected binary pk HASH + binary sk RANGE"
    );
    let no_binary = TableDescription {
        attributes: vec![("pk".to_string(), true), ("sk".to_string(), false)],
        ..description()
    };
    assert!(validate_pk_sk_table("t", &Some(no_binary)).is_err());
}

#[test]
fn missing_binary_attribute_is_named() {
    assert_eq!(take_binary(Some(vec![1]), "val").expect("there"), vec![1]);
    assert_eq!(
        take_binary(None, "val").expect_err("absent").detail(),
        "dynamo item missing binary attribute `val`"
    );
}

#[test]
fn clients_take_turns() {
    assert_eq!(next_slot(7, 1), (0, 7));
    assert_eq!(next_slot(7, 3), (1, 8));
    assert_eq!(next_slot(usize::MAX, 2), (1, 0));
}

#[test]
fn configs_have_their_defaults() {
    let meta = DynamoMetaStoreConfig::new("rows".to_string());
    assert_eq!(meta.batch_write_max_items, 25);
    assert_eq!(meta.effective_limits(), (16, 16, 25));
    let zeroed = DynamoMetaStoreConfig {
        batch_max_concurrency: 0,
        batch_table_max_concurrency: 0,
        batch_write_max_items: 0,
        ..meta
    };
    assert_eq!(zeroed.effective_limits(), (1, 1, 1));
    let blob = DynamoBlobStoreConfig::new("blobs".to_string());
    assert_eq!(blob.chunk_size, DEFAULT_CHUNK_SIZE);
    assert_eq!(blob.effective_limits(), (16, 65_536));
    let wide = DynamoBlobStoreConfig { chunk_size: usize::MAX, batch_max_concurrency: 0, ..blob };
    assert_eq!(wide.effective_limits(), (1, MAX_CHUNK_SIZE));
    let mongo = MongoMetaStoreConfig::new("c".to_string(), "d".to_string(), "e".to_string());
    assert_eq!((mongo.max_pool_size, mongo.write_concurrency), (64, 64));
    assert!(mongo.validate().is_ok());
    let stalled = MongoMetaStoreConfig { write_concurrency: 0, ..mongo };
    assert_eq!(
        stalled.validate().expect_err("zero").detail(),
        "mongo write_concurrency must be >= 1"
    );
}

#[test]
fn credentials_are_blotted_out() {
    let credentials = StaticCredentials {
        access_key_id: "id".to_string(),
        secret_access_key: "very".to_string(),
        session_token: Some("private".to_string()),
    };
    let shown = credentials.redacted();
    assert_eq!(shown.access_key_id, "id");
    assert_eq!(shown.secret_access_key, "<redacted>");
    assert_eq!(shown.session_token, Some("<redacted>".to_string()));
}

const SCAN: &str = "log_bitmap_by_block";

#[test]
fn ids_are_hex_string_encoded() {
    let table = TableId::new("block_metadata");
    let scan_table = ScannableTableId::new(SCAN);
    assert_eq!(kv_id(table, &[0x00, 0xff]), "k/block_metadata/00ff");
    assert_eq!(
        scan_id(scan_table, &[0xab], &[0x01, 0x02]),
        "s/log_bitmap_by_block/ab/0102"
    );
    // Empty keys stay well-formed (an empty hex segment).
    assert_eq!(kv_id(table, &[]), "k/block_metadata/");
}

#[test]
fn partition_bounds_bracket_exactly_the_partition() {
    let scan_table = ScannableTableId::new(SCAN);
    let prefix = scan_partition_prefix(scan_table, &[0xab]);
    let upper = scan_partition_upper_bound(&prefix);
    assert_eq!(prefix, "s/log_bitmap_by_block/ab/");
    assert_eq!(upper, "s/log_bitmap_by_block/ab0");

    let inside = [
        scan_id(scan_table, &[0xab], &[]),
        scan_id(scan_table, &[0xab], &[0x00]),
        scan_id(scan_table, &[0xab], &[0xff; 12]),
    ];
    for id in &inside {
        assert!(
            prefix.as_str() <= id.as_str() && id.as_str() < upper.as_str(),
            "{id}"
        );
    }
    let outside = [
        scan_id(scan_table, &[0xaa], &[0xff]),
        scan_id(scan_table, &[0xab, 0x00], &[0x00]),
        scan_id(scan_table, &[0xac], &[0x00]),
        "s/other_table/ab/00".to_string(),
    ];
    for id in &outside {
        assert!(
            id.as_str() < prefix.as_str() || id.as_str() >= upper.as_str(),
            "{id}"
        );
    }
}

#[test]
fn hex_ids_sort_in_clustering_byte_order() {
    let scan_table = ScannableTableId::new(SCAN);
    let mut clusterings: Vec<Vec<u8>> = vec![
        7u64.to_be_bytes().to_vec(),
        0u64.to_be_bytes().to_vec(),
        u64::MAX.to_be_bytes().to_vec(),
        255u64.to_be_bytes().to_vec(),
    ];
    let mut ids: Vec<String> = clusterings
        .iter()
        .map(|clustering_key| scan_id(scan_table, &[0x01], clustering_key))
        .collect();
    clusterings.sort();
    ids.sort();
    let decoded: Vec<Vec<u8>> = ids
        .iter()
        .map(|id| {
            clustering_from_id(id, scan_partition_prefix(scan_table, &[0x01]).len())
                .expect("generated Mongo scan-row id should decode")
        })
        .collect();
    assert_eq!(decoded, clusterings);
}

#[test]
fn malformed_ids_are_rejected() {
    for bad in ["s/t/01/0", "s/t/01/zz", "s/t/01/0g"] {
        assert!(matches!(
            clustering_from_id(bad, 7),
            Err(QueryError::Decode("malformed mongo scan-row id"))
        ));
    }
    assert_eq!(clustering_from_id("s/t/01/0xAb", 7).expect("prefixed"), vec![0xab]);
}

#[test]
fn oversized_values_error_loudly() {
    assert!(binary_value(&vec![0u8; MAX_VALUE_LEN]).is_ok());
    assert!(binary_value(&vec![0u8; MAX_VALUE_LEN + 1]).is_err());
    assert_eq!(
        binary_value(&vec![0u8; MAX_VALUE_LEN + 1]).expect_err("too long").detail(),
        "mongo meta value of 15728641 bytes exceeds the 15728640-byte document budget"
    );
}

#[test]
fn mongo_documents_follow_the_batch() {
    let rows = documents(&[
        MetaWriteOp::Put { table: TableId::new("t"), row_key: vec![1], row_data: vec![9] },
        MetaWriteOp::ScanPut {
            table: ScannableTableId::new("u"),
            partition: vec![2],
            clustering_key: vec![3],
            row_data: vec![8],
        },
    ]);
    assert_eq!(
        rows,
        vec![("k/t/01".to_string(), vec![9]), ("s/u/02/03".to_string(), vec![8])]
    );
}

#[test]
fn names_are_summarized_by_frequency() {
    let names = owned(&["b", "a", "b", "c", "a", "b"]);
    assert_eq!(summarize_names(&names, 8), "b:3,a:2,c:1");
    assert_eq!(summarize_names(&names, 2), "b:3,a:2");
    assert_eq!(summarize_names(&names, 0), "");
    assert_eq!(summarize_names(&owned(&["z", "y"]), 8), "y:1,z:1");
    let many: Vec<String> = (0..12).map(|_| "t".to_string()).collect();
    assert_eq!(summarize_names(&many, 8), "t:12");
}

#[test]
fn progress_counts_chunks() {
    let mut progress = BatchWriteProgress::new();
    progress.mark_started(0, "a", 0);
    progress.mark_started(1, "b", 0);
    progress.mark_started(1, "b", 1);
    progress.mark_unprocessed(5);
    let snapshot = progress.snapshot();
    assert_eq!(snapshot.chunks_started, 2);
    assert_eq!(snapshot.total_retries, 1);
    assert_eq!(snapshot.total_unprocessed_items, 5);
    assert_eq!(snapshot.in_flight_chunk_count, 2);
    assert_eq!(snapshot.in_flight_table_summary, "a:1,b:1");
    progress.mark_completed(0);
    progress.mark_failed(1);
    let snapshot = progress.snapshot();
    assert_eq!((snapshot.chunks_completed, snapshot.chunks_failed), (1, 1));
    assert_eq!(snapshot.in_flight_chunk_count, 0);
    assert_eq!(snapshot.in_flight_table_summary, "");
}

#[test]
fn backoff_stays_within_its_cap() {
    for attempt in 0..40u32 {
        let cap = (50u64 << attempt.saturating_sub(1).min(30)).min(20_000);
        let delay = BatchWriteProgress::retry_backoff(3, "table-a", attempt);
        assert!(delay >= 1 && delay <= cap, "{attempt}: {delay}");
    }
    // The mixed FNV-1a hash, computed step by step.
    let mut hash = 0xcbf29ce484222325u64;
    for byte in "table-a".as_bytes() {
        hash ^= u64::from(*byte);
        hash = hash.wrapping_mul(0x100000001b3);
    }
    hash ^= 3;
    hash = hash.wrapping_mul(0x9e3779b97f4a7c15);
    hash ^= 4;
    hash ^= hash >> 12;
    hash ^= hash << 25;
    hash ^= hash >> 27;
    hash = hash.wrapping_mul(0x2545f4914f6cdd1d);
    assert_eq!(
        BatchWriteProgress::retry_backoff(3, "table-a", 4),
        (hash % 401).max(1)
    );
}

#[test]
fn chunk_write_retries_eight_times() {
    let mut progress = BatchWriteProgress::new();
    let mut write = ChunkWrite::new(2, "t".to_string(), vec![1, 2, 3]);
    for attempt in 1..=8u32 {
        write.start(&mut progress);
        match write.on_send_error(QueryError::Backend("down".to_string()), &mut progress) {
            ChunkStep::Retry { backoff_ms } => {
                assert_eq!(backoff_ms, BatchWriteProgress::retry_backoff(2, "t", attempt));
            }
            _ => panic!("a retry is left"),
        }
        assert_eq!(write.pending, vec![1, 2, 3]);
    }
    write.start(&mut progress);
    match write.on_send_error(QueryError::Backend("down".to_string()), &mut progress) {
        ChunkStep::Fail(error) => assert_eq!(error.detail(), "down"),
        _ => panic!("no retry is left"),
    }
    let snapshot = progress.snapshot();
    assert_eq!((snapshot.chunks_started, snapshot.total_retries), (1, 8));
    assert_eq!(snapshot.chunks_failed, 1);
}

#[test]
fn chunk_write_resends_only_leftovers() {
    let mut progress = BatchWriteProgress::new();
    let mut write = ChunkWrite::new(0, "t".to_string(), vec![1, 2, 3]);
    write.start(&mut progress);
    assert!(matches!(
        write.on_response(vec![3], &mut progress),
        ChunkStep::Retry { .. }
    ));
    assert_eq!(write.pending, vec![3]);
    write.start(&mut progress);
    assert!(matches!(write.on_response(Vec::new(), &mut progress), ChunkStep::Done));
    let snapshot = progress.snapshot();
    assert_eq!(snapshot.chunks_completed, 1);
    assert_eq!(snapshot.total_unprocessed_items, 1);

    let mut stuck = ChunkWrite::new(1, "t".to_string(), vec![1]);
    for _ in 0..8 {
        assert!(matches!(stuck.on_response(vec![1], &mut progress), ChunkStep::Retry { .. }));
    }
    match stuck.on_response(vec![1, 2], &mut progress) {
        ChunkStep::Fail(error) => assert_eq!(
            error.detail(),
            "dynamo batch_write_item: 2 items still unprocessed after 9 retries"
        ),
        _ => panic!("no retry is left"),
    }
}

#[test]
fn byte_budget_bounds_residency() {
    // Budget fits two weight-4 entries; inserting three must evict one.
    // WHICH one is the replacement policy's call (S3-FIFO, not LRU), so
    // only the residency bound is asserted.
    let mut cache = CachedInner::with_weigher(10, ByteWeigher);
    cache.insert(vec![1], b"aaaa".to_vec());
    cache.insert(vec![2], b"bbbb".to_vec());
    cache.insert(vec![3], b"cccc".to_vec());
    let mut resident = 0;
    for k in [1u8, 2, 3] {
        if cache.probe(&vec![k]).is_some() {
            resident += 1;
        }
    }
    assert!(
        (1..=2).contains(&resident),
        "budget 10 fits at most two weight-4 entries, got {resident}"
    );
}

#[test]
fn byte_budget_refunds_replaced_weight() {
    let mut cache = CachedInner::with_weigher(10, ByteWeigher);
    cache.insert(vec![1], b"aaaa".to_vec()); // size 4
    cache.insert(vec![2], b"bbbb".to_vec()); // size 8
    // Overwrite key 1 with an equal-size value: size stays 8, no eviction.
    cache.insert(vec![1], b"AAAA".to_vec());
    assert_eq!(cache.probe(&vec![1]), Some(b"AAAA".to_vec()));
    assert_eq!(cache.probe(&vec![2]), Some(b"bbbb".to_vec()));
}

#[test]
fn byte_budget_handles_empty_value() {
    // Zero-weight values must store and serve without upsetting the
    // accounting. (Budget is roomy: the policy may refuse to admit any
    // single entry weighing a large fraction of the whole budget.)
    let mut cache = CachedInner::with_weigher(1024, ByteWeigher);
    cache.insert(vec![1], b"".to_vec()); // weighs 0
    assert_eq!(cache.probe(&vec![1]), Some(Vec::new()));
    cache.insert(vec![2], b"bbbbbbbb".to_vec());
    assert_eq!(cache.probe(&vec![1]), Some(Vec::new()));
    assert_eq!(cache.probe(&vec![2]), Some(b"bbbbbbbb".to_vec()));
}

#[test]
fn zero_budget_disables_cache() {
    let mut cache = CachedInner::with_weigher(0, ByteWeigher);
    cache.insert(vec![1], b"x".to_vec());
    assert_eq!(cache.probe(&vec![1]), None);
    assert_eq!(cache.take_window_stats(), (0, 0));
}

#[test]
fn one_touch_stream_does_not_displace_rereferenced_hot_set() {
    // ~200 weight-64 entries fit; hot set is 8 of them.
    let budget = 200 * (64 + CACHE_ENTRY_OVERHEAD);
    let mut cache = CachedInner::with_weigher(budget, StampWeigher);
    let key = |k: u64| k.to_be_bytes().to_vec();
    let entry = |k: u64| Weighted { value: k, weight: 64 };

    for k in 0..8u64 {
        cache.insert(key(k), entry(k));
    }
    // Re-reference the hot set so the policy sees real frequency.
    for _ in 0..3 {
        for k in 0..8u64 {
            assert!(cache.probe(&key(k)).is_some(), "hot key {k} resident on warm");
        }
    }

    // One-touch flood: 4x the cache's entry capacity, never re-read.
    for k in 1_000..1_800u64 {
        cache.insert(key(k), entry(k));
    }

    let mut survivors = 0;
    for k in 0..8u64 {
        if cache.probe(&key(k)).is_some() {
            survivors += 1;
        }
    }
    assert!(
        survivors >= 6,
        "hot set should survive a one-touch flood, kept {survivors}/8"
    );
}

#[test]
fn window_stats_count_and_reset() {
    let mut cache = CachedInner::with_weigher(1 << 20, ByteWeigher);
    assert_eq!(cache.probe(&vec![1]), None);
    cache.insert(vec![1], b"one".to_vec());
    assert_eq!(cache.probe(&vec![1]), Some(b"one".to_vec()));
    assert_eq!(cache.take_window_stats(), (1, 1));
    assert_eq!(cache.take_window_stats(), (0, 0));
    // Errors and absence pass through uncached.
    assert!(cache.settle_fetch(vec![2], Err(QueryError::Decode("x"))).is_err());
    assert_eq!(cache.settle_fetch(vec![2], Ok(None)).expect("ok"), None);
    assert_eq!(cache.probe(&vec![2]), None);
}

#[test]
fn cache_budgets_split_the_total() {
    let config = CacheConfig::from_total_mib(1024);
    assert_eq!(config.row_cache_bytes, 480 << 20);
    assert_eq!(config.block_header_cache_bytes, 64 << 20);
    assert_eq!(config.total_bytes(), 1024 << 20);
    assert_eq!(CacheConfig::from_total_mib(0).total_bytes(), 0);
    assert_eq!(CacheConfig::default().total_bytes(), 8192 << 20);
    assert_eq!(CacheConfig::budget_mib_to_bytes(usize::MAX), usize::MAX);
    assert_eq!(weigh_weighted(&Weighted { value: 0u8, weight: 10 }), 74);
    assert_eq!(weigh_weighted(&Weighted { value: 0u8, weight: usize::MAX }), usize::MAX);
    assert_eq!(estimated_entries(0), 64);
    assert_eq!(estimated_entries(1 << 20), 1024);
    assert_eq!(estimated_entries(usize::MAX), 4_000_000);
    assert_eq!((shard_count(64), shard_count(8192), shard_count(4_000_000)), (1, 2, 64));
}

#[test]
fn memory_store_reads_back_and_scans_in_order() {
    let table = TableId::new("t");
    let scan = ScannableTableId::new("s");
    let mut store = InMemoryMetaStore::default();
    store.put(table, b"k", b"v".to_vec()).expect("put");
    assert_eq!(store.get(table, b"k").expect("get"), Some(b"v".to_vec()));
    assert_eq!(store.get(TableId::new("u"), b"k").expect("get"), None);
    for clustering in [&b"b"[..], b"a", b"", b"ab"] {
        store.scan_put(scan, b"p", clustering, b"x".to_vec()).expect("put");
    }
    store.scan_put(scan, b"pp", b"zz", b"y".to_vec()).expect("put");
    assert_eq!(
        store.scan_keys(scan, b"p").expect("scan"),
        vec![b"".to_vec(), b"a".to_vec(), b"ab".to_vec(), b"b".to_vec()]
    );
    assert_eq!(store.scan_get(scan, b"p", b"ab").expect("get"), Some(b"x".to_vec()));
    store
        .apply_writes(vec![
            MetaWriteOp::Put { table, row_key: b"k".to_vec(), row_data: b"1".to_vec() },
            MetaWriteOp::Put { table, row_key: b"k".to_vec(), row_data: b"2".to_vec() },
            MetaWriteOp::ScanPut {
                table: scan,
                partition: b"q".to_vec(),
                clustering_key: b"c".to_vec(),
                row_data: b"3".to_vec(),
            },
        ])
        .expect("apply");
    assert_eq!(store.get(table, b"k").expect("get"), Some(b"2".to_vec()));
    assert_eq!(store.scan_keys(scan, b"q").expect("scan"), vec![b"c".to_vec()]);
    store.clear_key(table, b"k");
    assert_eq!(store.get(table, b"k").expect("get"), None);
}

#[test]
fn cached_table_reads_what_the_store_holds() {
    let table = TableId::new("t");
    let mut store = InMemoryMetaStore::default();
    store.put(table, b"k", b"v".to_vec()).expect("put");
    let mut cached = CachedKvTable::new(store.table(table), 1 << 20, Ok);
    assert_eq!(cached.table_id().as_str(), "t");
    assert_eq!(cached.get(&b"k".to_vec()).expect("get"), Some(b"v".to_vec()));
    assert_eq!(cached.get(&b"k".to_vec()).expect("get"), Some(b"v".to_vec()));
    assert_eq!(cached.get(&b"absent".to_vec()).expect("get"), None);
    assert_eq!(cached.take_window_stats(), (1, 2));
    // A key written later is visible immediately.
    cached.inner.put(b"absent", b"now".to_vec()).expect("put");
    assert_eq!(cached.get(&b"absent".to_vec()).expect("get"), Some(b"now".to_vec()));
}

#[test]
fn read_value_is_served_without_the_store() {
    let table = TableId::new("t");
    let mut store = InMemoryMetaStore::default();
    store.put(table, b"k", b"v".to_vec()).expect("put");
    let mut cached = CachedKvTable::new(store.table(table), 4096, Ok);
    assert_eq!(cached.get(&b"k".to_vec()).expect("get"), Some(b"v".to_vec()));
    cached.inner.meta_store.clear_key(table, b"k");
    assert_eq!(cached.get(&b"k".to_vec()).expect("get"), Some(b"v".to_vec()));
    assert_eq!(cached.take_window_stats(), (1, 1));
}

#[test]
fn hit_skips_the_decode() {
    let table = TableId::new("t");
    let mut store = InMemoryMetaStore::default();
    store.put(table, b"k", b"four".to_vec()).expect("put");
    let decodes = Cell::new(0);
    let decode = |bytes: Vec<u8>| {
        decodes.set(decodes.get() + 1);
        Ok(bytes.len())
    };
    let mut cached = CachedKvTable::new(store.table(table), 4096, decode);
    for _ in 0..3 {
        assert_eq!(cached.get(&b"k".to_vec()).expect("get"), Some(4));
    }
    assert_eq!(decodes.get(), 1);
    assert_eq!(cached.take_window_stats(), (2, 1));
}

#[test]
fn evicted_values_leave_their_slots() {
    // Every value is dropped once its entry is gone, and served while it is not.
    let shared = Rc::new(());
    let mut cache = CachedInner::with_weigher(1024, StampWeigher);
    for k in 0..200u8 {
        cache.insert(vec![k], Weighted { value: (k, shared.clone()), weight: 36 });
        cache.insert(vec![k], Weighted { value: (k, shared.clone()), weight: 36 });
    }
    let mut held = 0;
    for k in 0..200u8 {
        if let Some(found) = cache.probe(&vec![k]) {
            assert_eq!(found.value.0, k);
            held += 1;
        }
    }
    assert!((1..=10).contains(&held), "1024 bytes hold at most ten entries of 100, got {held}");
    assert_eq!(Rc::strong_count(&shared), held + 1);
}

#[test]
fn undecodable_value_is_an_error_and_not_cached() {
    let table = TableId::new("t");
    let mut store = InMemoryMetaStore::default();
    store.put(table, b"k", b"xx".to_vec()).expect("put");
    let decode = |bytes: Vec<u8>| match bytes.first() {
        Some(b'v') => Ok(bytes.len()),
        _ => Err(QueryError::Decode("not a v")),
    };
    let mut cached = CachedKvTable::new(store.table(table), 4096, decode);
    for _ in 0..2 {
        assert_eq!(cached.get(&b"k".to_vec()).expect_err("undecodable").detail(), "not a v");
    }
    assert_eq!(cached.take_window_stats(), (0, 2));
    cached.inner.put(b"k", b"vwx".to_vec()).expect("put");
    for _ in 0..2 {
        assert_eq!(cached.get(&b"k".to_vec()).expect("get"), Some(3));
    }
    assert_eq!(cached.take_window_stats(), (1, 1));
}

#[test]
fn entries_that_fit_all_stay_and_heavier_ones_are_refused() {
    // 4096 - 4096 / 32 - 2 bytes are assured; each entry is charged 100.
    let mut cache = CachedInner::with_weigher(4096, StampWeigher);
    for k in 0..39u8 {
        cache.insert(vec![k], Weighted { value: k, weight: 36 });
    }
    for k in 0..39u8 {
        assert_eq!(cache.probe(&vec![k]).map(|held| held.value), Some(k));
    }
    cache.insert(vec![0], Weighted { value: 9, weight: 5000 });
    assert!(cache.probe(&vec![0]).is_none());
    for k in 1..39u8 {
        assert_eq!(cache.probe(&vec![k]).map(|held| held.value), Some(k));
    }
}

#[test]
fn scannable_table_delegates() {
    let mut table = InMemoryMetaStore::default().scannable_table(ScannableTableId::new("s"));
    table.put(b"p", b"c", b"v".to_vec()).expect("put");
    assert_eq!(table.get(b"p", b"c").expect("get"), Some(b"v".to_vec()));
    assert_eq!(table.scan_keys(b"p").expect("scan"), vec![b"c".to_vec()]);
}

#[test]
fn read_range_clamps_overshooting_end() {
    let table = BlobTableId::new("test");
    let mut store = InMemoryBlobStore::default();
    store.put_blob(table, b"blob", b"abcdef".to_vec()).expect("put blob");

    let tail = store
        .read_range(table, b"blob", 2, 99)
        .expect("read range")
        .expect("blob present");
    assert_eq!(tail, b"cdef");

    let empty_tail = store
        .read_range(table, b"blob", 6, 99)
        .expect("read range")
        .expect("blob present");
    assert!(empty_tail.is_empty());
}

#[test]
fn range_read_counts_as_one_access() {
    let table = BlobTableId::new("test");
    let mut store = InMemoryBlobStore::default();
    store.put_blob(table, b"blob", b"abcdef".to_vec()).expect("put blob");
    store.read_range(table, b"blob", 1, 3).expect("range");
    store.read_range(table, b"absent", 1, 3).expect("range");
    assert_eq!(store.get_blob_calls(), 2);
    assert!(store.read_range(table, b"blob", 3, 1).is_err());
    assert_eq!(store.get_blob_calls(), 2);
}

#[test]
fn read_range_rejects_invalid_start_bounds() {
    let table = BlobTableId::new("test");
    let mut store = InMemoryBlobStore::default();
    store.put_blob(table, b"blob", b"abcdef".to_vec()).expect("put blob");

    let reversed = store
        .read_range(table, b"blob", 4, 3)
        .expect_err("reversed range should error");
    assert!(matches!(reversed, QueryError::Decode("invalid blob range")));

    let past_end = store
        .read_range(table, b"blob", 7, 99)
        .expect_err("start past blob end should error");
    assert!(matches!(past_end, QueryError::Decode("invalid blob range")));
}

#[test]
fn delete_blob_removes_and_is_idempotent() {
    let table = BlobTableId::new("test");
    let mut store = InMemoryBlobStore::default();
    store.put_blob(table, b"blob", b"abcdef".to_vec()).expect("put blob");

    store.delete_blob(table, b"blob").expect("delete blob");
    assert_eq!(store.get_blob(table, b"blob").expect("get blob"), None);
    assert_eq!(store.get_blob_calls(), 1);

    // Deleting a missing key is an idempotent no-op.
    store.delete_blob(table, b"blob").expect("delete missing blob");
    store
        .apply_writes(vec![BlobWriteOp {
            table,
            blob_key: b"b".to_vec(),
            blob_data: b"c".to_vec(),
        }])
        .expect("apply");
    assert_eq!(store.get_blob(table, b"b").expect("get"), Some(b"c".to_vec()));
}

#[test]
fn all_accesses_error_loudly() {
    let table = BlobTableId::new("test");
    let store = NullBlobStore;
    let messages = [
        store.put_blob(table, b"k", b"v").expect_err("put").detail().to_string(),
        store.get_blob(table, b"k").expect_err("get").detail().to_string(),
        store.delete_blob(table, b"k").expect_err("delete").detail().to_string(),
        store
            .apply_writes(&[BlobWriteOp { table, blob_key: vec![], blob_data: vec![] }])
            .expect_err("apply")
            .detail()
            .to_string(),
    ];
    for message in &messages {
        assert!(message.contains("no blob store configured"), "{message}");
    }
    assert_eq!(
        messages[1],
        "no blob store configured ([store.blob] omitted), but get_blob was called"
    );
}

#[test]
fn empty_apply_writes_is_ok() {
    assert!(NullBlobStore.apply_writes(&[]).is_ok());
}
