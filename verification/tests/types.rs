use monad_query::errors::QueryError;
use monad_query::primitives::CallKind;
use monad_query::types::external::{ExternalFamilyRegion, ExternalPayloadSpec};
use monad_query::types::ingest_types::{
    EvmBlockHeader, FinalizedBlock, IngestTrace, IngestTx, Log,
};
use monad_query::types::logs::StoredLog;
use monad_query::types::traces::{
    compute_ancestor_reverted, compute_trace_addresses, selector_from_input, StoredTrace,
};
use monad_query::types::transfers::TransferEntry;
use monad_query::types::txs::{
    decode_envelope, frame_signed_tx, StoredTxEnvelope, TxKind, TxLocation,
};

use alloy_consensus::{SignableTransaction, TxEip1559, TxEip2930, TxEip7702, TxEnvelope, TxLegacy};
use alloy_eips::eip2718::Encodable2718;
use alloy_primitives::{Address, Bytes, Signature, TxKind as AlloyTxKind, B256, U256};

fn frame(tx_index: u32, trace_address: Vec<u32>, status: u8) -> IngestTrace {
    IngestTrace {
        typ: CallKind::Call,
        from: [0; 20],
        to: None,
        value: [0; 32],
        gas: 0,
        gas_used: 0,
        input: Vec::new(),
        output: Vec::new(),
        status,
        depth: trace_address.len() as u32,
        tx_index,
        trace_address,
        tx_status: true,
    }
}

fn word(value: u64) -> [u8; 32] {
    U256::from(value).to_be_bytes()
}

#[test]
fn trace_address_simple_tree() {
    let depths = [0u32, 1, 2, 2, 1, 2];
    let addresses = compute_trace_addresses(&depths).expect("compute");
    assert_eq!(
        addresses,
        vec![vec![], vec![0], vec![0, 0], vec![0, 1], vec![1], vec![1, 0],]
    );
}

#[test]
fn trace_address_three_deep() {
    let depths = [0u32, 1, 2, 3, 3, 1];
    let addresses = compute_trace_addresses(&depths).expect("compute");
    assert_eq!(
        addresses,
        vec![
            vec![],
            vec![0],
            vec![0, 0],
            vec![0, 0, 0],
            vec![0, 0, 1],
            vec![1],
        ]
    );
}

#[test]
fn trace_address_multiple_txs() {
    let depths = [0u32, 1, 1, 0, 1, 2];
    let addresses = compute_trace_addresses(&depths).expect("compute");
    assert_eq!(
        addresses,
        vec![vec![], vec![0], vec![1], vec![], vec![0], vec![0, 0],]
    );
}

#[test]
fn trace_address_rejects_orphan_depth() {
    let depths = [1u32];
    let err = compute_trace_addresses(&depths).unwrap_err();
    assert!(matches!(err, QueryError::InvalidBlock(_)));
}

#[test]
fn trace_address_rejects_depth_jump() {
    let depths = [0u32, 2];
    let err = compute_trace_addresses(&depths).unwrap_err();
    assert!(matches!(err, QueryError::InvalidBlock(_)));
}

#[test]
fn ancestor_reverted_flags_frame_under_reverted_parent() {
    // Chain []→[0]→[0,0]; [0] reverted, so only its descendant is flagged.
    let traces = [
        frame(0, vec![], 0),
        frame(0, vec![0], 2),
        frame(0, vec![0, 0], 0),
    ];
    assert_eq!(compute_ancestor_reverted(&traces), vec![false, false, true]);
}

#[test]
fn ancestor_reverted_clean_chain_all_false() {
    let traces = [
        frame(0, vec![], 0),
        frame(0, vec![0], 0),
        frame(0, vec![0, 0], 0),
    ];
    assert_eq!(
        compute_ancestor_reverted(&traces),
        vec![false, false, false]
    );
}

#[test]
fn ancestor_reverted_no_cross_tx_bleed() {
    // Two interleaved txs; tx 0's root reverted, tx 1's is clean. tx 1's
    // child must not inherit tx 0's revert despite the shared prefix.
    let traces = [
        frame(0, vec![], 2),
        frame(1, vec![], 0),
        frame(0, vec![0], 0),
        frame(1, vec![0], 0),
    ];
    assert_eq!(
        compute_ancestor_reverted(&traces),
        vec![false, false, true, false]
    );
}

#[test]
fn ancestor_reverted_clean_sibling_of_reverted_leaf() {
    // Under a clean root, one child reverts; its sibling is unaffected.
    let traces = [
        frame(0, vec![], 0),
        frame(0, vec![0], 2),
        frame(0, vec![1], 0),
    ];
    assert_eq!(
        compute_ancestor_reverted(&traces),
        vec![false, false, false]
    );
}

#[test]
fn ancestor_reverted_propagates_past_clean_parent() {
    // [0] reverted, [0,0] itself succeeded: [0,0,0] is still flagged
    // because revert state carries down through clean intermediates.
    let traces = [
        frame(0, vec![], 0),
        frame(0, vec![0], 2),
        frame(0, vec![0, 0], 0),
        frame(0, vec![0, 0, 0], 0),
    ];
    assert_eq!(
        compute_ancestor_reverted(&traces),
        vec![false, false, true, true]
    );
}

#[test]
fn ancestor_reverted_survives_a_sibling_in_between() {
    // Parents come first, but the frames of [0] are not contiguous.
    let traces = [
        frame(0, vec![], 0),
        frame(0, vec![0], 2),
        frame(0, vec![1], 0),
        frame(0, vec![0, 0], 0),
        frame(0, vec![1, 0], 0),
    ];
    assert_eq!(
        compute_ancestor_reverted(&traces),
        vec![false, false, false, true, false]
    );
}

#[test]
fn ancestor_reverted_ignores_the_order_and_missing_parents() {
    let traces = [
        frame(3, vec![4, 5, 6], 0),
        frame(3, vec![4, 5], 0),
        frame(3, vec![4], 2),
        frame(7, vec![4, 5], 0),
        frame(3, vec![], 0),
    ];
    assert_eq!(
        compute_ancestor_reverted(&traces),
        vec![true, true, false, false, false]
    );
}

#[test]
fn trace_address_unit_root_chain() {
    // root -> A -> A1, A2; root -> B; root -> C -> C1 -> C1a
    let depths = [0u32, 1, 2, 2, 1, 1, 2, 3];
    let addresses = compute_trace_addresses(&depths).expect("compute");
    assert_eq!(
        addresses,
        vec![
            vec![],
            vec![0],
            vec![0, 0],
            vec![0, 1],
            vec![1],
            vec![2],
            vec![2, 0],
            vec![2, 0, 0],
        ]
    );
}

fn legacy() -> TxLegacy {
    TxLegacy {
        chain_id: Some(1),
        nonce: 7,
        gas_price: 10,
        gas_limit: 21_000,
        to: AlloyTxKind::Call(Address::repeat_byte(0xaa)),
        value: U256::from(42u64),
        input: Bytes::from_static(&[0x11, 0x22, 0x33, 0x44, 0x55]),
    }
}

fn encoded(envelope: TxEnvelope) -> Vec<u8> {
    let mut bytes = Vec::new();
    envelope.encode_2718(&mut bytes);
    bytes
}

#[test]
fn tx_entry_carries_envelope_sender_and_block_context() {
    let signed = legacy().into_signed(Signature::test_signature());
    let entry = StoredTxEnvelope {
        tx_hash: [0xcc; 32],
        sender: [0xdd; 20],
        signed_tx_bytes: encoded(TxEnvelope::Legacy(signed)),
    }
    .into_tx_entry(123, [0xbb; 32], 4)
    .expect("decode entry");

    assert_eq!(entry.block_number, 123);
    assert_eq!(entry.block_hash, [0xbb; 32]);
    assert_eq!(entry.tx_index, 4);
    assert_eq!(entry.sender, [0xdd; 20]);
    assert_eq!(entry.tx_hash, [0xcc; 32]);
    assert_eq!(entry.envelope.tx_hash, [0xcc; 32]);
    assert_eq!(entry.envelope.kind, TxKind::Legacy);
    assert_eq!(entry.to(), Some([0xaa; 20]));
    assert_eq!(entry.selector(), Some([0x11, 0x22, 0x33, 0x44]));
}

#[test]
fn every_envelope_type_decodes() {
    let signature = Signature::test_signature();
    let envelopes = vec![
        (
            TxKind::Eip2930,
            TxEnvelope::Eip2930(
                TxEip2930 {
                    to: AlloyTxKind::Create,
                    input: Bytes::from_static(&[1, 2, 3, 4]),
                    ..Default::default()
                }
                .into_signed(signature),
            ),
            None,
            None,
        ),
        (
            TxKind::Eip1559,
            TxEnvelope::Eip1559(
                TxEip1559 {
                    to: AlloyTxKind::Call(Address::repeat_byte(3)),
                    input: Bytes::from_static(&[1, 2, 3]),
                    ..Default::default()
                }
                .into_signed(signature),
            ),
            Some([3u8; 20]),
            None,
        ),
        (
            TxKind::Eip7702,
            TxEnvelope::Eip7702(
                TxEip7702 {
                    to: Address::repeat_byte(4),
                    input: Bytes::from_static(&[9, 8, 7, 6, 5]),
                    ..Default::default()
                }
                .into_signed(signature),
            ),
            Some([4u8; 20]),
            Some([9u8, 8, 7, 6]),
        ),
        (
            TxKind::Eip4844,
            TxEnvelope::Eip4844(
                alloy_consensus::TxEip4844Variant::TxEip4844(alloy_consensus::TxEip4844 {
                    to: Address::repeat_byte(5),
                    input: Bytes::from_static(&[1, 1, 2, 2]),
                    ..Default::default()
                })
                .into_signed(signature),
            ),
            Some([5u8; 20]),
            Some([1u8, 1, 2, 2]),
        ),
    ];
    for (kind, envelope, to, selector) in envelopes {
        let signed_tx_bytes = encoded(envelope);
        let body = decode_envelope(&signed_tx_bytes).expect("decode body");
        assert_eq!(body.to, to);
        let entry = StoredTxEnvelope { tx_hash: [1; 32], sender: [2; 20], signed_tx_bytes }
            .into_tx_entry(1, [0; 32], 0)
            .expect("decode entry");
        assert_eq!(entry.envelope.kind, kind);
        assert_eq!(entry.envelope.body, body);
        assert_eq!(entry.to(), to);
        assert_eq!(entry.selector(), selector);
    }
}

#[test]
fn malformed_envelopes_are_rejected() {
    for bad in [&[][..], &[0x01], &[0x05, 0xc0], &[0x80], &[0xc0]] {
        let row = StoredTxEnvelope {
            tx_hash: [0; 32],
            sender: [0; 20],
            signed_tx_bytes: bad.to_vec(),
        };
        assert!(matches!(
            row.into_tx_entry(0, [0; 32], 0),
            Err(QueryError::Decode("invalid signed tx envelope"))
        ));
    }
    assert!(decode_envelope(&[0xff]).is_err());
    assert!(matches!(frame_signed_tx(&[0x04, 9]), Some((TxKind::Eip7702, [9]))));
    assert!(frame_signed_tx(&[0x05]).is_none());
}

#[test]
fn location_round_trips() {
    let location = TxLocation { block_number: 0x0102_0304_0506_0708, tx_index: 0x090a_0b0c };
    assert_eq!(location.encode(), [1, 2, 3, 4, 5, 6, 7, 8, 9, 10, 11, 12]);
    assert_eq!(TxLocation::decode(&location.encode()).expect("decode"), location);
    let at = |block_number, tx_index| TxLocation { block_number, tx_index }.encode();
    assert!(at(1, 256) < at(1, 257) && at(1, u32::MAX) < at(2, 0) && at(255, 9) < at(256, 0));
    assert!(matches!(
        TxLocation::decode(&[0; 11]),
        Err(QueryError::Decode("invalid tx_location length"))
    ));
}

fn log() -> StoredLog {
    StoredLog {
        tx_index: 0,
        log_index: 300,
        address: [0xab; 20],
        topics: vec![[1; 32], [2; 32]],
        data: vec![0x7f],
    }
}

#[test]
fn log_row_round_trips() {
    let row = log();
    let bytes = row.encode();
    assert_eq!(StoredLog::decode(&bytes).expect("decode"), row);
    // List header, then 0 as the empty string and 300 in two bytes.
    assert_eq!(&bytes[..6], &[0xf8, 0x5e, 0x80, 0x82, 0x01, 0x2c]);
    assert_eq!(*bytes.last().expect("data"), 0x7f);
    let entry = log().into_log_entry(9, [3; 32]);
    assert_eq!((entry.block_number, entry.block_hash), (9, [3; 32]));
    assert_eq!(entry.topics, row.topics);
}

#[test]
fn log_row_rejects_other_shapes() {
    let mut trailing = log().encode();
    trailing.push(0);
    for bad in [&trailing[..], &[0xc0], &[], &[0x80]] {
        assert!(matches!(
            StoredLog::decode(bad),
            Err(QueryError::Decode("invalid log entry rlp"))
        ));
    }
}

#[test]
fn tx_row_round_trips() {
    let tx = IngestTx { tx_hash: [5; 32], sender: [6; 20], signed_tx_bytes: vec![1; 80] };
    let decoded = StoredTxEnvelope::decode(&tx.encode_row()).expect("decode");
    assert_eq!(decoded.tx_hash, tx.tx_hash);
    assert_eq!(decoded.sender, tx.sender);
    assert_eq!(decoded.signed_tx_bytes, tx.signed_tx_bytes);
    assert!(matches!(
        StoredTxEnvelope::decode(&[0xc1, 0x80]),
        Err(QueryError::Decode("invalid tx envelope rlp"))
    ));
    assert_eq!(IngestTx::default().tx_hash, [0; 32]);
}

fn call() -> IngestTrace {
    IngestTrace {
        typ: CallKind::SelfDestruct,
        to: Some([9; 20]),
        value: word(1 << 40),
        gas: 21_000,
        gas_used: 7,
        input: vec![1, 2, 3, 4, 5],
        output: vec![],
        ..frame(3, vec![0, 256], 1)
    }
}

#[test]
fn trace_row_round_trips() {
    for to in [Some([9; 20]), None] {
        for tx_status in [true, false] {
            let trace = IngestTrace { to, tx_status, ..call() };
            let decoded = StoredTrace::decode(&trace.encode_row()).expect("decode");
            assert_eq!(decoded, StoredTrace::from_ingest(&trace));
            let entry = decoded.into_trace_entry(5, [4; 32]);
            assert_eq!(entry.selector(), Some([1, 2, 3, 4]));
            assert!(!entry.is_top_level());
            assert_eq!(entry.tx_status, tx_status);
        }
    }
}

#[test]
fn trace_row_matches_a_derived_rlp_list() {
    // The same thirteen fields, each encoded by the RLP crate's own types.
    let trace = call();
    let mut payload = Vec::new();
    alloy_rlp::Encodable::encode(&5u8, &mut payload);
    alloy_rlp::Encodable::encode(&Address::from(trace.from), &mut payload);
    alloy_rlp::Encodable::encode(&Bytes::copy_from_slice(&[9; 20]), &mut payload);
    alloy_rlp::Encodable::encode(&U256::from(1u64 << 40), &mut payload);
    alloy_rlp::Encodable::encode(&trace.gas, &mut payload);
    alloy_rlp::Encodable::encode(&trace.gas_used, &mut payload);
    alloy_rlp::Encodable::encode(&Bytes::copy_from_slice(&trace.input), &mut payload);
    alloy_rlp::Encodable::encode(&Bytes::new(), &mut payload);
    alloy_rlp::Encodable::encode(&trace.status, &mut payload);
    alloy_rlp::Encodable::encode(&trace.depth, &mut payload);
    alloy_rlp::Encodable::encode(&trace.tx_index, &mut payload);
    alloy_rlp::Encodable::encode(&trace.trace_address, &mut payload);
    alloy_rlp::Encodable::encode(&1u8, &mut payload);
    let mut bytes = Vec::new();
    alloy_rlp::Header { list: true, payload_length: payload.len() }.encode(&mut bytes);
    bytes.extend_from_slice(&payload);
    assert_eq!(trace.encode_row(), bytes);
}

fn raw_trace_row(kind: u8, to: &[u8], status: u8) -> Vec<u8> {
    let mut payload = vec![kind];
    alloy_rlp::Encodable::encode(&Address::ZERO, &mut payload);
    alloy_rlp::Encodable::encode(to, &mut payload);
    payload.extend_from_slice(&[0x80, 0x80, 0x80, 0x80, 0x80, 0x80, 0x80, 0x80, 0xc0, status]);
    let mut bytes = Vec::new();
    alloy_rlp::Header { list: true, payload_length: payload.len() }.encode(&mut bytes);
    bytes.extend_from_slice(&payload);
    bytes
}

#[test]
fn trace_row_errors_are_told_apart() {
    let ok = StoredTrace::decode(&raw_trace_row(3, &[], 7)).expect("any non-zero status");
    assert_eq!(ok.typ, CallKind::Create);
    assert!(ok.tx_status);
    assert!(matches!(
        StoredTrace::decode(&raw_trace_row(0x7f, &[], 1)),
        Err(QueryError::Decode("invalid trace call kind byte"))
    ));
    assert!(matches!(
        StoredTrace::decode(&raw_trace_row(3, &[1, 2], 1)),
        Err(QueryError::Decode("invalid trace `to` byte length"))
    ));
    assert!(matches!(
        StoredTrace::decode(&[0xc0]),
        Err(QueryError::Decode("invalid trace entry rlp"))
    ));
    // A leading zero is not a canonical integer.
    assert!(StoredTrace::decode(&raw_trace_row(0, &[], 1)).is_err());
}

#[test]
fn selectors_need_four_bytes() {
    assert_eq!(selector_from_input(&[1, 2, 3]), None);
    assert_eq!(selector_from_input(&[1, 2, 3, 4, 5]), Some([1, 2, 3, 4]));
}

#[test]
fn call_kind_bytes_round_trip() {
    for byte in 0..=255u8 {
        match CallKind::from_byte(byte) {
            Some(kind) => assert_eq!(kind.to_byte(), byte),
            None => assert!(byte > 5),
        }
    }
}

#[test]
fn transfers_need_value_kind_and_success() {
    let transfer = IngestTrace { value: word(1), ..frame(0, vec![], 0) };
    assert!(transfer.is_transfer_frame(false));
    assert!(!transfer.is_transfer_frame(true));
    for kind in [CallKind::CallCode, CallKind::Create, CallKind::Create2, CallKind::SelfDestruct] {
        assert!(IngestTrace { typ: kind, ..transfer.clone() }.is_transfer_frame(false));
    }
    let delegate = IngestTrace { typ: CallKind::DelegateCall, ..transfer.clone() };
    assert!(!delegate.is_transfer_frame(false));
    assert!(!IngestTrace { value: word(0), ..transfer.clone() }.is_transfer_frame(false));
    assert!(!IngestTrace { status: 1, ..transfer.clone() }.is_transfer_frame(false));
    assert!(!IngestTrace { tx_status: false, ..transfer }.is_transfer_frame(false));
    let entry = TransferEntry {
        block_number: 1,
        block_hash: [0; 32],
        tx_index: 0,
        trace_address: vec![],
        typ: CallKind::Call,
        from: [0; 20],
        to: [0; 20],
        value: word(1),
    };
    assert!(entry.is_top_level());
}

fn emitted(byte: u8) -> Log {
    Log { address: [byte; 20], topics: vec![[byte; 32]], data: vec![byte] }
}

fn block(logs_by_tx: Vec<Vec<Log>>, txs: usize, traces: Vec<IngestTrace>) -> FinalizedBlock {
    FinalizedBlock {
        header: EvmBlockHeader { number: 42, parent_hash: [8; 32], rlp: vec![0xc0] },
        logs_by_tx,
        txs: (0..txs).map(|i| IngestTx { tx_hash: [i as u8; 32], ..Default::default() }).collect(),
        traces,
        external: None,
    }
}

#[test]
fn block_accessors_and_locations() {
    let block = block(vec![], 2, vec![]);
    assert_eq!(block.block_number(), 42);
    assert_eq!(block.parent_hash(), [8; 32]);
    assert_eq!(block.block_hash(), alloy_primitives::keccak256([0xc0]).0);
    assert_eq!(
        block.tx_hash_locations().expect("locations"),
        vec![
            ([0; 32], TxLocation { block_number: 42, tx_index: 0 }),
            ([1; 32], TxLocation { block_number: 42, tx_index: 1 }),
        ]
    );
}

#[test]
fn block_hash_is_the_header_hash() {
    let header = alloy_consensus::Header { number: 7, parent_hash: B256::repeat_byte(1), ..Default::default() };
    let mut block = block(vec![], 0, vec![]);
    block.header = EvmBlockHeader {
        number: 7,
        parent_hash: [1; 32],
        rlp: alloy_rlp::encode(&header),
    };
    assert_eq!(block.block_hash(), header.hash_slow().0);
}

#[test]
fn logs_flatten_in_block_order() {
    let block = block(vec![vec![emitted(1)], vec![], vec![emitted(2), emitted(3)]], 3, vec![]);
    let rows = block.flatten_logs().expect("flatten");
    let placed: Vec<(u32, u32, u8)> =
        rows.iter().map(|row| (row.tx_index, row.log_index, row.data[0])).collect();
    assert_eq!(placed, vec![(0, 0, 1), (2, 1, 2), (2, 2, 3)]);
    assert_eq!(rows[1].topics, vec![[2; 32]]);
    assert_eq!(rows[1].address, [2; 20]);
}

fn region(offsets: Vec<u32>, rows: Vec<u32>, status: Vec<u8>) -> ExternalFamilyRegion {
    ExternalFamilyRegion {
        key: b"block/000000000042".to_vec(),
        base_offset: 10,
        container_offsets: offsets,
        container_rows: rows,
        container_status: status,
    }
}

fn located() -> (ExternalPayloadSpec, FinalizedBlock) {
    let traces = vec![frame(0, vec![], 0), frame(0, vec![0], 0)];
    let spec = ExternalPayloadSpec {
        block_number: 42,
        logs: region(vec![0, 5, 9], vec![1, 3], vec![]),
        txs: region(vec![0, 5, 9], vec![], vec![]),
        traces: region(vec![0, 5, 9], vec![2, 2], vec![0b01]),
    };
    (spec, block(vec![vec![emitted(1)], vec![emitted(2), emitted(3)]], 2, traces))
}

fn fault(edit: impl Fn(&mut ExternalPayloadSpec, &mut FinalizedBlock)) -> String {
    let (mut spec, mut block) = located();
    edit(&mut spec, &mut block);
    spec.validate(42, &block).expect_err("rejected").detail().to_string()
}

#[test]
fn external_spec_accepts_what_matches() {
    let (spec, block) = located();
    spec.validate(42, &block).expect("valid");
    // A tx without frames takes its status from the stored bit.
    let mut flipped = spec.clone();
    flipped.traces.container_status = vec![0b11];
    flipped.validate(42, &block).expect("valid either way");
    assert!(ExternalPayloadSpec::default().validate(0, &block).is_err());
    assert!(ExternalFamilyRegion::default().key.is_empty());
}

#[test]
fn external_spec_faults_are_told_apart() {
    assert_eq!(
        fault(|spec, _| spec.block_number = 41),
        "external payload spec belongs to a different block"
    );
    assert_eq!(
        fault(|_, block| block.logs_by_tx.push(vec![])),
        "external payload requires one receipt container per tx"
    );
    assert_eq!(
        fault(|spec, _| spec.txs.key.clear()),
        "external payload region missing archive key"
    );
    assert_eq!(
        fault(|spec, _| spec.logs.container_offsets = vec![0, 5]),
        "external payload container partition has the wrong shape"
    );
    assert_eq!(
        fault(|spec, _| spec.logs.container_offsets = vec![1, 5, 9]),
        "external payload container partition has the wrong shape"
    );
    assert_eq!(
        fault(|spec, _| spec.logs.container_offsets = vec![0, 5, 5]),
        "external payload containers must be non-empty and ascending"
    );
    assert_eq!(
        fault(|spec, _| spec.logs.base_offset = u32::MAX - 8),
        "external payload region exceeds the u32 offset space"
    );
    assert_eq!(
        fault(|spec, _| spec.txs.container_rows = vec![1, 2]),
        "identity external region must omit container_rows"
    );
    assert_eq!(
        fault(|spec, _| spec.txs.container_status = vec![0]),
        "external payload container_status length mismatch"
    );
    assert_eq!(
        fault(|spec, _| spec.logs.container_rows = vec![1]),
        "external payload container_rows length mismatch"
    );
    assert_eq!(
        fault(|spec, _| spec.logs.container_rows = vec![1, 2]),
        "external payload container_rows disagrees with the block's rows"
    );
    assert_eq!(
        fault(|_, block| block.traces[1].tx_index = 2),
        "external payload trace tx_index out of range"
    );
    assert_eq!(
        fault(|_, block| block.traces[1].tx_status = false),
        "external payload trace tx_status inconsistent within a tx"
    );
    assert_eq!(
        fault(|spec, _| spec.traces.container_status = vec![0b00]),
        "external payload container_status disagrees with the block's receipts"
    );
    assert_eq!(
        fault(|spec, _| spec.traces.container_status = vec![0b101]),
        "external payload container_status disagrees with the block's receipts"
    );
}

#[test]
fn region_rows_must_be_one_each_in_identity_mode_and_must_not_overflow() {
    assert_eq!(
        region(vec![0, 5], vec![], vec![]).validate(&[2], true).expect_err("two rows").detail(),
        "identity external region requires one row per container"
    );
    assert_eq!(
        region(vec![0, 5, 9], vec![u32::MAX, 0], vec![])
            .validate(&[u32::MAX, 1], false)
            .expect_err("overflow")
            .detail(),
        "external payload row count overflow"
    );
}
