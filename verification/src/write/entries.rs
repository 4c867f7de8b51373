//! Which streams each record is indexed under.

use vstd::prelude::*;

use crate::errors::{QueryError, Result};
use crate::primitives::Hash32;
use crate::types::ingest_types::{logs_before, FinalizedBlock, IngestTrace, IngestTx, Log};
use crate::types::reverts::{ancestor_failed, compute_ancestor_reverted};
use crate::types::traces::{selector_from_input, spec_selector};
use crate::types::txs::{
    body_selector, decode_envelope, envelope_2718_body, selector_from_envelope, TxBody,
};
use crate::write::streams::{spec_topic, stream_id, IndexKind, StreamKey};

verus! {

/// The ids of a list of streams.
pub open spec fn stream_ids(streams: Seq<StreamKey>) -> Seq<Seq<char>> {
    streams.map_values(|stream: StreamKey| stream@)
}

/// A log is indexed under its address and its first four topics.
pub open spec fn log_streams(address: Seq<u8>, topics: Seq<Hash32>) -> Seq<Seq<char>> {
    seq![stream_id(IndexKind::Addr, address)] + Seq::new(
        if topics.len() < 4 {
            topics.len()
        } else {
            4
        },
        |i: int| stream_id(spec_topic(i)->Some_0, topics[i]@),
    )
}

/// An optional stream as a list.
pub open spec fn opt_stream(kind: IndexKind, bytes: Option<Seq<u8>>) -> Seq<Seq<char>> {
    match bytes {
        Some(bytes) => seq![stream_id(kind, bytes)],
        None => Seq::empty(),
    }
}

/// A flag stream as a list.
pub open spec fn flag_stream(kind: IndexKind, set: bool) -> Seq<Seq<char>> {
    if set {
        seq![stream_id(kind, Seq::empty())]
    } else {
        Seq::empty()
    }
}

/// A tx is indexed under its sender, its recipient and its selector; a
/// creation has neither of the latter two.
pub open spec fn tx_streams(sender: Seq<u8>, body: (Option<Seq<u8>>, Seq<u8>)) -> Seq<Seq<char>> {
    seq![stream_id(IndexKind::From, sender)] + opt_stream(IndexKind::To, body.0) + opt_stream(
        IndexKind::Selector,
        body_selector(body),
    )
}

/// A frame is indexed under its sender, its recipient and its selector, under
/// `top_level` if it is a root frame, and under `has_transfer` if it moves
/// value.
pub open spec fn trace_streams(trace: IngestTrace, ancestor_reverted: bool) -> Seq<Seq<char>> {
    seq![stream_id(IndexKind::From, trace.from@)] + opt_stream(
        IndexKind::To,
        match trace.to {
            Some(to) => Some(to@),
            None => None,
        },
    ) + opt_stream(IndexKind::Selector, spec_selector(trace.input@)) + flag_stream(
        IndexKind::TopLevel,
        trace.trace_address@.len() == 0,
    ) + flag_stream(IndexKind::HasTransfer, trace.spec_is_transfer(ancestor_reverted))
}

/// Expands one log into its indexed streams.
pub fn stream_entries_for_log(address: &[u8], topics: &[Hash32]) -> (entries: Vec<StreamKey>)
    ensures
        stream_ids(entries@) == log_streams(address@, topics@),
{
    let mut entries: Vec<StreamKey> = Vec::new();
    entries.push(StreamKey::new(IndexKind::Addr, address));
    let ghost whole = log_streams(address@, topics@);
    let mut i: usize = 0;
    assert(stream_ids(entries@) =~= whole.take(1));
    while i < topics.len() && i < 4
        invariant
            i <= topics@.len(),
            i <= 4,
            whole == log_streams(address@, topics@),
            stream_ids(entries@) == whole.take(i + 1),
        decreases topics@.len() - i,
    {
        if let Some(kind) = IndexKind::topic(i) {
            let ghost before = entries@;
            entries.push(StreamKey::new(kind, &topics[i]));
            assert(stream_ids(entries@) =~= stream_ids(before).push(whole[i + 1]));
            assert(whole.take(i + 2) =~= whole.take(i + 1).push(whole[i + 1]));
        }
        i = i + 1;
    }
    assert(whole.take(i + 1) =~= whole);
    entries
}

/// Adds a stream to a list.
fn push_stream(entries: &mut Vec<StreamKey>, kind: IndexKind, bytes: &[u8])
    ensures
        stream_ids(final(entries)@) == stream_ids(old(entries)@) + seq![stream_id(kind, bytes@)],
{
    let ghost before = entries@;
    entries.push(StreamKey::new(kind, bytes));
    assert(stream_ids(entries@) =~= stream_ids(before) + seq![stream_id(kind, bytes@)]);
}

/// The streams of a tx whose envelope decoded to `body`.
pub fn stream_entries_for_body(sender: &[u8], body: &TxBody) -> (entries: Vec<StreamKey>)
    ensures
        stream_ids(entries@) == tx_streams(sender@, body@),
{
    let mut entries: Vec<StreamKey> = Vec::new();
    assert(stream_ids(entries@) =~= Seq::empty());
    push_stream(&mut entries, IndexKind::From, sender);
    if let Some(to) = &body.to {
        push_stream(&mut entries, IndexKind::To, to);
    }
    if let Some(selector) = selector_from_envelope(body) {
        push_stream(&mut entries, IndexKind::Selector, &selector);
    }
    assert(stream_ids(entries@) =~= tx_streams(sender@, body@));
    entries
}

/// Expands one tx into its indexed streams; the envelope must decode.
pub fn stream_entries_for_tx(tx: &IngestTx) -> (result: Result<Vec<StreamKey>>)
    ensures
        match result {
            Ok(entries) => {
                &&& envelope_2718_body(tx.signed_tx_bytes@) is Some
                &&& stream_ids(entries@) == tx_streams(
                    tx.sender@,
                    envelope_2718_body(tx.signed_tx_bytes@)->Some_0,
                )
            },
            Err(error) => {
                &&& envelope_2718_body(tx.signed_tx_bytes@) is None
                &&& error == QueryError::Decode("invalid signed tx envelope")
            },
        },
{
    match decode_envelope(&tx.signed_tx_bytes) {
        Ok(body) => Ok(stream_entries_for_body(&tx.sender, &body)),
        Err(error) => Err(error),
    }
}

/// Expands one frame into its indexed streams.
pub fn stream_entries_for_trace(trace: &IngestTrace, ancestor_reverted: bool) -> (entries: Vec<
    StreamKey,
>)
    ensures
        stream_ids(entries@) == trace_streams(*trace, ancestor_reverted),
{
    let none: [u8; 0] = [];
    assert(none@ =~= Seq::empty());
    let mut entries: Vec<StreamKey> = Vec::new();
    assert(stream_ids(entries@) =~= Seq::empty());
    push_stream(&mut entries, IndexKind::From, &trace.from);
    if let Some(to) = &trace.to {
        push_stream(&mut entries, IndexKind::To, to);
    }
    if let Some(selector) = selector_from_input(&trace.input) {
        push_stream(&mut entries, IndexKind::Selector, &selector);
    }
    if trace.trace_address.len() == 0 {
        push_stream(&mut entries, IndexKind::TopLevel, &none);
    }
    if trace.is_transfer_frame(ancestor_reverted) {
        push_stream(&mut entries, IndexKind::HasTransfer, &none);
    }
    assert(stream_ids(entries@) =~= trace_streams(*trace, ancestor_reverted));
    entries
}

/// The streams of each record of one family of a block, in id order.
pub open spec fn record_ids(records: Seq<Vec<StreamKey>>) -> Seq<Seq<Seq<char>>> {
    records.map_values(|streams: Vec<StreamKey>| stream_ids(streams@))
}

/// The streams of a block's logs, in block order.
pub open spec fn block_log_streams(logs_by_tx: Seq<Vec<Log>>) -> Seq<Seq<Seq<char>>>
    decreases logs_by_tx.len(),
{
    if logs_by_tx.len() == 0 {
        Seq::empty()
    } else {
        block_log_streams(logs_by_tx.drop_last()) + logs_by_tx.last()@.map_values(
            |log: Log| log_streams(log.address@, log.topics@),
        )
    }
}

/// The streams of a block's txs, if every envelope decodes.
pub open spec fn tx_streams_at(tx: IngestTx) -> Seq<Seq<char>> {
    tx_streams(tx.sender@, envelope_2718_body(tx.signed_tx_bytes@)->Some_0)
}

/// The streams of a block's frames. Moves under a caught revert are rolled
/// back on chain: not transfers.
pub open spec fn block_trace_streams(traces: Seq<IngestTrace>) -> Seq<Seq<Seq<char>>> {
    Seq::new(traces.len(), |i: int| trace_streams(traces[i], ancestor_failed(traces, i)))
}

/// Expands every log of a block.
pub fn block_log_entries(block: &FinalizedBlock) -> (records: Vec<Vec<StreamKey>>)
    ensures
        record_ids(records@) == block_log_streams(block.logs_by_tx@),
        records@.len() == logs_before(block.logs_by_tx@, block.logs_by_tx@.len() as int),
{
    let ghost all = block.logs_by_tx@;
    let mut records: Vec<Vec<StreamKey>> = Vec::new();
    let mut t: usize = 0;
    assert(all.take(0) =~= Seq::empty());
    assert(record_ids(records@) =~= Seq::empty());
    while t < block.logs_by_tx.len()
        invariant
            all == block.logs_by_tx@,
            t <= all.len(),
            record_ids(records@) == block_log_streams(all.take(t as int)),
            records@.len() == logs_before(all, t as int),
        decreases all.len() - t,
    {
        let logs = &block.logs_by_tx[t];
        let ghost base = record_ids(records@);
        let ghost fresh = logs@.map_values(|log: Log| log_streams(log.address@, log.topics@));
        let ghost held = records@.len();
        let mut k: usize = 0;
        assert(base + fresh.take(0) =~= base);
        while k < logs.len()
            invariant
                k <= logs@.len(),
                fresh == logs@.map_values(|log: Log| log_streams(log.address@, log.topics@)),
                record_ids(records@) == base + fresh.take(k as int),
                records@.len() == held + k,
            decreases logs@.len() - k,
        {
            let ghost before = records@;
            records.push(stream_entries_for_log(&logs[k].address, &logs[k].topics));
            assert(record_ids(records@) =~= record_ids(before).push(fresh[k as int]));
            assert(base + fresh.take(k + 1) =~= (base + fresh.take(k as int)).push(
                fresh[k as int],
            ));
            k = k + 1;
        }
        assert(fresh.take(k as int) =~= fresh);
        assert(all.take(t + 1).drop_last() =~= all.take(t as int));
        t = t + 1;
    }
    assert(all.take(t as int) =~= all);
    records
}

/// Expands every tx of a block; the first envelope that does not decode is an
/// error.
pub fn block_tx_entries(block: &FinalizedBlock) -> (result: Result<Vec<Vec<StreamKey>>>)
    ensures
        match result {
            Ok(records) => {
                &&& forall|i: int|
                    0 <= i < block.txs@.len() ==> envelope_2718_body(
                        (#[trigger] block.txs@[i]).signed_tx_bytes@,
                    ) is Some
                &&& record_ids(records@) == block.txs@.map_values(|tx: IngestTx| tx_streams_at(tx))
                &&& records@.len() == block.txs@.len()
            },
            Err(error) => {
                &&& exists|i: int|
                    0 <= i < block.txs@.len() && envelope_2718_body(
                        (#[trigger] block.txs@[i]).signed_tx_bytes@,
                    ) is None
                &&& error == QueryError::Decode("invalid signed tx envelope")
            },
        },
{
    let ghost whole = block.txs@.map_values(|tx: IngestTx| tx_streams_at(tx));
    let mut records: Vec<Vec<StreamKey>> = Vec::new();
    let mut i: usize = 0;
    assert(record_ids(records@) =~= whole.take(0));
    while i < block.txs.len()
        invariant
            i <= block.txs@.len(),
            records@.len() == i,
            whole == block.txs@.map_values(|tx: IngestTx| tx_streams_at(tx)),
            record_ids(records@) == whole.take(i as int),
            forall|k: int|
                0 <= k < i ==> envelope_2718_body(
                    (#[trigger] block.txs@[k]).signed_tx_bytes@,
                ) is Some,
        decreases block.txs@.len() - i,
    {
        match stream_entries_for_tx(&block.txs[i]) {
            Ok(entries) => {
                let ghost before = records@;
                records.push(entries);
                assert(record_ids(records@) =~= record_ids(before).push(whole[i as int]));
                assert(whole.take(i + 1) =~= whole.take(i as int).push(whole[i as int]));
            },
            Err(error) => {
                assert(envelope_2718_body(block.txs@[i as int].signed_tx_bytes@) is None);
                return Err(error);
            },
        }
        i = i + 1;
    }
    assert(whole.take(i as int) =~= whole);
    Ok(records)
}

/// Expands every frame of a block.
pub fn block_trace_entries(block: &FinalizedBlock) -> (records: Vec<Vec<StreamKey>>)
    ensures
        record_ids(records@) == block_trace_streams(block.traces@),
        records@.len() == block.traces@.len(),
{
    let reverted = compute_ancestor_reverted(&block.traces);
    let ghost whole = block_trace_streams(block.traces@);
    let mut records: Vec<Vec<StreamKey>> = Vec::new();
    let mut i: usize = 0;
    assert(record_ids(records@) =~= whole.take(0));
    while i < block.traces.len()
        invariant
            i <= block.traces@.len(),
            records@.len() == i,
            reverted@.len() == block.traces@.len(),
            forall|k: int|
                0 <= k < block.traces@.len() ==> #[trigger] reverted@[k] == ancestor_failed(
                    block.traces@,
                    k,
                ),
            whole == block_trace_streams(block.traces@),
            record_ids(records@) == whole.take(i as int),
        decreases block.traces@.len() - i,
    {
        let ghost before = records@;
        records.push(stream_entries_for_trace(&block.traces[i], reverted[i]));
        assert(record_ids(records@) =~= record_ids(before).push(whole[i as int]));
        assert(whole.take(i + 1) =~= whole.take(i as int).push(whole[i as int]));
        i = i + 1;
    }
    assert(whole.take(i as int) =~= whole);
    records
}

} // verus!
