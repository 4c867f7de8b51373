//! From an ingested block to the rows read back: what every record of a block
//! comes back as.

use vstd::prelude::*;

use crate::be::{be_value, lemma_be_limit_values};
use crate::primitives::CallKind;
use crate::rlp::{
    lemma_list_bounds, lemma_list_items, lemma_payload_items, lemma_uint_item, list_items,
    payload_items, rlp_list, uint_of,
};
use crate::types::ingest_types::{
    is_flattening, is_log_of, lemma_logs_before_monotonic, logs_before, IngestTrace, IngestTx, Log,
};
use crate::types::logs::{is_log_row, law_log_round_trip, topic_items, StoredLog};
use crate::types::traces::{
    is_trace_row, law_trace_round_trip, lemma_trace_reads_itself, path_items, row_kind,
    spec_selector, StoredTrace,
};
use crate::types::txs::{body_selector, is_tx_row, law_tx_round_trip, StoredTxEnvelope};

verus! {

/// A frame comes back from its row with every field it was ingested with: its
/// row decodes, and to nothing else.
pub proof fn law_frame_reads_back(
    frame: IngestTrace,
    stored: StoredTrace,
    row: Seq<u8>,
    decoded: StoredTrace,
)
    requires
        stored.copies(&frame),
        row == rlp_list(stored.items()),
        row.len() <= u64::MAX,
        list_items(row) matches Some(items) ==> decoded.reads(items),
    ensures
        list_items(row) matches Some(items) && is_trace_row(items) && row_kind(items) is Some && (
        items[2].1.len() == 0 || items[2].1.len() == 20),
        decoded.typ == frame.typ,
        decoded.from == frame.from,
        decoded.to == frame.to,
        decoded.value == frame.value,
        decoded.gas == frame.gas,
        decoded.gas_used == frame.gas_used,
        decoded.input@ == frame.input@,
        decoded.output@ == frame.output@,
        decoded.status == frame.status,
        decoded.depth == frame.depth,
        decoded.tx_index == frame.tx_index,
        decoded.trace_address@ == frame.trace_address@,
        decoded.tx_status == frame.tx_status,
{
    law_trace_round_trip(stored, decoded);
}

/// Frames that differ in any field have different rows.
pub proof fn law_frame_rows_tell_frames_apart(
    a: IngestTrace,
    b: IngestTrace,
    stored_a: StoredTrace,
    stored_b: StoredTrace,
)
    requires
        stored_a.copies(&a),
        stored_b.copies(&b),
        rlp_list(stored_a.items()) == rlp_list(stored_b.items()),
        rlp_list(stored_a.items()).len() <= u64::MAX,
    ensures
        a.typ == b.typ,
        a.from == b.from,
        a.to == b.to,
        a.value == b.value,
        a.gas == b.gas,
        a.gas_used == b.gas_used,
        a.input@ == b.input@,
        a.output@ == b.output@,
        a.status == b.status,
        a.depth == b.depth,
        a.tx_index == b.tx_index,
        a.trace_address@ == b.trace_address@,
        a.tx_status == b.tx_status,
{
    let row = rlp_list(stored_a.items());
    lemma_trace_reads_itself(stored_a);
    law_frame_reads_back(b, stored_b, row, stored_a);
}

/// A tx comes back from its row with the hash, sender and signed bytes it was
/// ingested with.
pub proof fn law_tx_reads_back(
    tx: IngestTx,
    stored: StoredTxEnvelope,
    row: Seq<u8>,
    decoded: StoredTxEnvelope,
)
    requires
        stored.tx_hash == tx.tx_hash,
        stored.sender == tx.sender,
        stored.signed_tx_bytes@ == tx.signed_tx_bytes@,
        row == rlp_list(stored.items()),
        row.len() <= u64::MAX,
        list_items(row) matches Some(items) ==> is_tx_row(items) ==> items == decoded.items(),
    ensures
        list_items(row) matches Some(items) && is_tx_row(items),
        decoded.tx_hash == tx.tx_hash,
        decoded.sender == tx.sender,
        decoded.signed_tx_bytes@ == tx.signed_tx_bytes@,
{
    law_tx_round_trip(stored, decoded);
}

/// Every log of a block comes back from the row that stands at its block-wide
/// position, with its tx's position, its own position, and the address, topics
/// and data it was emitted with.
pub proof fn law_log_reads_back(
    logs_by_tx: Seq<Vec<Log>>,
    stored: Seq<StoredLog>,
    rows: Seq<Vec<u8>>,
    t: int,
    k: int,
    at: int,
    decoded: StoredLog,
)
    requires
        is_flattening(stored, logs_by_tx),
        rows.len() == stored.len(),
        forall|i: int| 0 <= i < rows.len() ==> (#[trigger] rows[i])@ == rlp_list(stored[i].items()),
        0 <= t < logs_by_tx.len(),
        0 <= k < logs_by_tx[t]@.len(),
        at == logs_before(logs_by_tx, t) + k,
        0 <= at < rows.len() ==> rows[at]@.len() <= u64::MAX,
        0 <= at < rows.len() ==> (list_items(rows[at]@) matches Some(items) ==> is_log_row(items)
            ==> decoded.reads(items)),
    ensures
        0 <= at < rows.len(),
        list_items(rows[at]@) matches Some(items) && is_log_row(items),
        decoded.tx_index == t,
        decoded.log_index == at,
        decoded.address == logs_by_tx[t]@[k].address,
        decoded.topics@ == logs_by_tx[t]@[k].topics@,
        decoded.data@ == logs_by_tx[t]@[k].data@,
{
    lemma_logs_before_monotonic(logs_by_tx, t + 1, logs_by_tx.len() as int);
    let log = logs_by_tx[t]@[k];
    assert(is_log_of(stored[at], log, t, at));
    law_log_round_trip(stored[at], decoded);
}

/// Rows hold their fields in a fixed order, so that rows written by any version
/// of a writer read alike.
pub proof fn law_row_fields_stand_in_order(
    log: StoredLog,
    tx: StoredTxEnvelope,
    trace: StoredTrace,
)
    requires
        rlp_list(log.items()).len() <= u64::MAX,
        rlp_list(tx.items()).len() <= u64::MAX,
        rlp_list(trace.items()).len() <= u64::MAX,
    ensures
        list_items(rlp_list(log.items())) matches Some(items) && {
            &&& items.len() == 5
            &&& uint_of(items[0]) == log.tx_index
            &&& uint_of(items[1]) == log.log_index
            &&& items[2].1 == log.address@
            &&& (payload_items(items[3].1) matches Some(topics) && topics.len()
                == log.topics@.len() && forall|i: int|
                0 <= i < topics.len() ==> (#[trigger] topics[i]).1 == log.topics@[i]@)
            &&& items[4].1 == log.data@
        },
        list_items(rlp_list(tx.items())) matches Some(items) && {
            &&& items.len() == 3
            &&& items[0].1 == tx.tx_hash@
            &&& items[1].1 == tx.sender@
            &&& items[2].1 == tx.signed_tx_bytes@
        },
        list_items(rlp_list(trace.items())) matches Some(items) && {
            &&& items.len() == 13
            &&& row_kind(items) == Some(trace.typ)
            &&& items[1].1 == trace.from@
            &&& (match trace.to {
                Some(to) => items[2].1 == to@,
                None => items[2].1.len() == 0,
            })
            &&& uint_of(items[3]) == be_value(trace.value@)
            &&& uint_of(items[4]) == trace.gas
            &&& uint_of(items[5]) == trace.gas_used
            &&& items[6].1 == trace.input@
            &&& items[7].1 == trace.output@
            &&& uint_of(items[8]) == trace.status
            &&& uint_of(items[9]) == trace.depth
            &&& uint_of(items[10]) == trace.tx_index
            &&& (payload_items(items[11].1) matches Some(steps) && steps.len()
                == trace.trace_address@.len() && forall|i: int|
                0 <= i < steps.len() ==> uint_of(#[trigger] steps[i]) == trace.trace_address@[i])
            &&& uint_of(items[12]) == if trace.tx_status {
                1int
            } else {
                0int
            }
        },
{
    lemma_trace_reads_itself(trace);
    lemma_list_items(tx.items());
    lemma_list_items(log.items());
    lemma_be_limit_values();
    lemma_uint_item(log.tx_index as nat, 4);
    lemma_uint_item(log.log_index as nat, 4);
    lemma_list_bounds(log.items(), 3);
    lemma_payload_items(topic_items(log.topics@));
    lemma_uint_item(if trace.tx_status { 1nat } else { 0nat }, 1);
    let steps = path_items(trace.trace_address@);
    lemma_list_bounds(trace.items(), 11);
    lemma_payload_items(steps);
    assert forall|i: int| 0 <= i < steps.len() implies uint_of(#[trigger] steps[i])
        == trace.trace_address@[i] by {
        assert(trace.trace_address@[i] as nat == uint_of(steps[i]));
    }
}

/// Block-wide log positions count the logs that come before: the first log of a
/// block is number zero, and each tx's logs follow those of the tx before it.
pub proof fn law_log_positions_count(logs_by_tx: Seq<Vec<Log>>, t: int)
    requires
        0 <= t < logs_by_tx.len(),
    ensures
        logs_before(logs_by_tx, 0) == 0,
        logs_before(logs_by_tx, t + 1) - logs_before(logs_by_tx, t) == logs_by_tx[t]@.len(),
{
}

/// A frame is a transfer exactly when it moved a positive amount for good: some
/// byte of its value is set, it is no delegate call, and neither it nor a frame
/// above it nor its tx failed.
pub proof fn law_transfers_are_committed_moves(frame: IngestTrace, ancestor_reverted: bool)
    ensures
        frame.spec_is_transfer(ancestor_reverted) <==> {
            &&& exists|i: int| 0 <= i < 32 && #[trigger] frame.value@[i] != 0
            &&& frame.typ != CallKind::DelegateCall
            &&& frame.status == 0
            &&& !ancestor_reverted
            &&& frame.tx_status
        },
{
    crate::types::ingest_types::lemma_positive_has_a_byte(frame.value@);
}

/// A call's selector is the first four bytes of its calldata, and a call with
/// less calldata, or a creation, has none.
pub proof fn law_selector_is_the_first_four_bytes(to: Option<Seq<u8>>, input: Seq<u8>)
    ensures
        input.len() >= 4 ==> (spec_selector(input) matches Some(selector) && selector.len() == 4
            && forall|i: int| 0 <= i < 4 ==> selector[i] == input[i]),
        input.len() < 4 ==> spec_selector(input) is None,
        to is Some ==> body_selector((to, input)) == spec_selector(input),
        to is None ==> body_selector((to, input)) is None,
{
}

} // verus!
