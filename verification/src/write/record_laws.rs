//! What the data track leaves of a block: where its ids begin and end, where its
//! rows stand, and which row a tx hash leads to.

use vstd::prelude::*;

use crate::errors::QueryError;
use crate::rlp::{list_items, rlp_list};
use crate::types::external::{
    frame_counts, frame_counts_fit, frames_fault, log_counts, rows_through, status_bit,
    ExternalFamilyRegion, ExternalPayloadSpec,
};
use crate::types::external_laws::{law_region_locates_its_rows, law_status_bits_are_the_statuses};
use crate::types::ingest_types::{is_flattening, keccak256_of, logs_before, FinalizedBlock};
use crate::types::logs::StoredLog;
use crate::types::row_laws::law_tx_reads_back;
use crate::types::txs::{StoredTxEnvelope, TxLocation};
use crate::write::data_track::{
    accounted, are_block_rows, are_locations, based_at, completed_corpus, entry_rows,
    is_external_header, is_record_of, logs_overflow, pack_fault, pack_rows, same_header, stamped,
    BlockBlobHeader, BlockRecord, BlockRows, DictConfig, PackEntry, PackRow, RowEncoding,
    DICT_VERSION_NONE,
};
use crate::write::family::{
    advanced, assignable, frontier_before, ranges_at, ranges_from, run_assignable, AssignedBlock,
    FamilyFrontier,
};
use crate::write::index::ChainDigest;

verus! {

/// How many rows of each family a block has, as rows.
pub open spec fn row_counts_match(record: BlockRecord, rows: BlockRows) -> bool {
    &&& record.logs.count == rows.logs@.len()
    &&& record.txs.count == rows.txs@.len()
    &&& record.traces.count == rows.traces@.len()
}

/// A record's windows begin at the frontier that the block was numbered from and
/// end at the frontier behind it, so a run that resumes from the record goes on
/// without gap or overlap; and each is as long as the block has rows of its
/// family.
pub proof fn law_windows_end_at_the_frontier(
    frontier: FamilyFrontier,
    assigned: AssignedBlock,
    record: BlockRecord,
    rows: BlockRows,
)
    requires
        assignable(frontier, assigned.block),
        assigned.ranges == ranges_from(frontier, assigned.block),
        is_record_of(record, assigned),
        are_block_rows(rows, assigned.block),
    ensures
        record.logs.first_primary_id == frontier.log,
        record.txs.first_primary_id == frontier.tx,
        record.traces.first_primary_id == frontier.trace,
        record.logs.first_primary_id + record.logs.count == advanced(frontier, assigned.block).log,
        record.txs.first_primary_id + record.txs.count == advanced(frontier, assigned.block).tx,
        record.traces.first_primary_id + record.traces.count == advanced(
            frontier,
            assigned.block,
        ).trace,
        row_counts_match(record, rows),
        record.txs.count == assigned.block.txs@.len(),
        record.traces.count == assigned.block.traces@.len(),
{
    let logs = choose|logs: Seq<StoredLog>|
        #[trigger] is_flattening(logs, assigned.block.logs_by_tx@)
            && crate::write::data_track::are_log_rows(rows.logs@, logs);
    assert(is_flattening(logs, assigned.block.logs_by_tx@));
}

/// The records of consecutive blocks of a run abut: each family's window begins
/// where the one of the block before ends.
pub proof fn law_consecutive_windows_abut(
    frontier: FamilyFrontier,
    blocks: Seq<FinalizedBlock>,
    i: int,
    a: AssignedBlock,
    b: AssignedBlock,
    earlier: BlockRecord,
    later: BlockRecord,
)
    requires
        run_assignable(frontier, blocks),
        0 <= i < blocks.len() - 1,
        a.block == blocks[i],
        b.block == blocks[i + 1],
        a.ranges == ranges_at(frontier, blocks, i),
        b.ranges == ranges_at(frontier, blocks, i + 1),
        is_record_of(earlier, a),
        is_record_of(later, b),
    ensures
        earlier.logs.first_primary_id + earlier.logs.count == later.logs.first_primary_id,
        earlier.txs.first_primary_id + earlier.txs.count == later.txs.first_primary_id,
        earlier.traces.first_primary_id + earlier.traces.count == later.traces.first_primary_id,
{
    assert(assignable(frontier_before(frontier, blocks, i), blocks[i]));
    reveal_with_fuel(frontier_before, 2);
}

/// Records link as their blocks do: where a header names the digest of the one
/// before as its parent, so does its record name the other's hash. A record is
/// filed under the number of its block's header.
pub proof fn law_records_link(
    parent: AssignedBlock,
    child: AssignedBlock,
    earlier: BlockRecord,
    later: BlockRecord,
)
    requires
        is_record_of(earlier, parent),
        is_record_of(later, child),
        child.number == child.block.header.number,
        child.block.header.parent_hash@ == keccak256_of(parent.block.header.rlp@),
    ensures
        later.parent_hash@ == earlier.block_hash@,
        later.block_number == child.block.header.number,
{
}

/// A tx hash leads to its tx: the location filed for it names the block and the
/// position of the row that decodes to the tx with that hash.
pub proof fn law_tx_hash_leads_to_its_row(
    assigned: AssignedBlock,
    locations: Seq<(crate::primitives::Hash32, TxLocation)>,
    rows: BlockRows,
    i: int,
    decoded: StoredTxEnvelope,
)
    requires
        are_locations(locations, assigned),
        are_block_rows(rows, assigned.block),
        assigned.block.txs@.len() <= 0x1_0000_0000,
        0 <= i < assigned.block.txs@.len(),
        ({
            let at = locations[i].1.tx_index as int;
            0 <= at < rows.txs@.len() ==> rows.txs@[at]@.len() <= u64::MAX && (list_items(
                rows.txs@[at]@,
            ) matches Some(items) ==> crate::types::txs::is_tx_row(items) ==> items
                == decoded.items())
        }),
    ensures
        locations.len() == assigned.block.txs@.len(),
        locations[i].0 == assigned.block.txs@[i].tx_hash,
        locations[i].1.block_number == assigned.block.header.number,
        locations[i].1.tx_index < rows.txs@.len(),
        decoded.tx_hash == locations[i].0,
        decoded.sender == assigned.block.txs@[i].sender,
        decoded.signed_tx_bytes@ == assigned.block.txs@[i].signed_tx_bytes@,
{
    let tx = assigned.block.txs@[i];
    assert(locations[i].1.tx_index == i);
    let row = rows.txs@[i]@;
    assert(crate::write::data_track::is_tx_row(row, tx));
    let stored = StoredTxEnvelope {
        tx_hash: tx.tx_hash,
        sender: tx.sender,
        signed_tx_bytes: tx.signed_tx_bytes,
    };
    assert(row == rlp_list(stored.items()));
    law_tx_reads_back(tx, stored, row, decoded);
}

/// Each family's rows are found in the combined blob at the base offset of their
/// header, and everything else in the header is as the family was framed.
pub proof fn law_header_finds_its_region(
    log: Seq<u8>,
    tx: Seq<u8>,
    trace: Seq<u8>,
    framed: (BlockBlobHeader, BlockBlobHeader, BlockBlobHeader),
    entry: PackEntry,
)
    requires
        log.len() + tx.len() <= u32::MAX,
        entry.combined_blob@ == log + tx + trace,
        entry.log_header == based_at(framed.0, 0),
        entry.tx_header == based_at(framed.1, log.len()),
        entry.trace_header == based_at(framed.2, log.len() + tx.len()),
    ensures
        ({
            let blob = entry.combined_blob@;
            let a = entry.log_header.base_offset as int;
            let b = entry.tx_header.base_offset as int;
            let c = entry.trace_header.base_offset as int;
            &&& 0 <= a <= b <= c <= blob.len()
            &&& blob.subrange(a, b) == log
            &&& blob.subrange(b, c) == tx
            &&& blob.subrange(c, blob.len() as int) == trace
        }),
        same_framing(entry.log_header, framed.0),
        same_framing(entry.tx_header, framed.1),
        same_framing(entry.trace_header, framed.2),
{
    let blob = entry.combined_blob@;
    let b = log.len() as int;
    let c = (log.len() + tx.len()) as int;
    assert(blob.subrange(0, b) =~= log);
    assert(blob.subrange(b, c) =~= tx);
    assert(blob.subrange(c, blob.len() as int) =~= trace);
}

/// Two headers differ in their base offset at most.
pub open spec fn same_framing(a: BlockBlobHeader, b: BlockBlobHeader) -> bool {
    &&& a.offsets@ == b.offsets@
    &&& a.dict_version == b.dict_version
    &&& a.physical_key@ == b.physical_key@
    &&& a.physical_base_offset == b.physical_base_offset
    &&& a.encoding == b.encoding
    &&& a.container_rows@ == b.container_rows@
    &&& a.container_status@ == b.container_status@
}

/// How many rows a header's containers hold: the last cumulative count, or one
/// per container where there are no counts.
pub open spec fn rows_located(header: BlockBlobHeader) -> int {
    if header.container_rows@.len() == 0 {
        header.offsets@.len() - 1
    } else {
        header.container_rows@.last() as int
    }
}

/// The row that container `c` of a header begins with.
pub open spec fn first_row_of(header: BlockBlobHeader, c: int) -> int {
    if header.container_rows@.len() == 0 {
        c
    } else if c == 0 {
        0
    } else {
        header.container_rows@[c - 1] as int
    }
}

/// A header made from a region that validated points at the region's own bytes
/// and says of every container how many rows it holds.
pub proof fn law_external_header_locates_every_row(
    header: BlockBlobHeader,
    region: ExternalFamilyRegion,
    rows: Seq<u32>,
    identity: bool,
    c: int,
)
    requires
        is_external_header(header, region),
        region.fault(rows, identity) is None,
        0 <= c < rows.len(),
    ensures
        header.encoding == RowEncoding::ExternalV1,
        header.dict_version == DICT_VERSION_NONE,
        header.physical_key@ == region.key@,
        header.physical_key@.len() > 0,
        header.physical_base_offset + header.base_offset == region.base_offset,
        header.offsets@.len() == rows.len() + 1,
        header.offsets@[0] == 0,
        header.offsets@[c] < header.offsets@[c + 1],
        header.offsets@[c] == region.container_offsets@[c],
        header.offsets@[c + 1] == region.container_offsets@[c + 1],
        header.base_offset + header.offsets@[rows.len() as int] <= u32::MAX,
        first_row_of(header, c + 1) - first_row_of(header, c) == rows[c],
        rows_located(header) == rows_through(rows, rows.len() as int),
        header.container_status@ == region.container_status@,
{
    law_region_locates_its_rows(region, rows, identity, c);
    if c > 0 {
        law_region_locates_its_rows(region, rows, identity, c - 1);
    }
}

/// The headers of an external block locate exactly its rows: as many as it has
/// logs, txs and frames.
pub proof fn law_external_headers_locate_the_block(
    spec: ExternalPayloadSpec,
    number: u64,
    block: FinalizedBlock,
    logs: BlockBlobHeader,
    txs: BlockBlobHeader,
    traces: BlockBlobHeader,
)
    requires
        spec.fault(number, block) is None,
        frame_counts_fit(block),
        is_external_header(logs, spec.logs),
        is_external_header(txs, spec.txs),
        is_external_header(traces, spec.traces),
    ensures
        spec.block_number == number,
        rows_located(logs) == logs_before(block.logs_by_tx@, block.logs_by_tx@.len() as int),
        rows_located(txs) == block.txs@.len(),
        rows_located(traces) == block.traces@.len(),
        logs.offsets@.len() == block.txs@.len() + 1,
        txs.offsets@.len() == block.txs@.len() + 1,
        traces.offsets@.len() == block.txs@.len() + 1,
{
    let ones = Seq::new(block.txs@.len(), |t: int| 1u32);
    let n = block.txs@.len() as int;
    assert(spec.txs.fault(ones, true) is None);
    assert(spec.logs.fault(log_counts(block), false) is None);
    assert(spec.traces.fault(frame_counts(block), false) is None);
    assert(frames_fault(block.traces@, n, 0) is None);
    if n > 0 {
        law_region_locates_its_rows(spec.txs, ones, true, 0);
        law_region_locates_its_rows(spec.logs, log_counts(block), false, 0);
        law_region_locates_its_rows(spec.traces, frame_counts(block), false, 0);
    }
    crate::types::external_laws::lemma_ones(ones, n);
    crate::types::external_laws::lemma_log_counts_add_up(block, n);
    crate::types::external_laws::law_frames_are_counted_once(block);
}

/// The status bits of an external block's frames are its receipts': a frame's
/// container has the bit that its tx's status is.
pub proof fn law_external_status_is_the_receipts(
    spec: ExternalPayloadSpec,
    number: u64,
    block: FinalizedBlock,
    header: BlockBlobHeader,
    i: int,
)
    requires
        spec.fault(number, block) is None,
        is_external_header(header, spec.traces),
        0 <= i < block.traces@.len(),
    ensures
        block.traces@[i].tx_index < block.txs@.len(),
        status_bit(header.container_status@, block.traces@[i].tx_index as int)
            == block.traces@[i].tx_status,
{
    law_status_bits_are_the_statuses(spec, number, block, i);
}

/// A flushed pack writes, for each of its blocks, its record under its number,
/// its blob, and the location of each of its tx hashes; and it writes nothing
/// else.
pub proof fn law_pack_writes_its_blocks(entries: Seq<PackEntry>, row: PackRow)
    ensures
        pack_rows(entries).contains(row) <==> exists|i: int|
            0 <= i < entries.len() && #[trigger] is_row_of_entry(entries[i], row),
    decreases entries.len(),
{
    if entries.len() > 0 {
        let rest = entries.drop_last();
        let last = entries.last();
        let n = entries.len() - 1;
        let a = pack_rows(rest);
        let b = entry_rows(last);
        law_pack_writes_its_blocks(rest, row);
        lemma_entry_rows(last, row);
        assert(entries[n] == last);
        if a.contains(row) {
            let k = choose|k: int| 0 <= k < a.len() && a[k] == row;
            assert((a + b)[k] == row);
            let i = choose|i: int| 0 <= i < rest.len() && #[trigger] is_row_of_entry(rest[i], row);
            assert(is_row_of_entry(entries[i], row));
        }
        if b.contains(row) {
            let k = choose|k: int| 0 <= k < b.len() && b[k] == row;
            assert((a + b)[a.len() + k] == row);
            assert(is_row_of_entry(entries[n], row));
        }
        if (a + b).contains(row) {
            let k = choose|k: int| 0 <= k < (a + b).len() && (a + b)[k] == row;
            if k < a.len() {
                assert(a[k] == row);
            } else {
                assert(b[k - a.len()] == row);
            }
        }
        if exists|i: int| 0 <= i < entries.len() && #[trigger] is_row_of_entry(entries[i], row) {
            let i = choose|i: int|
                0 <= i < entries.len() && #[trigger] is_row_of_entry(entries[i], row);
            if i < n {
                assert(is_row_of_entry(rest[i], row));
            }
        }
    }
}

/// A row is one of a block's: its metadata, its blob, or one of its tx hashes.
pub open spec fn is_row_of_entry(entry: PackEntry, row: PackRow) -> bool {
    match row {
        PackRow::Metadata { number, record, evm_header, log_header, tx_header, trace_header } => {
            &&& number == entry.record.block_number
            &&& record == entry.record
            &&& evm_header == entry.evm_header
            &&& log_header == entry.log_header
            &&& tx_header == entry.tx_header
            &&& trace_header == entry.trace_header
        },
        PackRow::BlockBlob { number, blob } => number == entry.record.block_number && blob
            == entry.combined_blob,
        PackRow::TxHash { tx_hash, location } => entry.hash_locations@.contains(
            (tx_hash, location),
        ),
    }
}

proof fn lemma_entry_rows(entry: PackEntry, row: PackRow)
    ensures
        entry_rows(entry).contains(row) <==> is_row_of_entry(entry, row),
{
    let rows = entry_rows(entry);
    let hashes = entry.hash_locations@;
    assert(rows.len() == 2 + hashes.len());
    if rows.contains(row) {
        let k = choose|k: int| 0 <= k < rows.len() && rows[k] == row;
        if k >= 2 {
            assert(row == PackRow::TxHash { tx_hash: hashes[k - 2].0, location: hashes[k - 2].1 });
            assert(hashes[k - 2] == (hashes[k - 2].0, hashes[k - 2].1));
            assert(hashes.contains(hashes[k - 2]));
        }
    }
    if is_row_of_entry(entry, row) {
        match row {
            PackRow::Metadata { .. } => {
                assert(rows[0] == row);
            },
            PackRow::BlockBlob { .. } => {
                assert(rows[1] == row);
            },
            PackRow::TxHash { tx_hash, location } => {
                let k = choose|k: int| 0 <= k < hashes.len() && hashes[k] == (tx_hash, location);
                assert(rows[k + 2] == row);
            },
        }
    }
}

/// Stamping the chain into an entry's record changes nothing else in the entry.
pub proof fn law_stamp_touches_the_chain_only(entry: PackEntry, chain: ChainDigest)
    ensures
        ({
            let out = stamped(entry, chain);
            &&& out.record.row_chain == chain
            &&& out.record.block_number == entry.record.block_number
            &&& out.record.block_hash == entry.record.block_hash
            &&& out.record.parent_hash == entry.record.parent_hash
            &&& out.record.logs == entry.record.logs
            &&& out.record.txs == entry.record.txs
            &&& out.record.traces == entry.record.traces
            &&& out.combined_blob == entry.combined_blob
            &&& out.log_header == entry.log_header
            &&& out.tx_header == entry.tx_header
            &&& out.trace_header == entry.trace_header
            &&& out.evm_header == entry.evm_header
            &&& out.hash_locations == entry.hash_locations
            &&& out.content_digest == entry.content_digest
        }),
{
}

/// An entry counts at least its blob's bytes toward a pack, and never so little
/// that blocks without a blob would batch without end: at most one kibibyte more
/// than its blob.
pub proof fn law_entry_counts_its_blob(entry: PackEntry)
    ensures
        accounted(entry) >= entry.combined_blob@.len(),
        accounted(entry) >= 1024,
        accounted(entry) <= entry.combined_blob@.len() + 1024,
        entry.combined_blob@.len() >= 1024 ==> accounted(entry) == entry.combined_blob@.len(),
{
}

/// A copied header is the header: its number, its parent, and the bytes that the
/// block hash is the digest of.
pub proof fn law_copied_header_hashes_alike(
    a: crate::types::ingest_types::EvmBlockHeader,
    b: crate::types::ingest_types::EvmBlockHeader,
)
    requires
        same_header(a, b),
    ensures
        a.number == b.number,
        a.parent_hash@ == b.parent_hash@,
        a.rlp@ == b.rlp@,
        keccak256_of(a.rlp@) == keccak256_of(b.rlp@),
{
}

/// A block can be packed exactly if its log and tx regions together can be
/// addressed with 32 bits and its txs can be numbered with them.
pub proof fn law_what_can_be_packed(assigned: AssignedBlock, log_len: nat, tx_len: nat)
    ensures
        pack_fault(assigned, log_len, tx_len) is None <==> log_len + tx_len <= u32::MAX
            && assigned.block.txs@.len() <= 0x1_0000_0000,
{
}

/// A block whose txs and logs can be numbered with 32 bits has rows.
pub proof fn law_numbered_blocks_have_rows(
    block: FinalizedBlock,
    error: crate::errors::QueryError,
)
    requires
        logs_before(block.logs_by_tx@, block.logs_by_tx@.len() as int) < 0x1_0000_0000,
        block.logs_by_tx@.len() <= 0x1_0000_0000,
    ensures
        !logs_overflow(block, error),
{
}

/// The sampled span is the shorter of what is asked for and an epoch.
pub proof fn law_sample_span_fits_the_epoch(config: DictConfig)
    ensures
        config.spec_clamped_sample_span() <= config.epoch_blocks,
        config.spec_clamped_sample_span() <= config.sample_span_blocks,
        config.spec_clamped_sample_span() == config.epoch_blocks
            || config.spec_clamped_sample_span() == config.sample_span_blocks,
{
}

/// A dictionary is announced as soon as its corpus is durable, for the epoch
/// after the one that was sampled: every block from the sampled span's last on
/// does so, and none before it.
pub proof fn law_durable_corpus_is_announced(config: DictConfig, epoch: u64, block: u64)
    requires
        config.epoch_blocks > 0,
        config.sample_span_blocks > 1,
        config.epoch_blocks > 1,
        epoch * config.epoch_blocks <= block < (epoch + 1) * config.epoch_blocks,
    ensures
        ({
            let start = epoch * config.epoch_blocks;
            let announced = completed_corpus(block, config);
            if block >= start + config.spec_clamped_sample_span() - 1 {
                announced == Some(epoch + 1)
            } else {
                announced is None
            }
        }),
{
    let size = config.epoch_blocks as int;
    let offset = block - epoch * size;
    assert((epoch + 1) * size == epoch * size + size) by (nonlinear_arith);
    vstd::arithmetic::div_mod::lemma_fundamental_div_mod_converse(
        block as int,
        size,
        epoch as int,
        offset,
    );
    assert(size * epoch == epoch * size) by (nonlinear_arith);
}

/// A block is numbered exactly if nothing wraps: its counts and the frontier
/// behind it are the true numbers.
pub proof fn law_blocks_are_numbered_while_ids_last(frontier: FamilyFrontier, block: FinalizedBlock)
    ensures
        ({
            let logs = logs_before(block.logs_by_tx@, block.logs_by_tx@.len() as int);
            let ranges = ranges_from(frontier, block);
            let next = advanced(frontier, block);
            assignable(frontier, block) <==> {
                &&& ranges.log_count == logs
                &&& ranges.tx_count == block.txs@.len()
                &&& ranges.trace_count == block.traces@.len()
                &&& next.log == frontier.log + logs
                &&& next.tx == frontier.tx + block.txs@.len()
                &&& next.trace == frontier.trace + block.traces@.len()
            }
        }),
{
}

/// What runs out first is named: the tx index only where more txs than it counts
/// are there and the logs of those that it counts can still be numbered.
pub proof fn law_overflow_names_what_runs_out(block: FinalizedBlock, error: QueryError)
    requires
        logs_overflow(block, error),
    ensures
        error == QueryError::Decode("tx index overflow") <==> block.logs_by_tx@.len()
            > 0x1_0000_0000 && logs_before(block.logs_by_tx@, 0x1_0000_0000) < 0x1_0000_0000,
        error == QueryError::Decode("tx index overflow") || error == QueryError::Decode(
            "log index overflow",
        ),
{
    reveal_strlit("tx index overflow");
    reveal_strlit("log index overflow");
    assert("tx index overflow"@.len() != "log index overflow"@.len());
}

} // verus!
