//! The data track: row payloads are packed per block, packs flush together,
//! and a completed flush advances the durable block.

use vstd::prelude::*;

use crate::errors::{QueryError, Result};
use crate::primitives::Hash32;
use crate::rlp::{append_bytes, rlp_list};
use crate::types::external::{frame_counts_fit, ExternalFamilyRegion};
use crate::types::ingest_types::{
    is_flattening, keccak256_of, logs_before, EvmBlockHeader, IngestTrace, IngestTx,
};
use crate::types::logs::StoredLog;
use crate::types::traces::StoredTrace;
use crate::types::txs::TxLocation;
use crate::write::family::AssignedBlock;
use crate::write::index::{empty_digest, is_empty_digest, ChainDigest};
use crate::write::publisher::{after_event, HeadEvent, Progress};

verus! {

/// When a pack is full.
#[derive(Debug, Clone, Copy, PartialEq, Eq, Structural)]
pub struct PackConfig {
    pub target_bytes: usize,
    pub max_blocks: usize,
}

/// Where a block's row payloads live.
#[derive(Debug, Clone, Copy, PartialEq, Eq, Structural)]
pub enum PayloadMode {
    /// Rows are re-encoded into owned pack blobs.
    Native,
    /// Rows stay in the archive objects that the source ingests from; only
    /// metadata and indexes are written. Every block must carry an external
    /// payload spec.
    ExternalArchive,
}

impl Default for PayloadMode {
    fn default() -> (mode: Self)
        ensures
            mode == PayloadMode::Native,
    {
        PayloadMode::Native
    }
}

/// The dictionary version of rows that are not dictionary-compressed.
pub const DICT_VERSION_NONE: u32 = 0;

/// How a family's rows are framed.
#[derive(Debug, Clone, Copy, PartialEq, Eq, Structural)]
pub enum RowEncoding {
    /// Framed in an owned blob.
    Native,
    /// Containers of an archive object.
    ExternalV1,
}

/// Where a block's rows of one family stand.
pub struct BlockBlobHeader {
    pub offsets: Vec<u32>,
    pub dict_version: u32,
    pub base_offset: u32,
    pub physical_key: Vec<u8>,
    pub physical_base_offset: u32,
    pub encoding: RowEncoding,
    pub container_rows: Vec<u32>,
    pub container_status: Vec<u8>,
}

/// The ids of one family in a block.
#[derive(Debug, Clone, Copy, PartialEq, Eq, Structural)]
pub struct FamilyWindowRecord {
    pub first_primary_id: u64,
    pub count: u32,
}

impl FamilyWindowRecord {
    /// The first id behind the window: the exclusive cutoff of what the block
    /// and those before it minted.
    pub fn next_primary_id_exclusive(&self) -> (result: Result<u64>)
        ensures
            match result {
                Ok(next) => next == self.first_primary_id + self.count,
                Err(error) => {
                    &&& self.first_primary_id + self.count > u64::MAX
                    &&& error is Decode
                    &&& error.spec_detail() == "primary id window overflows"@
                },
            },
    {
        match self.first_primary_id.checked_add(self.count as u64) {
            Some(next) => Ok(next),
            None => Err(QueryError::Decode("primary id window overflows")),
        }
    }
}

/// A block's metadata record.
pub struct BlockRecord {
    pub block_number: u64,
    pub block_hash: Hash32,
    pub parent_hash: Hash32,
    pub logs: FamilyWindowRecord,
    pub txs: FamilyWindowRecord,
    pub traces: FamilyWindowRecord,
    /// The artifact-checksum chain through this block.
    pub row_chain: ChainDigest,
}

/// One block's fully-encoded persistence artifacts, held until the pack
/// flushes.
pub struct PackEntry {
    pub combined_blob: Vec<u8>,
    pub log_header: BlockBlobHeader,
    pub tx_header: BlockBlobHeader,
    pub trace_header: BlockBlobHeader,
    pub record: BlockRecord,
    pub evm_header: EvmBlockHeader,
    pub hash_locations: Vec<(Hash32, TxLocation)>,
    /// The block's standalone content digest.
    pub content_digest: ChainDigest,
}

/// The encoded rows of a block, by family.
pub struct BlockRows {
    pub logs: Vec<Vec<u8>>,
    pub txs: Vec<Vec<u8>>,
    pub traces: Vec<Vec<u8>>,
}

/// Row `i` of the logs is the encoding of the block's log `i`.
pub open spec fn are_log_rows(rows: Seq<Vec<u8>>, logs: Seq<StoredLog>) -> bool {
    &&& rows.len() == logs.len()
    &&& forall|i: int| 0 <= i < rows.len() ==> (#[trigger] rows[i])@ == rlp_list(logs[i].items())
}

/// Row `i` of the txs is the encoding of the block's tx `i`.
pub open spec fn is_tx_row(row: Seq<u8>, tx: IngestTx) -> bool {
    row == rlp_list(
        seq![(false, tx.tx_hash@), (false, tx.sender@), (false, tx.signed_tx_bytes@)],
    )
}

/// A row is the encoding of a frame.
pub open spec fn is_trace_row(row: Seq<u8>, trace: IngestTrace) -> bool {
    exists|stored: StoredTrace| stored.copies(&trace) && row == rlp_list(#[trigger] stored.items())
}

/// `rows` are the encoded rows of the block.
pub open spec fn are_block_rows(
    rows: BlockRows,
    block: crate::types::ingest_types::FinalizedBlock,
) -> bool {
    &&& exists|logs: Seq<StoredLog>|
        #[trigger] is_flattening(logs, block.logs_by_tx@) && are_log_rows(rows.logs@, logs)
    &&& rows.txs@.len() == block.txs@.len()
    &&& forall|i: int|
        0 <= i < block.txs@.len() ==> is_tx_row((#[trigger] rows.txs@[i])@, block.txs@[i])
    &&& rows.traces@.len() == block.traces@.len()
    &&& forall|i: int|
        0 <= i < block.traces@.len() ==> is_trace_row(
            (#[trigger] rows.traces@[i])@,
            block.traces@[i],
        )
}

/// A block's logs cannot be numbered.
pub open spec fn logs_overflow(
    block: crate::types::ingest_types::FinalizedBlock,
    error: QueryError,
) -> bool {
    if block.tx_overflows_first() {
        error == QueryError::Decode("tx index overflow")
    } else {
        &&& logs_before(block.logs_by_tx@, block.logs_by_tx@.len() as int) >= 0x1_0000_0000
        &&& error == QueryError::Decode("log index overflow")
    }
}

/// Encodes every row of a block, the input of row framing and row digests. The
/// rows are the same in both payload modes, so the digests are too.
pub fn block_rows(assigned: &AssignedBlock) -> (result: Result<BlockRows>)
    ensures
        match result {
            Ok(rows) => are_block_rows(rows, assigned.block),
            Err(error) => logs_overflow(assigned.block, error),
        },
{
    let stored = match assigned.block.flatten_logs() {
        Ok(stored) => stored,
        Err(error) => {
            return Err(error);
        },
    };
    let mut logs: Vec<Vec<u8>> = Vec::new();
    let mut i: usize = 0;
    while i < stored.len()
        invariant
            i <= stored@.len(),
            logs@.len() == i,
            forall|k: int|
                0 <= k < i ==> (#[trigger] logs@[k])@ == rlp_list(stored@[k].items()),
        decreases stored@.len() - i,
    {
        logs.push(stored[i].encode());
        i = i + 1;
    }
    let mut txs: Vec<Vec<u8>> = Vec::new();
    let mut i: usize = 0;
    while i < assigned.block.txs.len()
        invariant
            i <= assigned.block.txs@.len(),
            txs@.len() == i,
            forall|k: int|
                0 <= k < i ==> is_tx_row((#[trigger] txs@[k])@, assigned.block.txs@[k]),
        decreases assigned.block.txs@.len() - i,
    {
        txs.push(assigned.block.txs[i].encode_row());
        i = i + 1;
    }
    let mut traces: Vec<Vec<u8>> = Vec::new();
    let mut i: usize = 0;
    while i < assigned.block.traces.len()
        invariant
            i <= assigned.block.traces@.len(),
            traces@.len() == i,
            forall|k: int|
                0 <= k < i ==> is_trace_row((#[trigger] traces@[k])@, assigned.block.traces@[k]),
        decreases assigned.block.traces@.len() - i,
    {
        traces.push(assigned.block.traces[i].encode_row());
        i = i + 1;
    }
    assert(is_flattening(stored@, assigned.block.logs_by_tx@));
    assert(are_log_rows(logs@, stored@));
    Ok(BlockRows { logs, txs, traces })
}

/// The record of a block, its chain still to be stamped.
pub open spec fn is_record_of(record: BlockRecord, assigned: AssignedBlock) -> bool {
    &&& record.block_number == assigned.number
    &&& record.block_hash@ == keccak256_of(assigned.block.header.rlp@)
    &&& record.parent_hash == assigned.block.header.parent_hash
    &&& record.logs == (FamilyWindowRecord {
        first_primary_id: assigned.ranges.log_first,
        count: assigned.ranges.log_count,
    })
    &&& record.txs == (FamilyWindowRecord {
        first_primary_id: assigned.ranges.tx_first,
        count: assigned.ranges.tx_count,
    })
    &&& record.traces == (FamilyWindowRecord {
        first_primary_id: assigned.ranges.trace_first,
        count: assigned.ranges.trace_count,
    })
    &&& is_empty_digest(record.row_chain)
}

/// The block's record, with the placeholder chain.
pub fn block_record(assigned: &AssignedBlock) -> (record: BlockRecord)
    ensures
        is_record_of(record, *assigned),
{
    BlockRecord {
        block_number: assigned.number,
        block_hash: assigned.block.block_hash(),
        parent_hash: assigned.block.parent_hash(),
        logs: FamilyWindowRecord {
            first_primary_id: assigned.ranges.log_first,
            count: assigned.ranges.log_count,
        },
        txs: FamilyWindowRecord {
            first_primary_id: assigned.ranges.tx_first,
            count: assigned.ranges.tx_count,
        },
        traces: FamilyWindowRecord {
            first_primary_id: assigned.ranges.trace_first,
            count: assigned.ranges.trace_count,
        },
        row_chain: empty_digest(),
    }
}

fn copy_header(header: &EvmBlockHeader) -> (copy: EvmBlockHeader)
    ensures
        same_header(copy, *header),
{
    EvmBlockHeader {
        number: header.number,
        parent_hash: header.parent_hash,
        rlp: vstd::slice::slice_to_vec(&header.rlp),
    }
}

/// Two block headers are the same.
pub open spec fn same_header(a: EvmBlockHeader, b: EvmBlockHeader) -> bool {
    a.number == b.number && a.parent_hash == b.parent_hash && a.rlp@ == b.rlp@
}

/// The `(hash, location)` pairs of a block's txs.
pub open spec fn are_locations(
    locations: Seq<(Hash32, TxLocation)>,
    assigned: AssignedBlock,
) -> bool {
    &&& locations.len() == assigned.block.txs@.len()
    &&& forall|i: int|
        0 <= i < locations.len() ==> #[trigger] locations[i] == (
            assigned.block.txs@[i].tx_hash,
            TxLocation { block_number: assigned.block.header.number, tx_index: i as u32 },
        )
}

/// One family's framed rows and their header.
pub struct EncodedFamily {
    pub header: BlockBlobHeader,
    pub blob: Vec<u8>,
}

/// A header with its region's start stamped.
pub open spec fn based_at(header: BlockBlobHeader, base_offset: nat) -> BlockBlobHeader {
    BlockBlobHeader { base_offset: base_offset as u32, ..header }
}

/// What cannot be packed: a family's blob or the combined offsets past 32
/// bits, or more txs than 32 bits number; the first of these that holds.
pub open spec fn pack_fault(assigned: AssignedBlock, log_len: nat, tx_len: nat) -> Option<
    QueryError,
> {
    if log_len > u32::MAX {
        Some(QueryError::Decode("block log blob too large"))
    } else if tx_len > u32::MAX {
        Some(QueryError::Decode("block tx blob too large"))
    } else if log_len + tx_len > u32::MAX {
        Some(QueryError::Decode("combined block blob base offset overflow"))
    } else if assigned.block.txs@.len() > 0x1_0000_0000 {
        Some(QueryError::Decode("tx index overflow"))
    } else {
        None
    }
}

/// Joins one block's framed rows into its combined blob. Family blobs are
/// concatenated log, tx, trace; each header's base offset is its region's
/// start.
pub fn encode_pack_entry(
    assigned: &AssignedBlock,
    log: EncodedFamily,
    tx: EncodedFamily,
    trace: EncodedFamily,
    content_digest: ChainDigest,
) -> (result: Result<PackEntry>)
    ensures
        match result {
            Ok(entry) => {
                &&& pack_fault(*assigned, log.blob@.len(), tx.blob@.len()) is None
                &&& entry.combined_blob@ == log.blob@ + tx.blob@ + trace.blob@
                &&& entry.log_header == based_at(log.header, 0)
                &&& entry.tx_header == based_at(tx.header, log.blob@.len())
                &&& entry.trace_header == based_at(
                    trace.header,
                    log.blob@.len() + tx.blob@.len(),
                )
                &&& is_record_of(entry.record, *assigned)
                &&& same_header(entry.evm_header, assigned.block.header)
                &&& are_locations(entry.hash_locations@, *assigned)
                &&& entry.content_digest == content_digest
            },
            Err(error) => pack_fault(*assigned, log.blob@.len(), tx.blob@.len()) == Some(error),
        },
{
    let mut log_header = log.header;
    let mut tx_header = tx.header;
    let mut trace_header = trace.header;
    if log.blob.len() as u64 > 0xffff_ffff {
        return Err(QueryError::Decode("block log blob too large"));
    }
    let log_len: u32 = log.blob.len() as u32;
    if tx.blob.len() as u64 > 0xffff_ffff {
        return Err(QueryError::Decode("block tx blob too large"));
    }
    let tx_len: u32 = tx.blob.len() as u32;
    let trace_base: u32 = match log_len.checked_add(tx_len) {
        Some(base) => base,
        None => {
            return Err(QueryError::Decode("combined block blob base offset overflow"));
        },
    };
    log_header.base_offset = 0;
    tx_header.base_offset = log_len;
    trace_header.base_offset = trace_base;
    let mut combined_blob = log.blob;
    append_bytes(&mut combined_blob, &tx.blob);
    append_bytes(&mut combined_blob, &trace.blob);
    let record = block_record(assigned);
    let hash_locations = match assigned.block.tx_hash_locations() {
        Ok(locations) => locations,
        Err(error) => {
            return Err(error);
        },
    };
    Ok(
        PackEntry {
            combined_blob,
            log_header,
            tx_header,
            trace_header,
            record,
            evm_header: copy_header(&assigned.block.header),
            hash_locations,
            content_digest,
        },
    )
}

/// A family's region, cut out of the combined blob at its header's base
/// offset, is the family's blob.
pub proof fn law_regions_cut_out(log: Seq<u8>, tx: Seq<u8>, trace: Seq<u8>)
    ensures
        ({
            let combined = log + tx + trace;
            let a = log.len() as int;
            let b = (log.len() + tx.len()) as int;
            &&& combined.subrange(0, a) == log
            &&& combined.subrange(a, b) == tx
            &&& combined.subrange(b, combined.len() as int) == trace
        }),
{
    let combined = log + tx + trace;
    let a = log.len() as int;
    let b = (log.len() + tx.len()) as int;
    assert(combined.subrange(0, a) =~= log);
    assert(combined.subrange(a, b) =~= tx);
    assert(combined.subrange(b, combined.len() as int) =~= trace);
}

/// A header points into the region's archive object.
pub open spec fn is_external_header(
    header: BlockBlobHeader,
    region: ExternalFamilyRegion,
) -> bool {
    &&& header.offsets@ == region.container_offsets@
    &&& header.dict_version == DICT_VERSION_NONE
    &&& header.base_offset == region.base_offset
    &&& header.physical_key@ == region.key@
    &&& header.physical_base_offset == 0
    &&& header.encoding == RowEncoding::ExternalV1
    &&& header.container_rows@ == region.container_rows@
    &&& header.container_status@ == region.container_status@
}

/// Stamps one validated region into its block-blob header.
pub fn external_header(region: &ExternalFamilyRegion) -> (header: BlockBlobHeader)
    ensures
        is_external_header(header, *region),
{
    BlockBlobHeader {
        offsets: vstd::slice::slice_to_vec(&region.container_offsets),
        dict_version: DICT_VERSION_NONE,
        base_offset: region.base_offset,
        physical_key: vstd::slice::slice_to_vec(&region.key),
        physical_base_offset: 0,
        encoding: RowEncoding::ExternalV1,
        container_rows: vstd::slice::slice_to_vec(&region.container_rows),
        container_status: vstd::slice::slice_to_vec(&region.container_status),
    }
}

/// External-payload variant of [`encode_pack_entry`]: no blob is produced, the
/// headers point into the source's archive objects after the spec is validated
/// against the block. `digest` is handed the rows that native ingest would
/// write, so the digest does not depend on the mode.
pub fn encode_external_pack_entry<D: Fn(&BlockRows) -> ChainDigest>(
    assigned: &AssignedBlock,
    digest: &D,
) -> (result: Result<PackEntry>)
    requires
        frame_counts_fit(assigned.block),
        forall|rows: &BlockRows| call_requires(*digest, (rows,)),
    ensures
        match assigned.block.external {
            None => result == Err::<PackEntry, QueryError>(
                QueryError::InvalidBlock(
                    "external payload mode requires an external payload spec on every block",
                ),
            ),
            Some(spec) => match result {
                Ok(entry) => {
                    &&& spec.fault(assigned.number, assigned.block) is None
                    &&& entry.combined_blob@.len() == 0
                    &&& is_external_header(entry.log_header, spec.logs)
                    &&& is_external_header(entry.tx_header, spec.txs)
                    &&& is_external_header(entry.trace_header, spec.traces)
                    &&& is_record_of(entry.record, *assigned)
                    &&& same_header(entry.evm_header, assigned.block.header)
                    &&& are_locations(entry.hash_locations@, *assigned)
                    &&& exists|rows: BlockRows|
                        #[trigger] are_block_rows(rows, assigned.block) && call_ensures(
                            *digest,
                            (&rows,),
                            entry.content_digest,
                        )
                },
                Err(error) => match spec.fault(assigned.number, assigned.block) {
                    Some(fault) => error == fault,
                    None => logs_overflow(assigned.block, error) || (assigned.block.txs@.len()
                        > 0x1_0000_0000 && error == QueryError::Decode("tx index overflow")),
                },
            },
        },
{
    let spec_ref = match &assigned.block.external {
        Some(region) => region,
        None => {
            return Err(
                QueryError::InvalidBlock(
                    "external payload mode requires an external payload spec on every block",
                ),
            );
        },
    };
    if let Err(error) = spec_ref.validate(assigned.number, &assigned.block) {
        return Err(error);
    }
    let rows = match block_rows(assigned) {
        Ok(rows) => rows,
        Err(error) => {
            return Err(error);
        },
    };
    let record = block_record(assigned);
    let content_digest: ChainDigest = digest(&rows);
    let hash_locations = match assigned.block.tx_hash_locations() {
        Ok(locations) => locations,
        Err(error) => {
            return Err(error);
        },
    };
    assert(are_block_rows(rows, assigned.block));
    Ok(
        PackEntry {
            combined_blob: Vec::new(),
            log_header: external_header(&spec_ref.logs),
            tx_header: external_header(&spec_ref.txs),
            trace_header: external_header(&spec_ref.traces),
            record,
            evm_header: copy_header(&assigned.block.header),
            hash_locations,
            content_digest,
        },
    )
}

/// Floor on one entry's contribution toward the pack's byte target: entries
/// without a blob would otherwise batch on the block count alone.
pub const PACK_ENTRY_MIN_ACCOUNTED_BYTES: usize = 1024;

/// What an entry counts toward the byte target.
pub open spec fn accounted(entry: PackEntry) -> nat {
    if entry.combined_blob@.len() < PACK_ENTRY_MIN_ACCOUNTED_BYTES {
        PACK_ENTRY_MIN_ACCOUNTED_BYTES as nat
    } else {
        entry.combined_blob@.len()
    }
}

/// What entries count together.
pub open spec fn accounted_total(entries: Seq<PackEntry>) -> nat
    decreases entries.len(),
{
    if entries.len() == 0 {
        0
    } else {
        accounted_total(entries.drop_last()) + accounted(entries.last())
    }
}

/// Entries held until their pack is full.
pub struct BlobPacker {
    pub cfg: PackConfig,
    pub entries: Vec<PackEntry>,
    pub last_block: u64,
    pub bytes: usize,
}

impl BlobPacker {
    pub open spec fn wf(self) -> bool {
        self.bytes == accounted_total(self.entries@)
    }

    pub fn new(cfg: PackConfig) -> (packer: BlobPacker)
        ensures
            packer.wf(),
            packer.cfg == cfg,
            packer.entries@.len() == 0,
            packer.last_block == 0,
    {
        BlobPacker { cfg, entries: Vec::new(), last_block: 0, bytes: 0 }
    }

    pub fn push(&mut self, number: u64, entry: PackEntry)
        requires
            old(self).wf(),
            old(self).bytes + accounted(entry) <= usize::MAX,
        ensures
            final(self).wf(),
            final(self).cfg == old(self).cfg,
            final(self).entries@ == old(self).entries@.push(entry),
            final(self).last_block == number,
    {
        let len: usize = entry.combined_blob.len();
        let counted: usize = if len < PACK_ENTRY_MIN_ACCOUNTED_BYTES {
            PACK_ENTRY_MIN_ACCOUNTED_BYTES
        } else {
            len
        };
        self.bytes = self.bytes + counted;
        self.last_block = number;
        let ghost before = self.entries@;
        self.entries.push(entry);
        assert(self.entries@.drop_last() =~= before);
    }

    pub fn should_flush(&self) -> (full: bool)
        requires
            self.wf(),
        ensures
            full == (accounted_total(self.entries@) >= self.cfg.target_bytes || self.entries@.len()
                >= self.cfg.max_blocks),
    {
        self.bytes >= self.cfg.target_bytes || self.entries.len() >= self.cfg.max_blocks
    }

    /// Takes the held entries and the highest block they cover.
    pub fn take(&mut self) -> (pack: Option<(Vec<PackEntry>, u64)>)
        requires
            old(self).wf(),
        ensures
            final(self).wf(),
            final(self).cfg == old(self).cfg,
            final(self).last_block == old(self).last_block,
            final(self).entries@.len() == 0,
            match pack {
                Some((entries, last_block)) => old(self).entries@.len() > 0 && entries@ == old(
                    self,
                ).entries@ && last_block == old(self).last_block,
                None => old(self).entries@.len() == 0,
            },
    {
        if self.entries.len() == 0 {
            return None;
        }
        let mut entries: Vec<PackEntry> = Vec::new();
        std::mem::swap(&mut self.entries, &mut entries);
        self.bytes = 0;
        Some((entries, self.last_block))
    }
}

/// The dictionary cadence: an epoch's length and how many of its leading
/// blocks train the next epoch's dictionary.
#[derive(Debug, Clone, Copy, PartialEq, Eq, Structural)]
pub struct DictConfig {
    pub epoch_blocks: u64,
    pub sample_span_blocks: u64,
}

impl DictConfig {
    pub open spec fn spec_clamped_sample_span(self) -> u64 {
        if self.sample_span_blocks < self.epoch_blocks {
            self.sample_span_blocks
        } else {
            self.epoch_blocks
        }
    }

    /// The sampled span, no longer than an epoch.
    pub fn clamped_sample_span(&self) -> (span: u64)
        ensures
            span == self.spec_clamped_sample_span(),
    {
        if self.sample_span_blocks < self.epoch_blocks {
            self.sample_span_blocks
        } else {
            self.epoch_blocks
        }
    }
}

/// The epoch whose corpus a durable block completes, if it does: the sampled
/// blocks of the current epoch are durable, and more than one is sampled.
pub open spec fn completed_corpus(data_durable: u64, config: DictConfig) -> Option<int> {
    let span = config.spec_clamped_sample_span();
    if config.epoch_blocks == 0 || span <= 1 || data_durable % config.epoch_blocks + 1 < span {
        None
    } else {
        Some(data_durable / config.epoch_blocks + 1)
    }
}

/// Once the sampled blocks of the current epoch are durable, the next epoch's
/// dictionary can be trained: gives that epoch, once.
pub fn maybe_prewarm(data_durable: u64, config: &DictConfig, last_prewarmed: &mut u32) -> (next:
    Option<u32>)
    ensures
        match next {
            Some(next) => {
                &&& completed_corpus(data_durable, *config) == Some(next as int)
                &&& next > *old(last_prewarmed)
                &&& *final(last_prewarmed) == next
            },
            None => {
                &&& match completed_corpus(data_durable, *config) {
                    Some(next) => next > u32::MAX || next <= *old(last_prewarmed),
                    None => true,
                }
                &&& *final(last_prewarmed) == *old(last_prewarmed)
            },
        },
{
    let epoch_blocks: u64 = config.epoch_blocks;
    let span: u64 = config.clamped_sample_span();
    if epoch_blocks == 0 || span <= 1 {
        return None;
    }
    let place: u64 = data_durable % epoch_blocks;
    if place < span - 1 {
        return None;
    }
    let epoch: u64 = data_durable / epoch_blocks;
    if epoch >= 0xffff_ffff {
        return None;
    }
    let next: u32 = (epoch + 1) as u32;
    if next > *last_prewarmed {
        *last_prewarmed = next;
        Some(next)
    } else {
        None
    }
}

/// A corpus is only announced once it is durable: every block sampled for the
/// epoch lies at or below the durable block.
pub proof fn law_announced_corpus_is_durable(data_durable: u64, config: DictConfig, block: int)
    requires
        completed_corpus(data_durable, config) is Some,
        ({
            let start = (completed_corpus(data_durable, config)->Some_0 - 1)
                * config.epoch_blocks;
            start <= block < start + config.spec_clamped_sample_span()
        }),
    ensures
        block <= data_durable,
{
    let n = config.epoch_blocks as int;
    let d = data_durable as int;
    vstd::arithmetic::div_mod::lemma_fundamental_div_mod(d, n);
    assert((d / n) * n == n * (d / n)) by (nonlinear_arith);
}

/// The codec version of a block: its epoch, or none in external mode.
pub fn epoch_version(number: u64, epoch_blocks: u64, external: bool) -> (result: Result<u32>)
    requires
        epoch_blocks > 0,
    ensures
        match result {
            Ok(version) => if external {
                version == DICT_VERSION_NONE
            } else {
                version == number / epoch_blocks
            },
            Err(error) => {
                &&& !external
                &&& number / epoch_blocks > u32::MAX
                &&& error == QueryError::Decode("dict epoch/version overflow")
            },
        },
{
    if external {
        return Ok(DICT_VERSION_NONE);
    }
    let epoch: u64 = number / epoch_blocks;
    if epoch > 0xffff_ffff {
        return Err(QueryError::Decode("dict epoch/version overflow"));
    }
    Ok(epoch as u32)
}

/// The data track's state between outside steps: the codec version in use,
/// the packer, and the artifact-checksum chain.
pub struct DataCore {
    pub payload: PayloadMode,
    pub dict_config: DictConfig,
    /// The epoch whose codecs are resolved.
    pub codec_version: Option<u32>,
    pub packer: BlobPacker,
    pub chain_head: ChainDigest,
    pub last_prewarmed: u32,
}

/// What a block needs before its rows are encoded.
#[derive(Debug, Clone, Copy, PartialEq, Eq, Structural)]
pub struct BlockPlan {
    pub version: u32,
    /// The codecs of another epoch are resolved: every earlier block must be
    /// durable before the resolver reads it back.
    pub epoch_barrier: bool,
}

/// An entry whose record carries its place in the artifact-checksum chain.
pub open spec fn stamped(entry: PackEntry, row_chain: ChainDigest) -> PackEntry {
    PackEntry { record: BlockRecord { row_chain, ..entry.record }, ..entry }
}

impl DataCore {
    pub open spec fn wf(self) -> bool {
        self.packer.wf() && self.dict_config.epoch_blocks > 0
    }

    pub fn new(
        pack: PackConfig,
        payload: PayloadMode,
        dict_config: DictConfig,
        chain_seed: ChainDigest,
    ) -> (core: DataCore)
        requires
            dict_config.epoch_blocks > 0,
        ensures
            core.wf(),
            core.payload == payload,
            core.dict_config == dict_config,
            core.codec_version is None,
            core.packer.cfg == pack,
            core.packer.entries@.len() == 0,
            core.chain_head == chain_seed,
            core.last_prewarmed == 0,
    {
        DataCore {
            payload,
            dict_config,
            codec_version: None,
            packer: BlobPacker::new(pack),
            chain_head: chain_seed,
            last_prewarmed: 0,
        }
    }

    /// Takes up a block: the codec version of its rows, and whether its epoch
    /// differs from the one in use.
    pub fn on_block(&mut self, number: u64) -> (result: Result<BlockPlan>)
        requires
            old(self).wf(),
        ensures
            final(self).wf(),
            final(self).packer == old(self).packer,
            final(self).chain_head == old(self).chain_head,
            final(self).payload == old(self).payload,
            final(self).dict_config == old(self).dict_config,
            final(self).last_prewarmed == old(self).last_prewarmed,
            match result {
                Ok(plan) => {
                    &&& plan.version == if old(self).payload == PayloadMode::ExternalArchive {
                        DICT_VERSION_NONE as u64
                    } else {
                        number / old(self).dict_config.epoch_blocks
                    }
                    &&& plan.epoch_barrier == (old(self).codec_version != Some(
                        plan.version,
                    ))
                    &&& final(self).codec_version == Some(plan.version)
                },
                Err(error) => {
                    &&& old(self).payload == PayloadMode::Native
                    &&& number / old(self).dict_config.epoch_blocks > u32::MAX
                    &&& error == QueryError::Decode("dict epoch/version overflow")
                    &&& final(self).codec_version == old(self).codec_version
                },
            },
    {
        let external: bool = self.payload == PayloadMode::ExternalArchive;
        let version: u32 = match epoch_version(number, self.dict_config.epoch_blocks, external) {
            Ok(version) => version,
            Err(error) => {
                return Err(error);
            },
        };
        let epoch_barrier: bool = match self.codec_version {
            Some(held) => held != version,
            None => true,
        };
        self.codec_version = Some(version);
        Ok(BlockPlan { version, epoch_barrier })
    }

    /// Takes the oldest encoded block: folds its digest into the chain, stamps
    /// its record, and packs it. This is the only place the chain advances, so
    /// its order is block order.
    pub fn pop_encode<C: Fn(ChainDigest, ChainDigest) -> ChainDigest>(
        &mut self,
        entry: PackEntry,
        chain: &C,
    )
        requires
            old(self).wf(),
            old(self).packer.bytes + accounted(entry) <= usize::MAX,
            call_requires(*chain, (old(self).chain_head, entry.content_digest)),
        ensures
            final(self).wf(),
            call_ensures(
                *chain,
                (old(self).chain_head, entry.content_digest),
                final(self).chain_head,
            ),
            final(self).packer.entries@ == old(self).packer.entries@.push(
                stamped(entry, final(self).chain_head),
            ),
            final(self).packer.last_block == entry.record.block_number,
            final(self).packer.cfg == old(self).packer.cfg,
            final(self).payload == old(self).payload,
            final(self).dict_config == old(self).dict_config,
            final(self).codec_version == old(self).codec_version,
            final(self).last_prewarmed == old(self).last_prewarmed,
    {
        let mut entry = entry;
        self.chain_head = chain(self.chain_head, entry.content_digest);
        entry.record.row_chain = self.chain_head;
        let number: u64 = entry.record.block_number;
        self.packer.push(number, entry);
    }

    /// A pack became durable: the durable block advances to its last block.
    pub fn flush_done(&self, last_block: u64, progress: &mut Progress)
        ensures
            final(progress)@ == after_event(old(progress)@, HeadEvent::Durable(last_block)),
    {
        progress.set_data_durable(last_block);
    }

    /// The epoch to train ahead, if any. External payloads are never
    /// dictionary-compressed.
    pub fn prewarm(&mut self, data_durable: u64) -> (next: Option<u32>)
        requires
            old(self).wf(),
        ensures
            final(self).wf(),
            final(self).packer == old(self).packer,
            final(self).chain_head == old(self).chain_head,
            final(self).payload == old(self).payload,
            final(self).dict_config == old(self).dict_config,
            final(self).codec_version == old(self).codec_version,
            match next {
                Some(next) => {
                    &&& old(self).payload == PayloadMode::Native
                    &&& completed_corpus(data_durable, old(self).dict_config) == Some(next as int)
                    &&& next > old(self).last_prewarmed
                    &&& final(self).last_prewarmed == next
                },
                None => {
                    &&& old(self).payload == PayloadMode::ExternalArchive || match completed_corpus(
                        data_durable,
                        old(self).dict_config,
                    ) {
                        Some(next) => next > u32::MAX || next <= old(self).last_prewarmed,
                        None => true,
                    }
                    &&& final(self).last_prewarmed == old(self).last_prewarmed
                },
            },
    {
        if self.payload == PayloadMode::ExternalArchive {
            return None;
        }
        let config = self.dict_config;
        maybe_prewarm(data_durable, &config, &mut self.last_prewarmed)
    }
}

/// One row that a flushed pack writes.
pub enum PackRow {
    /// A block's record, header, and family headers.
    Metadata {
        number: u64,
        record: BlockRecord,
        evm_header: EvmBlockHeader,
        log_header: BlockBlobHeader,
        tx_header: BlockBlobHeader,
        trace_header: BlockBlobHeader,
    },
    /// A block's combined row blob.
    BlockBlob { number: u64, blob: Vec<u8> },
    /// Where a transaction hash points.
    TxHash { tx_hash: Hash32, location: TxLocation },
}

/// The rows of one block of a pack: its metadata, its blob, and its
/// transaction hashes.
pub open spec fn entry_rows(entry: PackEntry) -> Seq<PackRow> {
    seq![
        PackRow::Metadata {
            number: entry.record.block_number,
            record: entry.record,
            evm_header: entry.evm_header,
            log_header: entry.log_header,
            tx_header: entry.tx_header,
            trace_header: entry.trace_header,
        },
        PackRow::BlockBlob { number: entry.record.block_number, blob: entry.combined_blob },
    ] + entry.hash_locations@.map_values(
        |row: (Hash32, TxLocation)| PackRow::TxHash { tx_hash: row.0, location: row.1 },
    )
}

/// The rows of a pack, block by block.
pub open spec fn pack_rows(entries: Seq<PackEntry>) -> Seq<PackRow>
    decreases entries.len(),
{
    if entries.len() == 0 {
        Seq::empty()
    } else {
        pack_rows(entries.drop_last()) + entry_rows(entries.last())
    }
}

/// The rows of a flushed pack; their durability is what lets a completed
/// flush advance the durable block.
pub fn stage_pack(entries: Vec<PackEntry>) -> (rows: Vec<PackRow>)
    ensures
        rows@ == pack_rows(entries@),
{
    let ghost all = entries@;
    let mut rows: Vec<PackRow> = Vec::new();
    assert(all.take(0) =~= Seq::empty());
    for entry in iter: entries
        invariant
            iter.seq() == all,
            rows@ == pack_rows(all.take(iter.index() as int)),
    {
        let ghost n = iter.index() as int;
        let ghost own = entry;
        let ghost before = rows@;
        let ghost hashes = own.hash_locations@.map_values(
            |row: (Hash32, TxLocation)| PackRow::TxHash { tx_hash: row.0, location: row.1 },
        );
        let number: u64 = entry.record.block_number;
        rows.push(
            PackRow::Metadata {
                number,
                record: entry.record,
                evm_header: entry.evm_header,
                log_header: entry.log_header,
                tx_header: entry.tx_header,
                trace_header: entry.trace_header,
            },
        );
        rows.push(PackRow::BlockBlob { number, blob: entry.combined_blob });
        let ghost head = rows@;
        let mut i: usize = 0;
        assert(head + hashes.take(0) =~= head);
        while i < entry.hash_locations.len()
            invariant
                i <= entry.hash_locations@.len(),
                hashes == entry.hash_locations@.map_values(
                    |row: (Hash32, TxLocation)|
                        PackRow::TxHash { tx_hash: row.0, location: row.1 },
                ),
                rows@ == head + hashes.take(i as int),
            decreases entry.hash_locations@.len() - i,
        {
            let (tx_hash, location) = entry.hash_locations[i];
            rows.push(PackRow::TxHash { tx_hash, location });
            assert(head + hashes.take(i + 1) =~= (head + hashes.take(i as int)).push(
                hashes[i as int],
            ));
            i = i + 1;
        }
        proof {
            assert(hashes.take(i as int) =~= hashes);
            assert(rows@ =~= before + entry_rows(own));
            assert(all.take(n + 1).drop_last() =~= all.take(n));
        }
    }
    assert(all.take(all.len() as int) =~= all);
    rows
}

/// What moves blocks through the data track: an encoded block is taken up, or
/// the held blocks leave as a pack.
pub enum PackEvent {
    Encoded(PackEntry),
    Flushed,
}

/// The chain, the blocks held, and the blocks that left in packs, oldest
/// first.
pub struct PackRun {
    pub chain_head: ChainDigest,
    pub held: Seq<PackEntry>,
    pub packed: Seq<PackEntry>,
}

/// One event, where `chain` folds a digest into the chain: what
/// `DataCore::pop_encode` and `BlobPacker::take` do.
pub open spec fn after_pack_event(
    chain: spec_fn(ChainDigest, ChainDigest) -> ChainDigest,
    run: PackRun,
    event: PackEvent,
) -> PackRun {
    match event {
        PackEvent::Encoded(entry) => {
            let head = chain(run.chain_head, entry.content_digest);
            PackRun { chain_head: head, held: run.held.push(stamped(entry, head)), ..run }
        },
        PackEvent::Flushed => PackRun {
            held: Seq::empty(),
            packed: run.packed + run.held,
            ..run
        },
    }
}

pub open spec fn after_pack_events(
    chain: spec_fn(ChainDigest, ChainDigest) -> ChainDigest,
    run: PackRun,
    events: Seq<PackEvent>,
) -> PackRun
    decreases events.len(),
{
    if events.len() == 0 {
        run
    } else {
        after_pack_event(chain, after_pack_events(chain, run, events.drop_last()), events.last())
    }
}

/// The blocks that the events take up.
pub open spec fn encoded_blocks(events: Seq<PackEvent>) -> Seq<PackEntry>
    decreases events.len(),
{
    if events.len() == 0 {
        Seq::empty()
    } else {
        match events.last() {
            PackEvent::Encoded(entry) => encoded_blocks(events.drop_last()).push(entry),
            PackEvent::Flushed => encoded_blocks(events.drop_last()),
        }
    }
}

/// The chain over blocks in order.
pub open spec fn row_chain(
    chain: spec_fn(ChainDigest, ChainDigest) -> ChainDigest,
    seed: ChainDigest,
    blocks: Seq<PackEntry>,
) -> ChainDigest
    decreases blocks.len(),
{
    if blocks.len() == 0 {
        seed
    } else {
        chain(row_chain(chain, seed, blocks.drop_last()), blocks.last().content_digest)
    }
}

/// Every block carries the chain over the blocks up to and with itself.
pub open spec fn chained(
    chain: spec_fn(ChainDigest, ChainDigest) -> ChainDigest,
    seed: ChainDigest,
    blocks: Seq<PackEntry>,
) -> Seq<PackEntry> {
    Seq::new(
        blocks.len(),
        |i: int| stamped(blocks[i], row_chain(chain, seed, blocks.take(i + 1))),
    )
}

/// The row chain does not depend on when packs leave: the head and every
/// stamped record follow from the blocks and their order alone.
pub proof fn law_row_chain_ignores_packs(
    chain: spec_fn(ChainDigest, ChainDigest) -> ChainDigest,
    seed: ChainDigest,
    events: Seq<PackEvent>,
)
    ensures
        ({
            let start = PackRun { chain_head: seed, held: Seq::empty(), packed: Seq::empty() };
            let run = after_pack_events(chain, start, events);
            let blocks = encoded_blocks(events);
            &&& run.chain_head == row_chain(chain, seed, blocks)
            &&& run.packed + run.held == chained(chain, seed, blocks)
        }),
    decreases events.len(),
{
    let start = PackRun { chain_head: seed, held: Seq::empty(), packed: Seq::empty() };
    let run = after_pack_events(chain, start, events);
    let blocks = encoded_blocks(events);
    if events.len() == 0 {
        assert(run.packed + run.held =~= chained(chain, seed, blocks));
    } else {
        let before = after_pack_events(chain, start, events.drop_last());
        let earlier = encoded_blocks(events.drop_last());
        law_row_chain_ignores_packs(chain, seed, events.drop_last());
        match events.last() {
            PackEvent::Encoded(entry) => {
                assert(blocks.drop_last() =~= earlier);
                assert(blocks.take(blocks.len() as int) =~= blocks);
                assert forall|i: int| 0 <= i < earlier.len() implies chained(
                    chain,
                    seed,
                    blocks,
                )[i] == chained(chain, seed, earlier)[i] by {
                    assert(blocks.take(i + 1) =~= earlier.take(i + 1));
                }
                assert(run.packed + run.held =~= (before.packed + before.held).push(
                    stamped(entry, run.chain_head),
                ));
                assert(run.packed + run.held =~= chained(chain, seed, blocks));
            },
            PackEvent::Flushed => {
                assert(run.packed + run.held =~= before.packed + before.held);
            },
        }
    }
}

/// Two different links get the same chain value.
pub open spec fn collides(
    chain: spec_fn(ChainDigest, ChainDigest) -> ChainDigest,
    a: (ChainDigest, ChainDigest),
    b: (ChainDigest, ChainDigest),
) -> bool {
    a != b && chain(a.0, a.1) == chain(b.0, b.1)
}

/// The link that extends the chain by block `n`.
pub open spec fn link_at(
    chain: spec_fn(ChainDigest, ChainDigest) -> ChainDigest,
    seed: ChainDigest,
    blocks: Seq<PackEntry>,
    n: int,
) -> (ChainDigest, ChainDigest) {
    (row_chain(chain, seed, blocks.take(n)), blocks[n].content_digest)
}

/// A perturbed block shows in the chain from then on: two runs whose rows first
/// differ at block `k` have the same chain before it, and another one at every
/// block from it on, as long as the digest does not collide on their links.
pub proof fn law_row_chain_tells_rows_apart(
    chain: spec_fn(ChainDigest, ChainDigest) -> ChainDigest,
    seed: ChainDigest,
    a: Seq<PackEntry>,
    b: Seq<PackEntry>,
    k: int,
    n: int,
)
    requires
        0 <= n < a.len(),
        0 <= k < a.len(),
        a.len() == b.len(),
        forall|i: int|
            0 <= i < k ==> (#[trigger] a[i]).content_digest == (#[trigger] b[i]).content_digest,
        a[k].content_digest != b[k].content_digest,
        forall|i: int|
            k <= i <= n ==> !collides(
                chain,
                #[trigger] link_at(chain, seed, a, i),
                #[trigger] link_at(chain, seed, b, i),
            ),
    ensures
        n < k ==> row_chain(chain, seed, a.take(n + 1)) == row_chain(chain, seed, b.take(n + 1)),
        n >= k ==> row_chain(chain, seed, a.take(n + 1)) != row_chain(chain, seed, b.take(n + 1)),
    decreases n,
{
    assert(a.take(n + 1).drop_last() =~= a.take(n));
    assert(b.take(n + 1).drop_last() =~= b.take(n));
    assert(a.take(0) =~= b.take(0));
    if n > 0 {
        law_row_chain_tells_rows_apart(chain, seed, a, b, k, n - 1);
    }
    assert(a[n].content_digest == b[n].content_digest || n >= k);
    if n >= k {
        let left = link_at(chain, seed, a, n);
        let right = link_at(chain, seed, b, n);
        assert(left != right);
        assert(!collides(chain, left, right));
    }
}

/// Every block moves the chain: consecutive values differ, as long as the digest
/// does not collide on neighbouring links and the first block moves the seed.
pub proof fn law_row_chain_moves(
    chain: spec_fn(ChainDigest, ChainDigest) -> ChainDigest,
    seed: ChainDigest,
    blocks: Seq<PackEntry>,
    n: int,
)
    requires
        0 <= n < blocks.len(),
        chain(seed, blocks[0].content_digest) != seed,
        forall|i: int|
            0 <= i < n ==> !collides(
                chain,
                #[trigger] link_at(chain, seed, blocks, i),
                link_at(chain, seed, blocks, i + 1),
            ),
    ensures
        row_chain(chain, seed, blocks.take(n + 1)) != row_chain(chain, seed, blocks.take(n)),
    decreases n,
{
    assert(blocks.take(n + 1).drop_last() =~= blocks.take(n));
    if n == 0 {
        assert(blocks.take(0) =~= Seq::empty());
    } else {
        law_row_chain_moves(chain, seed, blocks, n - 1);
        assert(blocks.take(n).drop_last() =~= blocks.take(n - 1));
        assert(!collides(
            chain,
            link_at(chain, seed, blocks, n - 1),
            link_at(chain, seed, blocks, n),
        ));
    }
}

/// A restart seeded with the last block's chain value continues the chain: a
/// run cut in two ends as the uninterrupted one.
pub proof fn law_row_chain_resumes(
    chain: spec_fn(ChainDigest, ChainDigest) -> ChainDigest,
    seed: ChainDigest,
    before: Seq<PackEntry>,
    after: Seq<PackEntry>,
)
    ensures
        row_chain(chain, seed, before + after) == row_chain(
            chain,
            row_chain(chain, seed, before),
            after,
        ),
        chained(chain, seed, before + after) == chained(chain, seed, before) + chained(
            chain,
            row_chain(chain, seed, before),
            after,
        ),
{
    lemma_row_chain_resumes(chain, seed, before, after);
    let whole = before + after;
    let split = chained(chain, seed, before) + chained(
        chain,
        row_chain(chain, seed, before),
        after,
    );
    assert forall|i: int| 0 <= i < whole.len() implies chained(chain, seed, whole)[i]
        == split[i] by {
        if i < before.len() {
            assert(whole.take(i + 1) =~= before.take(i + 1));
        } else {
            let k = i - before.len();
            assert(whole.take(i + 1) =~= before + after.take(k + 1));
            lemma_row_chain_resumes(chain, seed, before, after.take(k + 1));
        }
    }
    assert(chained(chain, seed, whole) =~= split);
}

proof fn lemma_row_chain_resumes(
    chain: spec_fn(ChainDigest, ChainDigest) -> ChainDigest,
    seed: ChainDigest,
    before: Seq<PackEntry>,
    after: Seq<PackEntry>,
)
    ensures
        row_chain(chain, seed, before + after) == row_chain(
            chain,
            row_chain(chain, seed, before),
            after,
        ),
    decreases after.len(),
{
    if after.len() == 0 {
        assert(before + after =~= before);
    } else {
        assert((before + after).drop_last() =~= before + after.drop_last());
        lemma_row_chain_resumes(chain, seed, before, after.drop_last());
    }
}

} // verus!
