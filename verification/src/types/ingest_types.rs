//! Finalized blocks as ingest receives them.

use vstd::prelude::*;

use crate::be::be_value;
use crate::errors::{QueryError, Result};
use crate::primitives::{Address, CallKind, Hash32, U256};
use crate::rlp::rlp_list;
use crate::types::external::ExternalPayloadSpec;
use crate::types::logs::StoredLog;
use crate::types::traces::StoredTrace;
use crate::types::txs::{StoredTxEnvelope, TxLocation};

verus! {

/// A block header: the fields ingest reads, and the header's canonical RLP, of
/// which the block hash is the digest.
#[derive(Debug, Clone, PartialEq, Eq)]
pub struct EvmBlockHeader {
    pub number: u64,
    pub parent_hash: Hash32,
    pub rlp: Vec<u8>,
}

/// An emitted log, before it gets its place in the block.
#[derive(Debug, Clone, PartialEq, Eq)]
pub struct Log {
    pub address: Address,
    pub topics: Vec<Hash32>,
    pub data: Vec<u8>,
}

#[derive(Debug, Clone, PartialEq, Eq)]
pub struct FinalizedBlock {
    pub header: EvmBlockHeader,
    pub logs_by_tx: Vec<Vec<Log>>,
    pub txs: Vec<IngestTx>,
    /// DFS-flattened call frames; indexed by tx.
    pub traces: Vec<IngestTrace>,
    /// Archive payload locators for external-payload ingest.
    pub external: Option<ExternalPayloadSpec>,
}

/// Per-tx envelope in a finalized block.
/// Sender is caller-authoritative (never recovered from signed bytes).
#[derive(Debug, Clone, PartialEq, Eq)]
pub struct IngestTx {
    pub tx_hash: Hash32,
    pub sender: Address,
    pub signed_tx_bytes: Vec<u8>,
}

impl Default for IngestTx {
    fn default() -> (tx: Self)
        ensures
            forall|i: int| 0 <= i < 32 ==> #[trigger] tx.tx_hash@[i] == 0,
            forall|i: int| 0 <= i < 20 ==> #[trigger] tx.sender@[i] == 0,
            tx.signed_tx_bytes@ == Seq::<u8>::empty(),
    {
        IngestTx { tx_hash: [0u8; 32], sender: [0u8; 20], signed_tx_bytes: Vec::new() }
    }
}

impl IngestTx {
    /// Encodes this tx as its [`StoredTxEnvelope`] storage row.
    pub fn encode_row(&self) -> (bytes: Vec<u8>)
        ensures
            bytes@ == rlp_list(
                seq![
                    (false, self.tx_hash@),
                    (false, self.sender@),
                    (false, self.signed_tx_bytes@),
                ],
            ),
    {
        let row = StoredTxEnvelope {
            tx_hash: self.tx_hash,
            sender: self.sender,
            signed_tx_bytes: vstd::slice::slice_to_vec(&self.signed_tx_bytes),
        };
        row.encode()
    }
}

/// A single DFS-flattened call frame from a tx's execution trace.
#[derive(Debug, Clone, PartialEq, Eq)]
pub struct IngestTrace {
    pub typ: CallKind,
    pub from: Address,
    pub to: Option<Address>,
    pub value: U256,
    pub gas: u64,
    pub gas_used: u64,
    pub input: Vec<u8>,
    pub output: Vec<u8>,
    /// Frame-level status: 0 = success, non-zero = revert/VM error.
    pub status: u8,
    pub depth: u32,
    pub tx_index: u32,
    /// OpenEthereum-style path from root within tx's call tree; empty for top-level.
    pub trace_address: Vec<u32>,
    /// Top-level tx receipt status from ingest (`true` = succeeded).
    pub tx_status: bool,
}

/// Call kinds that move the value they carry.
pub open spec fn kind_moves_value(kind: CallKind) -> bool {
    kind != CallKind::DelegateCall
}

impl IngestTrace {
    /// A committed transfer of a positive amount.
    pub open spec fn spec_is_transfer(&self, ancestor_reverted: bool) -> bool {
        &&& be_value(self.value@) > 0
        &&& kind_moves_value(self.typ)
        &&& self.status == 0
        &&& !ancestor_reverted
        &&& self.tx_status
    }

    /// Returns true if this frame represents a value transfer: the call kind
    /// moves value, value > 0, the frame and its ancestors succeeded, and the
    /// containing tx committed.
    pub fn is_transfer_frame(&self, ancestor_reverted: bool) -> (transfer: bool)
        ensures
            transfer == self.spec_is_transfer(ancestor_reverted),
    {
        let kind_moves_value: bool = matches!(
            self.typ,
            CallKind::Call
                | CallKind::CallCode
                | CallKind::Create
                | CallKind::Create2
                | CallKind::SelfDestruct
        );
        is_positive(&self.value) && kind_moves_value && self.status == 0 && !ancestor_reverted
            && self.tx_status
    }

    /// Encodes this frame as its [`StoredTrace`] storage row.
    pub fn encode_row(&self) -> (bytes: Vec<u8>)
        ensures
            exists|row: StoredTrace|
                row.copies(self) && bytes@ == rlp_list(#[trigger] row.items()),
    {
        let row = StoredTrace::from_ingest(self);
        row.encode()
    }
}

/// True when a 256-bit integer is not zero.
fn is_positive(value: &U256) -> (positive: bool)
    ensures
        positive == (be_value(value@) > 0),
{
    let mut i: usize = 0;
    while i < 32
        invariant
            i <= 32,
            be_value(value@.take(i as int)) == 0,
        decreases 32 - i,
    {
        if value[i] != 0 {
            proof {
                lemma_nonzero_byte(value@, i as int);
            }
            return true;
        }
        assert(value@.take(i + 1).drop_last() =~= value@.take(i as int));
        i = i + 1;
    }
    assert(value@.take(32) =~= value@);
    false
}

proof fn lemma_nonzero_byte(s: Seq<u8>, i: int)
    requires
        0 <= i < s.len(),
        s[i] != 0,
    ensures
        be_value(s) > 0,
    decreases s.len(),
{
    if i < s.len() - 1 {
        lemma_nonzero_byte(s.drop_last(), i);
    }
}

/// A big-endian integer is positive exactly when some byte of it is set.
pub proof fn lemma_positive_has_a_byte(s: Seq<u8>)
    ensures
        be_value(s) > 0 <==> exists|i: int| 0 <= i < s.len() && #[trigger] s[i] != 0,
    decreases s.len(),
{
    if s.len() > 0 {
        let rest = s.drop_last();
        let n = s.len() - 1;
        lemma_positive_has_a_byte(rest);
        if be_value(s) > 0 {
            if be_value(rest) > 0 {
                let i = choose|i: int| 0 <= i < rest.len() && #[trigger] rest[i] != 0;
                assert(s[i] != 0);
            } else {
                assert(s[n] != 0);
            }
        }
        if exists|i: int| 0 <= i < s.len() && #[trigger] s[i] != 0 {
            let i = choose|i: int| 0 <= i < s.len() && #[trigger] s[i] != 0;
            lemma_nonzero_byte(s, i);
        }
    }
}

/// What `alloy_primitives::keccak256` gives for a byte string.
pub uninterp spec fn keccak256_of(bytes: Seq<u8>) -> Seq<u8>;

/// `alloy_primitives::keccak256`: the digest of a byte string, which depends on
/// the bytes alone.
#[verifier::external_body]
fn keccak256(bytes: &[u8]) -> (digest: [u8; 32])
    ensures
        digest@ == keccak256_of(bytes@),
{
    alloy_primitives::keccak256(bytes).0
}

/// The rows of one tx's logs: consecutive log indexes from `first`.
pub open spec fn is_log_of(row: StoredLog, log: Log, tx_index: int, log_index: int) -> bool {
    &&& row.tx_index == tx_index
    &&& row.log_index == log_index
    &&& row.address == log.address
    &&& row.topics@ == log.topics@
    &&& row.data@ == log.data@
}

/// How many logs the first `n` txs emitted.
pub open spec fn logs_before(logs_by_tx: Seq<Vec<Log>>, n: int) -> nat
    decreases n,
{
    if n <= 0 {
        0
    } else {
        logs_before(logs_by_tx, n - 1) + logs_by_tx[n - 1]@.len()
    }
}

/// `rows` holds every log of the block in order: log `k` of tx `t` stands at its
/// block-wide index.
pub open spec fn is_flattening(rows: Seq<StoredLog>, logs_by_tx: Seq<Vec<Log>>) -> bool {
    &&& rows.len() == logs_before(logs_by_tx, logs_by_tx.len() as int)
    &&& forall|t: int, k: int|
        0 <= t < logs_by_tx.len() && 0 <= k < logs_by_tx[t]@.len() ==> is_log_of(
            rows[logs_before(logs_by_tx, t) + k],
            #[trigger] logs_by_tx[t]@[k],
            t,
            logs_before(logs_by_tx, t) + k,
        )
}

pub proof fn lemma_logs_before_monotonic(logs_by_tx: Seq<Vec<Log>>, a: int, b: int)
    requires
        0 <= a <= b,
    ensures
        logs_before(logs_by_tx, a) <= logs_before(logs_by_tx, b),
    decreases b,
{
    if a < b {
        lemma_logs_before_monotonic(logs_by_tx, a, b - 1);
    }
}

impl FinalizedBlock {
    pub fn block_number(&self) -> (number: u64)
        ensures
            number == self.header.number,
    {
        self.header.number
    }

    /// The digest of the header's RLP.
    pub fn block_hash(&self) -> (hash: Hash32)
        ensures
            hash@ == keccak256_of(self.header.rlp@),
    {
        keccak256(&self.header.rlp)
    }

    pub fn parent_hash(&self) -> (hash: Hash32)
        ensures
            hash == self.header.parent_hash,
    {
        self.header.parent_hash
    }

    /// Derives the `(tx_hash, location)` pairs to write into `tx_hash_index` for
    /// this block. Caller-authoritative `tx_hash`; collisions last-write-win.
    pub fn tx_hash_locations(&self) -> (result: Result<Vec<(Hash32, TxLocation)>>)
        ensures
            match result {
                Ok(locations) => {
                    &&& self.txs@.len() <= 0x1_0000_0000
                    &&& locations@.len() == self.txs@.len()
                    &&& forall|i: int|
                        0 <= i < self.txs@.len() ==> #[trigger] locations@[i] == (
                            self.txs@[i].tx_hash,
                            TxLocation {
                                block_number: self.header.number,
                                tx_index: i as u32,
                            },
                        )
                },
                Err(error) => {
                    &&& self.txs@.len() > 0x1_0000_0000
                    &&& error == QueryError::Decode("tx index overflow")
                },
            },
    {
        let mut locations: Vec<(Hash32, TxLocation)> = Vec::new();
        let mut i: usize = 0;
        while i < self.txs.len()
            invariant
                i <= self.txs@.len(),
                i <= 0x1_0000_0000,
                locations@.len() == i,
                forall|j: int|
                    0 <= j < i ==> #[trigger] locations@[j] == (
                        self.txs@[j].tx_hash,
                        TxLocation { block_number: self.header.number, tx_index: j as u32 },
                    ),
            decreases self.txs@.len() - i,
        {
            if i > 0xffff_ffff {
                return Err(QueryError::Decode("tx index overflow"));
            }
            let location = TxLocation { block_number: self.block_number(), tx_index: i as u32 };
            locations.push((self.txs[i].tx_hash, location));
            i = i + 1;
        }
        Ok(locations)
    }

    /// Some tx past the last 32-bit index stands before the log that overflows
    /// the 32-bit log index, if any does.
    pub open spec fn tx_overflows_first(&self) -> bool {
        &&& self.logs_by_tx@.len() > 0x1_0000_0000
        &&& logs_before(self.logs_by_tx@, 0x1_0000_0000) < 0x1_0000_0000
    }

    /// Flattens per-tx log lists into block-ordered row entries.
    pub fn flatten_logs(&self) -> (result: Result<Vec<StoredLog>>)
        ensures
            match result {
                Ok(rows) => {
                    &&& self.logs_by_tx@.len() <= 0x1_0000_0000
                    &&& is_flattening(rows@, self.logs_by_tx@)
                    &&& rows@.len() < 0x1_0000_0000
                },
                Err(error) => if self.tx_overflows_first() {
                    error == QueryError::Decode("tx index overflow")
                } else {
                    &&& logs_before(self.logs_by_tx@, self.logs_by_tx@.len() as int)
                        >= 0x1_0000_0000
                    &&& error == QueryError::Decode("log index overflow")
                },
            },
    {
        let mut rows: Vec<StoredLog> = Vec::new();
        let mut log_index: u32 = 0;
        let ghost all = self.logs_by_tx@;
        let mut t: usize = 0;
        while t < self.logs_by_tx.len()
            invariant
                all == self.logs_by_tx@,
                t <= all.len(),
                t <= 0x1_0000_0000,
                rows@.len() == logs_before(all, t as int),
                log_index == rows@.len(),
                forall|u: int, k: int|
                    0 <= u < t && 0 <= k < all[u]@.len() ==> is_log_of(
                        rows@[logs_before(all, u) + k],
                        #[trigger] all[u]@[k],
                        u,
                        logs_before(all, u) + k,
                    ),
            decreases all.len() - t,
        {
            if t > 0xffff_ffff {
                return Err(QueryError::Decode("tx index overflow"));
            }
            let tx_logs = &self.logs_by_tx[t];
            let mut k: usize = 0;
            while k < tx_logs.len()
                invariant
                    all == self.logs_by_tx@,
                    t < all.len(),
                    t <= 0xffff_ffff,
                    *tx_logs == all[t as int],
                    k <= tx_logs@.len(),
                    rows@.len() == logs_before(all, t as int) + k,
                    log_index == rows@.len(),
                    forall|u: int, j: int|
                        (0 <= u < t && 0 <= j < all[u]@.len()) || (u == t && 0 <= j < k)
                            ==> is_log_of(
                            rows@[logs_before(all, u) + j],
                            #[trigger] all[u]@[j],
                            u,
                            logs_before(all, u) + j,
                        ),
                decreases tx_logs@.len() - k,
            {
                let ghost before = rows@;
                let log = &tx_logs[k];
                rows.push(
                    StoredLog {
                        tx_index: t as u32,
                        log_index,
                        address: log.address,
                        topics: vstd::slice::slice_to_vec(&log.topics),
                        data: vstd::slice::slice_to_vec(&log.data),
                    },
                );
                proof {
                    assert forall|u: int, j: int|
                        (0 <= u < t && 0 <= j < all[u]@.len()) || (u == t && 0 <= j < k
                            + 1) implies is_log_of(
                        rows@[logs_before(all, u) + j],
                        #[trigger] all[u]@[j],
                        u,
                        logs_before(all, u) + j,
                    ) by {
                        if u < t {
                            lemma_logs_before_monotonic(all, u + 1, t as int);
                            assert(rows@[logs_before(all, u) + j] == before[logs_before(all, u)
                                + j]);
                        }
                    }
                }
                match log_index.checked_add(1) {
                    Some(next) => {
                        log_index = next;
                    },
                    None => {
                        proof {
                            lemma_logs_before_monotonic(all, t + 1, all.len() as int);
                            if all.len() > 0x1_0000_0000 {
                                lemma_logs_before_monotonic(all, t + 1, 0x1_0000_0000);
                            }
                        }
                        return Err(QueryError::Decode("log index overflow"));
                    },
                }
                k = k + 1;
            }
            t = t + 1;
        }
        Ok(rows)
    }
}

} // verus!
