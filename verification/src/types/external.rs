//! External archive payload locators: per-family container byte ranges inside
//! an existing archive object, validated against the decoded block they locate.

use vstd::prelude::*;

use crate::errors::{QueryError, Result};
use crate::types::ingest_types::{FinalizedBlock, IngestTrace};

verus! {

/// One family's byte layout inside its archive object, as supplied by the
/// ingest source. All offsets are object-relative through `base_offset`;
/// containers are contiguous (`container_offsets` is a partition), which the
/// source asserts when collapsing the scanner's exact item ranges into it.
#[derive(Debug, Clone, PartialEq, Eq)]
pub struct ExternalFamilyRegion {
    /// Raw archive object key (e.g. `block/000000000123`); never empty.
    pub key: Vec<u8>,
    /// Start byte of the first container within the object.
    pub base_offset: u32,
    /// Container byte offsets relative to `base_offset`.
    /// Length is `containers + 1`, with `[0] = 0` for empty blocks.
    pub container_offsets: Vec<u32>,
    /// Cumulative row counts per container.
    /// Empty indicates identity mode (one row per container).
    pub container_rows: Vec<u32>,
    /// Per-container tx-status bitvec, LSB-first (traces only; empty otherwise).
    /// Trailing pad bits must be zero.
    pub container_status: Vec<u8>,
}

impl ExternalFamilyRegion {
    /// Nothing is set.
    pub open spec fn is_blank(self) -> bool {
        &&& self.key@.len() == 0
        &&& self.base_offset == 0
        &&& self.container_offsets@.len() == 0
        &&& self.container_rows@.len() == 0
        &&& self.container_status@.len() == 0
    }
}

impl Default for ExternalFamilyRegion {
    fn default() -> (region: Self)
        ensures
            region.is_blank(),
    {
        ExternalFamilyRegion {
            key: Vec::new(),
            base_offset: 0,
            container_offsets: Vec::new(),
            container_rows: Vec::new(),
            container_status: Vec::new(),
        }
    }
}

/// Per-block external payload locators for all three families.
#[derive(Debug, Clone, PartialEq, Eq)]
pub struct ExternalPayloadSpec {
    /// The block the locators were scanned from. Binds the spec to its block
    /// so a source that mis-pairs a spec with another block's `FinalizedBlock`
    /// fails validation even when per-family counts coincide (any equal tx
    /// count satisfies the identity tx manifest).
    pub block_number: u64,
    pub logs: ExternalFamilyRegion,
    pub txs: ExternalFamilyRegion,
    pub traces: ExternalFamilyRegion,
}

impl Default for ExternalPayloadSpec {
    fn default() -> (spec: Self)
        ensures
            spec.block_number == 0,
            spec.logs.is_blank(),
            spec.txs.is_blank(),
            spec.traces.is_blank(),
    {
        ExternalPayloadSpec {
            block_number: 0,
            logs: ExternalFamilyRegion::default(),
            txs: ExternalFamilyRegion::default(),
            traces: ExternalFamilyRegion::default(),
        }
    }
}

/// The rows of the first `n` containers together.
pub open spec fn rows_through(rows: Seq<u32>, n: int) -> nat
    decreases n,
{
    if n <= 0 {
        0
    } else {
        rows_through(rows, n - 1) + rows[n - 1] as nat
    }
}

/// Container `i` starts before container `i + 1`.
pub open spec fn ascends(offsets: Seq<u32>, i: int) -> bool {
    offsets[i] < offsets[i + 1]
}

/// Bit `i` of a status bitvec, least significant first; absent bits are clear.
pub open spec fn status_bit(status: Seq<u8>, i: int) -> bool {
    i / 8 < status.len() && byte_bit(status[i / 8], i % 8)
}

/// Bit `bit` of a byte.
pub open spec fn byte_bit(byte: u8, bit: int) -> bool {
    (byte >> (bit as u8)) & 1 == 1
}

/// How many bytes `bits` bits need.
pub open spec fn byte_count(bits: nat) -> nat {
    (bits + 7) / 8
}

impl ExternalFamilyRegion {
    /// The first rule that the region breaks, if any.
    pub open spec fn fault(&self, rows: Seq<u32>, identity: bool) -> Option<QueryError> {
        let offsets = self.container_offsets@;
        if self.key@.len() == 0 {
            Some(QueryError::InvalidBlock("external payload region missing archive key"))
        } else if offsets.len() != rows.len() + 1 || offsets[0] != 0 {
            Some(
                QueryError::InvalidBlock(
                    "external payload container partition has the wrong shape",
                ),
            )
        } else if exists|i: int| 0 <= i < rows.len() && !#[trigger] ascends(offsets, i) {
            Some(
                QueryError::InvalidBlock(
                    "external payload containers must be non-empty and ascending",
                ),
            )
        } else if offsets[rows.len() as int] + self.base_offset > u32::MAX {
            Some(
                QueryError::InvalidBlock("external payload region exceeds the u32 offset space"),
            )
        } else if identity {
            if self.container_rows@.len() != 0 {
                Some(
                    QueryError::InvalidBlock("identity external region must omit container_rows"),
                )
            } else if exists|i: int| 0 <= i < rows.len() && #[trigger] rows[i] != 1 {
                Some(
                    QueryError::InvalidBlock(
                        "identity external region requires one row per container",
                    ),
                )
            } else {
                None
            }
        } else if self.container_rows@.len() != rows.len() {
            Some(QueryError::InvalidBlock("external payload container_rows length mismatch"))
        } else {
            self.rows_fault(rows, 0)
        }
    }

    /// The first container at or after `from` whose cumulative row count
    /// overflows or disagrees.
    pub open spec fn rows_fault(&self, rows: Seq<u32>, from: int) -> Option<QueryError>
        decreases rows.len() - from,
    {
        if from >= rows.len() {
            None
        } else if rows_through(rows, from + 1) > u32::MAX {
            Some(QueryError::InvalidBlock("external payload row count overflow"))
        } else if self.container_rows@[from] != rows_through(rows, from + 1) {
            Some(
                QueryError::InvalidBlock(
                    "external payload container_rows disagrees with the block's rows",
                ),
            )
        } else {
            self.rows_fault(rows, from + 1)
        }
    }

    /// The first rule that the status bitvec breaks, if any.
    pub open spec fn status_fault(&self, statuses: Seq<bool>) -> Option<QueryError> {
        let status = self.container_status@;
        if status.len() != byte_count(statuses.len()) {
            Some(QueryError::InvalidBlock("external payload container_status length mismatch"))
        } else if (exists|i: int|
            0 <= i < statuses.len() && #[trigger] statuses[i] != status_bit(status, i)) || (
        statuses.len() % 8 != 0 && status.last() >> ((statuses.len() % 8) as u8) != 0) {
            Some(
                QueryError::InvalidBlock(
                    "external payload container_status disagrees with the block's receipts",
                ),
            )
        } else {
            None
        }
    }

    /// Validates structural invariants: non-empty key, well-formed partition
    /// with non-empty containers, and consistent row counts.
    pub fn validate(&self, rows_per_container: &[u32], identity: bool) -> (result: Result<()>)
        ensures
            match result {
                Ok(_) => self.fault(rows_per_container@, identity) is None,
                Err(error) => self.fault(rows_per_container@, identity) == Some(error),
            },
    {
        let ghost rows = rows_per_container@;
        let ghost offsets = self.container_offsets@;
        let containers: usize = rows_per_container.len();
        if self.key.is_empty() {
            return Err(QueryError::InvalidBlock("external payload region missing archive key"));
        }
        if self.container_offsets.is_empty() || self.container_offsets.len() - 1 != containers
            || self.container_offsets[0] != 0 {
            return Err(
                QueryError::InvalidBlock(
                    "external payload container partition has the wrong shape",
                ),
            );
        }
        let mut i: usize = 0;
        while i < containers
            invariant
                i <= containers,
                offsets == self.container_offsets@,
                offsets.len() == containers + 1,
                offsets[0] == 0,
                self.key@.len() > 0,
                rows == rows_per_container@,
                containers == rows.len(),
                forall|j: int| 0 <= j < i ==> #[trigger] ascends(offsets, j),
            decreases containers - i,
        {
            if self.container_offsets[i] >= self.container_offsets[i + 1] {
                assert(!ascends(offsets, i as int));
                return Err(
                    QueryError::InvalidBlock(
                        "external payload containers must be non-empty and ascending",
                    ),
                );
            }
            i = i + 1;
        }
        if self.container_offsets[containers] as u64 + self.base_offset as u64 > u32::MAX as u64 {
            return Err(
                QueryError::InvalidBlock("external payload region exceeds the u32 offset space"),
            );
        }
        if identity {
            if !self.container_rows.is_empty() {
                return Err(
                    QueryError::InvalidBlock("identity external region must omit container_rows"),
                );
            }
            let mut j: usize = 0;
            while j < containers
                invariant
                    j <= containers,
                    rows == rows_per_container@,
                    containers == rows.len(),
                    forall|k: int| 0 <= k < j ==> #[trigger] rows[k] == 1,
                    self.fault(rows, identity) == (if exists|k: int|
                        0 <= k < rows.len() && #[trigger] rows[k] != 1 {
                        Some(
                            QueryError::InvalidBlock(
                                "identity external region requires one row per container",
                            ),
                        )
                    } else {
                        None
                    }),
                decreases containers - j,
            {
                if rows_per_container[j] != 1 {
                    assert(rows[j as int] != 1);
                    return Err(
                        QueryError::InvalidBlock(
                            "identity external region requires one row per container",
                        ),
                    );
                }
                j = j + 1;
            }
            return Ok(());
        }
        if self.container_rows.len() != containers {
            return Err(
                QueryError::InvalidBlock("external payload container_rows length mismatch"),
            );
        }
        let mut cumulative: u32 = 0;
        let mut k: usize = 0;
        while k < containers
            invariant
                k <= containers,
                rows == rows_per_container@,
                containers == rows.len(),
                self.container_rows@.len() == rows.len(),
                cumulative == rows_through(rows, k as int),
                self.fault(rows, identity) == self.rows_fault(rows, k as int),
            decreases containers - k,
        {
            match cumulative.checked_add(rows_per_container[k]) {
                Some(sum) => {
                    cumulative = sum;
                },
                None => {
                    return Err(QueryError::InvalidBlock("external payload row count overflow"));
                },
            }
            if self.container_rows[k] != cumulative {
                return Err(
                    QueryError::InvalidBlock(
                        "external payload container_rows disagrees with the block's rows",
                    ),
                );
            }
            k = k + 1;
        }
        Ok(())
    }

    /// Validates the status bitvec: exactly `statuses.len().div_ceil(8)` bytes,
    /// matching `statuses` bit for bit, with zero trailing pad bits.
    pub fn validate_status(&self, statuses: &[bool]) -> (result: Result<()>)
        ensures
            match result {
                Ok(_) => self.status_fault(statuses@) is None,
                Err(error) => self.status_fault(statuses@) == Some(error),
            },
    {
        let bits: usize = statuses.len();
        let needed: usize = bits / 8 + if bits % 8 != 0 { 1 } else { 0 };
        if self.container_status.len() != needed {
            return Err(
                QueryError::InvalidBlock("external payload container_status length mismatch"),
            );
        }
        let ghost status = self.container_status@;
        let mut i: usize = 0;
        while i < bits
            invariant
                i <= bits,
                bits == statuses@.len(),
                status == self.container_status@,
                status.len() == byte_count(bits as nat),
                forall|j: int| 0 <= j < i ==> #[trigger] statuses@[j] == status_bit(status, j),
            decreases bits - i,
        {
            let bit_set: bool = test_bit(self.container_status[i / 8], i % 8);
            if statuses[i] != bit_set {
                assert(statuses@[i as int] != status_bit(status, i as int));
                return Err(
                    QueryError::InvalidBlock(
                        "external payload container_status disagrees with the block's receipts",
                    ),
                );
            }
            i = i + 1;
        }
        // Trailing pad bits in the final byte must be zero.
        let pad_bits: u8 = (bits % 8) as u8;
        if pad_bits != 0 && self.container_status[needed - 1] >> pad_bits != 0 {
            return Err(
                QueryError::InvalidBlock(
                    "external payload container_status disagrees with the block's receipts",
                ),
            );
        }
        Ok(())
    }

    /// Bit `i` of the status bitvec; clear when absent.
    fn status_bit(&self, i: usize) -> (set: bool)
        ensures
            set == status_bit(self.container_status@, i as int),
    {
        i / 8 < self.container_status.len() && test_bit(self.container_status[i / 8], i % 8)
    }
}

fn test_bit(byte: u8, bit: usize) -> (set: bool)
    requires
        bit < 8,
    ensures
        set == byte_bit(byte, bit as int),
{
    (byte >> (bit as u8)) & 1 == 1
}

/// How many of the first `n` frames belong to tx `t`.
pub open spec fn frames_of(traces: Seq<IngestTrace>, n: int, t: int) -> nat
    decreases n,
{
    if n <= 0 {
        0
    } else {
        frames_of(traces, n - 1, t) + if traces[n - 1].tx_index == t {
            1nat
        } else {
            0nat
        }
    }
}

/// The tx status that the first `n` frames give tx `t`; `None` without frames.
pub open spec fn status_of(traces: Seq<IngestTrace>, n: int, t: int) -> Option<bool>
    decreases n,
{
    if n <= 0 {
        None
    } else {
        match status_of(traces, n - 1, t) {
            Some(status) => Some(status),
            None => if traces[n - 1].tx_index == t {
                Some(traces[n - 1].tx_status)
            } else {
                None
            },
        }
    }
}

/// The first frame, from frame `i` on, that names a tx out of range or
/// contradicts its tx's status.
pub open spec fn frames_fault(traces: Seq<IngestTrace>, tx_count: int, i: int) -> Option<
    QueryError,
>
    decreases traces.len() - i,
{
    if i >= traces.len() {
        None
    } else if traces[i].tx_index >= tx_count {
        Some(QueryError::InvalidBlock("external payload trace tx_index out of range"))
    } else if status_of(traces, i, traces[i].tx_index as int) == Some(!traces[i].tx_status) {
        Some(
            QueryError::InvalidBlock("external payload trace tx_status inconsistent within a tx"),
        )
    } else {
        frames_fault(traces, tx_count, i + 1)
    }
}

/// No tx has more frames than 32 bits count.
pub open spec fn frame_counts_fit(block: FinalizedBlock) -> bool {
    forall|t: int|
        #[trigger] frames_of(block.traces@, block.traces@.len() as int, t) <= u32::MAX
}

/// Up to `2^32 - 1` frames every count fits.
pub proof fn lemma_short_frame_counts_fit(block: FinalizedBlock)
    requires
        block.traces@.len() <= u32::MAX,
    ensures
        frame_counts_fit(block),
{
    assert forall|t: int|
        #[trigger] frames_of(block.traces@, block.traces@.len() as int, t) <= u32::MAX by {
        lemma_frames_bound(block.traces@, block.traces@.len() as int, t);
    }
}

/// Some tx emitted more logs than 32 bits count.
pub open spec fn log_count_overflows(block: FinalizedBlock) -> bool {
    exists|t: int|
        0 <= t < block.logs_by_tx@.len() && (#[trigger] block.logs_by_tx@[t])@.len() > u32::MAX
}

/// Logs per tx.
pub open spec fn log_counts(block: FinalizedBlock) -> Seq<u32> {
    Seq::new(block.logs_by_tx@.len(), |t: int| block.logs_by_tx@[t]@.len() as u32)
}

/// Frames per tx.
pub open spec fn frame_counts(block: FinalizedBlock) -> Seq<u32> {
    Seq::new(
        block.txs@.len(),
        |t: int| frames_of(block.traces@, block.traces@.len() as int, t) as u32,
    )
}

/// The status expected of each tx: the one its frames carry, or the stored bit
/// for a tx without frames.
pub open spec fn expected_statuses(spec: ExternalPayloadSpec, block: FinalizedBlock) -> Seq<bool> {
    Seq::new(
        block.txs@.len(),
        |t: int|
            match status_of(block.traces@, block.traces@.len() as int, t) {
                Some(status) => status,
                None => status_bit(spec.traces.container_status@, t),
            },
    )
}

impl ExternalPayloadSpec {
    /// The first rule that the spec breaks against a block, if any.
    pub open spec fn fault(&self, block_number: u64, block: FinalizedBlock) -> Option<QueryError> {
        let ones = Seq::new(block.txs@.len(), |t: int| 1u32);
        if self.block_number != block_number {
            Some(QueryError::InvalidBlock("external payload spec belongs to a different block"))
        } else if block.logs_by_tx@.len() != block.txs@.len() {
            Some(
                QueryError::InvalidBlock("external payload requires one receipt container per tx"),
            )
        } else if self.txs.fault(ones, true) is Some {
            self.txs.fault(ones, true)
        } else if self.txs.status_fault(Seq::empty()) is Some {
            self.txs.status_fault(Seq::empty())
        } else if log_count_overflows(block) {
            Some(QueryError::Decode("log count overflow"))
        } else if self.logs.fault(log_counts(block), false) is Some {
            self.logs.fault(log_counts(block), false)
        } else if self.logs.status_fault(Seq::empty()) is Some {
            self.logs.status_fault(Seq::empty())
        } else if frames_fault(block.traces@, block.txs@.len() as int, 0) is Some {
            frames_fault(block.traces@, block.txs@.len() as int, 0)
        } else if self.traces.fault(frame_counts(block), false) is Some {
            self.traces.fault(frame_counts(block), false)
        } else {
            self.traces.status_fault(expected_statuses(*self, block))
        }
    }

    /// Validates the spec against a decoded block: matches block number,
    /// container counts, row counts, and trace status bits.
    pub fn validate(&self, block_number: u64, block: &FinalizedBlock) -> (result: Result<()>)
        requires
            frame_counts_fit(*block),
        ensures
            match result {
                Ok(_) => self.fault(block_number, *block) is None,
                Err(error) => self.fault(block_number, *block) == Some(error),
            },
    {
        if self.block_number != block_number {
            return Err(
                QueryError::InvalidBlock("external payload spec belongs to a different block"),
            );
        }
        let tx_count: usize = block.txs.len();
        if block.logs_by_tx.len() != tx_count {
            return Err(
                QueryError::InvalidBlock("external payload requires one receipt container per tx"),
            );
        }
        let none: Vec<bool> = Vec::new();
        assert(none@ =~= Seq::empty());
        let ones: Vec<u32> = vec![1u32; tx_count];
        assert(ones@ =~= Seq::new(block.txs@.len(), |t: int| 1u32));
        if let Err(error) = self.txs.validate(&ones, true) {
            return Err(error);
        }
        if let Err(error) = self.txs.validate_status(&none) {
            return Err(error);
        }
        let logs_per_tx = match count_logs(block) {
            Some(counts) => counts,
            None => return Err(QueryError::Decode("log count overflow")),
        };
        if let Err(error) = self.logs.validate(&logs_per_tx, false) {
            return Err(error);
        }
        if let Err(error) = self.logs.validate_status(&none) {
            return Err(error);
        }
        let (frames_per_tx, trace_statuses) = match count_frames(block, tx_count) {
            Ok(counted) => counted,
            Err(error) => return Err(error),
        };
        assert(frames_per_tx@ =~= frame_counts(*block));
        if let Err(error) = self.traces.validate(&frames_per_tx, false) {
            return Err(error);
        }
        // Fall back to stored bits for containers without frames.
        let mut final_statuses: Vec<bool> = Vec::new();
        let mut t: usize = 0;
        while t < tx_count
            invariant
                t <= tx_count,
                tx_count == block.txs@.len(),
                trace_statuses@.len() == tx_count,
                forall|u: int|
                    0 <= u < tx_count ==> #[trigger] trace_statuses@[u] == status_of(
                        block.traces@,
                        block.traces@.len() as int,
                        u,
                    ),
                final_statuses@ =~= expected_statuses(*self, *block).take(t as int),
            decreases tx_count - t,
        {
            let status: bool = match trace_statuses[t] {
                Some(status) => status,
                None => self.traces.status_bit(t),
            };
            final_statuses.push(status);
            t = t + 1;
        }
        assert(final_statuses@ =~= expected_statuses(*self, *block));
        self.traces.validate_status(&final_statuses)
    }
}

fn count_logs(block: &FinalizedBlock) -> (counts: Option<Vec<u32>>)
    ensures
        match counts {
            Some(counts) => !log_count_overflows(*block) && counts@ == log_counts(*block),
            None => log_count_overflows(*block),
        },
{
    let mut counts: Vec<u32> = Vec::new();
    let mut t: usize = 0;
    while t < block.logs_by_tx.len()
        invariant
            t <= block.logs_by_tx@.len(),
            counts@ =~= log_counts(*block).take(t as int),
            forall|u: int|
                0 <= u < t ==> (#[trigger] block.logs_by_tx@[u])@.len() <= u32::MAX,
        decreases block.logs_by_tx@.len() - t,
    {
        let count: usize = block.logs_by_tx[t].len();
        if count > u32::MAX as usize {
            assert(block.logs_by_tx@[t as int]@.len() > u32::MAX);
            return None;
        }
        counts.push(count as u32);
        t = t + 1;
    }
    assert(counts@ =~= log_counts(*block));
    Some(counts)
}

proof fn lemma_frames_bound(traces: Seq<IngestTrace>, n: int, t: int)
    requires
        0 <= n,
    ensures
        frames_of(traces, n, t) <= n,
    decreases n,
{
    if n > 0 {
        lemma_frames_bound(traces, n - 1, t);
    }
}

proof fn lemma_frames_monotonic(traces: Seq<IngestTrace>, a: int, b: int, t: int)
    requires
        0 <= a <= b,
    ensures
        frames_of(traces, a, t) <= frames_of(traces, b, t),
    decreases b,
{
    if a < b {
        lemma_frames_monotonic(traces, a, b - 1, t);
    }
}

/// Counts frames and collects the tx status per tx.
fn count_frames(block: &FinalizedBlock, tx_count: usize) -> (result: Result<
    (Vec<u32>, Vec<Option<bool>>),
>)
    requires
        frame_counts_fit(*block),
    ensures
        match result {
            Ok((frames, statuses)) => {
                &&& frames_fault(block.traces@, tx_count as int, 0) is None
                &&& frames@.len() == tx_count
                &&& statuses@.len() == tx_count
                &&& forall|t: int|
                    0 <= t < tx_count ==> #[trigger] frames@[t] == frames_of(
                        block.traces@,
                        block.traces@.len() as int,
                        t,
                    )
                &&& forall|t: int|
                    0 <= t < tx_count ==> #[trigger] statuses@[t] == status_of(
                        block.traces@,
                        block.traces@.len() as int,
                        t,
                    )
            },
            Err(error) => frames_fault(block.traces@, tx_count as int, 0) == Some(error),
        },
{
    let mut frames: Vec<u32> = vec![0u32; tx_count];
    let mut statuses: Vec<Option<bool>> = Vec::new();
    let mut filled: usize = 0;
    while filled < tx_count
        invariant
            filled <= tx_count,
            statuses@.len() == filled,
            forall|t: int| 0 <= t < filled ==> #[trigger] statuses@[t] is None,
        decreases tx_count - filled,
    {
        statuses.push(None);
        filled = filled + 1;
    }
    let ghost traces = block.traces@;
    let mut i: usize = 0;
    while i < block.traces.len()
        invariant
            traces == block.traces@,
            frame_counts_fit(*block),
            i <= traces.len(),
            frames@.len() == tx_count,
            statuses@.len() == tx_count,
            frames_fault(traces, tx_count as int, 0) == frames_fault(
                traces,
                tx_count as int,
                i as int,
            ),
            forall|t: int|
                0 <= t < tx_count ==> #[trigger] frames@[t] == frames_of(traces, i as int, t),
            forall|t: int|
                0 <= t < tx_count ==> #[trigger] statuses@[t] == status_of(traces, i as int, t),
        decreases traces.len() - i,
    {
        let trace = &block.traces[i];
        let tx: usize = trace.tx_index as usize;
        if tx >= tx_count {
            return Err(QueryError::InvalidBlock("external payload trace tx_index out of range"));
        }
        proof {
            lemma_frames_monotonic(traces, i + 1, traces.len() as int, tx as int);
        }
        let seen: u32 = frames[tx];
        frames.set(tx, seen + 1);
        match statuses[tx] {
            None => {
                statuses.set(tx, Some(trace.tx_status));
            },
            Some(existing) => {
                if existing != trace.tx_status {
                    return Err(
                        QueryError::InvalidBlock(
                            "external payload trace tx_status inconsistent within a tx",
                        ),
                    );
                }
            },
        }
        i = i + 1;
    }
    Ok((frames, statuses))
}

} // verus!
