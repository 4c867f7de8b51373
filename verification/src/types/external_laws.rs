//! What a validated archive locator is worth: its containers hold exactly the
//! block's rows, and its status bits are the block's.

use vstd::prelude::*;

use crate::types::external::{
    ascends, expected_statuses, frame_counts, frame_counts_fit, frames_fault, frames_of,
    log_count_overflows, log_counts, rows_through, status_bit, status_of, ExternalFamilyRegion,
    ExternalPayloadSpec,
};
use crate::types::ingest_types::{logs_before, FinalizedBlock, IngestTrace};

verus! {

/// A region that validates against row counts holds them: a named object, one
/// non-empty container per count one after another from its start on, and the
/// counts themselves, either as running sums or, where every container holds one
/// row, by their absence.
pub proof fn law_region_locates_its_rows(
    region: ExternalFamilyRegion,
    rows: Seq<u32>,
    identity: bool,
    c: int,
)
    requires
        region.fault(rows, identity) is None,
        0 <= c < rows.len(),
    ensures
        region.key@.len() > 0,
        region.container_offsets@.len() == rows.len() + 1,
        region.container_offsets@[0] == 0,
        region.container_offsets@[c] < region.container_offsets@[c + 1],
        region.base_offset + region.container_offsets@[rows.len() as int] <= u32::MAX,
        identity ==> region.container_rows@.len() == 0 && rows[c] == 1 && rows_through(
            rows,
            rows.len() as int,
        ) == rows.len(),
        !identity ==> region.container_rows@.len() == rows.len() && region.container_rows@[c]
            == rows_through(rows, c + 1) && region.container_rows@.last() == rows_through(
            rows,
            rows.len() as int,
        ),
        rows_through(rows, c + 1) - rows_through(rows, c) == rows[c],
{
    assert(ascends(region.container_offsets@, c));
    if identity {
        assert forall|i: int| 0 <= i < rows.len() implies rows[i] == 1 by {}
        lemma_ones(rows, rows.len() as int);
    } else {
        lemma_rows_agree(region, rows, 0, c);
        lemma_rows_agree(region, rows, 0, rows.len() - 1);
    }
}

proof fn lemma_rows_agree(region: ExternalFamilyRegion, rows: Seq<u32>, from: int, c: int)
    requires
        0 <= from <= c < rows.len(),
        region.rows_fault(rows, from) is None,
    ensures
        region.container_rows@[c] == rows_through(rows, c + 1),
    decreases c - from,
{
    if from < c {
        lemma_rows_agree(region, rows, from + 1, c);
    }
}

/// One row per container adds up to the number of containers.
pub proof fn lemma_ones(rows: Seq<u32>, n: int)
    requires
        0 <= n <= rows.len(),
        forall|i: int| 0 <= i < rows.len() ==> rows[i] == 1,
    ensures
        rows_through(rows, n) == n,
    decreases n,
{
    if n > 0 {
        lemma_ones(rows, n - 1);
    }
}

/// A region that breaks any of these rules is refused: it names its object, has
/// one non-empty container per count within reach of 32 bits, and its running
/// sums, or its single rows, are the counts.
pub proof fn law_faithful_regions_validate(
    region: ExternalFamilyRegion,
    rows: Seq<u32>,
    identity: bool,
)
    requires
        region.key@.len() > 0,
        region.container_offsets@.len() == rows.len() + 1,
        region.container_offsets@[0] == 0,
        forall|i: int|
            0 <= i < rows.len() ==> (#[trigger] region.container_offsets@[i])
                < region.container_offsets@[i + 1],
        region.base_offset + region.container_offsets@[rows.len() as int] <= u32::MAX,
        identity ==> region.container_rows@.len() == 0 && forall|i: int|
            0 <= i < rows.len() ==> #[trigger] rows[i] == 1,
        !identity ==> region.container_rows@.len() == rows.len() && forall|i: int|
            0 <= i < rows.len() ==> #[trigger] region.container_rows@[i] == rows_through(
                rows,
                i + 1,
            ),
    ensures
        region.fault(rows, identity) is None,
{
    assert forall|i: int| 0 <= i < rows.len() implies #[trigger] ascends(
        region.container_offsets@,
        i,
    ) by {
        assert(region.container_offsets@[i] < region.container_offsets@[i + 1]);
    }
    if !identity {
        lemma_no_rows_fault(region, rows, 0);
    }
}

proof fn lemma_no_rows_fault(region: ExternalFamilyRegion, rows: Seq<u32>, from: int)
    requires
        0 <= from <= rows.len(),
        region.container_rows@.len() == rows.len(),
        forall|i: int|
            0 <= i < rows.len() ==> #[trigger] region.container_rows@[i] == rows_through(
                rows,
                i + 1,
            ),
    ensures
        region.rows_fault(rows, from) is None,
    decreases rows.len() - from,
{
    if from < rows.len() {
        assert(region.container_rows@[from] == rows_through(rows, from + 1));
        lemma_no_rows_fault(region, rows, from + 1);
    }
}

/// A spec validates only against its own block, and only where there is one log
/// list per tx.
pub proof fn law_mispaired_specs_are_refused(
    spec: ExternalPayloadSpec,
    number: u64,
    block: FinalizedBlock,
)
    ensures
        spec.block_number != number ==> spec.fault(number, block) is Some,
        block.logs_by_tx@.len() != block.txs@.len() ==> spec.fault(number, block) is Some,
        spec.txs.container_status@.len() != 0 ==> spec.fault(number, block) is Some,
        spec.logs.container_status@.len() != 0 ==> spec.fault(number, block) is Some,
        spec.traces.container_status@.len() != (block.txs@.len() + 7) / 8 ==> spec.fault(
            number,
            block,
        ) is Some,
{
}

/// The logs that the first `n` counts add up to are those of the first `n` txs.
pub proof fn lemma_log_counts_add_up(block: FinalizedBlock, n: int)
    requires
        0 <= n <= block.logs_by_tx@.len(),
        !log_count_overflows(block),
    ensures
        rows_through(log_counts(block), n) == logs_before(block.logs_by_tx@, n),
    decreases n,
{
    if n > 0 {
        lemma_log_counts_add_up(block, n - 1);
        assert(block.logs_by_tx@[n - 1]@.len() <= u32::MAX);
    }
}

/// Every frame is counted for exactly one tx: the counts add up to the frames.
pub proof fn law_frames_are_counted_once(block: FinalizedBlock)
    requires
        frame_counts_fit(block),
        frames_fault(block.traces@, block.txs@.len() as int, 0) is None,
    ensures
        rows_through(frame_counts(block), block.txs@.len() as int) == block.traces@.len(),
{
    let m = block.traces@.len() as int;
    let n = block.txs@.len() as int;
    assert forall|i: int| 0 <= i < m implies (#[trigger] block.traces@[i]).tx_index < n by {
        lemma_frame_in_range(block.traces@, n, 0, i);
    }
    lemma_counts_add_up(block, n);
    lemma_frames_add_up(block.traces@, m, n);
}

/// How many of the first `n` frames belong to the first `k` txs.
spec fn frames_of_first(traces: Seq<IngestTrace>, n: int, k: int) -> nat
    decreases k,
{
    if k <= 0 {
        0
    } else {
        frames_of_first(traces, n, k - 1) + frames_of(traces, n, k - 1)
    }
}

proof fn lemma_counts_add_up(block: FinalizedBlock, k: int)
    requires
        frame_counts_fit(block),
        0 <= k <= block.txs@.len(),
    ensures
        rows_through(frame_counts(block), k) == frames_of_first(
            block.traces@,
            block.traces@.len() as int,
            k,
        ),
    decreases k,
{
    if k > 0 {
        lemma_counts_add_up(block, k - 1);
        assert(frames_of(block.traces@, block.traces@.len() as int, k - 1) <= u32::MAX);
    }
}

proof fn lemma_frames_add_up(traces: Seq<IngestTrace>, n: int, k: int)
    requires
        0 <= n <= traces.len(),
        0 <= k,
        forall|i: int| 0 <= i < n ==> (#[trigger] traces[i]).tx_index < k,
    ensures
        frames_of_first(traces, n, k) == n,
    decreases n,
{
    if n > 0 {
        lemma_frames_add_up(traces, n - 1, k);
        lemma_one_more_frame(traces, n, k);
        assert(traces[n - 1].tx_index < k);
    } else {
        lemma_no_frames(traces, k);
    }
}

proof fn lemma_no_frames(traces: Seq<IngestTrace>, k: int)
    ensures
        frames_of_first(traces, 0, k) == 0,
    decreases k,
{
    if k > 0 {
        lemma_no_frames(traces, k - 1);
    }
}

proof fn lemma_one_more_frame(traces: Seq<IngestTrace>, n: int, k: int)
    requires
        0 < n <= traces.len(),
        0 <= k,
    ensures
        frames_of_first(traces, n, k) == frames_of_first(traces, n - 1, k) + if traces[n
            - 1].tx_index < k {
            1nat
        } else {
            0
        },
    decreases k,
{
    if k > 0 {
        lemma_one_more_frame(traces, n, k - 1);
    }
}

proof fn lemma_frame_in_range(traces: Seq<IngestTrace>, n: int, from: int, i: int)
    requires
        0 <= from <= i < traces.len(),
        frames_fault(traces, n, from) is None,
    ensures
        traces[i].tx_index < n,
        status_of(traces, i, traces[i].tx_index as int) != Some(!traces[i].tx_status),
    decreases i - from,
{
    if from < i {
        lemma_frame_in_range(traces, n, from + 1, i);
    }
}

/// Once a frame gave its tx a status, the tx keeps it.
proof fn lemma_status_stays(traces: Seq<IngestTrace>, i: int, n: int)
    requires
        0 <= i < n <= traces.len(),
        status_of(traces, i, traces[i].tx_index as int) != Some(!traces[i].tx_status),
    ensures
        status_of(traces, n, traces[i].tx_index as int) == Some(traces[i].tx_status),
    decreases n,
{
    if n - 1 > i {
        lemma_status_stays(traces, i, n - 1);
    }
}

/// Every frame of a block that validated carries the status that its tx's bit
/// says.
pub proof fn law_status_bits_are_the_statuses(
    spec: ExternalPayloadSpec,
    number: u64,
    block: FinalizedBlock,
    i: int,
)
    requires
        spec.fault(number, block) is None,
        0 <= i < block.traces@.len(),
    ensures
        block.traces@[i].tx_index < block.txs@.len(),
        status_bit(spec.traces.container_status@, block.traces@[i].tx_index as int)
            == block.traces@[i].tx_status,
{
    let n = block.txs@.len() as int;
    lemma_frame_in_range(block.traces@, n, 0, i);
    lemma_status_stays(block.traces@, i, block.traces@.len() as int);
    let t = block.traces@[i].tx_index as int;
    let statuses = expected_statuses(spec, block);
    assert(spec.traces.status_fault(statuses) is None);
    assert(statuses[t] == status_bit(spec.traces.container_status@, t));
}

/// Bit `t` of a status vector is bit `t % 8`, least significant first, of byte
/// `t / 8`: the byte over two to that power is odd.
pub proof fn law_status_bits_are_least_significant_first(status: Seq<u8>, t: int)
    requires
        0 <= t,
        t / 8 < status.len(),
    ensures
        ({
            let byte = status[t / 8];
            &&& t % 8 == 0 ==> status_bit(status, t) == (byte % 2 == 1)
            &&& t % 8 == 1 ==> status_bit(status, t) == ((byte / 2) % 2 == 1)
            &&& t % 8 == 2 ==> status_bit(status, t) == ((byte / 4) % 2 == 1)
            &&& t % 8 == 3 ==> status_bit(status, t) == ((byte / 8) % 2 == 1)
            &&& t % 8 == 4 ==> status_bit(status, t) == ((byte / 16) % 2 == 1)
            &&& t % 8 == 5 ==> status_bit(status, t) == ((byte / 32) % 2 == 1)
            &&& t % 8 == 6 ==> status_bit(status, t) == ((byte / 64) % 2 == 1)
            &&& t % 8 == 7 ==> status_bit(status, t) == ((byte / 128) % 2 == 1)
        }),
{
    let byte = status[t / 8];
    assert((byte >> 0u8) & 1 == 1 <==> byte % 2 == 1) by (bit_vector);
    assert((byte >> 1u8) & 1 == 1 <==> (byte / 2) % 2 == 1) by (bit_vector);
    assert((byte >> 2u8) & 1 == 1 <==> (byte / 4) % 2 == 1) by (bit_vector);
    assert((byte >> 3u8) & 1 == 1 <==> (byte / 8) % 2 == 1) by (bit_vector);
    assert((byte >> 4u8) & 1 == 1 <==> (byte / 16) % 2 == 1) by (bit_vector);
    assert((byte >> 5u8) & 1 == 1 <==> (byte / 32) % 2 == 1) by (bit_vector);
    assert((byte >> 6u8) & 1 == 1 <==> (byte / 64) % 2 == 1) by (bit_vector);
    assert((byte >> 7u8) & 1 == 1 <==> (byte / 128) % 2 == 1) by (bit_vector);
}

/// The bits behind the last tx's are clear in a block that validated.
pub proof fn law_status_padding_is_clear(
    spec: ExternalPayloadSpec,
    number: u64,
    block: FinalizedBlock,
    t: int,
)
    requires
        spec.fault(number, block) is None,
        block.txs@.len() <= t < 8 * spec.traces.container_status@.len(),
    ensures
        !status_bit(spec.traces.container_status@, t),
{
    let status = spec.traces.container_status@;
    let n = block.txs@.len() as int;
    let statuses = expected_statuses(spec, block);
    assert(spec.traces.status_fault(statuses) is None);
    assert(statuses.len() == n);
    assert(status.len() == (n + 7) / 8);
    assert(t / 8 == status.len() - 1);
    let byte = status.last();
    let from = (n % 8) as u8;
    let bit = (t % 8) as u8;
    assert(byte >> from == 0);
    assert(from <= bit < 8);
    assert((byte >> bit) & 1 == 0) by (bit_vector)
        requires
            byte >> from == 0,
            from <= bit,
            bit < 8,
    ;
}

/// A frame names a tx of the block and agrees with the frames before it.
pub open spec fn frames_agree(traces: Seq<IngestTrace>, tx_count: int) -> bool {
    &&& forall|i: int| 0 <= i < traces.len() ==> (#[trigger] traces[i]).tx_index < tx_count
    &&& forall|i: int, j: int|
        0 <= i < j < traces.len() && (#[trigger] traces[i]).tx_index == (
        #[trigger] traces[j]).tx_index ==> traces[i].tx_status == traces[j].tx_status
}

proof fn lemma_status_comes_from_a_frame(traces: Seq<IngestTrace>, n: int, t: int)
    requires
        0 <= n <= traces.len(),
    ensures
        status_of(traces, n, t) matches Some(status) ==> exists|i: int|
            0 <= i < n && (#[trigger] traces[i]).tx_index == t && traces[i].tx_status == status,
    decreases n,
{
    if n > 0 {
        lemma_status_comes_from_a_frame(traces, n - 1, t);
        if status_of(traces, n - 1, t) is None && traces[n - 1].tx_index == t {
            assert(traces[n - 1].tx_index == t);
        }
    }
}

proof fn lemma_no_frames_fault(traces: Seq<IngestTrace>, tx_count: int, i: int)
    requires
        0 <= i <= traces.len(),
        frames_agree(traces, tx_count),
    ensures
        frames_fault(traces, tx_count, i) is None,
    decreases traces.len() - i,
{
    if i < traces.len() {
        let t = traces[i].tx_index as int;
        lemma_status_comes_from_a_frame(traces, i, t);
        if let Some(status) = status_of(traces, i, t) {
            let j = choose|j: int|
                0 <= j < i && (#[trigger] traces[j]).tx_index == t && traces[j].tx_status
                    == status;
            assert(traces[j].tx_index == traces[i].tx_index);
        }
        lemma_no_frames_fault(traces, tx_count, i + 1);
    }
}

/// A spec that is faithful to its block is accepted: it is the block's own, its
/// regions locate the block's rows, its status bits are those of the frames, and
/// only the frames' region has any.
pub proof fn law_faithful_specs_validate(
    spec: ExternalPayloadSpec,
    number: u64,
    block: FinalizedBlock,
)
    requires
        spec.block_number == number,
        block.logs_by_tx@.len() == block.txs@.len(),
        forall|t: int|
            0 <= t < block.logs_by_tx@.len() ==> (#[trigger] block.logs_by_tx@[t])@.len()
                <= u32::MAX,
        frames_agree(block.traces@, block.txs@.len() as int),
        spec.txs.fault(Seq::new(block.txs@.len(), |t: int| 1u32), true) is None,
        spec.logs.fault(log_counts(block), false) is None,
        spec.traces.fault(frame_counts(block), false) is None,
        spec.txs.container_status@.len() == 0,
        spec.logs.container_status@.len() == 0,
        spec.traces.container_status@.len() == (block.txs@.len() + 7) / 8,
        forall|i: int|
            0 <= i < block.traces@.len() ==> (#[trigger] block.traces@[i]).tx_status == status_bit(
                spec.traces.container_status@,
                block.traces@[i].tx_index as int,
            ),
        block.txs@.len() % 8 != 0 ==> spec.traces.container_status@.last() >> ((block.txs@.len()
            % 8) as u8) == 0,
    ensures
        spec.fault(number, block) is None,
{
    let n = block.txs@.len() as int;
    lemma_no_frames_fault(block.traces@, n, 0);
    let statuses = expected_statuses(spec, block);
    assert forall|t: int| 0 <= t < statuses.len() implies #[trigger] statuses[t] == status_bit(
        spec.traces.container_status@,
        t,
    ) by {
        lemma_status_comes_from_a_frame(block.traces@, block.traces@.len() as int, t);
    }
    assert(spec.traces.status_fault(statuses) is None);
    assert(!log_count_overflows(block));
}

} // verus!
