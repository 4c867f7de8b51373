//! Counters of the ingest pipeline's timing probe.

use vstd::prelude::*;

use crate::write::family::FamilyRanges;

verus! {

/// A point-in-time copy of every counter. Times are cumulative nanoseconds.
#[derive(Debug, Clone, Copy, PartialEq, Eq, Structural)]
pub struct ProbeSnapshot {
    pub blocks: u64,
    pub producer_send_data_blocked_ns: u64,
    pub producer_send_index_blocked_ns: u64,
    pub fetch_decode_ns: u64,
    pub data_recv_blocked_ns: u64,
    pub data_encode_ns: u64,
    pub data_flush_ns: u64,
    pub index_recv_blocked_ns: u64,
    pub index_work_ns: u64,
    pub index_write_ns: u64,
    pub index_ckpt_wait_ns: u64,
    pub txs: u64,
    pub logs: u64,
    pub callframes: u64,
}

/// Subtraction that stops at zero.
pub open spec fn monus(a: u64, b: u64) -> u64 {
    if a > b {
        (a - b) as u64
    } else {
        0
    }
}

/// Addition that wraps around, as counters do.
pub open spec fn wrapped(a: u64, b: u64) -> int {
    if a + b > u64::MAX {
        a + b - u64::MAX - 1
    } else {
        a + b
    }
}

fn less(a: u64, b: u64) -> (rest: u64)
    ensures
        rest == monus(a, b),
{
    if a > b {
        a - b
    } else {
        0
    }
}

impl ProbeSnapshot {
    /// Counts one block plus its primary entities.
    pub fn count_block(&mut self, ranges: &FamilyRanges)
        ensures
            final(self).blocks == wrapped(old(self).blocks, 1),
            final(self).logs == wrapped(old(self).logs, ranges.log_count as u64),
            final(self).txs == wrapped(old(self).txs, ranges.tx_count as u64),
            final(self).callframes == wrapped(old(self).callframes, ranges.trace_count as u64),
            *final(self) == (ProbeSnapshot {
                blocks: final(self).blocks,
                logs: final(self).logs,
                txs: final(self).txs,
                callframes: final(self).callframes,
                ..*old(self)
            }),
    {
        self.blocks = self.blocks.wrapping_add(1);
        self.logs = self.logs.wrapping_add(ranges.log_count as u64);
        self.txs = self.txs.wrapping_add(ranges.tx_count as u64);
        self.callframes = self.callframes.wrapping_add(ranges.trace_count as u64);
    }

    /// The counters' growth since an earlier copy, field by field, never below
    /// zero.
    pub fn since(&self, earlier: &ProbeSnapshot) -> (delta: ProbeSnapshot)
        ensures
            delta == (ProbeSnapshot {
                blocks: monus(self.blocks, earlier.blocks),
                producer_send_data_blocked_ns: monus(
                    self.producer_send_data_blocked_ns,
                    earlier.producer_send_data_blocked_ns,
                ),
                producer_send_index_blocked_ns: monus(
                    self.producer_send_index_blocked_ns,
                    earlier.producer_send_index_blocked_ns,
                ),
                fetch_decode_ns: monus(self.fetch_decode_ns, earlier.fetch_decode_ns),
                data_recv_blocked_ns: monus(
                    self.data_recv_blocked_ns,
                    earlier.data_recv_blocked_ns,
                ),
                data_encode_ns: monus(self.data_encode_ns, earlier.data_encode_ns),
                data_flush_ns: monus(self.data_flush_ns, earlier.data_flush_ns),
                index_recv_blocked_ns: monus(
                    self.index_recv_blocked_ns,
                    earlier.index_recv_blocked_ns,
                ),
                index_work_ns: monus(self.index_work_ns, earlier.index_work_ns),
                index_write_ns: monus(self.index_write_ns, earlier.index_write_ns),
                index_ckpt_wait_ns: monus(self.index_ckpt_wait_ns, earlier.index_ckpt_wait_ns),
                txs: monus(self.txs, earlier.txs),
                logs: monus(self.logs, earlier.logs),
                callframes: monus(self.callframes, earlier.callframes),
            }),
    {
        ProbeSnapshot {
            blocks: less(self.blocks, earlier.blocks),
            producer_send_data_blocked_ns: less(
                self.producer_send_data_blocked_ns,
                earlier.producer_send_data_blocked_ns,
            ),
            producer_send_index_blocked_ns: less(
                self.producer_send_index_blocked_ns,
                earlier.producer_send_index_blocked_ns,
            ),
            fetch_decode_ns: less(self.fetch_decode_ns, earlier.fetch_decode_ns),
            data_recv_blocked_ns: less(self.data_recv_blocked_ns, earlier.data_recv_blocked_ns),
            data_encode_ns: less(self.data_encode_ns, earlier.data_encode_ns),
            data_flush_ns: less(self.data_flush_ns, earlier.data_flush_ns),
            index_recv_blocked_ns: less(self.index_recv_blocked_ns, earlier.index_recv_blocked_ns),
            index_work_ns: less(self.index_work_ns, earlier.index_work_ns),
            index_write_ns: less(self.index_write_ns, earlier.index_write_ns),
            index_ckpt_wait_ns: less(self.index_ckpt_wait_ns, earlier.index_ckpt_wait_ns),
            txs: less(self.txs, earlier.txs),
            logs: less(self.logs, earlier.logs),
            callframes: less(self.callframes, earlier.callframes),
        }
    }

    /// Index CPU time: total work without its store I/O and cross-track waits.
    pub fn index_cpu_ns(&self) -> (cpu: u64)
        ensures
            cpu == monus(monus(self.index_work_ns, self.index_write_ns), self.index_ckpt_wait_ns),
    {
        less(less(self.index_work_ns, self.index_write_ns), self.index_ckpt_wait_ns)
    }
}

} // verus!
