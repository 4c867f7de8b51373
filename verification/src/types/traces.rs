//! Call-frame rows.

use vstd::prelude::*;

use crate::be::{be_value, lemma_be_bytes_of_value, lemma_be_limit_values};
use crate::errors::{QueryError, Result};
use crate::primitives::{Address, CallKind, Hash32, U256};
use crate::rlp::{
    array20, be_min, decode_list, is_fixed, is_uint, item_views, lemma_list_bounds,
    lemma_list_items, lemma_payload_items, lemma_uint_item, list_items, payload_items,
    read_bytes20, read_u32, read_u8, read_uint, read_uint256, rlp_items, rlp_list, split_items,
    uint_of, ListWriter, RlpItem,
};
use crate::types::ingest_types::IngestTrace;
pub use crate::types::reverts::compute_ancestor_reverted;
pub use crate::types::trace_address::compute_trace_addresses;

verus! {

/// Public, owned per-trace view returned by queries.
#[derive(Debug, Clone, PartialEq, Eq)]
pub struct TraceEntry {
    pub block_number: u64,
    pub block_hash: Hash32,
    pub tx_index: u32,
    pub trace_address: Vec<u32>,
    pub typ: CallKind,
    pub from: Address,
    pub to: Option<Address>,
    pub value: U256,
    pub gas: u64,
    pub gas_used: u64,
    pub input: Vec<u8>,
    pub output: Vec<u8>,
    pub status: u8,
    pub depth: u32,
    pub tx_status: bool,
}

/// The first four bytes of call input, when there are four.
pub open spec fn spec_selector(input: Seq<u8>) -> Option<Seq<u8>> {
    if input.len() < 4 {
        None
    } else {
        Some(input.take(4))
    }
}

impl TraceEntry {
    pub fn is_top_level(&self) -> (top: bool)
        ensures
            top == (self.trace_address@.len() == 0),
    {
        self.trace_address.is_empty()
    }

    /// Extracts the 4-byte function selector from call input.
    pub fn selector(&self) -> (selector: Option<[u8; 4]>)
        ensures
            match selector {
                Some(selector) => spec_selector(self.input@) == Some(selector@),
                None => spec_selector(self.input@) is None,
            },
    {
        selector_from_input(&self.input)
    }
}

/// Extracts 4-byte function selector from call input.
pub fn selector_from_input(input: &[u8]) -> (selector: Option<[u8; 4]>)
    ensures
        match selector {
            Some(selector) => spec_selector(input@) == Some(selector@),
            None => spec_selector(input@) is None,
        },
{
    if input.len() < 4 {
        None
    } else {
        let selector: [u8; 4] = [input[0], input[1], input[2], input[3]];
        assert(selector@ =~= input@.take(4));
        Some(selector)
    }
}

/// Per-trace fields stored in block trace blob (RLP encoded).
#[derive(Debug, Clone, PartialEq, Eq)]
pub struct StoredTrace {
    pub typ: CallKind,
    pub from: Address,
    pub to: Option<Address>,
    pub value: U256,
    pub gas: u64,
    pub gas_used: u64,
    pub input: Vec<u8>,
    pub output: Vec<u8>,
    pub status: u8,
    pub depth: u32,
    pub tx_index: u32,
    pub trace_address: Vec<u32>,
    pub tx_status: bool,
}

/// An optional address as a byte string: empty when absent.
pub open spec fn to_bytes(to: Option<Address>) -> Seq<u8> {
    match to {
        Some(address) => address@,
        None => Seq::empty(),
    }
}

/// One integer per path step.
pub open spec fn path_items(path: Seq<u32>) -> Seq<(bool, Seq<u8>)> {
    Seq::new(path.len(), |i: int| (false, be_min(path[i] as nat)))
}

/// A list made of 32-bit integers only.
pub open spec fn is_path_list(item: (bool, Seq<u8>)) -> bool {
    &&& item.0
    &&& payload_items(item.1) matches Some(items) && forall|i: int|
        0 <= i < items.len() ==> #[trigger] is_uint(items[i], 4)
}

/// The shape of a trace row, before its kind byte and recipient are looked at.
pub open spec fn is_trace_row(items: Seq<(bool, Seq<u8>)>) -> bool {
    &&& items.len() == 13
    &&& is_uint(items[0], 1)
    &&& is_fixed(items[1], 20)
    &&& !items[2].0
    &&& is_uint(items[3], 32)
    &&& is_uint(items[4], 8)
    &&& is_uint(items[5], 8)
    &&& !items[6].0
    &&& !items[7].0
    &&& is_uint(items[8], 1)
    &&& is_uint(items[9], 4)
    &&& is_uint(items[10], 4)
    &&& is_path_list(items[11])
    &&& is_uint(items[12], 1)
}

/// The call kind a trace row's first item stands for.
pub open spec fn row_kind(items: Seq<(bool, Seq<u8>)>) -> Option<CallKind> {
    CallKind::spec_from_byte(uint_of(items[0]) as u8)
}

impl StoredTrace {
    /// The row's fields as RLP items.
    pub open spec fn items(&self) -> Seq<(bool, Seq<u8>)> {
        seq![
            (false, be_min(self.typ.spec_to_byte() as nat)),
            (false, self.from@),
            (false, to_bytes(self.to)),
            (false, be_min(be_value(self.value@))),
            (false, be_min(self.gas as nat)),
            (false, be_min(self.gas_used as nat)),
            (false, self.input@),
            (false, self.output@),
            (false, be_min(self.status as nat)),
            (false, be_min(self.depth as nat)),
            (false, be_min(self.tx_index as nat)),
            (true, rlp_items(path_items(self.trace_address@))),
            (false, be_min(if self.tx_status { 1nat } else { 0nat })),
        ]
    }

    /// This trace is what the row's items say; any non-zero final byte means the
    /// tx succeeded.
    pub open spec fn reads(&self, items: Seq<(bool, Seq<u8>)>) -> bool {
        &&& row_kind(items) == Some(self.typ)
        &&& self.from@ == items[1].1
        &&& to_bytes(self.to) == items[2].1
        &&& be_value(self.value@) == uint_of(items[3])
        &&& self.gas as nat == uint_of(items[4])
        &&& self.gas_used as nat == uint_of(items[5])
        &&& self.input@ == items[6].1
        &&& self.output@ == items[7].1
        &&& self.status as nat == uint_of(items[8])
        &&& self.depth as nat == uint_of(items[9])
        &&& self.tx_index as nat == uint_of(items[10])
        &&& payload_items(items[11].1) matches Some(steps) && steps.len()
            == self.trace_address@.len() && forall|i: int|
            0 <= i < steps.len() ==> #[trigger] self.trace_address@[i] as nat == uint_of(steps[i])
        &&& self.tx_status == (uint_of(items[12]) != 0)
    }

    /// RLP-encodes this trace.
    pub fn encode(&self) -> (bytes: Vec<u8>)
        ensures
            bytes@ == rlp_list(self.items()),
    {
        let mut path = ListWriter::new();
        let mut i: usize = 0;
        while i < self.trace_address.len()
            invariant
                i <= self.trace_address@.len(),
                path.wf(),
                path.items() =~= path_items(self.trace_address@).take(i as int),
            decreases self.trace_address@.len() - i,
        {
            path.uint(self.trace_address[i] as u64);
            i = i + 1;
        }
        let mut row = ListWriter::new();
        row.uint(self.typ.to_byte() as u64);
        row.string(self.from.as_slice());
        match &self.to {
            Some(address) => row.string(address.as_slice()),
            None => {
                let none: Vec<u8> = Vec::new();
                row.string(&none);
                assert(none@ =~= to_bytes(self.to));
            },
        }
        row.uint256(&self.value);
        row.uint(self.gas);
        row.uint(self.gas_used);
        row.string(&self.input);
        row.string(&self.output);
        row.uint(self.status as u64);
        row.uint(self.depth as u64);
        row.uint(self.tx_index as u64);
        row.list(&path);
        row.uint(if self.tx_status { 1 } else { 0 });
        proof {
            assert(path.items() =~= path_items(self.trace_address@));
            assert(row.items() =~= self.items());
        }
        row.finish()
    }

    /// RLP-decodes a trace from bytes.
    pub fn decode(bytes: &[u8]) -> (result: Result<StoredTrace>)
        ensures
            match (list_items(bytes@), result) {
                (Some(items), Ok(trace)) => is_trace_row(items) && trace.reads(items),
                (Some(items), Err(error)) => if !is_trace_row(items) {
                    error == QueryError::Decode("invalid trace entry rlp")
                } else if row_kind(items) is None {
                    error == QueryError::Decode("invalid trace call kind byte")
                } else {
                    &&& items[2].1.len() != 0 && items[2].1.len() != 20
                    &&& error == QueryError::Decode("invalid trace `to` byte length")
                },
                (None, Ok(_)) => false,
                (None, Err(error)) => error == QueryError::Decode("invalid trace entry rlp"),
            },
    {
        let raw = match decode_raw(bytes) {
            Some(raw) => raw,
            None => return Err(QueryError::Decode("invalid trace entry rlp")),
        };
        let typ = match CallKind::from_byte(raw.typ_byte) {
            Some(typ) => typ,
            None => return Err(QueryError::Decode("invalid trace call kind byte")),
        };
        let to = if raw.to_bytes.len() == 0 {
            None
        } else if raw.to_bytes.len() == 20 {
            Some(array20(raw.to_bytes))
        } else {
            return Err(QueryError::Decode("invalid trace `to` byte length"));
        };
        proof {
            if to is None {
                assert(raw.to_bytes@ =~= Seq::empty());
            }
        }
        Ok(
            StoredTrace {
                typ,
                from: raw.from,
                to,
                value: raw.value,
                gas: raw.gas,
                gas_used: raw.gas_used,
                input: raw.input,
                output: raw.output,
                status: raw.status,
                depth: raw.depth,
                tx_index: raw.tx_index,
                trace_address: raw.trace_address,
                tx_status: raw.tx_status_byte != 0,
            },
        )
    }

    /// Expands this stored trace with block metadata into a full `TraceEntry`.
    pub fn into_trace_entry(self, block_number: u64, block_hash: Hash32) -> (entry: TraceEntry)
        ensures
            entry == (TraceEntry {
                block_number,
                block_hash,
                tx_index: self.tx_index,
                trace_address: self.trace_address,
                typ: self.typ,
                from: self.from,
                to: self.to,
                value: self.value,
                gas: self.gas,
                gas_used: self.gas_used,
                input: self.input,
                output: self.output,
                status: self.status,
                depth: self.depth,
                tx_status: self.tx_status,
            }),
    {
        TraceEntry {
            block_number,
            block_hash,
            tx_index: self.tx_index,
            trace_address: self.trace_address,
            typ: self.typ,
            from: self.from,
            to: self.to,
            value: self.value,
            gas: self.gas,
            gas_used: self.gas_used,
            input: self.input,
            output: self.output,
            status: self.status,
            depth: self.depth,
            tx_status: self.tx_status,
        }
    }

    /// The same fields as an ingested frame.
    pub open spec fn copies(&self, trace: &IngestTrace) -> bool {
        &&& self.typ == trace.typ
        &&& self.from == trace.from
        &&& self.to == trace.to
        &&& self.value == trace.value
        &&& self.gas == trace.gas
        &&& self.gas_used == trace.gas_used
        &&& self.input@ == trace.input@
        &&& self.output@ == trace.output@
        &&& self.status == trace.status
        &&& self.depth == trace.depth
        &&& self.tx_index == trace.tx_index
        &&& self.trace_address@ == trace.trace_address@
        &&& self.tx_status == trace.tx_status
    }

    /// The stored form of an ingested frame.
    pub fn from_ingest(trace: &IngestTrace) -> (stored: StoredTrace)
        ensures
            stored.copies(trace),
    {
        StoredTrace {
            typ: trace.typ,
            from: trace.from,
            to: trace.to,
            value: trace.value,
            gas: trace.gas,
            gas_used: trace.gas_used,
            input: vstd::slice::slice_to_vec(&trace.input),
            output: vstd::slice::slice_to_vec(&trace.output),
            status: trace.status,
            depth: trace.depth,
            tx_index: trace.tx_index,
            trace_address: vstd::slice::slice_to_vec(&trace.trace_address),
            tx_status: trace.tx_status,
        }
    }
}

/// A trace row's fields before their meaning is checked.
struct RawTrace<'a> {
    typ_byte: u8,
    from: Address,
    to_bytes: &'a [u8],
    value: U256,
    gas: u64,
    gas_used: u64,
    input: Vec<u8>,
    output: Vec<u8>,
    status: u8,
    depth: u32,
    tx_index: u32,
    trace_address: Vec<u32>,
    tx_status_byte: u8,
}

impl<'a> RawTrace<'a> {
    spec fn reads(&self, items: Seq<(bool, Seq<u8>)>) -> bool {
        &&& self.typ_byte as nat == uint_of(items[0])
        &&& self.from@ == items[1].1
        &&& self.to_bytes@ == items[2].1
        &&& be_value(self.value@) == uint_of(items[3])
        &&& self.gas as nat == uint_of(items[4])
        &&& self.gas_used as nat == uint_of(items[5])
        &&& self.input@ == items[6].1
        &&& self.output@ == items[7].1
        &&& self.status as nat == uint_of(items[8])
        &&& self.depth as nat == uint_of(items[9])
        &&& self.tx_index as nat == uint_of(items[10])
        &&& payload_items(items[11].1) matches Some(steps) && steps.len()
            == self.trace_address@.len() && forall|i: int|
            0 <= i < steps.len() ==> #[trigger] self.trace_address@[i] as nat == uint_of(steps[i])
        &&& self.tx_status_byte as nat == uint_of(items[12])
    }
}

fn decode_raw<'a>(bytes: &'a [u8]) -> (raw: Option<RawTrace<'a>>)
    ensures
        match raw {
            Some(raw) => list_items(bytes@) matches Some(items) && is_trace_row(items)
                && raw.reads(items),
            None => !(list_items(bytes@) matches Some(items) && is_trace_row(items)),
        },
{
    let items = match decode_list(bytes) {
        Some(items) => items,
        None => return None,
    };
    if items.len() != 13 || items[2].list || items[6].list || items[7].list {
        return None;
    }
    let typ_byte: u8 = match read_u8(&items[0]) {
        Some(value) => value,
        None => return None,
    };
    let from = match read_bytes20(&items[1]) {
        Some(value) => value,
        None => return None,
    };
    let value = match read_uint256(&items[3]) {
        Some(value) => value,
        None => return None,
    };
    let gas: u64 = match read_uint(&items[4], 8) {
        Some(value) => value,
        None => return None,
    };
    let gas_used: u64 = match read_uint(&items[5], 8) {
        Some(value) => value,
        None => return None,
    };
    let status: u8 = match read_u8(&items[8]) {
        Some(value) => value,
        None => return None,
    };
    let depth: u32 = match read_u32(&items[9]) {
        Some(value) => value,
        None => return None,
    };
    let tx_index: u32 = match read_u32(&items[10]) {
        Some(value) => value,
        None => return None,
    };
    let trace_address = match read_path(&items[11]) {
        Some(value) => value,
        None => return None,
    };
    let tx_status_byte: u8 = match read_u8(&items[12]) {
        Some(value) => value,
        None => return None,
    };
    Some(
        RawTrace {
            typ_byte,
            from,
            to_bytes: items[2].payload,
            value,
            gas,
            gas_used,
            input: vstd::slice::slice_to_vec(items[6].payload),
            output: vstd::slice::slice_to_vec(items[7].payload),
            status,
            depth,
            tx_index,
            trace_address,
            tx_status_byte,
        },
    )
}

fn read_path(item: &RlpItem) -> (path: Option<Vec<u32>>)
    ensures
        match path {
            Some(path) => is_path_list(item@) && (payload_items(item@.1) matches Some(steps)
                && steps.len() == path@.len() && forall|i: int|
                0 <= i < steps.len() ==> #[trigger] path@[i] as nat == uint_of(steps[i])),
            None => !is_path_list(item@),
        },
{
    if !item.list {
        return None;
    }
    let items = match split_items(item.payload) {
        Some(items) => items,
        None => return None,
    };
    let ghost steps = payload_items(item@.1)->0;
    let mut path: Vec<u32> = Vec::new();
    let mut i: usize = 0;
    while i < items.len()
        invariant
            i <= items@.len(),
            item.list,
            payload_items(item@.1) == Some(steps),
            steps == item_views(items@),
            path@.len() == i,
            forall|j: int| 0 <= j < i ==> #[trigger] is_uint(steps[j], 4),
            forall|j: int| 0 <= j < i ==> #[trigger] path@[j] as nat == uint_of(steps[j]),
        decreases items@.len() - i,
    {
        match read_u32(&items[i]) {
            Some(step) => path.push(step),
            None => {
                assert(!is_uint(steps[i as int], 4));
                return None;
            },
        }
        assert(is_uint(steps[i as int], 4));
        i = i + 1;
    }
    Some(path)
}

/// A trace is what its own row's items say.
pub proof fn lemma_trace_reads_itself(trace: StoredTrace)
    requires
        rlp_list(trace.items()).len() <= u64::MAX,
    ensures
        list_items(rlp_list(trace.items())) == Some(trace.items()),
        trace.reads(trace.items()),
{
    let items = trace.items();
    lemma_list_items(items);
    lemma_be_limit_values();
    lemma_uint_item(trace.typ.spec_to_byte() as nat, 1);
    lemma_be_bytes_of_value(trace.value@);
    lemma_uint_item(be_value(trace.value@), 32);
    lemma_uint_item(trace.gas as nat, 8);
    lemma_uint_item(trace.gas_used as nat, 8);
    lemma_uint_item(trace.status as nat, 1);
    lemma_uint_item(trace.depth as nat, 4);
    lemma_uint_item(trace.tx_index as nat, 4);
    lemma_uint_item(if trace.tx_status { 1nat } else { 0nat }, 1);
    lemma_list_bounds(items, 11);
    let steps = path_items(trace.trace_address@);
    lemma_payload_items(steps);
    assert forall|i: int| 0 <= i < steps.len() implies #[trigger] trace.trace_address@[i] as nat
        == uint_of(steps[i]) by {
        lemma_uint_item(trace.trace_address@[i] as nat, 4);
    }
}

/// Whatever a trace encodes to decodes to a trace with the same fields.
pub proof fn law_trace_round_trip(trace: StoredTrace, decoded: StoredTrace)
    requires
        rlp_list(trace.items()).len() <= u64::MAX,
        list_items(rlp_list(trace.items())) matches Some(items) ==> decoded.reads(items),
    ensures
        list_items(rlp_list(trace.items())) matches Some(items) && is_trace_row(items) && row_kind(
            items,
        ) is Some && (items[2].1.len() == 0 || items[2].1.len() == 20),
        decoded.typ == trace.typ,
        decoded.from == trace.from,
        decoded.to == trace.to,
        decoded.value == trace.value,
        decoded.gas == trace.gas,
        decoded.gas_used == trace.gas_used,
        decoded.input@ == trace.input@,
        decoded.output@ == trace.output@,
        decoded.status == trace.status,
        decoded.depth == trace.depth,
        decoded.tx_index == trace.tx_index,
        decoded.trace_address@ == trace.trace_address@,
        decoded.tx_status == trace.tx_status,
{
    let items = trace.items();
    lemma_list_items(items);
    lemma_be_limit_values();
    lemma_uint_item(trace.typ.spec_to_byte() as nat, 1);
    lemma_be_bytes_of_value(trace.value@);
    lemma_be_bytes_of_value(decoded.value@);
    lemma_uint_item(be_value(trace.value@), 32);
    lemma_uint_item(trace.gas as nat, 8);
    lemma_uint_item(trace.gas_used as nat, 8);
    lemma_uint_item(trace.status as nat, 1);
    lemma_uint_item(trace.depth as nat, 4);
    lemma_uint_item(trace.tx_index as nat, 4);
    lemma_uint_item(if trace.tx_status { 1nat } else { 0nat }, 1);
    lemma_list_bounds(items, 11);
    let steps = path_items(trace.trace_address@);
    lemma_payload_items(steps);
    assert forall|i: int| 0 <= i < steps.len() implies #[trigger] is_uint(steps[i], 4) && uint_of(
        steps[i],
    ) == trace.trace_address@[i] by {
        lemma_uint_item(trace.trace_address@[i] as nat, 4);
    }
    assert(is_path_list(items[11]));
    assert(decoded.trace_address@ =~= trace.trace_address@) by {
        assert forall|i: int| 0 <= i < steps.len() implies decoded.trace_address@[i]
            == trace.trace_address@[i] by {
            assert(is_uint(steps[i], 4));
        }
    }
    assert(decoded.from =~= trace.from);
    assert(decoded.value@ == trace.value@);
    assert(decoded.value =~= trace.value);
    match (decoded.to, trace.to) {
        (Some(a), Some(b)) => {
            assert(a =~= b);
        },
        (Some(a), None) => {
            assert(a@.len() == 20);
        },
        (None, Some(b)) => {
            assert(b@.len() == 20);
        },
        _ => {},
    }
}

} // verus!
