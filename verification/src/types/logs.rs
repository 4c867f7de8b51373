//! Log rows.

use vstd::prelude::*;

use crate::be::lemma_be_limit_values;
use crate::errors::{QueryError, Result};
use crate::primitives::{Address, Hash32};
use crate::rlp::{
    be_min, decode_list, is_fixed, is_uint, item_views, lemma_list_items,
    lemma_payload_items, lemma_uint_item, list_items, payload_items, read_bytes20, read_bytes32,
    read_u32, rlp_items, rlp_list, split_items, uint_of, ListWriter, RlpItem,
};

verus! {

/// A log as queries return it.
#[derive(Debug, Clone, PartialEq, Eq)]
pub struct LogEntry {
    pub block_number: u64,
    pub block_hash: Hash32,
    pub tx_index: u32,
    pub log_index: u32,
    pub address: Address,
    pub topics: Vec<Hash32>,
    pub data: Vec<u8>,
}

/// Per-log fields stored in block blob (block-level fields reconstructed at read time).
#[derive(Debug, Clone, PartialEq, Eq)]
pub struct StoredLog {
    pub tx_index: u32,
    pub log_index: u32,
    pub address: Address,
    pub topics: Vec<Hash32>,
    pub data: Vec<u8>,
}

/// One 32-byte string per topic.
pub open spec fn topic_items(topics: Seq<Hash32>) -> Seq<(bool, Seq<u8>)> {
    Seq::new(topics.len(), |i: int| (false, topics[i]@))
}

/// A list made of 32-byte strings only.
pub open spec fn is_topic_list(item: (bool, Seq<u8>)) -> bool {
    &&& item.0
    &&& payload_items(item.1) matches Some(items) && forall|i: int|
        0 <= i < items.len() ==> #[trigger] is_fixed(items[i], 32)
}

/// The fields a stored log row must have: two 32-bit integers, an address, a
/// list of topics and the data.
pub open spec fn is_log_row(items: Seq<(bool, Seq<u8>)>) -> bool {
    &&& items.len() == 5
    &&& is_uint(items[0], 4)
    &&& is_uint(items[1], 4)
    &&& is_fixed(items[2], 20)
    &&& is_topic_list(items[3])
    &&& !items[4].0
}

impl StoredLog {
    /// The row's fields as RLP items.
    pub open spec fn items(&self) -> Seq<(bool, Seq<u8>)> {
        seq![
            (false, be_min(self.tx_index as nat)),
            (false, be_min(self.log_index as nat)),
            (false, self.address@),
            (true, rlp_items(topic_items(self.topics@))),
            (false, self.data@),
        ]
    }

    /// This log is what the row's items say.
    pub open spec fn reads(&self, items: Seq<(bool, Seq<u8>)>) -> bool {
        &&& self.tx_index as nat == uint_of(items[0])
        &&& self.log_index as nat == uint_of(items[1])
        &&& self.address@ == items[2].1
        &&& payload_items(items[3].1) == Some(topic_items(self.topics@))
        &&& self.data@ == items[4].1
    }

    /// RLP-encodes this log.
    pub fn encode(&self) -> (bytes: Vec<u8>)
        ensures
            bytes@ == rlp_list(self.items()),
    {
        let mut topics = ListWriter::new();
        let mut i: usize = 0;
        while i < self.topics.len()
            invariant
                i <= self.topics@.len(),
                topics.wf(),
                topics.items() =~= topic_items(self.topics@).take(i as int),
            decreases self.topics@.len() - i,
        {
            topics.string(self.topics[i].as_slice());
            i = i + 1;
        }
        let mut row = ListWriter::new();
        row.uint(self.tx_index as u64);
        row.uint(self.log_index as u64);
        row.string(self.address.as_slice());
        row.list(&topics);
        row.string(&self.data);
        proof {
            assert(topics.items() =~= topic_items(self.topics@));
            assert(row.items() =~= self.items());
        }
        row.finish()
    }

    /// RLP-decodes a log from bytes.
    pub fn decode(bytes: &[u8]) -> (result: Result<StoredLog>)
        ensures
            match result {
                Ok(log) => list_items(bytes@) matches Some(items) && is_log_row(items) && log.reads(
                    items,
                ),
                Err(error) => {
                    &&& !(list_items(bytes@) matches Some(items) && is_log_row(items))
                    &&& error == QueryError::Decode("invalid log entry rlp")
                },
            },
    {
        match StoredLog::decode_fields(bytes) {
            Some(log) => Ok(log),
            None => Err(QueryError::Decode("invalid log entry rlp")),
        }
    }

    fn decode_fields(bytes: &[u8]) -> (log: Option<StoredLog>)
        ensures
            match log {
                Some(log) => list_items(bytes@) matches Some(items) && is_log_row(items)
                    && log.reads(items),
                None => !(list_items(bytes@) matches Some(items) && is_log_row(items)),
            },
    {
        let items = match decode_list(bytes) {
            Some(items) => items,
            None => return None,
        };
        if items.len() != 5 {
            return None;
        }
        let tx_index: u32 = match read_u32(&items[0]) {
            Some(value) => value,
            None => return None,
        };
        let log_index: u32 = match read_u32(&items[1]) {
            Some(value) => value,
            None => return None,
        };
        let address = match read_bytes20(&items[2]) {
            Some(value) => value,
            None => return None,
        };
        let topics = match read_topics(&items[3]) {
            Some(value) => value,
            None => return None,
        };
        if items[4].list {
            return None;
        }
        let data = vstd::slice::slice_to_vec(items[4].payload);
        Some(StoredLog { tx_index, log_index, address, topics, data })
    }

    /// Expands this stored log with block metadata into a full `LogEntry`.
    pub fn into_log_entry(self, block_number: u64, block_hash: Hash32) -> (entry: LogEntry)
        ensures
            entry == (LogEntry {
                block_number,
                block_hash,
                tx_index: self.tx_index,
                log_index: self.log_index,
                address: self.address,
                topics: self.topics,
                data: self.data,
            }),
    {
        LogEntry {
            block_number,
            block_hash,
            tx_index: self.tx_index,
            log_index: self.log_index,
            address: self.address,
            topics: self.topics,
            data: self.data,
        }
    }
}

fn read_topics(item: &RlpItem) -> (topics: Option<Vec<Hash32>>)
    ensures
        match topics {
            Some(topics) => is_topic_list(item@) && payload_items(item@.1) == Some(
                topic_items(topics@),
            ),
            None => !is_topic_list(item@),
        },
{
    if !item.list {
        return None;
    }
    let items = match split_items(item.payload) {
        Some(items) => items,
        None => return None,
    };
    let mut topics: Vec<Hash32> = Vec::new();
    let mut i: usize = 0;
    while i < items.len()
        invariant
            i <= items@.len(),
            item.list,
            payload_items(item.payload@) == Some(item_views(items@)),
            topics@.len() == i,
            forall|j: int| 0 <= j < i ==> #[trigger] is_fixed(item_views(items@)[j], 32),
            forall|j: int| 0 <= j < i ==> (#[trigger] topics@[j])@ == items@[j]@.1,
        decreases items@.len() - i,
    {
        match read_bytes32(&items[i]) {
            Some(topic) => topics.push(topic),
            None => {
                proof {
                    let parts = payload_items(item@.1)->0;
                    assert(parts == item_views(items@));
                    assert(!is_fixed(parts[i as int], 32));
                }
                return None;
            },
        }
        assert(is_fixed(item_views(items@)[i as int], 32));
        i = i + 1;
    }
    proof {
        assert forall|j: int| 0 <= j < items@.len() implies item_views(items@)[j] == topic_items(
            topics@,
        )[j] by {
            assert(is_fixed(item_views(items@)[j], 32));
            assert(topics@[j]@ == items@[j]@.1);
        }
        assert(item_views(items@) =~= topic_items(topics@));
    }
    Some(topics)
}

/// Whatever a log encodes to decodes to a log with the same fields.
pub proof fn law_log_round_trip(log: StoredLog, decoded: StoredLog)
    requires
        rlp_list(log.items()).len() <= u64::MAX,
        list_items(rlp_list(log.items())) matches Some(items) ==> is_log_row(items) ==> decoded.reads(
            items,
        ),
    ensures
        list_items(rlp_list(log.items())) matches Some(items) && is_log_row(items),
        decoded.tx_index == log.tx_index,
        decoded.log_index == log.log_index,
        decoded.address == log.address,
        decoded.topics@ == log.topics@,
        decoded.data@ == log.data@,
{
    let items = log.items();
    lemma_list_items(items);
    lemma_be_limit_values();
    lemma_uint_item(log.tx_index as nat, 4);
    lemma_uint_item(log.log_index as nat, 4);
    let topics = topic_items(log.topics@);
    crate::rlp::lemma_list_bounds(items, 3);
    lemma_payload_items(topics);
    assert(is_topic_list(items[3])) by {
        assert forall|i: int| 0 <= i < topics.len() implies #[trigger] is_fixed(topics[i], 32) by {}
    }
    assert(decoded.address =~= log.address);
    let back = topic_items(decoded.topics@);
    assert(back == topics);
    assert forall|i: int| 0 <= i < topics.len() implies decoded.topics@[i] == log.topics@[i] by {
        assert(back[i] == topics[i]);
        assert(decoded.topics@[i] =~= log.topics@[i]);
    }
    assert(decoded.topics@.len() == back.len());
    assert(decoded.topics@ =~= log.topics@);
}

} // verus!
