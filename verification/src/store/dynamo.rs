//! DynamoDB key encoding, table layout and request building.

use vstd::prelude::*;
use vstd::string::StringExecFns;
use vstd::utf8::{encode_utf8, encode_utf8_decode_utf8};

use crate::be::{
    be_bytes, lemma_be_bytes_len, lemma_be_limit_values, lemma_be_value_of_bytes, put_u16,
};
use crate::errors::{QueryError, Result};
use crate::primitives::at_least_one;
use crate::rlp::append_bytes;
use crate::store::aws::StaticCredentials;
use crate::store::batch::{
    base64_len, estimated_batch_write_item_bytes, BATCH_WRITE_ITEM_OVERHEAD, BATCH_WRITE_LIMIT,
};
use crate::store::blob::BlobTableId;
use crate::store::meta::{MetaWriteOp, ScannableTableId, TableId};
use crate::text::str_eq;

verus! {

/// Key-kind discriminators folded into `pk`: "kv", "scan", "blob" and
/// "blob_chunk_size".
pub const KIND_KV: [u8; 2] = [0x6b, 0x76];

pub const KIND_SCAN: [u8; 4] = [0x73, 0x63, 0x61, 0x6e];

pub const KIND_BLOB: [u8; 4] = [0x62, 0x6c, 0x6f, 0x62];

pub const KIND_CHUNK_SIZE: [u8; 15] = [
    0x62, 0x6c, 0x6f, 0x62, 0x5f, 0x63, 0x68, 0x75, 0x6e, 0x6b, 0x5f, 0x73, 0x69, 0x7a, 0x65,
];

/// Sort-key sentinel for kv rows, whose `pk` alone identifies them.
pub const SK_SENTINEL: u8 = 0;

/// `u16-be(len(kind)) ∥ kind ∥ u16-be(len(table)) ∥ table ∥ tail`.
pub open spec fn pk_bytes(kind: Seq<u8>, table: Seq<u8>, tail: Seq<u8>) -> Seq<u8> {
    be_bytes(kind.len(), 2) + kind + be_bytes(table.len(), 2) + table + tail
}

/// `pk = u16-be(len(kind)) ∥ kind ∥ u16-be(len(table)) ∥ table ∥ tail`. Length
/// prefixes keep the kind/table boundaries unambiguous; `tail` is the kv key
/// or the scan partition appended raw.
pub fn encode_pk(kind: &[u8], table: &str, tail: &[u8]) -> (pk: Vec<u8>)
    requires
        kind@.len() <= u16::MAX,
        encode_utf8(table@).len() <= u16::MAX,
    ensures
        pk@ == pk_bytes(kind@, encode_utf8(table@), tail@),
{
    let table_bytes = table.as_bytes();
    let mut out: Vec<u8> = Vec::new();
    put_u16(&mut out, kind.len() as u16);
    append_bytes(&mut out, kind);
    put_u16(&mut out, table_bytes.len() as u16);
    append_bytes(&mut out, table_bytes);
    append_bytes(&mut out, tail);
    assert(out@ =~= pk_bytes(kind@, encode_utf8(table@), tail@));
    out
}

/// No two keys of different kinds, tables or tails are alike.
pub proof fn law_pk_unambiguous(
    kind1: Seq<u8>,
    table1: Seq<char>,
    tail1: Seq<u8>,
    kind2: Seq<u8>,
    table2: Seq<char>,
    tail2: Seq<u8>,
)
    requires
        kind1.len() <= u16::MAX,
        kind2.len() <= u16::MAX,
        encode_utf8(table1).len() <= u16::MAX,
        encode_utf8(table2).len() <= u16::MAX,
        pk_bytes(kind1, encode_utf8(table1), tail1) == pk_bytes(kind2, encode_utf8(table2), tail2),
    ensures
        kind1 == kind2,
        table1 == table2,
        tail1 == tail2,
{
    let t1 = encode_utf8(table1);
    let t2 = encode_utf8(table2);
    let s = pk_bytes(kind1, t1, tail1);
    lemma_be_limit_values();
    lemma_be_bytes_len(kind1.len(), 2);
    lemma_be_bytes_len(kind2.len(), 2);
    lemma_be_bytes_len(t1.len(), 2);
    lemma_be_bytes_len(t2.len(), 2);
    lemma_be_value_of_bytes(kind1.len(), 2);
    lemma_be_value_of_bytes(kind2.len(), 2);
    lemma_be_value_of_bytes(t1.len(), 2);
    lemma_be_value_of_bytes(t2.len(), 2);
    assert(s.take(2) =~= be_bytes(kind1.len(), 2));
    assert(s.take(2) =~= be_bytes(kind2.len(), 2));
    let k = kind1.len() as int;
    assert(s.subrange(2, 2 + k) =~= kind1);
    assert(s.subrange(2, 2 + k) =~= kind2);
    assert(s.subrange(2 + k, 4 + k) =~= be_bytes(t1.len(), 2));
    assert(s.subrange(2 + k, 4 + k) =~= be_bytes(t2.len(), 2));
    let t = t1.len() as int;
    assert(s.subrange(4 + k, 4 + k + t) =~= t1);
    assert(s.subrange(4 + k, 4 + k + t) =~= t2);
    assert(s.skip(4 + k + t) =~= tail1);
    assert(s.skip(4 + k + t) =~= tail2);
    encode_utf8_decode_utf8(table1);
    encode_utf8_decode_utf8(table2);
}

/// Keys of different kinds never collide, whatever their tables and tails.
pub proof fn law_kinds_disjoint(
    table1: Seq<char>,
    tail1: Seq<u8>,
    table2: Seq<char>,
    tail2: Seq<u8>,
)
    requires
        encode_utf8(table1).len() <= u16::MAX,
        encode_utf8(table2).len() <= u16::MAX,
    ensures
        pk_bytes(KIND_KV@, encode_utf8(table1), tail1) != pk_bytes(
            KIND_SCAN@,
            encode_utf8(table2),
            tail2,
        ),
        pk_bytes(KIND_KV@, encode_utf8(table1), tail1) != pk_bytes(
            KIND_BLOB@,
            encode_utf8(table2),
            tail2,
        ),
        pk_bytes(KIND_SCAN@, encode_utf8(table1), tail1) != pk_bytes(
            KIND_BLOB@,
            encode_utf8(table2),
            tail2,
        ),
        pk_bytes(KIND_CHUNK_SIZE@, encode_utf8(table1), tail1) != pk_bytes(
            KIND_BLOB@,
            encode_utf8(table2),
            tail2,
        ),
{
    assert(KIND_SCAN@[0] == 0x73 && KIND_BLOB@[0] == 0x62);
    if pk_bytes(KIND_KV@, encode_utf8(table1), tail1) == pk_bytes(
        KIND_SCAN@,
        encode_utf8(table2),
        tail2,
    ) {
        law_pk_unambiguous(KIND_KV@, table1, tail1, KIND_SCAN@, table2, tail2);
    }
    if pk_bytes(KIND_KV@, encode_utf8(table1), tail1) == pk_bytes(
        KIND_BLOB@,
        encode_utf8(table2),
        tail2,
    ) {
        law_pk_unambiguous(KIND_KV@, table1, tail1, KIND_BLOB@, table2, tail2);
    }
    if pk_bytes(KIND_SCAN@, encode_utf8(table1), tail1) == pk_bytes(
        KIND_BLOB@,
        encode_utf8(table2),
        tail2,
    ) {
        law_pk_unambiguous(KIND_SCAN@, table1, tail1, KIND_BLOB@, table2, tail2);
    }
    if pk_bytes(KIND_CHUNK_SIZE@, encode_utf8(table1), tail1) == pk_bytes(
        KIND_BLOB@,
        encode_utf8(table2),
        tail2,
    ) {
        law_pk_unambiguous(KIND_CHUNK_SIZE@, table1, tail1, KIND_BLOB@, table2, tail2);
    }
}

pub fn kv_pk(table: TableId, key: &[u8]) -> (pk: Vec<u8>)
    requires
        encode_utf8(table@).len() <= u16::MAX,
    ensures
        pk@ == pk_bytes(KIND_KV@, encode_utf8(table@), key@),
{
    let kind: [u8; 2] = KIND_KV;
    encode_pk(kind.as_slice(), table.as_str(), key)
}

pub fn scan_pk(table: ScannableTableId, partition: &[u8]) -> (pk: Vec<u8>)
    requires
        encode_utf8(table@).len() <= u16::MAX,
    ensures
        pk@ == pk_bytes(KIND_SCAN@, encode_utf8(table@), partition@),
{
    let kind: [u8; 4] = KIND_SCAN;
    encode_pk(kind.as_slice(), table.as_str(), partition)
}

/// `pk` for a blob: the metastore's length-prefixed `(kind, table, tail)`
/// encoding with the `"blob"` kind and the blob key as the tail.
pub fn blob_pk(table: BlobTableId, key: &[u8]) -> (pk: Vec<u8>)
    requires
        encode_utf8(table@).len() <= u16::MAX,
    ensures
        pk@ == pk_bytes(KIND_BLOB@, encode_utf8(table@), key@),
{
    let kind: [u8; 4] = KIND_BLOB;
    encode_pk(kind.as_slice(), table.as_str(), key)
}

/// `pk` of the physical table's single chunk-size marker item (the logical
/// table and tail are empty: the chunk size is a per-physical-table property).
pub fn chunk_size_marker_pk() -> (pk: Vec<u8>)
    ensures
        pk@ == pk_bytes(KIND_CHUNK_SIZE@, Seq::empty(), Seq::empty()),
{
    proof {
        reveal_strlit("");
        assert(encode_utf8(""@) =~= Seq::empty());
    }
    let kind: [u8; 15] = KIND_CHUNK_SIZE;
    let tail: Vec<u8> = Vec::new();
    assert(tail@ =~= Seq::empty());
    encode_pk(kind.as_slice(), "", &tail)
}

/// A name with every underscore turned into a hyphen.
pub open spec fn safe_name(name: Seq<char>) -> Seq<char> {
    Seq::new(
        name.len(),
        |i: int|
            if name[i] == '_' {
                '-'
            } else {
                name[i]
            },
    )
}

/// `str::replace` of underscores by hyphens: every character is kept but the
/// underscores, which become hyphens.
#[verifier::external_body]
fn replace_underscores(name: &str) -> (replaced: String)
    ensures
        replaced@ == safe_name(name@),
{
    name.replace('_', "-")
}

/// A logical table name as DynamoDB accepts it.
pub fn dynamo_safe_name(logical_table: &str) -> (name: String)
    ensures
        name@ == safe_name(logical_table@),
{
    replace_underscores(logical_table)
}

/// Physical DynamoDB table mapping for logical metadata tables.
#[derive(Debug, Clone)]
pub enum DynamoTableLayout {
    /// All kv/scan/cas rows share one physical DynamoDB table.
    Single { table_name: String },
    /// Each logical table id maps to one physical DynamoDB table named
    /// `{prefix}-{logical-table-name}` after Dynamo-safe normalization.
    /// `logical_names` is the engine-supplied catalog of logical table names to
    /// provision; this crate stays generic and never hard-codes the set.
    PerLogicalTable { prefix: String, logical_names: Vec<String> },
}

/// The physical name of a logical table.
pub open spec fn per_table_name(prefix: Seq<char>, logical: Seq<char>) -> Seq<char> {
    prefix + "-"@ + safe_name(logical)
}

fn join_table_name(prefix: &str, logical: &str) -> (name: String)
    ensures
        name@ == per_table_name(prefix@, logical@),
{
    let mut name = prefix.to_owned();
    name.append("-");
    let safe = dynamo_safe_name(logical);
    name.append(safe.as_str());
    name
}

impl DynamoTableLayout {
    pub fn single(table_name: String) -> (layout: DynamoTableLayout)
        ensures
            layout == (DynamoTableLayout::Single { table_name }),
    {
        DynamoTableLayout::Single { table_name }
    }

    /// Where a logical table's rows live.
    pub open spec fn spec_table_name_for(&self, logical: Seq<char>) -> Seq<char> {
        match self {
            DynamoTableLayout::Single { table_name } => table_name@,
            DynamoTableLayout::PerLogicalTable { prefix, .. } => per_table_name(prefix@, logical),
        }
    }

    pub fn table_name_for(&self, logical_table: &str) -> (name: String)
        ensures
            name@ == self.spec_table_name_for(logical_table@),
    {
        match self {
            DynamoTableLayout::Single { table_name } => table_name.clone(),
            DynamoTableLayout::PerLogicalTable { prefix, .. } => join_table_name(
                prefix.as_str(),
                logical_table,
            ),
        }
    }

    /// Every physical table to provision.
    pub fn physical_table_names(&self) -> (names: Vec<String>)
        ensures
            match self {
                DynamoTableLayout::Single { table_name } => names@.len() == 1 && names@[0]@
                    == table_name@,
                DynamoTableLayout::PerLogicalTable { prefix, logical_names } => {
                    &&& names@.len() == logical_names@.len()
                    &&& forall|i: int|
                        0 <= i < names@.len() ==> (#[trigger] names@[i])@ == per_table_name(
                            prefix@,
                            logical_names@[i]@,
                        )
                },
            },
    {
        let mut names: Vec<String> = Vec::new();
        match self {
            DynamoTableLayout::Single { table_name } => {
                names.push(table_name.clone());
            },
            DynamoTableLayout::PerLogicalTable { prefix, logical_names } => {
                let mut i: usize = 0;
                while i < logical_names.len()
                    invariant
                        i <= logical_names@.len(),
                        names@.len() == i,
                        forall|j: int|
                            0 <= j < i ==> (#[trigger] names@[j])@ == per_table_name(
                                prefix@,
                                logical_names@[j]@,
                            ),
                    decreases logical_names@.len() - i,
                {
                    names.push(join_table_name(prefix.as_str(), logical_names[i].as_str()));
                    i = i + 1;
                }
            },
        }
        names
    }
}

/// Construction parameters for a DynamoDB metadata store.
#[derive(Clone)]
pub struct DynamoMetaStoreConfig {
    /// Physical table layout for logical kv/scan/cas rows.
    pub table_layout: DynamoTableLayout,
    /// Endpoints for DynamoDB Local / Alternator; empty targets real AWS.
    /// Multiple endpoints get one client each, round-robined to spread
    /// coordinator load (Alternator nodes are peers).
    pub endpoint_urls: Vec<String>,
    /// AWS region. `None` falls through to the default region provider chain.
    /// DynamoDB Local / Alternator accept any value (commonly `"us-east-1"`).
    pub region: Option<String>,
    /// AWS profile name. `None` uses the SDK default profile/environment chain.
    pub profile: Option<String>,
    /// Max in-flight `BatchWriteItem` calls per batch. Clamped to >= 1.
    pub batch_max_concurrency: usize,
    /// Max in-flight `BatchWriteItem` calls per physical table. Clamped to >= 1.
    pub batch_table_max_concurrency: usize,
    /// Max write requests per `BatchWriteItem`. DynamoDB caps this at 25
    /// ([`BATCH_WRITE_LIMIT`]); Alternator defaults to 100. Clamped to >= 1.
    pub batch_write_max_items: usize,
    /// Explicit static credentials. `None` uses the ambient AWS credential
    /// chain (env, profile, instance role, ...).
    pub credentials: Option<StaticCredentials>,
}

fn clamp_to_one(n: usize) -> (clamped: usize)
    ensures
        clamped == at_least_one(n as int),
{
    if n == 0 {
        1
    } else {
        n
    }
}

impl DynamoMetaStoreConfig {
    /// Minimal config targeting real AWS DynamoDB with ambient credentials
    /// and the default region chain.
    pub fn new(table_name: String) -> (config: DynamoMetaStoreConfig)
        ensures
            config.table_layout == (DynamoTableLayout::Single { table_name }),
            config.endpoint_urls@.len() == 0,
            config.region is None,
            config.profile is None,
            config.batch_max_concurrency == 16,
            config.batch_table_max_concurrency == 16,
            config.batch_write_max_items == BATCH_WRITE_LIMIT,
            config.credentials is None,
    {
        DynamoMetaStoreConfig {
            table_layout: DynamoTableLayout::single(table_name),
            endpoint_urls: Vec::new(),
            region: None,
            profile: None,
            batch_max_concurrency: 16,
            batch_table_max_concurrency: 16,
            batch_write_max_items: BATCH_WRITE_LIMIT,
            credentials: None,
        }
    }

    /// The limits a store runs with: batches in flight, batches in flight per
    /// table, and requests per batch, each at least one.
    pub fn effective_limits(&self) -> (limits: (usize, usize, usize))
        ensures
            limits == (
                at_least_one(self.batch_max_concurrency as int) as usize,
                at_least_one(self.batch_table_max_concurrency as int) as usize,
                at_least_one(self.batch_write_max_items as int) as usize,
            ),
    {
        (
            clamp_to_one(self.batch_max_concurrency),
            clamp_to_one(self.batch_table_max_concurrency),
            clamp_to_one(self.batch_write_max_items),
        )
    }
}

/// One row to put: partition key, sort key and value.
#[derive(Debug, Clone)]
pub struct RowPut {
    pub partition_key: Vec<u8>,
    pub sort_key: Vec<u8>,
    pub row_data: Vec<u8>,
}

/// The name of the logical table a write goes to.
pub open spec fn op_table(op: MetaWriteOp) -> Seq<char> {
    match op {
        MetaWriteOp::Put { table, .. } => table@,
        MetaWriteOp::ScanPut { table, .. } => table@,
    }
}

/// The row a write puts.
pub open spec fn is_row_of(row: RowPut, op: MetaWriteOp) -> bool {
    match op {
        MetaWriteOp::Put { table, row_key, row_data } => {
            &&& row.partition_key@ == pk_bytes(KIND_KV@, encode_utf8(table@), row_key@)
            &&& row.sort_key@ == seq![SK_SENTINEL]
            &&& row.row_data@ == row_data@
        },
        MetaWriteOp::ScanPut { table, partition, clustering_key, row_data } => {
            &&& row.partition_key@ == pk_bytes(KIND_SCAN@, encode_utf8(table@), partition@)
            &&& row.sort_key@ == clustering_key@
            &&& row.row_data@ == row_data@
        },
    }
}

/// Wire size of a row put.
pub open spec fn row_wire_bytes(row: RowPut) -> int {
    BATCH_WRITE_ITEM_OVERHEAD + base64_len(row.partition_key@.len() as int) + base64_len(
        row.sort_key@.len() as int,
    ) + base64_len(row.row_data@.len() as int)
}

/// A write whose table name fits a key and whose wire size fits a machine word.
pub open spec fn op_fits(op: MetaWriteOp) -> bool {
    &&& encode_utf8(op_table(op)).len() <= u16::MAX
    &&& forall|row: RowPut| #[trigger] is_row_of(row, op) ==> row_wire_bytes(row) <= usize::MAX
}

/// Turns a metadata batch into put requests: physical table, row and estimated
/// wire bytes, in order.
pub fn put_requests(layout: &DynamoTableLayout, writes: &[MetaWriteOp]) -> (requests: Vec<
    (String, RowPut, usize),
>)
    requires
        forall|i: int| 0 <= i < writes@.len() ==> #[trigger] op_fits(writes@[i]),
    ensures
        requests@.len() == writes@.len(),
        forall|i: int|
            0 <= i < writes@.len() ==> {
                &&& (#[trigger] requests@[i]).0@ == layout.spec_table_name_for(op_table(writes@[i]))
                &&& is_row_of(requests@[i].1, writes@[i])
                &&& requests@[i].2 == row_wire_bytes(requests@[i].1)
            },
{
    let mut requests: Vec<(String, RowPut, usize)> = Vec::new();
    let mut i: usize = 0;
    while i < writes.len()
        invariant
            i <= writes@.len(),
            forall|j: int| 0 <= j < writes@.len() ==> #[trigger] op_fits(writes@[j]),
            requests@.len() == i,
            forall|j: int|
                0 <= j < i ==> {
                    &&& (#[trigger] requests@[j]).0@ == layout.spec_table_name_for(
                        op_table(writes@[j]),
                    )
                    &&& is_row_of(requests@[j].1, writes@[j])
                    &&& requests@[j].2 == row_wire_bytes(requests@[j].1)
                },
        decreases writes@.len() - i,
    {
        assert(op_fits(writes@[i as int]));
        let (table, row) = match &writes[i] {
            MetaWriteOp::Put { table, row_key, row_data } => {
                let mut sort_key: Vec<u8> = Vec::new();
                sort_key.push(SK_SENTINEL);
                assert(sort_key@ =~= seq![SK_SENTINEL]);
                (
                    table.as_str(),
                    RowPut {
                        partition_key: kv_pk(*table, row_key),
                        sort_key,
                        row_data: vstd::slice::slice_to_vec(row_data),
                    },
                )
            },
            MetaWriteOp::ScanPut { table, partition, clustering_key, row_data } => (
                table.as_str(),
                RowPut {
                    partition_key: scan_pk(*table, partition),
                    sort_key: vstd::slice::slice_to_vec(clustering_key),
                    row_data: vstd::slice::slice_to_vec(row_data),
                },
            ),
        };
        assert(is_row_of(row, writes@[i as int]));
        let bytes: usize = estimated_batch_write_item_bytes(
            row.partition_key.len(),
            row.sort_key.len(),
            row.row_data.len(),
        );
        requests.push((layout.table_name_for(table), row, bytes));
        i = i + 1;
    }
    requests
}

/// Requests and chunks of `table` among the first `n` chunks.
pub open spec fn table_totals(chunks: Seq<(String, usize)>, n: int, table: Seq<char>) -> (nat, nat)
    decreases n,
{
    if n <= 0 {
        (0, 0)
    } else {
        let (items, count) = table_totals(chunks, n - 1, table);
        if chunks[n - 1].0@ == table {
            (items + chunks[n - 1].1 as nat, count + 1)
        } else {
            (items, count)
        }
    }
}

/// `table` has more chunks than its number of requests alone explains.
pub open spec fn is_oversplit(
    chunks: Seq<(String, usize)>,
    table: Seq<char>,
    max_items: usize,
) -> bool {
    let (items, count) = table_totals(chunks, chunks.len() as int, table);
    count > (items + max_items - 1) / max_items as int
}

proof fn lemma_totals_bound(chunks: Seq<(String, usize)>, n: int, table: Seq<char>)
    requires
        0 <= n <= chunks.len(),
    ensures
        table_totals(chunks, n, table).1 <= n,
        table_totals(chunks, n, table).0 <= n * usize::MAX,
    decreases n,
{
    if n > 0 {
        lemma_totals_bound(chunks, n - 1, table);
    }
}

/// Any table whose chunk count exceeds the count-only minimum was split
/// by the payload soft limit. `chunks` gives the table and number of requests
/// of each chunk.
pub fn payload_split(chunks: &[(String, usize)], max_items: usize) -> (split: bool)
    requires
        max_items >= 1,
    ensures
        split == exists|i: int|
            0 <= i < chunks@.len() && is_oversplit(
                chunks@,
                (#[trigger] chunks@[i]).0@,
                max_items,
            ),
{
    let mut i: usize = 0;
    while i < chunks.len()
        invariant
            i <= chunks@.len(),
            max_items >= 1,
            forall|j: int|
                0 <= j < i ==> !is_oversplit(chunks@, (#[trigger] chunks@[j]).0@, max_items),
        decreases chunks@.len() - i,
    {
        let table = chunks[i].0.as_str();
        let mut items: u128 = 0;
        let mut count: u128 = 0;
        let mut j: usize = 0;
        while j < chunks.len()
            invariant
                j <= chunks@.len() <= usize::MAX,
                (items as nat, count as nat) == table_totals(chunks@, j as int, table@),
            decreases chunks@.len() - j,
        {
            proof {
                lemma_totals_bound(chunks@, j as int, table@);
            }
            if str_eq(chunks[j].0.as_str(), table) {
                items = items + chunks[j].1 as u128;
                count = count + 1;
            }
            j = j + 1;
        }
        proof {
            lemma_totals_bound(chunks@, chunks@.len() as int, table@);
        }
        if count > (items + (max_items as u128 - 1)) / max_items as u128 {
            assert(is_oversplit(chunks@, chunks@[i as int].0@, max_items));
            return true;
        }
        i = i + 1;
    }
    false
}

/// What the startup probe of the batch-write limit has to do.
pub enum LimitProbe {
    /// The candidate is safe as it is.
    Use(usize),
    /// Send this many no-op deletes and see.
    Send(usize),
}

/// A candidate up to the documented limit needs no probe.
pub fn plan_limit_probe(candidate: usize) -> (probe: LimitProbe)
    ensures
        probe == if at_least_one(candidate as int) <= BATCH_WRITE_LIMIT {
            LimitProbe::Use(at_least_one(candidate as int) as usize)
        } else {
            LimitProbe::Send(candidate)
        },
{
    let candidate: usize = clamp_to_one(candidate);
    if candidate <= BATCH_WRITE_LIMIT {
        LimitProbe::Use(candidate)
    } else {
        LimitProbe::Send(candidate)
    }
}

/// How a probe was answered.
pub enum ProbeAnswer {
    Accepted,
    /// The service itself refused the batch.
    Rejected,
    /// The request never got an answer about the limit.
    Failed(QueryError),
}

/// Only a service-level rejection means that the backend caps batches below the
/// candidate. Timeouts and dispatch failures say nothing about the limit, so
/// they surface as startup errors instead.
pub fn settle_limit_probe(candidate: usize, answer: ProbeAnswer) -> (result: Result<usize>)
    ensures
        match answer {
            ProbeAnswer::Accepted => result == Ok::<usize, QueryError>(candidate),
            ProbeAnswer::Rejected => result == Ok::<usize, QueryError>(BATCH_WRITE_LIMIT),
            ProbeAnswer::Failed(error) => result == Err::<usize, QueryError>(error),
        },
{
    match answer {
        ProbeAnswer::Accepted => Ok(candidate),
        ProbeAnswer::Rejected => Ok(BATCH_WRITE_LIMIT),
        ProbeAnswer::Failed(error) => Err(error),
    }
}

/// Role of a key attribute.
#[derive(Debug, Clone, Copy, PartialEq, Eq, Structural)]
pub enum KeyRole {
    Hash,
    Range,
    Other,
}

/// What a table description says.
pub struct TableDescription {
    pub active: bool,
    /// The reported status, for the error text.
    pub status_text: String,
    /// Attribute name and whether it is binary.
    pub attributes: Vec<(String, bool)>,
    /// Attribute name and its role in the key.
    pub keys: Vec<(String, KeyRole)>,
}

/// The first attribute of that name is binary.
pub open spec fn attribute_is_binary(attributes: Seq<(String, bool)>, name: Seq<char>) -> bool
    decreases attributes.len(),
{
    if attributes.len() == 0 {
        false
    } else if attributes[0].0@ == name {
        attributes[0].1
    } else {
        attribute_is_binary(attributes.drop_first(), name)
    }
}

/// The role of the first key attribute of that name.
pub open spec fn key_role(keys: Seq<(String, KeyRole)>, name: Seq<char>) -> Option<KeyRole>
    decreases keys.len(),
{
    if keys.len() == 0 {
        None
    } else if keys[0].0@ == name {
        Some(keys[0].1)
    } else {
        key_role(keys.drop_first(), name)
    }
}

fn find_binary(attributes: &[(String, bool)], name: &str) -> (binary: bool)
    ensures
        binary == attribute_is_binary(attributes@, name@),
{
    let mut i: usize = 0;
    assert(attributes@.skip(0) =~= attributes@);
    while i < attributes.len()
        invariant
            i <= attributes@.len(),
            attribute_is_binary(attributes@, name@) == attribute_is_binary(
                attributes@.skip(i as int),
                name@,
            ),
        decreases attributes@.len() - i,
    {
        assert(attributes@.skip(i as int).drop_first() =~= attributes@.skip(i + 1));
        if str_eq(attributes[i].0.as_str(), name) {
            return attributes[i].1;
        }
        i = i + 1;
    }
    false
}

fn find_role(keys: &[(String, KeyRole)], name: &str) -> (role: Option<KeyRole>)
    ensures
        role == key_role(keys@, name@),
{
    let mut i: usize = 0;
    assert(keys@.skip(0) =~= keys@);
    while i < keys.len()
        invariant
            i <= keys@.len(),
            key_role(keys@, name@) == key_role(keys@.skip(i as int), name@),
        decreases keys@.len() - i,
    {
        assert(keys@.skip(i as int).drop_first() =~= keys@.skip(i + 1));
        if str_eq(keys[i].0.as_str(), name) {
            return Some(keys[i].1);
        }
        i = i + 1;
    }
    None
}

/// Binary `pk` as hash key and binary `sk` as range key.
pub open spec fn has_pk_sk_schema(description: TableDescription) -> bool {
    &&& attribute_is_binary(description.attributes@, "pk"@)
    &&& attribute_is_binary(description.attributes@, "sk"@)
    &&& key_role(description.keys@, "pk"@) == Some(KeyRole::Hash)
    &&& key_role(description.keys@, "sk"@) == Some(KeyRole::Range)
}

/// Startup connectivity/schema check: the table exists, is `ACTIVE`, and has
/// the expected binary `pk` HASH + binary `sk` RANGE key schema.
pub fn validate_pk_sk_table(table: &str, description: &Option<TableDescription>) -> (result: Result<
    (),
>)
    ensures
        match (*description, result) {
            (None, Err(error)) => error is Backend && error.spec_detail()
                == "dynamo describe_table: table "@ + table@ + " missing from response"@,
            (None, Ok(_)) => false,
            (Some(found), Err(error)) => error is Backend && if !found.active {
                error.spec_detail() == "dynamo table "@ + table@ + " is not ACTIVE: "@
                    + found.status_text@
            } else {
                &&& !has_pk_sk_schema(found)
                &&& error.spec_detail() == "dynamo table "@ + table@
                    + " schema mismatch: expected binary pk HASH + binary sk RANGE"@
            },
            (Some(found), Ok(_)) => found.active && has_pk_sk_schema(found),
        },
{
    match description {
        None => {
            let mut text = "dynamo describe_table: table ".to_owned();
            text.append(table);
            text.append(" missing from response");
            Err(QueryError::Backend(text))
        },
        Some(found) => {
            let mut text = "dynamo table ".to_owned();
            text.append(table);
            if !found.active {
                text.append(" is not ACTIVE: ");
                text.append(found.status_text.as_str());
                return Err(QueryError::Backend(text));
            }
            let pk_role = find_role(&found.keys, "pk");
            let sk_role = find_role(&found.keys, "sk");
            if !find_binary(&found.attributes, "pk") || !find_binary(&found.attributes, "sk")
                || !matches!(pk_role, Some(KeyRole::Hash)) || !matches!(
                sk_role,
                Some(KeyRole::Range)
            ) {
                text.append(" schema mismatch: expected binary pk HASH + binary sk RANGE");
                return Err(QueryError::Backend(text));
            }
            Ok(())
        },
    }
}

/// A binary attribute that must be there.
pub fn take_binary(attribute: Option<Vec<u8>>, attr: &str) -> (result: Result<Vec<u8>>)
    ensures
        match (attribute, result) {
            (Some(value), Ok(got)) => got == value,
            (None, Err(error)) => error is Backend && error.spec_detail()
                == "dynamo item missing binary attribute `"@ + attr@ + "`"@,
            _ => false,
        },
{
    match attribute {
        Some(value) => Ok(value),
        None => {
            let mut text = "dynamo item missing binary attribute `".to_owned();
            text.append(attr);
            text.append("`");
            Err(QueryError::Backend(text))
        },
    }
}

/// Round-robin position: the slot to use now, and the one to use next.
pub fn next_slot(cursor: usize, slots: usize) -> (step: (usize, usize))
    requires
        slots >= 1,
    ensures
        step.0 < slots,
        slots > 1 ==> step.0 as int == cursor as int % slots as int && step.1 == (if cursor
            == usize::MAX {
            0
        } else {
            (cursor + 1) as usize
        }),
        slots == 1 ==> step == (0usize, cursor),
{
    if slots == 1 {
        return (0, cursor);
    }
    (cursor % slots, cursor.wrapping_add(1))
}

} // verus!
