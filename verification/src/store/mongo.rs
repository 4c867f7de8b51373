//! MongoDB row ids.
//!
//! Keys are encoded as strings because BSON compares `Binary` values
//! length-first, which breaks prefix-range scans over variable-length byte
//! keys; lowercase hex preserves exact unsigned-byte order under MongoDB's
//! binary string comparison:
//!
//! - kv rows:   `k/{table}/{hex(key)}`
//! - scan rows: `s/{table}/{hex(partition)}/{hex(clustering)}`
//!
//! A partition's ids are the range `[prefix + "/", prefix + "0")` (`'0'` is
//! `'/' + 1`).

use vstd::prelude::*;
use vstd::string::StringExecFns;
use vstd::utf8::{encode_utf8, is_ascii_chars, is_ascii_chars_encode_utf8, is_char_boundary};

use crate::be::lex_lt;
use crate::errors::{QueryError, Result};
use crate::hex::{hex_decode, hex_decoded, hex_encode, hex_text, lemma_hex_order, lemma_hex_text};
use crate::store::memory::lemma_lex_prefix;
use crate::store::meta::{MetaWriteOp, ScannableTableId, TableId};
use crate::text::{decimal, lemma_utf8_concat, name_lt, put_decimal};

verus! {

/// Hard per-value ceiling: MongoDB caps documents at 16 MiB; leave margin for
/// the `_id` and BSON framing.
pub const MAX_VALUE_LEN: usize = 15 * 1024 * 1024;

/// Concurrent single-document writes per `apply_writes` batch.
pub const DEFAULT_WRITE_CONCURRENCY: usize = 64;

pub const DEFAULT_MAX_POOL_SIZE: u32 = 64;

#[derive(Debug, Clone)]
pub struct MongoMetaStoreConfig {
    /// MongoDB connection string (may embed credentials).
    pub connection_string: String,
    pub database: String,
    /// Collection holding every chain-data meta row.
    pub collection: String,
    pub max_pool_size: u32,
    pub write_concurrency: usize,
}

impl MongoMetaStoreConfig {
    pub fn new(connection_string: String, database: String, collection: String) -> (config:
        MongoMetaStoreConfig)
        ensures
            config == (MongoMetaStoreConfig {
                connection_string,
                database,
                collection,
                max_pool_size: DEFAULT_MAX_POOL_SIZE,
                write_concurrency: DEFAULT_WRITE_CONCURRENCY,
            }),
    {
        MongoMetaStoreConfig {
            connection_string,
            database,
            collection,
            max_pool_size: DEFAULT_MAX_POOL_SIZE,
            write_concurrency: DEFAULT_WRITE_CONCURRENCY,
        }
    }

    /// A store needs at least one write in flight.
    pub fn validate(&self) -> (result: Result<()>)
        ensures
            match result {
                Ok(_) => self.write_concurrency > 0,
                Err(error) => self.write_concurrency == 0 && error is Backend
                    && error.spec_detail() == "mongo write_concurrency must be >= 1"@,
            },
    {
        if self.write_concurrency == 0 {
            return Err(QueryError::Backend("mongo write_concurrency must be >= 1".to_owned()));
        }
        Ok(())
    }
}

/// The id of a kv row.
pub open spec fn kv_id_text(table: Seq<char>, key: Seq<u8>) -> Seq<char> {
    "k/"@ + table + "/"@ + hex_text(key)
}

/// The common start of the ids of a partition.
pub open spec fn partition_prefix(table: Seq<char>, partition: Seq<u8>) -> Seq<char> {
    "s/"@ + table + "/"@ + hex_text(partition) + "/"@
}

/// The id of a scan row.
pub open spec fn scan_id_text(table: Seq<char>, partition: Seq<u8>, clustering: Seq<u8>) -> Seq<
    char,
> {
    partition_prefix(table, partition) + hex_text(clustering)
}

pub fn kv_id(table: TableId, key: &[u8]) -> (id: String)
    ensures
        id@ == kv_id_text(table@, key@),
{
    let mut id = "k/".to_owned();
    id.append(table.as_str());
    id.append("/");
    let hex = hex_encode(key);
    id.append(hex.as_str());
    id
}

pub fn scan_id(table: ScannableTableId, partition: &[u8], clustering: &[u8]) -> (id: String)
    ensures
        id@ == scan_id_text(table@, partition@, clustering@),
{
    let mut id = scan_partition_prefix(table, partition);
    let hex = hex_encode(clustering);
    id.append(hex.as_str());
    id
}

/// `_id` prefix shared by every row of one scan partition (trailing `/`
/// included).
pub fn scan_partition_prefix(table: ScannableTableId, partition: &[u8]) -> (prefix: String)
    ensures
        prefix@ == partition_prefix(table@, partition@),
{
    let mut prefix = "s/".to_owned();
    prefix.append(table.as_str());
    prefix.append("/");
    let hex = hex_encode(partition);
    prefix.append(hex.as_str());
    prefix.append("/");
    prefix
}

/// Exclusive upper bound of a partition's `_id` range: the prefix with its
/// trailing `/` bumped to `'0'` (`'/' + 1`), so the bound sorts immediately
/// after every `prefix + hex` id under binary string comparison.
pub fn scan_partition_upper_bound(prefix: &str) -> (upper: String)
    ensures
        upper@ == (if prefix@.len() == 0 {
            prefix@
        } else {
            prefix@.drop_last()
        }) + "0"@,
{
    let mut upper = without_last(prefix);
    upper.append("0");
    upper
}

/// `String::pop` on an owned copy: the text without its last character.
#[verifier::external_body]
fn without_last(text: &str) -> (shorter: String)
    ensures
        shorter@ == if text@.len() == 0 {
            text@
        } else {
            text@.drop_last()
        },
{
    let mut shorter = text.to_owned();
    shorter.pop();
    shorter
}

/// Decodes the hex clustering suffix of a scan-row `_id` back to bytes.
pub fn clustering_from_id(id: &str, prefix_len: usize) -> (result: Result<Vec<u8>>)
    requires
        prefix_len <= encode_utf8(id@).len(),
        is_char_boundary(encode_utf8(id@), prefix_len as int),
    ensures
        match result {
            Ok(bytes) => hex_decoded(encode_utf8(id@).skip(prefix_len as int)) == Some(bytes@),
            Err(error) => {
                &&& hex_decoded(encode_utf8(id@).skip(prefix_len as int)) is None
                &&& error == QueryError::Decode("malformed mongo scan-row id")
            },
        },
{
    let bytes = id.as_bytes();
    let suffix = vstd::slice::slice_subrange(bytes, prefix_len, bytes.len());
    assert(suffix@ =~= encode_utf8(id@).skip(prefix_len as int));
    match hex_decode(suffix) {
        Ok(clustering) => Ok(clustering),
        Err(_) => Err(QueryError::Decode("malformed mongo scan-row id")),
    }
}

/// A value must fit one document.
pub fn binary_value(value: &[u8]) -> (result: Result<Vec<u8>>)
    ensures
        match result {
            Ok(bytes) => value@.len() <= MAX_VALUE_LEN && bytes@ == value@,
            Err(error) => value@.len() > MAX_VALUE_LEN && error is Backend && error.spec_detail()
                == "mongo meta value of "@ + decimal(value@.len()) + " bytes exceeds the "@
                + decimal(MAX_VALUE_LEN as nat) + "-byte document budget"@,
        },
{
    if value.len() > MAX_VALUE_LEN {
        let mut text = "mongo meta value of ".to_owned();
        put_decimal(&mut text, value.len() as u64);
        text.append(" bytes exceeds the ");
        put_decimal(&mut text, MAX_VALUE_LEN as u64);
        text.append("-byte document budget");
        return Err(QueryError::Backend(text));
    }
    Ok(vstd::slice::slice_to_vec(value))
}

/// The document a write puts.
pub open spec fn is_document_of(document: (String, Vec<u8>), op: MetaWriteOp) -> bool {
    match op {
        MetaWriteOp::Put { table, row_key, row_data } => document.0@ == kv_id_text(
            table@,
            row_key@,
        ) && document.1@ == row_data@,
        MetaWriteOp::ScanPut { table, partition, clustering_key, row_data } => document.0@
            == scan_id_text(table@, partition@, clustering_key@) && document.1@ == row_data@,
    }
}

/// Turns a metadata batch into `(id, value)` documents, in order.
pub fn documents(writes: &[MetaWriteOp]) -> (rows: Vec<(String, Vec<u8>)>)
    ensures
        rows@.len() == writes@.len(),
        forall|i: int|
            0 <= i < writes@.len() ==> is_document_of(#[trigger] rows@[i], writes@[i]),
{
    let mut rows: Vec<(String, Vec<u8>)> = Vec::new();
    let mut i: usize = 0;
    while i < writes.len()
        invariant
            i <= writes@.len(),
            rows@.len() == i,
            forall|j: int| 0 <= j < i ==> is_document_of(#[trigger] rows@[j], writes@[j]),
        decreases writes@.len() - i,
    {
        match &writes[i] {
            MetaWriteOp::Put { table, row_key, row_data } => rows.push(
                (kv_id(*table, row_key), vstd::slice::slice_to_vec(row_data)),
            ),
            MetaWriteOp::ScanPut { table, partition, clustering_key, row_data } => rows.push(
                (
                    scan_id(*table, partition, clustering_key),
                    vstd::slice::slice_to_vec(row_data),
                ),
            ),
        }
        i = i + 1;
    }
    rows
}

/// Ids decode back to the clustering they were made from.
pub proof fn law_clustering_round_trip(
    table: Seq<char>,
    partition: Seq<u8>,
    clustering: Seq<u8>,
)
    ensures
        ({
            let prefix_len = encode_utf8(partition_prefix(table, partition)).len() as int;
            let id = encode_utf8(scan_id_text(table, partition, clustering));
            &&& prefix_len <= id.len()
            &&& hex_decoded(id.skip(prefix_len)) == Some(clustering)
        }),
{
    let prefix = partition_prefix(table, partition);
    lemma_utf8_concat(prefix, hex_text(clustering));
    lemma_hex_text(clustering);
    let id = encode_utf8(scan_id_text(table, partition, clustering));
    assert(id.skip(encode_utf8(prefix).len() as int) =~= encode_utf8(hex_text(clustering)));
}

/// Hex preserves unsigned-byte order, so `_id` order == clustering order.
pub proof fn law_ids_sort_by_clustering(
    table: Seq<char>,
    partition: Seq<u8>,
    a: Seq<u8>,
    b: Seq<u8>,
)
    ensures
        name_lt(scan_id_text(table, partition, a), scan_id_text(table, partition, b)) <==> lex_lt(
            a,
            b,
        ),
{
    let prefix = partition_prefix(table, partition);
    lemma_utf8_concat(prefix, hex_text(a));
    lemma_utf8_concat(prefix, hex_text(b));
    lemma_lex_prefix(encode_utf8(prefix), encode_utf8(hex_text(a)), encode_utf8(hex_text(b)));
    lemma_hex_order(a, b);
}

/// What lies between `stem + "/"` and `stem + "0"` is what starts with
/// `stem + "/"`.
proof fn lemma_between(stem: Seq<u8>, s: Seq<u8>)
    ensures
        !lex_lt(s, stem.push(0x2f)) && lex_lt(s, stem.push(0x30)) <==> stem.push(0x2f).is_prefix_of(
            s,
        ),
    decreases stem.len(),
{
    reveal_with_fuel(lex_lt, 2);
    let low = stem.push(0x2f);
    let high = stem.push(0x30);
    if stem.len() == 0 {
        if s.len() > 0 {
            assert(low.drop_first() =~= Seq::empty());
            assert(high.drop_first() =~= Seq::empty());
            if s[0] == 0x2f {
                assert(low =~= s.subrange(0, 1));
            }
            if low.is_prefix_of(s) {
                assert(low[0] == s.subrange(0, 1)[0]);
            }
        }
    } else if s.len() > 0 {
        lemma_between(stem.drop_first(), s.drop_first());
        assert(low.drop_first() =~= stem.drop_first().push(0x2f));
        assert(high.drop_first() =~= stem.drop_first().push(0x30));
        if low.is_prefix_of(s) {
            assert(low[0] == s.subrange(0, low.len() as int)[0]);
            assert(low.drop_first() =~= s.drop_first().subrange(
                0,
                low.drop_first().len() as int,
            ));
        }
        if s[0] == stem[0] && low.drop_first().is_prefix_of(s.drop_first()) {
            assert forall|i: int| 0 <= i < low.len() implies low[i] == s[i] by {
                if i > 0 {
                    assert(low.drop_first()[i - 1] == s.drop_first().subrange(
                        0,
                        low.drop_first().len() as int,
                    )[i - 1]);
                }
            }
            assert(low =~= s.subrange(0, low.len() as int));
        }
    }
}

/// The `_id` range `[prefix, upper)` admits, under byte order, exactly the ids
/// that start with the partition's prefix.
pub proof fn law_bounds_bracket_prefix(table: Seq<char>, partition: Seq<u8>, id: Seq<char>)
    ensures
        ({
            let prefix = partition_prefix(table, partition);
            let upper = prefix.drop_last() + "0"@;
            !name_lt(id, prefix) && name_lt(id, upper) <==> encode_utf8(prefix).is_prefix_of(
                encode_utf8(id),
            )
        }),
{
    reveal_strlit("/");
    reveal_strlit("0");
    let prefix = partition_prefix(table, partition);
    let stem = "s/"@ + table + "/"@ + hex_text(partition);
    assert(prefix.drop_last() =~= stem);
    let upper = prefix.drop_last() + "0"@;
    lemma_utf8_concat(stem, "/"@);
    lemma_utf8_concat(stem, "0"@);
    assert(is_ascii_chars("/"@));
    assert(is_ascii_chars("0"@));
    is_ascii_chars_encode_utf8("/"@);
    is_ascii_chars_encode_utf8("0"@);
    assert(encode_utf8(prefix) =~= encode_utf8(stem).push(0x2f));
    assert(encode_utf8(upper) =~= encode_utf8(stem).push(0x30));
    lemma_between(encode_utf8(stem), encode_utf8(id));
}

/// Rows of the partition, and of no other partition or table, start with its
/// prefix: table names hold no slash.
pub proof fn law_prefix_is_partition(
    table: Seq<char>,
    partition: Seq<u8>,
    other_table: Seq<char>,
    other_partition: Seq<u8>,
    clustering: Seq<u8>,
)
    requires
        !table.contains('/'),
        !other_table.contains('/'),
    ensures
        partition_prefix(table, partition).is_prefix_of(
            scan_id_text(other_table, other_partition, clustering),
        ) <==> table == other_table && partition == other_partition,
{
    reveal_strlit("s/");
    reveal_strlit("/");
    let prefix = partition_prefix(table, partition);
    let id = scan_id_text(other_table, other_partition, clustering);
    let h = hex_text(partition);
    let g = hex_text(other_partition);
    lemma_hex_text(partition);
    lemma_hex_text(other_partition);
    if table == other_table && partition == other_partition {
        assert(prefix =~= id.subrange(0, prefix.len() as int));
    }
    if prefix.is_prefix_of(id) {
        assert forall|i: int| 0 <= i < prefix.len() implies prefix[i] == id[i] by {
            assert(prefix[i] == id.subrange(0, prefix.len() as int)[i]);
        }
        let n = table.len() as int;
        let m = other_table.len() as int;
        // Both names end at the first slash after "s/".
        assert(prefix[2 + n] == '/');
        assert(id[2 + m] == '/');
        if m < n {
            assert(prefix[2 + m] == table[m]);
        }
        if n < m {
            assert(id[2 + n] == other_table[n]);
        }
        assert forall|i: int| 0 <= i < n implies table[i] == other_table[i] by {
            assert(prefix[2 + i] == table[i]);
            assert(id[2 + i] == other_table[i]);
        }
        assert(table =~= other_table);
        // Both hex parts end at the next slash.
        let a = h.len() as int;
        let b = g.len() as int;
        assert(prefix[3 + n + a] == '/');
        assert(id[3 + n + b] == '/');
        if b < a {
            assert(prefix[3 + n + b] == h[b]);
        }
        if a < b {
            assert(id[3 + n + a] == g[a]);
        }
        assert forall|i: int| 0 <= i < a implies h[i] == g[i] by {
            assert(prefix[3 + n + i] == h[i]);
            assert(id[3 + n + i] == g[i]);
        }
        assert(h =~= g);
        assert(Some(partition) == Some(other_partition));
    }
}

} // verus!
