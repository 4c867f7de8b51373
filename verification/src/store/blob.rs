//! Blob tables, chunked blob layout and the absent blob store.

use vstd::prelude::*;
use vstd::string::StringExecFns;

use crate::be::{
    be_bytes, lemma_be_bytes_len, lemma_be_limit_values, lemma_be_order, lemma_be_value_of_bytes,
    lex_lt, put_u32,
};
use crate::errors::{QueryError, Result};
use crate::store::meta::opt_bytes;
use crate::rlp::append_bytes;
use crate::text::{decimal, put_decimal};

verus! {

/// Logical identifier for a blob table.
#[derive(Debug, Clone, Copy)]
pub struct BlobTableId {
    name: &'static str,
}

impl View for BlobTableId {
    type V = Seq<char>;

    closed spec fn view(&self) -> Seq<char> {
        self.name@
    }
}

impl BlobTableId {
    pub fn new(name: &'static str) -> (id: BlobTableId)
        ensures
            id@ == name@,
    {
        BlobTableId { name }
    }

    pub fn as_str(self) -> (name: &'static str)
        ensures
            name@ == self@,
    {
        self.name
    }
}

/// One write of a blob batch.
#[derive(Debug, Clone)]
pub struct BlobWriteOp {
    pub table: BlobTableId,
    pub blob_key: Vec<u8>,
    pub blob_data: Vec<u8>,
}

/// Default chunk size: 64 KiB. Most blobs fit one chunk; a ~16 MiB block blob
/// splits into <=256 items, and `read_range` over-reads <=64 KiB on each end.
pub const DEFAULT_CHUNK_SIZE: usize = 64 * 1024;

/// Hard ceiling: DynamoDB rejects items larger than 400 KiB. Stay under it with
/// margin for `pk`/`sk`/`len`/framing overhead.
pub const MAX_CHUNK_SIZE: usize = 350 * 1024;

/// What a range read of `blob` answers: the clamped range, `None` for a missing
/// blob, an error for a range that is reversed or starts past the end.
pub open spec fn range_answer(
    blob: Option<Seq<u8>>,
    start: int,
    end: int,
    result: Result<Option<Vec<u8>>>,
) -> bool {
    if start > end {
        result == Err::<Option<Vec<u8>>, _>(QueryError::Decode("invalid blob range"))
    } else {
        match blob {
            None => result matches Ok(None),
            Some(bytes) => if start > bytes.len() {
                result == Err::<Option<Vec<u8>>, _>(QueryError::Decode("invalid blob range"))
            } else {
                result matches Ok(Some(got)) && got@ == bytes.subrange(
                    start,
                    if end < bytes.len() {
                        end
                    } else {
                        bytes.len() as int
                    },
                )
            },
        }
    }
}

/// Sort key for a chunk: the index as fixed-width big-endian so DynamoDB's
/// unsigned-byte sort on `sk` equals chunk order.
pub fn chunk_sk(idx: u32) -> (key: [u8; 4])
    ensures
        key@ == be_bytes(idx as nat, 4),
{
    let mut bytes: Vec<u8> = Vec::new();
    put_u32(&mut bytes, idx);
    proof {
        lemma_be_bytes_len(idx as nat, 4);
    }
    let key: [u8; 4] = [bytes[0], bytes[1], bytes[2], bytes[3]];
    assert(bytes@ =~= be_bytes(idx as nat, 4));
    assert(key@ =~= bytes@);
    key
}

/// Chunk keys sort like chunk indexes.
pub proof fn law_chunk_keys_sort_by_index(a: u32, b: u32)
    ensures
        lex_lt(be_bytes(a as nat, 4), be_bytes(b as nat, 4)) <==> a < b,
{
    lemma_be_limit_values();
    lemma_be_bytes_len(a as nat, 4);
    lemma_be_bytes_len(b as nat, 4);
    lemma_be_value_of_bytes(a as nat, 4);
    lemma_be_value_of_bytes(b as nat, 4);
    lemma_be_order(be_bytes(a as nat, 4), be_bytes(b as nat, 4));
}

/// For a byte range `[start, end)` (`end > start`) returns the inclusive chunk
/// span `(first, last)` covering it and `start`'s offset within the first
/// chunk, so the requested bytes are `buf[offset..offset+(end-start)]`.
pub fn chunk_span(start: usize, end: usize, chunk_size: usize) -> (span: (u32, u32, usize))
    requires
        start < end,
        chunk_size > 0,
        (end - 1) / chunk_size as int <= u32::MAX,
    ensures
        span.0 == start as int / chunk_size as int,
        span.1 == (end - 1) / chunk_size as int,
        span.2 == start as int % chunk_size as int,
        span.0 * chunk_size + span.2 == start,
        span.0 <= span.1,
{
    let first: usize = start / chunk_size;
    let last: usize = (end - 1) / chunk_size;
    proof {
        vstd::arithmetic::div_mod::lemma_fundamental_div_mod(start as int, chunk_size as int);
        vstd::arithmetic::div_mod::lemma_div_is_ordered(
            start as int,
            end - 1,
            chunk_size as int,
        );
        assert(first * chunk_size == chunk_size * first) by (nonlinear_arith);
    }
    (first as u32, last as u32, start - first * chunk_size)
}

/// One chunk of a blob as stored: its index and bytes, and on chunk 0 the length
/// of the whole blob.
#[derive(Debug, Clone)]
pub struct ChunkPut {
    pub index: u32,
    pub value: Vec<u8>,
    pub total_length: Option<usize>,
}

/// How many chunks a blob of `len` bytes has; the empty blob has one.
pub open spec fn chunk_count(len: nat, chunk_size: nat) -> nat
    recommends
        chunk_size > 0,
{
    if len == 0 {
        1
    } else {
        ((len + chunk_size - 1) / chunk_size as int) as nat
    }
}

/// Chunk `i` of a blob.
pub open spec fn chunk_of(data: Seq<u8>, chunk_size: int, i: int) -> Seq<u8> {
    let start = i * chunk_size;
    let end = start + chunk_size;
    data.subrange(
        start,
        if end < data.len() {
            end
        } else {
            data.len() as int
        },
    )
}

/// The chunks a blob is stored as.
pub open spec fn is_chunking(puts: Seq<ChunkPut>, data: Seq<u8>, chunk_size: usize) -> bool {
    &&& puts.len() == chunk_count(data.len(), chunk_size as nat)
    &&& forall|i: int|
        0 <= i < puts.len() ==> {
            &&& (#[trigger] puts[i]).index == i
            &&& puts[i].value@ == chunk_of(data, chunk_size as int, i)
            &&& puts[i].total_length == if i == 0 {
                Some(data.len() as usize)
            } else {
                None
            }
        }
}

pub proof fn lemma_chunk_bounds(len: int, chunk_size: int, i: int)
    requires
        len > 0,
        chunk_size > 0,
        i >= 0,
    ensures
        i < (len + chunk_size - 1) / chunk_size <==> i * chunk_size < len,
{
    assert(i < (len + chunk_size - 1) / chunk_size <==> i * chunk_size < len) by (nonlinear_arith)
        requires
            len > 0,
            chunk_size > 0,
            i >= 0,
    {
        let q = (len + chunk_size - 1) / chunk_size;
        let r = (len + chunk_size - 1) % chunk_size;
        assert(len + chunk_size - 1 == chunk_size * q + r);
        assert(0 <= r < chunk_size);
        if i < q {
            assert(chunk_size * (i + 1) <= chunk_size * q);
        } else {
            assert(chunk_size * q <= chunk_size * i);
        }
    }
}

/// Builds one put per `chunk_size` piece (`len` on chunk 0). An empty
/// value still writes an empty chunk 0 so the blob reads back as present.
pub fn chunk_puts(data: &[u8], chunk_size: usize) -> (result: Result<Vec<ChunkPut>>)
    requires
        chunk_size > 0,
    ensures
        match result {
            Ok(puts) => {
                &&& chunk_count(data@.len(), chunk_size as nat) <= 0x1_0000_0000
                &&& is_chunking(puts@, data@, chunk_size)
            },
            Err(error) => {
                &&& chunk_count(data@.len(), chunk_size as nat) > 0x1_0000_0000
                &&& error is Backend
                &&& error.spec_detail() == "dynamo blob chunk index overflows u32"@
            },
        },
{
    let total: usize = data.len();
    let mut puts: Vec<ChunkPut> = Vec::new();
    if total == 0 {
        let value: Vec<u8> = Vec::new();
        puts.push(ChunkPut { index: 0, value, total_length: Some(0) });
        assert(puts@[0].value@ =~= chunk_of(data@, chunk_size as int, 0));
        return Ok(puts);
    }
    let mut index: u64 = 0;
    let mut start: usize = 0;
    while start < total
        invariant
            total == data@.len(),
            total > 0,
            chunk_size > 0,
            start <= total,
            index <= 0x1_0000_0000,
            puts@.len() == index,
            start < total ==> start == index * chunk_size,
            start == total ==> index == chunk_count(total as nat, chunk_size as nat),
            forall|i: int|
                0 <= i < index ==> {
                    &&& (#[trigger] puts@[i]).index == i
                    &&& puts@[i].value@ == chunk_of(data@, chunk_size as int, i)
                    &&& puts@[i].total_length == if i == 0 {
                        Some(data@.len() as usize)
                    } else {
                        None
                    }
                },
        decreases total - start,
    {
        proof {
            lemma_chunk_bounds(total as int, chunk_size as int, index as int);
            lemma_chunk_bounds(total as int, chunk_size as int, index + 1);
            assert((index + 1) * chunk_size == index * chunk_size + chunk_size)
                by (nonlinear_arith);
        }
        if index > 0xffff_ffff {
            return Err(
                QueryError::Backend("dynamo blob chunk index overflows u32".to_owned()),
            );
        }
        let end: usize = if total - start > chunk_size {
            start + chunk_size
        } else {
            total
        };
        let piece = vstd::slice::slice_subrange(data, start, end);
        assert(piece@ =~= chunk_of(data@, chunk_size as int, index as int));
        let value = vstd::slice::slice_to_vec(piece);
        let total_length: Option<usize> = if index == 0 {
            Some(total)
        } else {
            None
        };
        puts.push(ChunkPut { index: index as u32, value, total_length });
        start = end;
        index = index + 1;
    }
    Ok(puts)
}

/// Chunk values one after the other.
pub open spec fn joined_values(values: Seq<Vec<u8>>, n: int) -> Seq<u8>
    decreases n,
{
    if n <= 0 {
        Seq::empty()
    } else {
        joined_values(values, n - 1) + values[n - 1]@
    }
}

/// Concatenates chunk values (already in ascending-sk chunk order) into one
/// buffer; the read path's shared chunk-reassembly step.
pub fn concat_chunk_values(values: &[Vec<u8>]) -> (buf: Vec<u8>)
    ensures
        buf@ == joined_values(values@, values@.len() as int),
{
    let mut buf: Vec<u8> = Vec::new();
    let mut i: usize = 0;
    assert(buf@ =~= joined_values(values@, 0));
    while i < values.len()
        invariant
            i <= values@.len(),
            buf@ == joined_values(values@, i as int),
        decreases values@.len() - i,
    {
        append_bytes(&mut buf, &values[i]);
        i = i + 1;
    }
    buf
}

/// Chunks `[first, last]` of a blob one after the other.
pub open spec fn joined_chunks(data: Seq<u8>, chunk_size: int, first: int, last: int) -> Seq<u8>
    decreases last - first + 1,
{
    if last < first {
        Seq::empty()
    } else {
        joined_chunks(data, chunk_size, first, last - 1) + chunk_of(data, chunk_size, last)
    }
}

proof fn lemma_joined_chunks(data: Seq<u8>, chunk_size: int, first: int, last: int)
    requires
        chunk_size > 0,
        0 <= first,
        first - 1 <= last,
        first <= last ==> last * chunk_size < data.len(),
        first * chunk_size <= data.len(),
    ensures
        joined_chunks(data, chunk_size, first, last) == data.subrange(
            first * chunk_size,
            if (last + 1) * chunk_size < data.len() {
                (last + 1) * chunk_size
            } else {
                data.len() as int
            },
        ) || last < first,
    decreases last - first + 1,
{
    if first <= last {
        assert((last + 1) * chunk_size == last * chunk_size + chunk_size) by (nonlinear_arith);
        assert(first * chunk_size <= last * chunk_size) by (nonlinear_arith)
            requires
                first <= last,
                chunk_size > 0,
        ;
        if first == last {
            reveal_with_fuel(joined_chunks, 2);
            assert(joined_chunks(data, chunk_size, first, last) =~= chunk_of(
                data,
                chunk_size,
                last,
            ));
        } else {
            assert((last - 1 + 1) * chunk_size == last * chunk_size);
            assert((last - 1) * chunk_size < last * chunk_size) by (nonlinear_arith)
                requires
                    chunk_size > 0,
            ;
            lemma_joined_chunks(data, chunk_size, first, last - 1);
            let end = if (last + 1) * chunk_size < data.len() {
                (last + 1) * chunk_size
            } else {
                data.len() as int
            };
            assert(data.subrange(first * chunk_size, last * chunk_size) + data.subrange(
                last * chunk_size,
                end,
            ) =~= data.subrange(first * chunk_size, end));
        }
    }
}

/// A blob's chunks one after the other are the blob.
pub proof fn law_chunks_reassemble(data: Seq<u8>, chunk_size: usize)
    requires
        chunk_size > 0,
    ensures
        joined_chunks(
            data,
            chunk_size as int,
            0,
            chunk_count(data.len(), chunk_size as nat) - 1,
        ) == data,
{
    let size = chunk_size as int;
    let count = chunk_count(data.len(), chunk_size as nat) as int;
    if data.len() == 0 {
        reveal_with_fuel(joined_chunks, 2);
        assert(joined_chunks(data, size, 0, 0) =~= data);
    } else {
        lemma_chunk_bounds(data.len() as int, size, 0);
        lemma_chunk_bounds(data.len() as int, size, count - 1);
        lemma_chunk_bounds(data.len() as int, size, count);
        lemma_joined_chunks(data, size, 0, count - 1);
        assert(data.subrange(0, data.len() as int) =~= data);
    }
}

/// Reading the chunk span of a range and cutting out the requested bytes gives
/// the range.
pub proof fn law_span_covers_range(data: Seq<u8>, start: int, end: int, chunk_size: int)
    requires
        chunk_size > 0,
        0 <= start < end <= data.len(),
    ensures
        ({
            let buf = joined_chunks(data, chunk_size, start / chunk_size, (end - 1) / chunk_size);
            let offset = start % chunk_size;
            &&& offset + (end - start) <= buf.len()
            &&& buf.subrange(offset, offset + (end - start)) == data.subrange(start, end)
        }),
{
    let first = start / chunk_size;
    let last = (end - 1) / chunk_size;
    vstd::arithmetic::div_mod::lemma_fundamental_div_mod(start, chunk_size);
    vstd::arithmetic::div_mod::lemma_fundamental_div_mod(end - 1, chunk_size);
    vstd::arithmetic::div_mod::lemma_mod_bound(start, chunk_size);
    vstd::arithmetic::div_mod::lemma_mod_bound(end - 1, chunk_size);
    vstd::arithmetic::div_mod::lemma_div_is_ordered(start, end - 1, chunk_size);
    vstd::arithmetic::div_mod::lemma_div_pos_is_pos(start, chunk_size);
    assert(first * chunk_size == chunk_size * first) by (nonlinear_arith);
    assert(last * chunk_size == chunk_size * last) by (nonlinear_arith);
    assert((last + 1) * chunk_size == last * chunk_size + chunk_size) by (nonlinear_arith);
    lemma_joined_chunks(data, chunk_size, first, last);
    let buf = joined_chunks(data, chunk_size, first, last);
    let offset = start % chunk_size;
    assert(buf.subrange(offset, offset + (end - start)) =~= data.subrange(start, end));
}

/// What a range read has to fetch.
pub enum RangePlan {
    /// The range is reversed or starts past the end.
    Invalid,
    /// The range is empty.
    Empty,
    /// Chunks `[first, last]`; the wanted bytes start at `offset`.
    Chunks { first: u32, last: u32, offset: usize, want: usize },
}

/// Decides a range read from the blob's recorded length.
pub fn plan_range(start: usize, end_exclusive: usize, len: usize, chunk_size: usize) -> (plan:
    RangePlan)
    requires
        chunk_size > 0,
        chunk_count(len as nat, chunk_size as nat) <= 0x1_0000_0000,
    ensures
        ({
            let end = if end_exclusive < len {
                end_exclusive as int
            } else {
                len as int
            };
            if start > end_exclusive || start > len {
                plan == RangePlan::Invalid
            } else if start == end {
                plan == RangePlan::Empty
            } else {
                plan == (RangePlan::Chunks {
                    first: (start as int / chunk_size as int) as u32,
                    last: ((end - 1) / chunk_size as int) as u32,
                    offset: (start as int % chunk_size as int) as usize,
                    want: (end - start) as usize,
                })
            }
        }),
{
    if start > end_exclusive || start > len {
        return RangePlan::Invalid;
    }
    let end: usize = if end_exclusive < len {
        end_exclusive
    } else {
        len
    };
    if start == end {
        return RangePlan::Empty;
    }
    proof {
        let q = (end - 1) / chunk_size as int;
        vstd::arithmetic::div_mod::lemma_fundamental_div_mod(end - 1, chunk_size as int);
        vstd::arithmetic::div_mod::lemma_mod_bound(end - 1, chunk_size as int);
        vstd::arithmetic::div_mod::lemma_div_pos_is_pos(end - 1, chunk_size as int);
        assert(q * chunk_size == chunk_size * q) by (nonlinear_arith);
        lemma_chunk_bounds(len as int, chunk_size as int, q);
    }
    let (first, last, offset) = chunk_span(start, end, chunk_size);
    RangePlan::Chunks { first, last, offset, want: end - start }
}

/// Cuts the wanted bytes out of the fetched chunks.
pub fn slice_range(buf: &[u8], offset: usize, want: usize) -> (result: Result<Vec<u8>>)
    ensures
        match result {
            Ok(bytes) => offset + want <= buf@.len() && bytes@ == buf@.subrange(
                offset as int,
                offset + want,
            ),
            Err(error) => {
                // `len` claims more bytes than the chunks hold: a torn write that
                // head publication should have kept invisible.
                &&& offset + want > buf@.len()
                &&& error == QueryError::Decode("blob range exceeds stored chunks")
            },
        },
{
    if offset > buf.len() || want > buf.len() - offset {
        return Err(QueryError::Decode("blob range exceeds stored chunks"));
    }
    Ok(vstd::slice::slice_to_vec(vstd::slice::slice_subrange(buf, offset, offset + want)))
}

/// The text of a chunk-size mismatch.
pub open spec fn chunk_size_mismatch(table: Seq<char>, configured: nat, stored: nat) -> Seq<char> {
    "dynamo blob table "@ + table + " chunk_size mismatch: configured "@ + decimal(configured)
        + ", data written with "@ + decimal(stored)
        + " (the byte->chunk-index mapping is a wire contract; a mismatched size mis-slices range reads)"@
}

/// A store may only read a table that was written with its own chunk size.
pub fn check_chunk_size(table: &str, configured: usize, stored: usize) -> (result: Result<()>)
    ensures
        match result {
            Ok(_) => stored == configured,
            Err(error) => {
                &&& stored != configured
                &&& error is Backend
                &&& error.spec_detail() == chunk_size_mismatch(
                    table@,
                    configured as nat,
                    stored as nat,
                )
            },
        },
{
    if stored == configured {
        return Ok(());
    }
    let mut text = "dynamo blob table ".to_owned();
    text.append(table);
    text.append(" chunk_size mismatch: configured ");
    put_decimal(&mut text, configured as u64);
    text.append(", data written with ");
    put_decimal(&mut text, stored as u64);
    text.append(
        " (the byte->chunk-index mapping is a wire contract; a mismatched size mis-slices range reads)",
    );
    Err(QueryError::Backend(text))
}

/// Construction parameters for a chunked DynamoDB blob store.
#[derive(Clone)]
pub struct DynamoBlobStoreConfig {
    /// Physical DynamoDB table holding every blob chunk.
    pub table_name: String,
    /// Override the endpoint for DynamoDB Local / Alternator. `None` targets
    /// real AWS DynamoDB via the default endpoint resolver.
    pub endpoint_url: Option<String>,
    /// AWS region. `None` falls through to the default region provider chain.
    pub region: Option<String>,
    /// AWS profile name. `None` uses the SDK default profile/environment chain.
    pub profile: Option<String>,
    /// Max in-flight `BatchWriteItem` calls. Clamped to >= 1.
    pub batch_max_concurrency: usize,
    /// Bytes per chunk. Clamped to `1..=MAX_CHUNK_SIZE`. This is a wire contract:
    /// it sets the byte->chunk-index mapping, so it must not change for a table
    /// that already holds data (a mismatched reader silently returns wrong
    /// bytes).
    pub chunk_size: usize,
    /// Explicit static credentials. `None` uses the ambient AWS credential chain.
    pub credentials: Option<crate::store::aws::StaticCredentials>,
}

impl DynamoBlobStoreConfig {
    /// Minimal config targeting real AWS DynamoDB with ambient credentials, the
    /// default region chain, and the default chunk size.
    pub fn new(table_name: String) -> (config: DynamoBlobStoreConfig)
        ensures
            config == (DynamoBlobStoreConfig {
                table_name,
                endpoint_url: None,
                region: None,
                profile: None,
                batch_max_concurrency: 16,
                chunk_size: DEFAULT_CHUNK_SIZE,
                credentials: None,
            }),
    {
        DynamoBlobStoreConfig {
            table_name,
            endpoint_url: None,
            region: None,
            profile: None,
            batch_max_concurrency: 16,
            chunk_size: DEFAULT_CHUNK_SIZE,
            credentials: None,
        }
    }

    /// The limits a store runs with: at least one batch in flight, and a chunk
    /// size in range.
    pub fn effective_limits(&self) -> (limits: (usize, usize))
        ensures
            limits.0 == if self.batch_max_concurrency == 0 {
                1
            } else {
                self.batch_max_concurrency
            },
            limits.1 == if self.chunk_size == 0 {
                1
            } else if self.chunk_size > MAX_CHUNK_SIZE {
                MAX_CHUNK_SIZE
            } else {
                self.chunk_size
            },
            1 <= limits.1 <= MAX_CHUNK_SIZE,
    {
        let concurrency: usize = if self.batch_max_concurrency == 0 {
            1
        } else {
            self.batch_max_concurrency
        };
        let chunk_size: usize = if self.chunk_size == 0 {
            1
        } else if self.chunk_size > MAX_CHUNK_SIZE {
            MAX_CHUNK_SIZE
        } else {
            self.chunk_size
        };
        (concurrency, chunk_size)
    }
}

/// The blob backend of a store configured without one: an external-archive
/// store whose row payloads live in archive objects and whose checkpoints are
/// disabled (snapshot payloads are blob objects), so no blob traffic is ever
/// legitimate.
///
/// Every access is a loud [`QueryError::Backend`] — never a silent
/// `None` — so a path that does reach the blob store surfaces as an error
/// instead of quietly missing data. The one exception is an empty
/// `apply_writes` batch, which the engine's write path issues unconditionally
/// and which touches nothing.
#[derive(Debug, Clone, Copy)]
pub struct NullBlobStore;

/// The text of a refused operation.
pub open spec fn no_blob_store_text(op: Seq<char>) -> Seq<char> {
    "no blob store configured ([store.blob] omitted), but "@ + op + " was called"@
}

fn no_blob_store(op: &str) -> (error: QueryError)
    ensures
        error is Backend,
        error.spec_detail() == no_blob_store_text(op@),
{
    let mut text = "no blob store configured ([store.blob] omitted), but ".to_owned();
    text.append(op);
    text.append(" was called");
    QueryError::Backend(text)
}

/// Object storage keyed by table and key.
///
/// A write or deletion touches its own object only, also when it fails.
pub trait BlobStore: Sized {
    /// The store is in working order.
    spec fn blobs_wf(&self) -> bool;

    /// No operation on the store fails.
    spec fn blobs_answer(&self) -> bool;

    /// The bytes of an object.
    spec fn blob(&self, table: Seq<char>, key: Seq<u8>) -> Option<Seq<u8>>;

    fn load(&mut self, table: BlobTableId, key: &[u8]) -> (result: Result<Option<Vec<u8>>>)
        requires
            old(self).blobs_wf(),
        ensures
            final(self).blobs_wf(),
            old(self).blobs_answer() ==> result is Ok && final(self).blobs_answer(),
            result matches Ok(value) ==> opt_bytes(value) == old(self).blob(table@, key@),
            forall|t: Seq<char>, k: Seq<u8>| #[trigger]
                final(self).blob(t, k) == old(self).blob(t, k),
    ;

    fn store(&mut self, table: BlobTableId, key: &[u8], value: Vec<u8>) -> (result: Result<()>)
        requires
            old(self).blobs_wf(),
        ensures
            final(self).blobs_wf(),
            old(self).blobs_answer() ==> result is Ok && final(self).blobs_answer(),
            result is Ok ==> final(self).blob(table@, key@) == Some(value@),
            forall|t: Seq<char>, k: Seq<u8>|
                !(t == table@ && k == key@) ==> #[trigger] final(self).blob(t, k) == old(self).blob(
                    t,
                    k,
                ),
    ;

    fn remove(&mut self, table: BlobTableId, key: &[u8]) -> (result: Result<()>)
        requires
            old(self).blobs_wf(),
        ensures
            final(self).blobs_wf(),
            old(self).blobs_answer() ==> result is Ok && final(self).blobs_answer(),
            result is Ok ==> final(self).blob(table@, key@) is None,
            forall|t: Seq<char>, k: Seq<u8>|
                !(t == table@ && k == key@) ==> #[trigger] final(self).blob(t, k) == old(self).blob(
                    t,
                    k,
                ),
    ;
}

impl BlobStore for NullBlobStore {
    open spec fn blobs_wf(&self) -> bool {
        true
    }

    open spec fn blobs_answer(&self) -> bool {
        false
    }

    open spec fn blob(&self, table: Seq<char>, key: Seq<u8>) -> Option<Seq<u8>> {
        None
    }

    fn load(&mut self, table: BlobTableId, key: &[u8]) -> (result: Result<Option<Vec<u8>>>)
        ensures
            result matches Err(error) && error is Backend && error.spec_detail()
                == no_blob_store_text("get_blob"@),
    {
        self.get_blob(table, key)
    }

    fn store(&mut self, table: BlobTableId, key: &[u8], value: Vec<u8>) -> (result: Result<()>)
        ensures
            result matches Err(error) && error is Backend && error.spec_detail()
                == no_blob_store_text("put_blob"@),
    {
        self.put_blob(table, key, &value)
    }

    fn remove(&mut self, table: BlobTableId, key: &[u8]) -> (result: Result<()>)
        ensures
            result matches Err(error) && error is Backend && error.spec_detail()
                == no_blob_store_text("delete_blob"@),
    {
        self.delete_blob(table, key)
    }
}

impl NullBlobStore {
    pub fn put_blob(&self, table: BlobTableId, key: &[u8], value: &[u8]) -> (result: Result<()>)
        ensures
            result matches Err(error) && error is Backend && error.spec_detail()
                == no_blob_store_text("put_blob"@),
    {
        Err(no_blob_store("put_blob"))
    }

    pub fn get_blob(&self, table: BlobTableId, key: &[u8]) -> (result: Result<Option<Vec<u8>>>)
        ensures
            result matches Err(error) && error is Backend && error.spec_detail()
                == no_blob_store_text("get_blob"@),
    {
        Err(no_blob_store("get_blob"))
    }

    pub fn delete_blob(&self, table: BlobTableId, key: &[u8]) -> (result: Result<()>)
        ensures
            result matches Err(error) && error is Backend && error.spec_detail()
                == no_blob_store_text("delete_blob"@),
    {
        Err(no_blob_store("delete_blob"))
    }

    pub fn apply_writes(&self, writes: &[BlobWriteOp]) -> (result: Result<()>)
        ensures
            match result {
                Ok(_) => writes@.len() == 0,
                Err(error) => writes@.len() > 0 && error is Backend && error.spec_detail()
                    == no_blob_store_text("apply_writes"@),
            },
    {
        if writes.is_empty() {
            return Ok(());
        }
        Err(no_blob_store("apply_writes"))
    }
}

} // verus!
