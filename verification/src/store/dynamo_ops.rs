//! What DynamoDB operations send and how their answers are read.

use vstd::prelude::*;
use vstd::string::StringExecFns;
use vstd::utf8::encode_utf8;

use crate::errors::{QueryError, Result};
use crate::primitives::at_least_one;
use crate::store::batch::{
    base64_len, estimated_batch_write_item_bytes, groups_by_table, is_round_robin, named_chunks,
    split_batch_write_chunks, BATCH_WRITE_ITEM_OVERHEAD,
};
use crate::store::blob::{
    check_chunk_size, chunk_count, chunk_puts, chunk_size_mismatch, concat_chunk_values,
    is_chunking, joined_values, lemma_chunk_bounds, BlobWriteOp, ChunkPut,
};
use crate::store::dynamo::{
    blob_pk, op_fits, op_table, pk_bytes, put_requests, is_row_of, row_wire_bytes,
    DynamoTableLayout, RowPut, KIND_BLOB,
};
use crate::store::meta::MetaWriteOp;
use crate::text::{decimal, put_decimal};

verus! {

/// The requests of a metadata batch: one row put per write, in order, for the
/// physical table of its logical table, with its estimated wire size.
pub open spec fn are_put_requests(
    requests: Seq<(String, RowPut, usize)>,
    layout: DynamoTableLayout,
    writes: Seq<MetaWriteOp>,
) -> bool {
    &&& requests.len() == writes.len()
    &&& forall|i: int|
        0 <= i < writes.len() ==> {
            &&& (#[trigger] requests[i]).0@ == layout.spec_table_name_for(op_table(writes[i]))
            &&& is_row_of(requests[i].1, writes[i])
            &&& requests[i].2 == row_wire_bytes(requests[i].1)
        }
}

/// Plans a metadata batch: the batch-write chunks to send.
pub fn plan_apply_writes(
    layout: &DynamoTableLayout,
    writes: &[MetaWriteOp],
    max_items: usize,
) -> (chunks: Vec<(String, Vec<RowPut>)>)
    requires
        forall|i: int| 0 <= i < writes@.len() ==> #[trigger] op_fits(writes@[i]),
    ensures
        exists|
            requests: Seq<(String, RowPut, usize)>,
            tables: Seq<(Seq<char>, Seq<Seq<RowPut>>)>,
        |
            {
                &&& are_put_requests(requests, *layout, writes@)
                &&& #[trigger] groups_by_table(tables, requests, at_least_one(max_items as int) as usize)
                &&& is_round_robin(named_chunks(chunks@), tables)
            },
{
    let requests = put_requests(layout, writes);
    let ghost all = requests@;
    let chunks = split_batch_write_chunks(requests, max_items);
    proof {
        assert(are_put_requests(all, *layout, writes@));
        let tables = choose|tables: Seq<(Seq<char>, Seq<Seq<RowPut>>)>|
            groups_by_table(tables, all, at_least_one(max_items as int) as usize) && #[trigger] is_round_robin(
                named_chunks(chunks@),
                tables,
            );
        assert(groups_by_table(tables, all, at_least_one(max_items as int) as usize));
    }
    chunks
}

/// One chunk of a blob as an item.
pub struct BlobRow {
    pub partition_key: Vec<u8>,
    pub put: ChunkPut,
}

/// What an item of a blob takes on the wire.
pub open spec fn blob_row_bytes(pk_len: nat, value_len: nat) -> int {
    BATCH_WRITE_ITEM_OVERHEAD + base64_len(pk_len as int) + base64_len(4) + base64_len(
        value_len as int,
    )
}

/// A blob write can be keyed and measured.
pub open spec fn blob_op_fits(op: BlobWriteOp) -> bool {
    &&& encode_utf8(op.table@).len() <= u16::MAX
    &&& blob_row_bytes(
        pk_bytes(KIND_BLOB@, encode_utf8(op.table@), op.blob_key@).len(),
        op.blob_data@.len(),
    ) <= usize::MAX
}

/// Requests put the chunks of one blob write.
pub open spec fn are_blob_requests(
    requests: Seq<(String, BlobRow, usize)>,
    table_name: Seq<char>,
    op: BlobWriteOp,
    chunk_size: usize,
) -> bool {
    let pk = pk_bytes(KIND_BLOB@, encode_utf8(op.table@), op.blob_key@);
    &&& is_chunking(
        requests.map_values(|r: (String, BlobRow, usize)| r.1.put),
        op.blob_data@,
        chunk_size,
    )
    &&& forall|i: int|
        0 <= i < requests.len() ==> {
            &&& (#[trigger] requests[i]).0@ == table_name
            &&& requests[i].1.partition_key@ == pk
            &&& requests[i].2 == blob_row_bytes(pk.len(), requests[i].1.put.value@.len())
        }
}

proof fn lemma_base64_grows(a: int, b: int)
    requires
        0 <= a <= b,
    ensures
        base64_len(a) <= base64_len(b),
{
}

/// Cuts one blob write into item puts. A blob of more than `2^32` chunks is an
/// error.
pub fn blob_requests(table_name: &str, op: &BlobWriteOp, chunk_size: usize) -> (result: Result<
    Vec<(String, BlobRow, usize)>,
>)
    requires
        chunk_size > 0,
        blob_op_fits(*op),
    ensures
        match result {
            Ok(requests) => {
                &&& chunk_count(op.blob_data@.len(), chunk_size as nat) <= 0x1_0000_0000
                &&& are_blob_requests(requests@, table_name@, *op, chunk_size)
            },
            Err(error) => {
                &&& chunk_count(op.blob_data@.len(), chunk_size as nat) > 0x1_0000_0000
                &&& error is Backend
                &&& error.spec_detail() == "dynamo blob chunk index overflows u32"@
            },
        },
{
    let puts = match chunk_puts(&op.blob_data, chunk_size) {
        Ok(puts) => puts,
        Err(error) => {
            return Err(error);
        },
    };
    let pk = blob_pk(op.table, &op.blob_key);
    let ghost all = puts@;
    let mut requests: Vec<(String, BlobRow, usize)> = Vec::new();
    for put in iter: puts
        invariant
            iter.seq() == all,
            chunk_size > 0,
            is_chunking(all, op.blob_data@, chunk_size),
            blob_op_fits(*op),
            pk@ == pk_bytes(KIND_BLOB@, encode_utf8(op.table@), op.blob_key@),
            requests@.len() == iter.index(),
            forall|i: int|
                0 <= i < requests@.len() ==> {
                    &&& (#[trigger] requests@[i]).0@ == table_name@
                    &&& requests@[i].1.partition_key@ == pk@
                    &&& requests@[i].1.put == all[i]
                    &&& requests@[i].2 == blob_row_bytes(
                        pk@.len(),
                        requests@[i].1.put.value@.len(),
                    )
                },
    {
        proof {
            let n = iter.index() as int;
            assert(put == all[n]);
            assert(put.value@ == crate::store::blob::chunk_of(
                op.blob_data@,
                chunk_size as int,
                n,
            ));
            lemma_chunk_within(op.blob_data@, chunk_size as int, n);
            lemma_base64_grows(put.value@.len() as int, op.blob_data@.len() as int);
        }
        let estimated: usize = estimated_batch_write_item_bytes(pk.len(), 4, put.value.len());
        let row = BlobRow { partition_key: vstd::slice::slice_to_vec(&pk), put };
        requests.push((table_name.to_owned(), row, estimated));
    }
    assert(requests@.map_values(|r: (String, BlobRow, usize)| r.1.put) =~= all);
    Ok(requests)
}

proof fn lemma_chunk_within(data: Seq<u8>, chunk_size: int, i: int)
    requires
        chunk_size > 0,
        0 <= i < chunk_count(data.len(), chunk_size as nat),
    ensures
        crate::store::blob::chunk_of(data, chunk_size, i).len() <= data.len(),
{
    let n = data.len() as int;
    if n > 0 {
        lemma_chunk_bounds(n, chunk_size, i);
        assert(0 <= i * chunk_size) by (nonlinear_arith)
            requires
                0 <= i,
                chunk_size > 0,
        ;
    } else {
        assert(i * chunk_size == 0) by (nonlinear_arith)
            requires
                i == 0,
        ;
    }
}

/// A blob from the values of its chunks, in chunk order; no chunk means no
/// blob.
pub fn assemble_blob(values: &[Vec<u8>]) -> (blob: Option<Vec<u8>>)
    ensures
        match blob {
            Some(bytes) => values@.len() > 0 && bytes@ == joined_values(
                values@,
                values@.len() as int,
            ),
            None => values@.len() == 0,
        },
{
    if values.len() == 0 {
        None
    } else {
        Some(concat_chunk_values(values))
    }
}

/// The number that decimal digits stand for.
pub open spec fn digits_value(digits: Seq<char>) -> Option<nat>
    decreases digits.len(),
{
    if digits.len() == 0 {
        Some(0)
    } else {
        let last = digits.last();
        match digits_value(digits.drop_last()) {
            Some(head) => if '0' <= last <= '9' {
                Some((head * 10 + (last as int - '0' as int)) as nat)
            } else {
                None
            },
            None => None,
        }
    }
}

/// What a decimal text parses to: at least one digit, after an optional plus
/// sign, within the range of `usize`.
pub open spec fn parsed_usize(text: Seq<char>) -> Option<nat> {
    let digits = if text.len() > 0 && text[0] == '+' {
        text.drop_first()
    } else {
        text
    };
    match digits_value(digits) {
        Some(value) => if digits.len() > 0 && value <= usize::MAX {
            Some(value)
        } else {
            None
        },
        None => None,
    }
}

/// `str::parse` to a `usize`: an optional plus sign followed by only digits;
/// anything else, and a number out of range, is an error.
#[verifier::external_body]
fn parse_usize(text: &str) -> (value: Option<usize>)
    ensures
        match value {
            Some(value) => parsed_usize(text@) == Some(value as nat),
            None => parsed_usize(text@) is None,
        },
{
    text.parse::<usize>().ok()
}

/// A numeric attribute of an item as read back.
pub enum NumberRead {
    /// The item does not exist.
    NoItem,
    /// The item lacks the attribute, or it is not numeric.
    Missing,
    /// The attribute's decimal text.
    Number(String),
}

/// Reads a numeric attribute; `Ok(None)` means that the item does not exist.
fn read_number(read: NumberRead, missing: &str, malformed: &str) -> (result: Result<Option<usize>>)
    ensures
        match result {
            Ok(None) => read is NoItem,
            Ok(Some(value)) => read matches NumberRead::Number(text) && parsed_usize(text@) == Some(
                value as nat,
            ),
            Err(error) => {
                &&& error is Backend
                &&& match read {
                    NumberRead::NoItem => false,
                    NumberRead::Missing => error.spec_detail() == missing@,
                    NumberRead::Number(text) => parsed_usize(text@) is None && error.spec_detail()
                        == malformed@ + text@,
                }
            },
        },
{
    match read {
        NumberRead::NoItem => Ok(None),
        NumberRead::Missing => Err(QueryError::Backend(missing.to_owned())),
        NumberRead::Number(text) => match parse_usize(text.as_str()) {
            Some(value) => Ok(Some(value)),
            None => {
                let mut detail = malformed.to_owned();
                detail.append(text.as_str());
                Err(QueryError::Backend(detail))
            },
        },
    }
}

/// Reads a blob's total length off its first chunk; `Ok(None)` means that the
/// blob does not exist.
pub fn read_blob_len(read: NumberRead) -> (result: Result<Option<usize>>)
    ensures
        match result {
            Ok(None) => read is NoItem,
            Ok(Some(len)) => read matches NumberRead::Number(text) && parsed_usize(text@) == Some(
                len as nat,
            ),
            Err(error) => {
                &&& error is Backend
                &&& match read {
                    NumberRead::NoItem => false,
                    NumberRead::Missing => error.spec_detail()
                        == "dynamo blob chunk 0 missing numeric `len` attribute"@,
                    NumberRead::Number(text) => parsed_usize(text@) is None && error.spec_detail()
                        == "dynamo blob len not a usize: "@ + text@,
                }
            },
        },
{
    read_number(
        read,
        "dynamo blob chunk 0 missing numeric `len` attribute",
        "dynamo blob len not a usize: ",
    )
}

/// Reads a table's chunk-size marker; `Ok(None)` for tables provisioned before
/// the marker existed.
pub fn read_chunk_size_marker(read: NumberRead) -> (result: Result<Option<usize>>)
    ensures
        match result {
            Ok(None) => read is NoItem,
            Ok(Some(size)) => read matches NumberRead::Number(text) && parsed_usize(text@) == Some(
                size as nat,
            ),
            Err(error) => {
                &&& error is Backend
                &&& match read {
                    NumberRead::NoItem => false,
                    NumberRead::Missing => error.spec_detail()
                        == "dynamo blob chunk-size marker missing numeric `val` attribute"@,
                    NumberRead::Number(text) => parsed_usize(text@) is None && error.spec_detail()
                        == "dynamo blob chunk-size marker not a usize: "@ + text@,
                }
            },
        },
{
    read_number(
        read,
        "dynamo blob chunk-size marker missing numeric `val` attribute",
        "dynamo blob chunk-size marker not a usize: ",
    )
}

/// What provisioning does about the marker.
#[derive(Debug, Clone, Copy, PartialEq, Eq, Structural)]
pub enum MarkerStep {
    /// The stored marker agrees.
    Keep,
    /// There is none: stamp the configured size, if there still is none then.
    Stamp,
}

/// Decides about the marker of a table. An existing marker is never
/// overwritten: a different size is an error.
pub fn plan_marker(table: &str, configured: usize, stored: Option<usize>) -> (result: Result<
    MarkerStep,
>)
    ensures
        match result {
            Ok(MarkerStep::Keep) => stored == Some(configured),
            Ok(MarkerStep::Stamp) => stored is None,
            Err(error) => {
                &&& stored is Some && stored->Some_0 != configured
                &&& error is Backend
                &&& error.spec_detail() == chunk_size_mismatch(
                    table@,
                    configured as nat,
                    stored->Some_0 as nat,
                )
            },
        },
{
    match stored {
        None => Ok(MarkerStep::Stamp),
        Some(size) => match check_chunk_size(table, configured, size) {
            Ok(_) => Ok(MarkerStep::Keep),
            Err(error) => Err(error),
        },
    }
}

/// Settles a lost stamping race: the marker that won must agree.
pub fn settle_marker_conflict(table: &str, configured: usize, stored: Option<usize>) -> (result:
    Result<()>)
    ensures
        match result {
            Ok(_) => stored == Some(configured),
            Err(error) => {
                &&& stored != Some(configured)
                &&& error is Backend
                &&& error.spec_detail() == match stored {
                    Some(size) => chunk_size_mismatch(table@, configured as nat, size as nat),
                    None =>
                        "dynamo blob chunk-size marker absent after conditional-put conflict"@,
                }
            },
        },
{
    match stored {
        Some(size) => check_chunk_size(table, configured, size),
        None => Err(
            QueryError::Backend(
                "dynamo blob chunk-size marker absent after conditional-put conflict".to_owned(),
            ),
        ),
    }
}

/// The requests that delete every listed item of a partition.
pub open spec fn are_delete_requests(
    requests: Seq<(String, (Vec<u8>, Vec<u8>), usize)>,
    table_name: Seq<char>,
    pk: Seq<u8>,
    sort_keys: Seq<Vec<u8>>,
) -> bool {
    &&& requests.len() == sort_keys.len()
    &&& forall|i: int|
        0 <= i < requests.len() ==> {
            &&& (#[trigger] requests[i]).0@ == table_name
            &&& requests[i].1.0@ == pk
            &&& requests[i].1.1@ == sort_keys[i]@
            &&& requests[i].2 == BATCH_WRITE_ITEM_OVERHEAD + base64_len(pk.len() as int)
                + base64_len(sort_keys[i]@.len() as int) + base64_len(0)
        }
}

/// Deletes every listed item of a blob's partition, so that orphan tail chunks
/// of a shorter overwrite go too.
pub fn delete_requests(table_name: &str, pk: &[u8], sort_keys: Vec<Vec<u8>>) -> (requests: Vec<
    (String, (Vec<u8>, Vec<u8>), usize),
>)
    requires
        forall|i: int|
            0 <= i < sort_keys@.len() ==> BATCH_WRITE_ITEM_OVERHEAD + base64_len(pk@.len() as int)
                + base64_len((#[trigger] sort_keys@[i])@.len() as int) + base64_len(0)
                <= usize::MAX,
    ensures
        are_delete_requests(requests@, table_name@, pk@, sort_keys@),
{
    let ghost all = sort_keys@;
    let mut requests: Vec<(String, (Vec<u8>, Vec<u8>), usize)> = Vec::new();
    for sort_key in iter: sort_keys
        invariant
            iter.seq() == all,
            forall|i: int|
                0 <= i < all.len() ==> BATCH_WRITE_ITEM_OVERHEAD + base64_len(pk@.len() as int)
                    + base64_len((#[trigger] all[i])@.len() as int) + base64_len(0) <= usize::MAX,
            requests@.len() == iter.index(),
            forall|i: int|
                0 <= i < requests@.len() ==> {
                    &&& (#[trigger] requests@[i]).0@ == table_name@
                    &&& requests@[i].1.0@ == pk@
                    &&& requests@[i].1.1@ == all[i]@
                    &&& requests@[i].2 == BATCH_WRITE_ITEM_OVERHEAD + base64_len(pk@.len() as int)
                        + base64_len(all[i]@.len() as int) + base64_len(0)
                },
    {
        assert(sort_key == all[iter.index() as int]);
        let estimated: usize = estimated_batch_write_item_bytes(pk.len(), sort_key.len(), 0);
        requests.push(
            (table_name.to_owned(), (vstd::slice::slice_to_vec(pk), sort_key), estimated),
        );
    }
    requests
}

/// How many times a created table is described before giving up.
pub const CREATE_TABLE_POLLS: u32 = 60;

/// What follows a step of table creation.
pub enum CreateStep {
    /// Describe the table.
    Describe,
    /// Wait a little, then describe the table.
    Wait,
    Done,
    Fail(QueryError),
}

/// Table creation between outside steps.
pub struct TableCreation {
    pub table: String,
    pub polls: u32,
}

impl TableCreation {
    pub open spec fn wf(self) -> bool {
        self.polls < CREATE_TABLE_POLLS
    }

    pub fn new(table: String) -> (creation: TableCreation)
        ensures
            creation.wf(),
            creation.table == table,
            creation.polls == 0,
    {
        TableCreation { table, polls: 0 }
    }

    /// The create call answered. A table that already exists is success, told
    /// by the error's code, since compatible backends may not type it.
    pub fn on_created(&self, failure: Option<(Option<String>, QueryError)>) -> (step: CreateStep)
        ensures
            match failure {
                None => step is Describe,
                Some((code, error)) => if code is Some && code->Some_0@
                    == "ResourceInUseException"@ {
                    step is Describe
                } else {
                    step == CreateStep::Fail(error)
                },
            },
    {
        match failure {
            None => CreateStep::Describe,
            Some((code, error)) => {
                if let Some(code) = code {
                    if crate::text::str_eq(code.as_str(), "ResourceInUseException") {
                        return CreateStep::Describe;
                    }
                }
                CreateStep::Fail(error)
            },
        }
    }

    /// A description answered: done once the table is active, else wait and ask
    /// again, until the polls are used up.
    pub fn on_described(&mut self, active: bool) -> (step: CreateStep)
        requires
            old(self).wf(),
        ensures
            final(self).table == old(self).table,
            match step {
                CreateStep::Done => active && *final(self) == *old(self),
                CreateStep::Wait => {
                    &&& !active
                    &&& final(self).polls == old(self).polls + 1
                    &&& final(self).wf()
                },
                CreateStep::Fail(error) => {
                    &&& !active
                    &&& old(self).polls == CREATE_TABLE_POLLS - 1
                    &&& error is Backend
                    &&& error.spec_detail() == "dynamo create_table: table "@ + old(self).table@
                        + " did not become ACTIVE in time"@
                },
                CreateStep::Describe => false,
            },
    {
        if active {
            return CreateStep::Done;
        }
        if self.polls + 1 == CREATE_TABLE_POLLS {
            let mut text = "dynamo create_table: table ".to_owned();
            text.append(self.table.as_str());
            text.append(" did not become ACTIVE in time");
            return CreateStep::Fail(QueryError::Backend(text));
        }
        self.polls = self.polls + 1;
        CreateStep::Wait
    }
}

/// The key of item `i` of a batch-limit probe; no such item exists, so the
/// probe's deletions change nothing.
pub fn probe_key(i: u64) -> (key: String)
    ensures
        key@ == "__alternator_batch_probe__#"@ + decimal(i as nat),
{
    let mut key = "__alternator_batch_probe__#".to_owned();
    put_decimal(&mut key, i);
    key
}

/// The error of a failed operation: the service's code and message where it
/// reported a code, else what the client says.
pub fn backend_error(op: &str, code: Option<&str>, message: Option<&str>, otherwise: &str) -> (error:
    QueryError)
    ensures
        error is Backend,
        error.spec_detail() == "dynamo "@ + op@ + ": "@ + (match code {
            Some(code) => code@ + ": "@ + (match message {
                Some(message) => message@,
                None => ""@,
            }),
            None => otherwise@,
        }),
{
    let mut text = "dynamo ".to_owned();
    text.append(op);
    text.append(": ");
    match code {
        Some(code) => {
            text.append(code);
            text.append(": ");
            match message {
                Some(message) => text.append(message),
                None => text.append(""),
            }
        },
        None => text.append(otherwise),
    }
    let ghost detail = match code {
        Some(code) => code@ + ": "@ + (match message {
            Some(message) => message@,
            None => ""@,
        }),
        None => otherwise@,
    };
    assert(text@ =~= "dynamo "@ + op@ + ": "@ + detail);
    QueryError::Backend(text)
}

} // verus!
