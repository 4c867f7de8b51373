//! What the row and chunk layouts are for: different rows never meet, and what
//! was written is what is read.

use vstd::prelude::*;
use vstd::utf8::encode_utf8;

use crate::be::lemma_be_bytes_len;
use crate::errors::Result;
use crate::hex::{hex_pairs, hex_text, lemma_hex_text};
use crate::store::batch::{base64_len, BATCH_WRITE_ITEM_OVERHEAD};
use crate::store::blob::{
    chunk_of, is_chunking, joined_chunks, joined_values, law_chunks_reassemble, range_answer,
    BlobWriteOp, ChunkPut,
};
use crate::store::dynamo::{
    attribute_is_binary, has_pk_sk_schema, is_oversplit, is_row_of, key_role, law_kinds_disjoint,
    law_pk_unambiguous, op_table, pk_bytes, safe_name, table_totals, DynamoTableLayout, KeyRole,
    RowPut, TableDescription, KIND_BLOB, KIND_KV, KIND_SCAN,
};
use crate::store::dynamo_ops::{
    are_blob_requests, are_delete_requests, are_put_requests, digits_value, parsed_usize, BlobRow,
};
use crate::store::memory::{blob_after, one_more};
use crate::store::meta::{kv_after, row_after, MetaWriteOp};
use crate::store::mongo::is_document_of;
use crate::text::{decimal, digit};

verus! {

/// The writes are to one row.
pub open spec fn same_row(a: MetaWriteOp, b: MetaWriteOp) -> bool {
    match (a, b) {
        (
            MetaWriteOp::Put { table, row_key, .. },
            MetaWriteOp::Put { table: t, row_key: k, .. },
        ) => table@ == t@ && row_key@ == k@,
        (
            MetaWriteOp::ScanPut { table, partition, clustering_key, .. },
            MetaWriteOp::ScanPut { table: t, partition: p, clustering_key: c, .. },
        ) => table@ == t@ && partition@ == p@ && clustering_key@ == c@,
        _ => false,
    }
}

/// What a write puts.
pub open spec fn written_value(op: MetaWriteOp) -> Seq<u8> {
    match op {
        MetaWriteOp::Put { row_data, .. } => row_data@,
        MetaWriteOp::ScanPut { row_data, .. } => row_data@,
    }
}

/// Two writes share an item exactly if they are to one row, and the item holds
/// what the write puts.
pub proof fn law_items_are_rows(a: MetaWriteOp, b: MetaWriteOp, x: RowPut, y: RowPut)
    requires
        is_row_of(x, a),
        is_row_of(y, b),
        encode_utf8(op_table(a)).len() <= u16::MAX,
        encode_utf8(op_table(b)).len() <= u16::MAX,
    ensures
        x.partition_key@ == y.partition_key@ && x.sort_key@ == y.sort_key@ <==> same_row(a, b),
        x.row_data@ == written_value(a),
{
    if x.partition_key@ == y.partition_key@ {
        match (a, b) {
            (
                MetaWriteOp::Put { table, row_key, .. },
                MetaWriteOp::Put { table: t, row_key: k, .. },
            ) => {
                law_pk_unambiguous(KIND_KV@, table@, row_key@, KIND_KV@, t@, k@);
            },
            (
                MetaWriteOp::ScanPut { table, partition, .. },
                MetaWriteOp::ScanPut { table: t, partition: p, .. },
            ) => {
                law_pk_unambiguous(KIND_SCAN@, table@, partition@, KIND_SCAN@, t@, p@);
            },
            (
                MetaWriteOp::Put { table, row_key, .. },
                MetaWriteOp::ScanPut { table: t, partition: p, .. },
            ) => {
                law_kinds_disjoint(table@, row_key@, t@, p@);
            },
            (
                MetaWriteOp::ScanPut { table, partition, .. },
                MetaWriteOp::Put { table: t, row_key: k, .. },
            ) => {
                law_kinds_disjoint(t@, k@, table@, partition@);
            },
        }
    }
}

proof fn lemma_slash_parts(
    a: Seq<char>,
    x: Seq<char>,
    b: Seq<char>,
    y: Seq<char>,
)
    requires
        a + seq!['/'] + x == b + seq!['/'] + y,
        !a.contains('/'),
        !b.contains('/'),
    ensures
        a == b,
        x == y,
{
    let s = a + seq!['/'] + x;
    let t = b + seq!['/'] + y;
    let n = a.len() as int;
    let m = b.len() as int;
    assert(s[n] == '/');
    assert(t[m] == '/');
    if m < n {
        assert(s[m] == a[m]);
        assert(a.contains('/'));
    }
    if n < m {
        assert(t[n] == b[n]);
        assert(b.contains('/'));
    }
    assert(n == m);
    assert forall|i: int| 0 <= i < n implies a[i] == b[i] by {
        assert(s[i] == a[i]);
        assert(t[i] == b[i]);
    }
    assert(a =~= b);
    assert(x =~= s.subrange(n + 1, s.len() as int));
    assert(y =~= t.subrange(n + 1, t.len() as int));
}

proof fn lemma_hex_injective(a: Seq<u8>, b: Seq<u8>)
    requires
        hex_text(a) == hex_text(b),
    ensures
        a == b,
{
    lemma_hex_text(a);
    lemma_hex_text(b);
    assert(hex_pairs(encode_utf8(hex_text(a))) == Some(a));
    assert(hex_pairs(encode_utf8(hex_text(b))) == Some(b));
}

proof fn lemma_hex_has_no_slash(a: Seq<u8>)
    ensures
        !hex_text(a).contains('/'),
{
    lemma_hex_text(a);
}

/// Two writes share a document exactly if they are to one row, and the document
/// holds what the write puts. Table names hold no slash.
pub proof fn law_documents_are_rows(
    a: MetaWriteOp,
    b: MetaWriteOp,
    x: (String, Vec<u8>),
    y: (String, Vec<u8>),
)
    requires
        is_document_of(x, a),
        is_document_of(y, b),
        !op_table(a).contains('/'),
        !op_table(b).contains('/'),
    ensures
        x.0@ == y.0@ <==> same_row(a, b),
        x.1@ == written_value(a),
{
    reveal_strlit("k/");
    reveal_strlit("s/");
    reveal_strlit("/");
    assert("/"@ =~= seq!['/']);
    if x.0@ == y.0@ {
        let s = x.0@;
        match (a, b) {
            (
                MetaWriteOp::Put { table, row_key, .. },
                MetaWriteOp::Put { table: t, row_key: k, .. },
            ) => {
                assert(s.subrange(2, s.len() as int) =~= table@ + seq!['/'] + hex_text(row_key@));
                assert(s.subrange(2, s.len() as int) =~= t@ + seq!['/'] + hex_text(k@));
                lemma_slash_parts(table@, hex_text(row_key@), t@, hex_text(k@));
                lemma_hex_injective(row_key@, k@);
            },
            (
                MetaWriteOp::ScanPut { table, partition, clustering_key, .. },
                MetaWriteOp::ScanPut { table: t, partition: p, clustering_key: c, .. },
            ) => {
                let u = hex_text(partition@) + seq!['/'] + hex_text(clustering_key@);
                let v = hex_text(p@) + seq!['/'] + hex_text(c@);
                assert(s.subrange(2, s.len() as int) =~= table@ + seq!['/'] + u);
                assert(s.subrange(2, s.len() as int) =~= t@ + seq!['/'] + v);
                lemma_slash_parts(table@, u, t@, v);
                lemma_hex_has_no_slash(partition@);
                lemma_hex_has_no_slash(p@);
                lemma_slash_parts(
                    hex_text(partition@),
                    hex_text(clustering_key@),
                    hex_text(p@),
                    hex_text(c@),
                );
                lemma_hex_injective(partition@, p@);
                lemma_hex_injective(clustering_key@, c@);
            },
            (MetaWriteOp::Put { .. }, MetaWriteOp::ScanPut { .. }) => {
                assert(s[0] == 'k');
                assert(s[0] == 's');
            },
            (MetaWriteOp::ScanPut { .. }, MetaWriteOp::Put { .. }) => {
                assert(s[0] == 'k');
                assert(s[0] == 's');
            },
        }
    }
}

/// Rows of different logical tables go to different physical tables, where each
/// has its own, if their names differ by more than underscores for hyphens; in
/// the single layout all go to the one table.
pub proof fn law_tables_are_kept_apart(layout: DynamoTableLayout, a: Seq<char>, b: Seq<char>)
    ensures
        layout matches DynamoTableLayout::Single { table_name } ==> layout.spec_table_name_for(a)
            == table_name@,
        layout is PerLogicalTable ==> (layout.spec_table_name_for(a) == layout.spec_table_name_for(
            b,
        ) <==> a.len() == b.len() && forall|i: int|
            0 <= i < a.len() ==> (#[trigger] a[i] == b[i] || (a[i] == '_' && b[i] == '-') || (a[i]
                == '-' && b[i] == '_'))),
{
    if let DynamoTableLayout::PerLogicalTable { prefix, .. } = layout {
        let x = layout.spec_table_name_for(a);
        let y = layout.spec_table_name_for(b);
        let n = prefix@.len() as int;
        reveal_strlit("-");
        if x == y {
            assert(x.len() == n + 1 + a.len());
            assert(y.len() == n + 1 + b.len());
            assert forall|i: int| 0 <= i < a.len() implies (#[trigger] a[i] == b[i] || (a[i] == '_'
                && b[i] == '-') || (a[i] == '-' && b[i] == '_')) by {
                assert(x[n + 1 + i] == safe_name(a)[i]);
                assert(y[n + 1 + i] == safe_name(b)[i]);
            }
        }
        if a.len() == b.len() && forall|i: int|
            0 <= i < a.len() ==> (#[trigger] a[i] == b[i] || (a[i] == '_' && b[i] == '-') || (a[i]
                == '-' && b[i] == '_')) {
            assert(safe_name(a) =~= safe_name(b));
        }
    }
}

/// The last write to a scan row in a batch decides its value, and a row that no
/// write is to keeps it.
pub proof fn law_last_scan_write_wins(
    before: Option<Seq<u8>>,
    writes: Seq<MetaWriteOp>,
    n: int,
    table: Seq<char>,
    partition: Seq<u8>,
    clustering: Seq<u8>,
    i: int,
)
    requires
        0 <= n <= writes.len(),
        -1 <= i < n,
        i >= 0 ==> (writes[i] matches MetaWriteOp::ScanPut {
            table: t,
            partition: p,
            clustering_key: c,
            ..
        } && t@ == table && p@ == partition && c@ == clustering),
        forall|j: int|
            i < j < n ==> !(#[trigger] writes[j] matches MetaWriteOp::ScanPut {
                table: t,
                partition: p,
                clustering_key: c,
                ..
            } && t@ == table && p@ == partition && c@ == clustering),
    ensures
        row_after(before, writes, n, table, partition, clustering) == if i >= 0 {
            Some(written_value(writes[i]))
        } else {
            before
        },
    decreases n,
{
    if n > 0 && i < n - 1 {
        law_last_scan_write_wins(before, writes, n - 1, table, partition, clustering, i);
    }
}

/// A kv row that no write of a batch is to keeps its value.
pub proof fn law_other_rows_stay(
    before: Option<Seq<u8>>,
    writes: Seq<MetaWriteOp>,
    n: int,
    table: Seq<char>,
    key: Seq<u8>,
)
    requires
        0 <= n <= writes.len(),
        forall|j: int|
            0 <= j < n ==> !(#[trigger] writes[j] matches MetaWriteOp::Put {
                table: t,
                row_key,
                ..
            } && t@ == table && row_key@ == key),
    ensures
        kv_after(before, writes, n, table, key) == before,
    decreases n,
{
    if n > 0 {
        law_other_rows_stay(before, writes, n - 1, table, key);
    }
}

/// The last write to a blob in a batch decides its bytes, and a blob that no
/// write is to keeps them.
pub proof fn law_last_blob_write_wins(
    before: Option<Seq<u8>>,
    writes: Seq<BlobWriteOp>,
    n: int,
    table: Seq<char>,
    key: Seq<u8>,
    i: int,
)
    requires
        0 <= n <= writes.len(),
        -1 <= i < n,
        i >= 0 ==> writes[i].table@ == table && writes[i].blob_key@ == key,
        forall|j: int|
            i < j < n ==> !((#[trigger] writes[j]).table@ == table && writes[j].blob_key@ == key),
    ensures
        blob_after(before, writes, n, table, key) == if i >= 0 {
            Some(writes[i].blob_data@)
        } else {
            before
        },
    decreases n,
{
    if n > 0 && i < n - 1 {
        law_last_blob_write_wins(before, writes, n - 1, table, key, i);
    }
}

/// A range read gives the blob's own bytes, from the start on, as many as asked
/// for or as there are; it fails only on a range that is reversed or starts past
/// the end, and finds nothing only where there is no blob.
pub proof fn law_range_is_the_blobs_bytes(
    blob: Option<Seq<u8>>,
    start: int,
    end: int,
    result: Result<Option<Vec<u8>>>,
)
    requires
        0 <= start,
        range_answer(blob, start, end, result),
    ensures
        result is Err <==> start > end || (blob is Some && start > blob->Some_0.len()),
        result matches Ok(got) ==> (got is Some <==> blob is Some),
        result matches Ok(Some(got)) ==> {
            &&& got@.len() <= end - start
            &&& start + got@.len() <= blob->Some_0.len()
            &&& got@.len() == end - start || start + got@.len() == blob->Some_0.len()
            &&& forall|i: int| 0 <= i < got@.len() ==> #[trigger] got@[i] == blob->Some_0[start + i]
        },
{
}

/// Ranges that meet read as one: the bytes of the first and then of the second
/// are those of both together.
pub proof fn law_adjacent_ranges_join(
    blob: Seq<u8>,
    a: int,
    b: int,
    c: int,
    first: Vec<u8>,
    second: Vec<u8>,
    whole: Vec<u8>,
)
    requires
        0 <= a <= b <= c,
        b <= blob.len(),
        range_answer(Some(blob), a, b, Ok(Some(first))),
        range_answer(Some(blob), b, c, Ok(Some(second))),
        range_answer(Some(blob), a, c, Ok(Some(whole))),
    ensures
        whole@ == first@ + second@,
{
    assert(whole@ =~= first@ + second@);
}

proof fn lemma_values_are_chunks(
    puts: Seq<ChunkPut>,
    values: Seq<Vec<u8>>,
    data: Seq<u8>,
    chunk_size: usize,
    n: int,
)
    requires
        is_chunking(puts, data, chunk_size),
        values.len() == puts.len(),
        forall|i: int| 0 <= i < puts.len() ==> (#[trigger] values[i])@ == puts[i].value@,
        0 <= n <= puts.len(),
    ensures
        joined_values(values, n) == joined_chunks(data, chunk_size as int, 0, n - 1),
    decreases n,
{
    if n > 0 {
        lemma_values_are_chunks(puts, values, data, chunk_size, n - 1);
        assert(values[n - 1]@ == puts[n - 1].value@);
    }
}

/// A blob reads back: the values of its items, in the order of their indexes,
/// are its bytes, the first item says how many there are, and no item's value is
/// longer than a chunk. An empty blob has an item too.
pub proof fn law_blob_items_read_back(
    requests: Seq<(String, BlobRow, usize)>,
    table_name: Seq<char>,
    op: BlobWriteOp,
    chunk_size: usize,
    values: Seq<Vec<u8>>,
    i: int,
)
    requires
        chunk_size > 0,
        are_blob_requests(requests, table_name, op, chunk_size),
        values.len() == requests.len(),
        forall|k: int| 0 <= k < requests.len() ==> (#[trigger] values[k])@
            == requests[k].1.put.value@,
        op.blob_data@.len() <= usize::MAX,
        0 <= i < requests.len(),
    ensures
        requests.len() >= 1,
        joined_values(values, values.len() as int) == op.blob_data@,
        requests[0].1.put.total_length == Some(op.blob_data@.len() as usize),
        requests[i].1.put.index == i,
        requests[i].1.put.value@.len() <= chunk_size,
        requests[i].0@ == table_name,
        requests[i].1.partition_key@ == pk_bytes(
            KIND_BLOB@,
            encode_utf8(op.table@),
            op.blob_key@,
        ),
{
    let puts = requests.map_values(|r: (String, BlobRow, usize)| r.1.put);
    assert forall|k: int| 0 <= k < puts.len() implies (#[trigger] values[k])@
        == puts[k].value@ by {}
    lemma_values_are_chunks(puts, values, op.blob_data@, chunk_size, puts.len() as int);
    law_chunks_reassemble(op.blob_data@, chunk_size);
    assert(puts[0] == requests[0].1.put);
    assert(puts[i] == requests[i].1.put);
    assert(puts[i].index == i);
    let data = op.blob_data@;
    let n = data.len() as int;
    let size = chunk_size as int;
    if n > 0 {
        crate::store::blob::lemma_chunk_bounds(n, size, i);
        assert(i * size < n);
        assert((i * size) + size - (i * size) == size);
        assert(chunk_of(data, size, i).len() <= size);
    } else {
        assert(i == 0);
        assert(0 * size == 0) by (nonlinear_arith);
        assert(chunk_of(data, size, 0).len() == 0);
    }
}

/// Deleting a blob's items deletes those that were listed, each once, all of the
/// blob's own partition.
pub proof fn law_every_listed_item_is_deleted(
    requests: Seq<(String, (Vec<u8>, Vec<u8>), usize)>,
    table_name: Seq<char>,
    pk: Seq<u8>,
    sort_keys: Seq<Vec<u8>>,
    i: int,
)
    requires
        are_delete_requests(requests, table_name, pk, sort_keys),
        0 <= i < sort_keys.len(),
    ensures
        requests.len() == sort_keys.len(),
        requests[i].0@ == table_name,
        requests[i].1.0@ == pk,
        requests[i].1.1@ == sort_keys[i]@,
{
}

/// A number written in decimal reads back as itself.
pub proof fn law_decimal_reads_back(n: nat)
    ensures
        digits_value(decimal(n)) == Some(n),
        decimal(n).len() > 0,
        n <= usize::MAX ==> parsed_usize(decimal(n)) == Some(n),
    decreases n,
{
    let d = digit(n % 10);
    assert('0' <= d <= '9');
    assert(d as int - '0' as int == n % 10);
    if n < 10 {
        assert(decimal(n).drop_last() =~= Seq::<char>::empty());
        assert(digits_value(decimal(n).drop_last()) == Some(0nat));
        assert(decimal(n).last() == d);
        assert(decimal(n)[0] == d);
    } else {
        law_decimal_reads_back(n / 10);
        assert(decimal(n).drop_last() =~= decimal(n / 10));
        assert(decimal(n).last() == d);
    }
    lemma_decimal_has_no_sign(n);
}

proof fn lemma_decimal_has_no_sign(n: nat)
    ensures
        decimal(n).len() > 0,
        decimal(n)[0] != '+',
    decreases n,
{
    if n < 10 {
        assert(decimal(n)[0] == digit(n));
    } else {
        lemma_decimal_has_no_sign(n / 10);
        assert(decimal(n)[0] == decimal(n / 10)[0]);
    }
}

/// An attribute is taken by its name, and the first of a name counts.
pub proof fn law_first_attribute_counts(attributes: Seq<(String, bool)>, name: Seq<char>, i: int)
    requires
        0 <= i < attributes.len(),
        attributes[i].0@ == name,
        forall|j: int| 0 <= j < i ==> (#[trigger] attributes[j]).0@ != name,
    ensures
        attribute_is_binary(attributes, name) == attributes[i].1,
    decreases i,
{
    if i > 0 {
        let rest = attributes.drop_first();
        assert(attributes[0].0@ != name);
        assert forall|j: int| 0 <= j < i - 1 implies (#[trigger] rest[j]).0@ != name by {
            assert(attributes[j + 1].0@ != name);
        }
        law_first_attribute_counts(rest, name, i - 1);
    }
}

/// A key attribute is taken by its name, and the first of a name counts.
pub proof fn law_first_key_counts(keys: Seq<(String, KeyRole)>, name: Seq<char>, i: int)
    requires
        0 <= i <= keys.len(),
        i < keys.len() ==> keys[i].0@ == name,
        forall|j: int| 0 <= j < i ==> (#[trigger] keys[j]).0@ != name,
    ensures
        key_role(keys, name) == if i < keys.len() {
            Some(keys[i].1)
        } else {
            None
        },
    decreases i,
{
    if i > 0 {
        let rest = keys.drop_first();
        assert(keys[0].0@ != name);
        assert forall|j: int| 0 <= j < i - 1 implies (#[trigger] rest[j]).0@ != name by {
            assert(keys[j + 1].0@ != name);
        }
        law_first_key_counts(rest, name, i - 1);
    }
}

/// A table is usable only with a binary hash key and a binary range key of the
/// expected names; an attribute that it lacks makes it unusable.
pub proof fn law_schema_needs_both_keys(description: TableDescription)
    requires
        has_pk_sk_schema(description),
    ensures
        exists|i: int|
            0 <= i < description.keys@.len() && (#[trigger] description.keys@[i]).0@ == "pk"@
                && description.keys@[i].1 == KeyRole::Hash,
        exists|i: int|
            0 <= i < description.keys@.len() && (#[trigger] description.keys@[i]).0@ == "sk"@
                && description.keys@[i].1 == KeyRole::Range,
        exists|i: int|
            0 <= i < description.attributes@.len() && (#[trigger] description.attributes@[i]).0@
                == "pk"@ && description.attributes@[i].1,
        exists|i: int|
            0 <= i < description.attributes@.len() && (#[trigger] description.attributes@[i]).0@
                == "sk"@ && description.attributes@[i].1,
{
    let pk = lemma_key_at(description.keys@, "pk"@);
    let sk = lemma_key_at(description.keys@, "sk"@);
    let p = lemma_attribute_at(description.attributes@, "pk"@);
    let s = lemma_attribute_at(description.attributes@, "sk"@);
    assert(description.keys@[pk].0@ == "pk"@);
    assert(description.keys@[sk].0@ == "sk"@);
    assert(description.attributes@[p].0@ == "pk"@);
    assert(description.attributes@[s].0@ == "sk"@);
}

proof fn lemma_key_at(keys: Seq<(String, KeyRole)>, name: Seq<char>) -> (i: int)
    requires
        key_role(keys, name) is Some,
    ensures
        0 <= i < keys.len(),
        keys[i].0@ == name,
        key_role(keys, name) == Some(keys[i].1),
    decreases keys.len(),
{
    if keys[0].0@ == name {
        0
    } else {
        let i = lemma_key_at(keys.drop_first(), name);
        i + 1
    }
}

proof fn lemma_attribute_at(attributes: Seq<(String, bool)>, name: Seq<char>) -> (i: int)
    requires
        attribute_is_binary(attributes, name),
    ensures
        0 <= i < attributes.len(),
        attributes[i].0@ == name,
        attributes[i].1,
    decreases attributes.len(),
{
    if attributes[0].0@ == name {
        0
    } else {
        let i = lemma_attribute_at(attributes.drop_first(), name);
        i + 1
    }
}

/// A table that was given more chunks than its requests fill was split by
/// weight: as many chunks of the full size as it has would hold more.
pub proof fn law_oversplit_tables_have_room(
    chunks: Seq<(String, usize)>,
    table: Seq<char>,
    max_items: usize,
)
    requires
        max_items >= 1,
    ensures
        ({
            let (items, count) = table_totals(chunks, chunks.len() as int, table);
            is_oversplit(chunks, table, max_items) <==> items + max_items <= count * max_items
        }),
{
    let (items, count) = table_totals(chunks, chunks.len() as int, table);
    let m = max_items as int;
    let q = (items + m - 1) / m;
    vstd::arithmetic::div_mod::lemma_fundamental_div_mod(items + m - 1, m);
    vstd::arithmetic::div_mod::lemma_mod_bound(items + m - 1, m);
    let r = (items + m - 1) % m;
    assert(items + m - 1 == m * q + r);
    if count > q {
        assert(count * m >= (q + 1) * m) by (nonlinear_arith)
            requires
                count >= q + 1,
                m >= 1,
        ;
        assert((q + 1) * m == m * q + m) by (nonlinear_arith);
    } else {
        assert(count * m <= q * m) by (nonlinear_arith)
            requires
                count <= q,
                m >= 1,
        ;
        assert(q * m == m * q) by (nonlinear_arith);
    }
}

/// `bytes` is what so many raw bytes in three values take on the wire: four
/// characters for every three of them, each value filled up on its own.
pub open spec fn is_wire_size(bytes: int, raw: nat) -> bool {
    4 * raw <= 3 * (bytes - BATCH_WRITE_ITEM_OVERHEAD) <= 4 * (raw + 6)
}

proof fn lemma_wire_size(bytes: int, a: int, b: int, c: int)
    requires
        0 <= a,
        0 <= b,
        0 <= c,
        bytes <= usize::MAX,
        bytes == BATCH_WRITE_ITEM_OVERHEAD + base64_len(a) + base64_len(b) + base64_len(c),
    ensures
        is_wire_size(bytes, (a + b + c) as nat),
{
}

/// A put is measured by all that it sends: its key, its sort key and its value.
pub proof fn law_puts_are_measured_whole(
    requests: Seq<(String, RowPut, usize)>,
    layout: DynamoTableLayout,
    writes: Seq<MetaWriteOp>,
    i: int,
)
    requires
        are_put_requests(requests, layout, writes),
        0 <= i < writes.len(),
    ensures
        is_wire_size(
            requests[i].2 as int,
            4 + encode_utf8(op_table(writes[i])).len() + match writes[i] {
                MetaWriteOp::Put { row_key, row_data, .. } => KIND_KV@.len() + row_key@.len() + 1
                    + row_data@.len(),
                MetaWriteOp::ScanPut { partition, clustering_key, row_data, .. } => KIND_SCAN@.len()
                    + partition@.len() + clustering_key@.len() + row_data@.len(),
            },
        ),
{
    let row = requests[i].1;
    assert(is_row_of(row, writes[i]));
    lemma_wire_size(
        requests[i].2 as int,
        row.partition_key@.len() as int,
        row.sort_key@.len() as int,
        row.row_data@.len() as int,
    );
    lemma_be_bytes_len(KIND_KV@.len(), 2);
    lemma_be_bytes_len(KIND_SCAN@.len(), 2);
    lemma_be_bytes_len(encode_utf8(op_table(writes[i])).len(), 2);
}

/// A put of a blob's item is measured by all that it sends: its key, its index
/// of four bytes and its value.
pub proof fn law_blob_puts_are_measured_whole(
    requests: Seq<(String, BlobRow, usize)>,
    table_name: Seq<char>,
    op: BlobWriteOp,
    chunk_size: usize,
    i: int,
)
    requires
        are_blob_requests(requests, table_name, op, chunk_size),
        0 <= i < requests.len(),
    ensures
        is_wire_size(
            requests[i].2 as int,
            requests[i].1.partition_key@.len() + 4 + requests[i].1.put.value@.len(),
        ),
{
    lemma_wire_size(
        requests[i].2 as int,
        requests[i].1.partition_key@.len() as int,
        4,
        requests[i].1.put.value@.len() as int,
    );
}

/// A delete is measured by all that it sends: its key and its sort key.
pub proof fn law_deletes_are_measured_whole(
    requests: Seq<(String, (Vec<u8>, Vec<u8>), usize)>,
    table_name: Seq<char>,
    pk: Seq<u8>,
    sort_keys: Seq<Vec<u8>>,
    i: int,
)
    requires
        are_delete_requests(requests, table_name, pk, sort_keys),
        0 <= i < requests.len(),
    ensures
        is_wire_size(requests[i].2 as int, pk.len() + sort_keys[i]@.len()),
{
    lemma_wire_size(requests[i].2 as int, pk.len() as int, sort_keys[i]@.len() as int, 0);
}

/// The chunks of `n > 0` bytes: all but the last are full, the last is not empty.
proof fn lemma_chunk_bounds(n: int, size: int, count: int)
    requires
        n > 0,
        size > 0,
        count == (n + size - 1) / size,
    ensures
        count >= 1,
        (count - 1) * size < n <= (count - 1) * size + size,
{
    vstd::arithmetic::div_mod::lemma_fundamental_div_mod(n + size - 1, size);
    vstd::arithmetic::div_mod::lemma_mod_bound(n + size - 1, size);
    assert((count - 1) * size == size * count - size) by (nonlinear_arith);
    assert(count >= 1) by (nonlinear_arith)
        requires
            size * count > n - 1,
            n > 0,
            size > 0,
    ;
}

/// A chunk before the last one ends within the bytes.
proof fn lemma_chunk_within(i: int, last: int, size: int)
    requires
        0 <= i < last,
        size > 0,
    ensures
        0 <= i * size,
        i * size + size <= last * size,
{
    assert(0 <= i * size) by (nonlinear_arith)
        requires
            0 <= i,
            size > 0,
    ;
    assert(i * size + size <= last * size) by (nonlinear_arith)
        requires
            i + 1 <= last,
            size > 0,
    ;
}

/// A blob has an item, even if it is empty; of more than one, all but the last
/// are full and the last is not empty.
pub proof fn law_blob_items_are_full(
    puts: Seq<ChunkPut>,
    data: Seq<u8>,
    chunk_size: usize,
)
    requires
        chunk_size > 0,
        is_chunking(puts, data, chunk_size),
    ensures
        puts.len() >= 1,
        forall|i: int|
            0 <= i < puts.len() - 1 ==> (#[trigger] puts[i]).value@.len() == chunk_size,
        puts.len() > 1 ==> puts.last().value@.len() > 0,
        data.len() == (puts.len() - 1) * chunk_size + puts.last().value@.len(),
{
    let n = data.len() as int;
    let size = chunk_size as int;
    let last = puts.len() - 1;
    if n > 0 {
        lemma_chunk_bounds(n, size, puts.len() as int);
    } else {
        assert(last * size == 0) by (nonlinear_arith)
            requires
                last == 0,
        ;
    }
    assert forall|i: int| 0 <= i < last implies (#[trigger] puts[i]).value@.len()
        == chunk_size by {
        lemma_chunk_within(i, last, size);
        assert(puts[i].value@ == chunk_of(data, size, i));
    }
    assert(0 <= last * size) by (nonlinear_arith)
        requires
            0 <= last,
            size > 0,
    ;
    assert(puts[last].value@ == chunk_of(data, size, last));
}

/// Every access shows in the counter, which starts over behind its last value.
pub proof fn law_accesses_are_counted(count: u64)
    ensures
        count < u64::MAX ==> one_more(count) == count + 1,
        one_more(u64::MAX) == 0,
{
}

} // verus!
