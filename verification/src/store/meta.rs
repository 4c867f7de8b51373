//! Logical tables and the metadata store interface.

use vstd::prelude::*;

use crate::be::lex_lt;
use crate::errors::Result;

verus! {

/// Logical identifier for a key/value table. Names are opaque; backends own
/// any prefixing/keyspacing needed to avoid collisions on shared physical
/// resources.
#[derive(Debug, Clone, Copy)]
pub struct TableId {
    name: &'static str,
}

impl View for TableId {
    type V = Seq<char>;

    closed spec fn view(&self) -> Seq<char> {
        self.name@
    }
}

impl TableId {
    pub fn new(name: &'static str) -> (id: TableId)
        ensures
            id@ == name@,
    {
        TableId { name }
    }

    pub fn as_str(self) -> (name: &'static str)
        ensures
            name@ == self@,
    {
        self.name
    }
}

/// Logical identifier for a scannable (partitioned + clustered) table.
/// Same namespacing model as [`TableId`].
#[derive(Debug, Clone, Copy)]
pub struct ScannableTableId {
    name: &'static str,
}

impl View for ScannableTableId {
    type V = Seq<char>;

    closed spec fn view(&self) -> Seq<char> {
        self.name@
    }
}

impl ScannableTableId {
    pub fn new(name: &'static str) -> (id: ScannableTableId)
        ensures
            id@ == name@,
    {
        ScannableTableId { name }
    }

    pub fn as_str(self) -> (name: &'static str)
        ensures
            name@ == self@,
    {
        self.name
    }
}

/// One write of a metadata batch.
#[derive(Debug, Clone)]
pub enum MetaWriteOp {
    Put { table: TableId, row_key: Vec<u8>, row_data: Vec<u8> },
    ScanPut {
        table: ScannableTableId,
        partition: Vec<u8>,
        clustering_key: Vec<u8>,
        row_data: Vec<u8>,
    },
}

/// An optional byte string as a sequence.
pub open spec fn opt_bytes(value: Option<Vec<u8>>) -> Option<Seq<u8>> {
    match value {
        Some(value) => Some(value@),
        None => None,
    }
}

/// What a kv row holds after the first `n` writes; the last write to it wins.
pub open spec fn kv_after(
    before: Option<Seq<u8>>,
    writes: Seq<MetaWriteOp>,
    n: int,
    table: Seq<char>,
    key: Seq<u8>,
) -> Option<Seq<u8>>
    decreases n,
{
    if n <= 0 {
        before
    } else {
        match writes[n - 1] {
            MetaWriteOp::Put { table: t, row_key, row_data } if t@ == table && row_key@
                == key => Some(row_data@),
            _ => kv_after(before, writes, n - 1, table, key),
        }
    }
}

/// What a scan row holds after the first `n` writes; the last write to it wins.
pub open spec fn row_after(
    before: Option<Seq<u8>>,
    writes: Seq<MetaWriteOp>,
    n: int,
    table: Seq<char>,
    partition: Seq<u8>,
    clustering: Seq<u8>,
) -> Option<Seq<u8>>
    decreases n,
{
    if n <= 0 {
        before
    } else {
        match writes[n - 1] {
            MetaWriteOp::ScanPut { table: t, partition: p, clustering_key, row_data } if t@ == table
                && p@ == partition && clustering_key@ == clustering => Some(row_data@),
            _ => row_after(before, writes, n - 1, table, partition, clustering),
        }
    }
}

/// Byte strings in strictly ascending order.
pub open spec fn keys_ascend(keys: Seq<Vec<u8>>) -> bool {
    forall|i: int, j: int|
        0 <= i < j < keys.len() ==> lex_lt((#[trigger] keys[i])@, (#[trigger] keys[j])@)
}

/// `key` is in the list.
pub open spec fn lists_key(keys: Seq<Vec<u8>>, key: Seq<u8>) -> bool {
    exists|i: int| 0 <= i < keys.len() && (#[trigger] keys[i])@ == key
}

/// Plain key-value and scannable metadata storage.
///
/// Writes are idempotent and content-deterministic at the chain-data layer,
/// so there are intentionally no versioning or compare-and-set semantics.
pub trait MetaStore: Sized {
    /// The store is in working order.
    spec fn wf(&self) -> bool;

    /// No operation on the store fails.
    spec fn answers(&self) -> bool;

    /// The value of a kv row.
    spec fn kv_at(&self, table: Seq<char>, key: Seq<u8>) -> Option<Seq<u8>>;

    /// The value of a scan row.
    spec fn row_at(&self, table: Seq<char>, partition: Seq<u8>, clustering: Seq<u8>) -> Option<
        Seq<u8>,
    >;

    /// One kv table of this store.
    fn table(self, table: TableId) -> (kv: KvTable<Self>)
        ensures
            kv == (KvTable { meta_store: self, table }),
    {
        KvTable { meta_store: self, table }
    }

    /// One scannable table of this store.
    fn scannable_table(self, table: ScannableTableId) -> (scannable: ScannableKvTable<Self>)
        ensures
            scannable == (ScannableKvTable { meta_store: self, table }),
    {
        ScannableKvTable { meta_store: self, table }
    }

    fn get(&self, table: TableId, key: &[u8]) -> (result: Result<Option<Vec<u8>>>)
        requires
            self.wf(),
        ensures
            self.answers() ==> result is Ok,
            result matches Ok(value) ==> opt_bytes(value) == self.kv_at(table@, key@),
    ;

    fn scan_get(&self, table: ScannableTableId, partition: &[u8], clustering: &[u8]) -> (result:
        Result<Option<Vec<u8>>>)
        requires
            self.wf(),
        ensures
            self.answers() ==> result is Ok,
            result matches Ok(value) ==> opt_bytes(value) == self.row_at(
                table@,
                partition@,
                clustering@,
            ),
    ;

    fn put(&mut self, table: TableId, key: &[u8], value: Vec<u8>) -> (result: Result<()>)
        requires
            old(self).wf(),
        ensures
            final(self).wf(),
            old(self).answers() ==> result is Ok && final(self).answers(),
            result is Ok ==> forall|t: Seq<char>, k: Seq<u8>| #[trigger]
                final(self).kv_at(t, k) == if t == table@ && k == key@ {
                    Some(value@)
                } else {
                    old(self).kv_at(t, k)
                },
            forall|t: Seq<char>, p: Seq<u8>, c: Seq<u8>| #[trigger]
                final(self).row_at(t, p, c) == old(self).row_at(t, p, c),
    ;

    fn scan_put(
        &mut self,
        table: ScannableTableId,
        partition: &[u8],
        clustering: &[u8],
        value: Vec<u8>,
    ) -> (result: Result<()>)
        requires
            old(self).wf(),
        ensures
            final(self).wf(),
            old(self).answers() ==> result is Ok && final(self).answers(),
            result is Ok ==> forall|t: Seq<char>, p: Seq<u8>, c: Seq<u8>| #[trigger]
                final(self).row_at(t, p, c) == if t == table@ && p == partition@ && c
                    == clustering@ {
                    Some(value@)
                } else {
                    old(self).row_at(t, p, c)
                },
            forall|t: Seq<char>, k: Seq<u8>| #[trigger]
                final(self).kv_at(t, k) == old(self).kv_at(t, k),
    ;

    /// Lists every clustering key in the partition, in clustering (unsigned
    /// byte) order.
    fn scan_keys(&self, table: ScannableTableId, partition: &[u8]) -> (result: Result<Vec<Vec<u8>>>)
        requires
            self.wf(),
        ensures
            self.answers() ==> result is Ok,
            result matches Ok(keys) ==> {
                &&& keys_ascend(keys@)
                &&& forall|c: Seq<u8>| #[trigger]
                    lists_key(keys@, c) <==> self.row_at(table@, partition@, c) is Some
            },
    ;

    fn apply_writes(&mut self, writes: Vec<MetaWriteOp>) -> (result: Result<()>)
        requires
            old(self).wf(),
        ensures
            final(self).wf(),
            old(self).answers() ==> result is Ok && final(self).answers(),
            result is Ok ==> forall|t: Seq<char>, k: Seq<u8>| #[trigger]
                final(self).kv_at(t, k) == kv_after(
                    old(self).kv_at(t, k),
                    writes@,
                    writes@.len() as int,
                    t,
                    k,
                ),
            result is Ok ==> forall|t: Seq<char>, p: Seq<u8>, c: Seq<u8>| #[trigger]
                final(self).row_at(t, p, c) == row_after(
                    old(self).row_at(t, p, c),
                    writes@,
                    writes@.len() as int,
                    t,
                    p,
                    c,
                ),
    ;
}

/// One kv table of a store.
#[derive(Debug, Clone)]
pub struct KvTable<M> {
    pub meta_store: M,
    pub table: TableId,
}

impl<M: MetaStore> KvTable<M> {
    pub fn get(&self, key: &[u8]) -> (result: Result<Option<Vec<u8>>>)
        requires
            self.meta_store.wf(),
        ensures
            self.meta_store.answers() ==> result is Ok,
            result matches Ok(value) ==> opt_bytes(value) == self.meta_store.kv_at(
                self.table@,
                key@,
            ),
    {
        self.meta_store.get(self.table, key)
    }

    pub fn put(&mut self, key: &[u8], value: Vec<u8>) -> (result: Result<()>)
        requires
            old(self).meta_store.wf(),
        ensures
            final(self).meta_store.wf(),
            old(self).meta_store.answers() ==> result is Ok && final(self).meta_store.answers(),
            final(self).table == old(self).table,
            result is Ok ==> forall|t: Seq<char>, k: Seq<u8>| #[trigger]
                final(self).meta_store.kv_at(t, k) == if t == old(self).table@ && k == key@ {
                    Some(value@)
                } else {
                    old(self).meta_store.kv_at(t, k)
                },
            forall|t: Seq<char>, p: Seq<u8>, c: Seq<u8>| #[trigger]
                final(self).meta_store.row_at(t, p, c) == old(self).meta_store.row_at(t, p, c),
    {
        self.meta_store.put(self.table, key, value)
    }
}

/// One scannable table of a store.
#[derive(Debug, Clone)]
pub struct ScannableKvTable<M> {
    pub meta_store: M,
    pub table: ScannableTableId,
}

impl<M: MetaStore> ScannableKvTable<M> {
    pub fn get(&self, partition: &[u8], clustering: &[u8]) -> (result: Result<Option<Vec<u8>>>)
        requires
            self.meta_store.wf(),
        ensures
            self.meta_store.answers() ==> result is Ok,
            result matches Ok(value) ==> opt_bytes(value) == self.meta_store.row_at(
                self.table@,
                partition@,
                clustering@,
            ),
    {
        self.meta_store.scan_get(self.table, partition, clustering)
    }

    pub fn put(&mut self, partition: &[u8], clustering: &[u8], value: Vec<u8>) -> (result: Result<
        (),
    >)
        requires
            old(self).meta_store.wf(),
        ensures
            final(self).meta_store.wf(),
            old(self).meta_store.answers() ==> result is Ok && final(self).meta_store.answers(),
            final(self).table == old(self).table,
            result is Ok ==> forall|t: Seq<char>, p: Seq<u8>, c: Seq<u8>| #[trigger]
                final(self).meta_store.row_at(t, p, c) == if t == old(self).table@ && p
                    == partition@ && c == clustering@ {
                    Some(value@)
                } else {
                    old(self).meta_store.row_at(t, p, c)
                },
            forall|t: Seq<char>, k: Seq<u8>| #[trigger]
                final(self).meta_store.kv_at(t, k) == old(self).meta_store.kv_at(t, k),
    {
        self.meta_store.scan_put(self.table, partition, clustering, value)
    }

    /// Lists every clustering key in the partition, in clustering order.
    pub fn scan_keys(&self, partition: &[u8]) -> (result: Result<Vec<Vec<u8>>>)
        requires
            self.meta_store.wf(),
        ensures
            self.meta_store.answers() ==> result is Ok,
            result matches Ok(keys) ==> {
                &&& keys_ascend(keys@)
                &&& forall|c: Seq<u8>| #[trigger]
                    lists_key(keys@, c) <==> self.meta_store.row_at(
                        self.table@,
                        partition@,
                        c,
                    ) is Some
            },
    {
        self.meta_store.scan_keys(self.table, partition)
    }
}

} // verus!
