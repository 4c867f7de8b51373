//! In-memory stores: byte strings kept in one sorted vector.

use vstd::prelude::*;
use vstd::utf8::{encode_utf8, encode_utf8_decode_utf8};

use crate::be::{
    be_bytes, bytes_eq, bytes_lt, lemma_be_bytes_len, lemma_be_limit_values,
    lemma_be_value_of_bytes, lemma_lex_irreflexive, lemma_lex_total, lemma_lex_transitive, lex_lt,
    put_u64,
};
use crate::errors::{QueryError, Result};
use crate::rlp::append_bytes;
use crate::store::blob::{range_answer, BlobStore, BlobTableId, BlobWriteOp};
use crate::store::meta::{
    keys_ascend, kv_after, lists_key, opt_bytes, row_after, MetaStore, MetaWriteOp,
    ScannableTableId, TableId,
};

verus! {

/// A map from byte strings to byte strings, sorted by key.
#[derive(Debug, Clone, PartialEq, Eq)]
pub struct ByteMap {
    entries: Vec<(Vec<u8>, Vec<u8>)>,
}

spec fn sorted_entries(entries: Seq<(Vec<u8>, Vec<u8>)>) -> bool {
    forall|i: int, j: int|
        0 <= i < j < entries.len() ==> lex_lt((#[trigger] entries[i]).0@, (#[trigger] entries[j]).0@)
}

spec fn value_at(entries: Seq<(Vec<u8>, Vec<u8>)>, key: Seq<u8>) -> Option<Seq<u8>> {
    if exists|i: int| 0 <= i < entries.len() && (#[trigger] entries[i]).0@ == key {
        Some(
            entries[choose|i: int| 0 <= i < entries.len() && (#[trigger] entries[i]).0@ == key].1@,
        )
    } else {
        None
    }
}

proof fn lemma_value_at(entries: Seq<(Vec<u8>, Vec<u8>)>, i: int)
    requires
        sorted_entries(entries),
        0 <= i < entries.len(),
    ensures
        value_at(entries, entries[i].0@) == Some(entries[i].1@),
{
    let key = entries[i].0@;
    let j = choose|j: int| 0 <= j < entries.len() && (#[trigger] entries[j]).0@ == key;
    assert(entries[i].0@ == key);
    lemma_lex_irreflexive(key);
    assert(i < j ==> lex_lt(entries[i].0@, entries[j].0@));
    assert(j < i ==> lex_lt(entries[j].0@, entries[i].0@));
}

impl ByteMap {
    pub closed spec fn wf(&self) -> bool {
        sorted_entries(self.entries@)
    }

    /// The value stored under a key.
    pub closed spec fn at(&self, key: Seq<u8>) -> Option<Seq<u8>> {
        value_at(self.entries@, key)
    }

    pub fn new() -> (map: ByteMap)
        ensures
            map.wf(),
            forall|key: Seq<u8>| #[trigger] map.at(key) is None,
    {
        ByteMap { entries: Vec::new() }
    }

    /// Where `key` is, or belongs.
    fn find(&self, key: &[u8]) -> (found: (usize, bool))
        requires
            self.wf(),
        ensures
            found.0 <= self.entries@.len(),
            forall|i: int| 0 <= i < found.0 ==> lex_lt((#[trigger] self.entries@[i]).0@, key@),
            forall|i: int|
                found.0 <= i < self.entries@.len() ==> !lex_lt(
                    (#[trigger] self.entries@[i]).0@,
                    key@,
                ),
            found.1 ==> found.0 < self.entries@.len() && self.entries@[found.0 as int].0@ == key@,
            !found.1 ==> forall|i: int|
                found.0 <= i < self.entries@.len() ==> lex_lt(
                    key@,
                    (#[trigger] self.entries@[i]).0@,
                ),
            found.1 == (self.at(key@) is Some),
    {
        let ghost entries = self.entries@;
        let mut lo: usize = 0;
        let mut hi: usize = self.entries.len();
        while lo < hi
            invariant
                entries == self.entries@,
                sorted_entries(entries),
                lo <= hi <= entries.len(),
                forall|i: int| 0 <= i < lo ==> lex_lt((#[trigger] entries[i]).0@, key@),
                forall|i: int|
                    hi <= i < entries.len() ==> !lex_lt((#[trigger] entries[i]).0@, key@),
            decreases hi - lo,
        {
            let mid: usize = lo + (hi - lo) / 2;
            if bytes_lt(&self.entries[mid].0, key) {
                proof {
                    assert forall|i: int| 0 <= i < mid + 1 implies lex_lt(
                        (#[trigger] entries[i]).0@,
                        key@,
                    ) by {
                        if i < mid {
                            lemma_lex_transitive(entries[i].0@, entries[mid as int].0@, key@);
                        }
                    }
                }
                lo = mid + 1;
            } else {
                proof {
                    assert forall|i: int| mid <= i < entries.len() implies !lex_lt(
                        (#[trigger] entries[i]).0@,
                        key@,
                    ) by {
                        if mid < i && lex_lt(entries[i].0@, key@) {
                            lemma_lex_transitive(entries[mid as int].0@, entries[i].0@, key@);
                        }
                    }
                }
                hi = mid;
            }
        }
        let found: bool = lo < self.entries.len() && bytes_eq(&self.entries[lo].0, key);
        proof {
            lemma_lex_irreflexive(key@);
            if found {
                lemma_value_at(entries, lo as int);
            } else {
                assert forall|i: int| lo <= i < entries.len() implies lex_lt(
                    key@,
                    (#[trigger] entries[i]).0@,
                ) by {
                    lemma_lex_total(entries[lo as int].0@, key@);
                    if lo < i {
                        assert(lex_lt(entries[lo as int].0@, entries[i].0@));
                        lemma_lex_transitive(key@, entries[lo as int].0@, entries[i].0@);
                    }
                }
            }
        }
        (lo, found)
    }

    /// The value under `key`, if any.
    pub fn get(&self, key: &[u8]) -> (value: Option<Vec<u8>>)
        requires
            self.wf(),
        ensures
            opt_bytes(value) == self.at(key@),
    {
        let (at, found) = self.find(key);
        if found {
            proof {
                lemma_value_at(self.entries@, at as int);
            }
            Some(vstd::slice::slice_to_vec(&self.entries[at].1))
        } else {
            None
        }
    }

    /// A copy of the whole map.
    pub fn copy(&self) -> (map: ByteMap)
        requires
            self.wf(),
        ensures
            map.wf(),
            forall|key: Seq<u8>| #[trigger] map.at(key) == self.at(key),
    {
        let mut entries: Vec<(Vec<u8>, Vec<u8>)> = Vec::new();
        let mut i: usize = 0;
        while i < self.entries.len()
            invariant
                i <= self.entries@.len(),
                entries@.len() == i,
                forall|k: int|
                    0 <= k < i ==> (#[trigger] entries@[k]).0@ == self.entries@[k].0@
                        && entries@[k].1@ == self.entries@[k].1@,
            decreases self.entries@.len() - i,
        {
            let key = vstd::slice::slice_to_vec(&self.entries[i].0);
            let value = vstd::slice::slice_to_vec(&self.entries[i].1);
            entries.push((key, value));
            i = i + 1;
        }
        let map = ByteMap { entries };
        proof {
            let own = self.entries@;
            let copied = map.entries@;
            assert forall|a: int, b: int| 0 <= a < b < copied.len() implies lex_lt(
                (#[trigger] copied[a]).0@,
                (#[trigger] copied[b]).0@,
            ) by {
                assert(lex_lt(own[a].0@, own[b].0@));
            }
            assert forall|key: Seq<u8>| #[trigger] map.at(key) == self.at(key) by {
                if exists|k: int| 0 <= k < own.len() && (#[trigger] own[k]).0@ == key {
                    let k = choose|k: int| 0 <= k < own.len() && (#[trigger] own[k]).0@ == key;
                    assert(copied[k].0@ == key);
                    lemma_value_at(own, k);
                    lemma_value_at(copied, k);
                } else {
                    assert forall|k: int| 0 <= k < copied.len() implies (#[trigger] copied[k]).0@
                        != key by {
                        assert(own[k].0@ == copied[k].0@);
                    }
                }
            }
        }
        map
    }

    /// Stores `value` under `key`.
    pub fn insert(&mut self, key: Vec<u8>, value: Vec<u8>)
        requires
            old(self).wf(),
        ensures
            final(self).wf(),
            forall|k: Seq<u8>| #[trigger]
                final(self).at(k) == if k == key@ {
                    Some(value@)
                } else {
                    old(self).at(k)
                },
    {
        let ghost before = self.entries@;
        let ghost own_key = key@;
        let ghost own_value = value@;
        let (at, found) = self.find(&key);
        if found {
            self.entries.set(at, (key, value));
        } else {
            self.entries.insert(at, (key, value));
        }
        proof {
            let now = self.entries@;
            // The old index of each new entry other than the written one.
            let shift = if found {
                0int
            } else {
                1int
            };
            assert forall|i: int, j: int| 0 <= i < j < now.len() implies lex_lt(
                (#[trigger] now[i]).0@,
                (#[trigger] now[j]).0@,
            ) by {
                let a = if i < at {
                    i
                } else {
                    i - shift
                };
                let b = if j < at {
                    j
                } else {
                    j - shift
                };
                if i != at {
                    assert(now[i] == before[a]);
                }
                if j != at {
                    assert(now[j] == before[b]);
                }
                if i == at && found {
                    assert(lex_lt(before[i].0@, before[j].0@));
                }
                if j == at && found {
                    assert(lex_lt(before[i].0@, before[j].0@));
                }
            }
            assert forall|k: Seq<u8>| #[trigger] self.at(k) == if k == own_key {
                Some(own_value)
            } else {
                value_at(before, k)
            } by {
                if k == own_key {
                    lemma_value_at(now, at as int);
                } else {
                    if value_at(before, k) is Some {
                        let i = choose|i: int|
                            0 <= i < before.len() && (#[trigger] before[i]).0@ == k;
                        let m = if i < at {
                            i
                        } else {
                            i + shift
                        };
                        assert(now[m] == before[i]);
                        lemma_value_at(now, m);
                        lemma_value_at(before, i);
                    } else if value_at(now, k) is Some {
                        let m = choose|m: int| 0 <= m < now.len() && (#[trigger] now[m]).0@ == k;
                        let i = if m < at {
                            m
                        } else {
                            m - shift
                        };
                        assert(now[m] == before[i]);
                    }
                }
            }
        }
    }

    /// Removes whatever is stored under `key`.
    pub fn remove(&mut self, key: &[u8])
        requires
            old(self).wf(),
        ensures
            final(self).wf(),
            forall|k: Seq<u8>| #[trigger]
                final(self).at(k) == if k == key@ {
                    None
                } else {
                    old(self).at(k)
                },
    {
        let ghost before = self.entries@;
        let (at, found) = self.find(key);
        if found {
            let removed = self.entries.remove(at);
            proof {
                let now = self.entries@;
                assert forall|i: int, j: int| 0 <= i < j < now.len() implies lex_lt(
                    (#[trigger] now[i]).0@,
                    (#[trigger] now[j]).0@,
                ) by {
                    let a = if i < at {
                        i
                    } else {
                        i + 1
                    };
                    let b = if j < at {
                        j
                    } else {
                        j + 1
                    };
                    assert(now[i] == before[a]);
                    assert(now[j] == before[b]);
                }
                assert forall|k: Seq<u8>| #[trigger] self.at(k) == if k == key@ {
                    None
                } else {
                    value_at(before, k)
                } by {
                    if value_at(now, k) is Some {
                        let m = choose|m: int| 0 <= m < now.len() && (#[trigger] now[m]).0@ == k;
                        let i = if m < at {
                            m
                        } else {
                            m + 1
                        };
                        assert(now[m] == before[i]);
                        lemma_value_at(now, m);
                        lemma_value_at(before, i);
                        lemma_lex_irreflexive(key@);
                        assert(i < at ==> lex_lt(before[i].0@, before[at as int].0@));
                        assert(at < i ==> lex_lt(before[at as int].0@, before[i].0@));
                    } else if k != key@ && value_at(before, k) is Some {
                        let i = choose|i: int|
                            0 <= i < before.len() && (#[trigger] before[i]).0@ == k;
                        let m = if i < at {
                            i
                        } else {
                            i - 1
                        };
                        assert(now[m] == before[i]);
                    }
                }
            }
        }
    }

    /// What follows `prefix` in each key that starts with it, in order.
    pub fn suffixes(&self, prefix: &[u8]) -> (suffixes: Vec<Vec<u8>>)
        requires
            self.wf(),
        ensures
            keys_ascend(suffixes@),
            forall|s: Seq<u8>| #[trigger]
                lists_key(suffixes@, s) <==> self.at(prefix@ + s) is Some,
    {
        let ghost entries = self.entries@;
        let (start, _) = self.find(prefix);
        let mut suffixes: Vec<Vec<u8>> = Vec::new();
        let mut i: usize = start;
        while i < self.entries.len()
            invariant
                entries == self.entries@,
                sorted_entries(entries),
                start <= i <= entries.len(),
                keys_ascend(suffixes@),
                forall|s: Seq<u8>| #[trigger]
                    lists_key(suffixes@, s) <==> exists|j: int|
                        start <= j < i && (#[trigger] entries[j]).0@ == prefix@ + s,
                suffixes@.len() > 0 ==> exists|j: int|
                    start <= j < i && (#[trigger] entries[j]).0@ == prefix@ + suffixes@.last()@,
            decreases entries.len() - i,
        {
            let key = &self.entries[i].0;
            let ghost before = suffixes@;
            if starts_with(key, prefix) {
                let suffix = vstd::slice::slice_to_vec(
                    vstd::slice::slice_subrange(key.as_slice(), prefix.len(), key.len()),
                );
                let ghost own = suffix@;
                assert(key@ =~= prefix@ + own);
                suffixes.push(suffix);
                proof {
                    assert forall|a: int, b: int| 0 <= a < b < suffixes@.len() implies lex_lt(
                        (#[trigger] suffixes@[a])@,
                        (#[trigger] suffixes@[b])@,
                    ) by {
                        if b == before.len() {
                            let last = before.last()@;
                            let j = choose|j: int|
                                start <= j < i && (#[trigger] entries[j]).0@ == prefix@ + last;
                            assert(lex_lt(entries[j].0@, entries[i as int].0@));
                            lemma_lex_prefix(prefix@, last, own);
                            if a < before.len() - 1 {
                                assert(lex_lt(before[a]@, before[before.len() - 1]@));
                                lemma_lex_transitive(before[a]@, last, own);
                            }
                        } else {
                            assert(before[a] == suffixes@[a]);
                            assert(before[b] == suffixes@[b]);
                        }
                    }
                    assert forall|s: Seq<u8>| #[trigger]
                        lists_key(suffixes@, s) <==> exists|j: int|
                            start <= j < i + 1 && (#[trigger] entries[j]).0@ == prefix@ + s by {
                        if lists_key(suffixes@, s) {
                            let a = choose|a: int|
                                0 <= a < suffixes@.len() && (#[trigger] suffixes@[a])@ == s;
                            if a < before.len() {
                                assert(before[a]@ == s);
                                assert(lists_key(before, s));
                            } else {
                                assert(entries[i as int].0@ == prefix@ + s);
                            }
                        }
                        if exists|j: int|
                            start <= j < i + 1 && (#[trigger] entries[j]).0@ == prefix@ + s {
                            let j = choose|j: int|
                                start <= j < i + 1 && (#[trigger] entries[j]).0@ == prefix@ + s;
                            if j < i {
                                assert(lists_key(before, s));
                                let a = choose|a: int|
                                    0 <= a < before.len() && (#[trigger] before[a])@ == s;
                                assert(suffixes@[a]@ == s);
                            } else {
                                assert((prefix@ + s).skip(prefix@.len() as int) =~= s);
                                assert((prefix@ + own).skip(prefix@.len() as int) =~= own);
                                assert(suffixes@[before.len() as int]@ == s);
                            }
                        }
                    }
                    assert(entries[i as int].0@ == prefix@ + suffixes@.last()@);
                }
            } else {
                proof {
                    assert forall|s: Seq<u8>| entries[i as int].0@ != #[trigger] (prefix@ + s) by {
                        assert((prefix@ + s).take(prefix@.len() as int) =~= prefix@);
                    }
                    assert forall|s: Seq<u8>| #[trigger]
                        lists_key(suffixes@, s) <==> exists|j: int|
                            start <= j < i + 1 && (#[trigger] entries[j]).0@ == prefix@ + s by {
                        if exists|j: int|
                            start <= j < i + 1 && (#[trigger] entries[j]).0@ == prefix@ + s {
                            let j = choose|j: int|
                                start <= j < i + 1 && (#[trigger] entries[j]).0@ == prefix@ + s;
                            assert(j < i);
                        }
                    }
                }
            }
            i = i + 1;
        }
        proof {
            assert forall|s: Seq<u8>| #[trigger] lists_key(suffixes@, s) <==> self.at(
                prefix@ + s,
            ) is Some by {
                if self.at(prefix@ + s) is Some {
                    let j = choose|j: int|
                        0 <= j < entries.len() && (#[trigger] entries[j]).0@ == prefix@ + s;
                    lemma_lex_not_below_prefix(prefix@, s);
                    assert(start <= j);
                }
            }
        }
        suffixes
    }
}

/// True when `bytes` starts with `prefix`.
pub fn starts_with(bytes: &[u8], prefix: &[u8]) -> (yes: bool)
    ensures
        yes == (prefix@.len() <= bytes@.len() && bytes@.take(prefix@.len() as int) == prefix@),
{
    if prefix.len() > bytes.len() {
        return false;
    }
    let head = vstd::slice::slice_subrange(bytes, 0, prefix.len());
    assert(head@ =~= bytes@.take(prefix@.len() as int));
    bytes_eq(head, prefix)
}

/// A common prefix does not matter to the order.
pub proof fn lemma_lex_prefix(prefix: Seq<u8>, a: Seq<u8>, b: Seq<u8>)
    ensures
        lex_lt(prefix + a, prefix + b) == lex_lt(a, b),
    decreases prefix.len(),
{
    if prefix.len() == 0 {
        assert(prefix + a =~= a);
        assert(prefix + b =~= b);
    } else {
        lemma_lex_prefix(prefix.drop_first(), a, b);
        assert((prefix + a).drop_first() =~= prefix.drop_first() + a);
        assert((prefix + b).drop_first() =~= prefix.drop_first() + b);
    }
}

/// Nothing that starts with a string sorts before it.
pub proof fn lemma_lex_not_below_prefix(prefix: Seq<u8>, s: Seq<u8>)
    ensures
        !lex_lt(prefix + s, prefix),
    decreases prefix.len(),
{
    if prefix.len() > 0 {
        lemma_lex_not_below_prefix(prefix.drop_first(), s);
        assert((prefix + s).drop_first() =~= prefix.drop_first() + s);
    }
}

/// A byte string preceded by its length in eight bytes.
pub open spec fn counted_bytes(bytes: Seq<u8>) -> Seq<u8> {
    be_bytes(bytes.len(), 8) + bytes
}

/// The key of a kv row or blob: the table's name, counted, then the row's key.
pub open spec fn row_key(table: Seq<char>, key: Seq<u8>) -> Seq<u8> {
    counted_bytes(encode_utf8(table)) + key
}

/// The key of a scan row.
pub open spec fn scan_row_key(table: Seq<char>, partition: Seq<u8>, clustering: Seq<u8>) -> Seq<u8> {
    row_key(table, counted_bytes(partition)) + clustering
}

proof fn lemma_counted_unique(a: Seq<u8>, x: Seq<u8>, b: Seq<u8>, y: Seq<u8>)
    requires
        counted_bytes(a) + x == counted_bytes(b) + y,
        a.len() <= u64::MAX,
        b.len() <= u64::MAX,
    ensures
        a == b,
        x == y,
{
    lemma_be_limit_values();
    lemma_be_bytes_len(a.len(), 8);
    lemma_be_bytes_len(b.len(), 8);
    lemma_be_value_of_bytes(a.len(), 8);
    lemma_be_value_of_bytes(b.len(), 8);
    let s = counted_bytes(a) + x;
    assert(s.take(8) =~= be_bytes(a.len(), 8));
    assert(s.take(8) =~= be_bytes(b.len(), 8));
    assert(s.subrange(8, 8 + a.len() as int) =~= a);
    assert(s.subrange(8, 8 + a.len() as int) =~= b);
    assert(s.skip(8 + a.len() as int) =~= x);
    assert(s.skip(8 + a.len() as int) =~= y);
}

proof fn lemma_row_key_unique(t: Seq<char>, k: Seq<u8>, u: Seq<char>, l: Seq<u8>)
    requires
        row_key(t, k) == row_key(u, l),
        encode_utf8(t).len() <= u64::MAX,
        row_key(u, l).len() <= u64::MAX,
    ensures
        t == u,
        k == l,
{
    lemma_be_bytes_len(encode_utf8(u).len(), 8);
    lemma_counted_unique(encode_utf8(t), k, encode_utf8(u), l);
    encode_utf8_decode_utf8(t);
    encode_utf8_decode_utf8(u);
}

fn put_counted(out: &mut Vec<u8>, bytes: &[u8])
    ensures
        final(out)@ == old(out)@ + counted_bytes(bytes@),
{
    put_u64(out, bytes.len() as u64);
    append_bytes(out, bytes);
    assert(out@ =~= old(out)@ + counted_bytes(bytes@));
}

fn make_row_key(table: &str, key: &[u8]) -> (out: Vec<u8>)
    ensures
        out@ == row_key(table@, key@),
{
    let mut out: Vec<u8> = Vec::new();
    put_counted(&mut out, table.as_bytes());
    append_bytes(&mut out, key);
    assert(out@ =~= row_key(table@, key@));
    out
}

fn make_partition_key(table: &str, partition: &[u8]) -> (out: Vec<u8>)
    ensures
        out@ == row_key(table@, counted_bytes(partition@)),
{
    let mut out: Vec<u8> = Vec::new();
    put_counted(&mut out, table.as_bytes());
    put_counted(&mut out, partition);
    assert(out@ =~= row_key(table@, counted_bytes(partition@)));
    out
}

/// A row of a table with a name and key that fit in memory.
spec fn fits(table: Seq<char>, key: Seq<u8>) -> bool {
    row_key(table, key).len() <= u64::MAX
}

/// In-memory metadata store.
#[derive(Debug)]
pub struct InMemoryMetaStore {
    kv_records: ByteMap,
    scan_records: ByteMap,
}

impl Default for InMemoryMetaStore {
    fn default() -> (store: Self)
        ensures
            store.wf(),
            forall|t: Seq<char>, k: Seq<u8>| #[trigger] store.kv_at(t, k) is None,
            forall|t: Seq<char>, p: Seq<u8>, c: Seq<u8>| #[trigger] store.row_at(t, p, c) is None,
    {
        InMemoryMetaStore { kv_records: ByteMap::new(), scan_records: ByteMap::new() }
    }
}

impl InMemoryMetaStore {
    /// Removes a kv row, to simulate missing data.
    pub fn clear_key(&mut self, table: TableId, key: &[u8])
        requires
            old(self).wf(),
        ensures
            final(self).wf(),
            forall|t: Seq<char>, k: Seq<u8>| #[trigger]
                final(self).kv_at(t, k) == if t == table@ && k == key@ {
                    None
                } else {
                    old(self).kv_at(t, k)
                },
            forall|t: Seq<char>, p: Seq<u8>, c: Seq<u8>| #[trigger]
                final(self).row_at(t, p, c) == old(self).row_at(t, p, c),
    {
        let row = make_row_key(table.as_str(), key);
        assert(row.len() <= usize::MAX);
        self.kv_records.remove(&row);
        proof {
            assert forall|t: Seq<char>, k: Seq<u8>| #[trigger] self.kv_at(t, k) == if t == table@
                && k == key@ {
                None
            } else {
                old(self).kv_at(t, k)
            } by {
                if row_key(t, k) == row_key(table@, key@) {
                    lemma_be_bytes_len(encode_utf8(t).len(), 8);
                    lemma_row_key_unique(t, k, table@, key@);
                }
            }
        }
    }

    /// Copies every kv row, for equality across stores.
    pub fn kv_snapshot(&self) -> (records: ByteMap)
        requires
            self.wf(),
        ensures
            records.wf(),
            forall|t: Seq<char>, k: Seq<u8>|
                records.at(#[trigger] row_key(t, k)) == self.kv_at(t, k),
    {
        self.kv_records.copy()
    }

    /// Copies every scan row.
    pub fn scan_snapshot(&self) -> (records: ByteMap)
        requires
            self.wf(),
        ensures
            records.wf(),
            forall|t: Seq<char>, p: Seq<u8>, c: Seq<u8>|
                records.at(#[trigger] scan_row_key(t, p, c)) == self.row_at(t, p, c),
    {
        self.scan_records.copy()
    }

    fn store_kv(&mut self, table: TableId, key: &[u8], value: Vec<u8>)
        requires
            old(self).wf(),
        ensures
            final(self).wf(),
            forall|t: Seq<char>, k: Seq<u8>| #[trigger]
                final(self).kv_at(t, k) == if t == table@ && k == key@ {
                    Some(value@)
                } else {
                    old(self).kv_at(t, k)
                },
            final(self).scan_records == old(self).scan_records,
    {
        let row = make_row_key(table.as_str(), key);
        assert(row.len() <= usize::MAX);
        let ghost own = value@;
        self.kv_records.insert(row, value);
        proof {
            assert forall|t: Seq<char>, k: Seq<u8>| #[trigger] self.kv_at(t, k) == if t == table@
                && k == key@ {
                Some(own)
            } else {
                old(self).kv_at(t, k)
            } by {
                if row_key(t, k) == row_key(table@, key@) {
                    lemma_be_bytes_len(encode_utf8(t).len(), 8);
                    lemma_row_key_unique(t, k, table@, key@);
                }
            }
        }
    }

    fn store_row(
        &mut self,
        table: ScannableTableId,
        partition: &[u8],
        clustering: &[u8],
        value: Vec<u8>,
    )
        requires
            old(self).wf(),
        ensures
            final(self).wf(),
            forall|t: Seq<char>, p: Seq<u8>, c: Seq<u8>| #[trigger]
                final(self).row_at(t, p, c) == if t == table@ && p == partition@ && c
                    == clustering@ {
                    Some(value@)
                } else {
                    old(self).row_at(t, p, c)
                },
            final(self).kv_records == old(self).kv_records,
    {
        let mut row = make_partition_key(table.as_str(), partition);
        append_bytes(&mut row, clustering);
        assert(row.len() <= usize::MAX);
        let ghost own = value@;
        self.scan_records.insert(row, value);
        proof {
            assert forall|t: Seq<char>, p: Seq<u8>, c: Seq<u8>| #[trigger]
                self.row_at(t, p, c) == if t == table@ && p == partition@ && c == clustering@ {
                    Some(own)
                } else {
                    old(self).row_at(t, p, c)
                } by {
                if scan_row_key(t, p, c) == scan_row_key(table@, partition@, clustering@) {
                    lemma_scan_key_unique(t, p, c, table@, partition@, clustering@);
                }
            }
        }
    }
}

proof fn lemma_scan_key_unique(
    t: Seq<char>,
    p: Seq<u8>,
    c: Seq<u8>,
    u: Seq<char>,
    q: Seq<u8>,
    d: Seq<u8>,
)
    requires
        scan_row_key(t, p, c) == scan_row_key(u, q, d),
        scan_row_key(u, q, d).len() <= u64::MAX,
    ensures
        t == u,
        p == q,
        c == d,
{
    lemma_be_bytes_len(encode_utf8(t).len(), 8);
    lemma_be_bytes_len(encode_utf8(u).len(), 8);
    lemma_be_bytes_len(p.len(), 8);
    lemma_be_bytes_len(q.len(), 8);
    assert(scan_row_key(t, p, c) =~= row_key(t, counted_bytes(p) + c));
    assert(scan_row_key(u, q, d) =~= row_key(u, counted_bytes(q) + d));
    lemma_row_key_unique(t, counted_bytes(p) + c, u, counted_bytes(q) + d);
    lemma_counted_unique(p, c, q, d);
}

impl MetaStore for InMemoryMetaStore {
    closed spec fn wf(&self) -> bool {
        self.kv_records.wf() && self.scan_records.wf()
    }

    open spec fn answers(&self) -> bool {
        true
    }

    closed spec fn kv_at(&self, table: Seq<char>, key: Seq<u8>) -> Option<Seq<u8>> {
        self.kv_records.at(row_key(table, key))
    }

    closed spec fn row_at(
        &self,
        table: Seq<char>,
        partition: Seq<u8>,
        clustering: Seq<u8>,
    ) -> Option<Seq<u8>> {
        self.scan_records.at(scan_row_key(table, partition, clustering))
    }

    fn get(&self, table: TableId, key: &[u8]) -> (result: Result<Option<Vec<u8>>>)
        ensures
            result is Ok,
    {
        let row = make_row_key(table.as_str(), key);
        Ok(self.kv_records.get(&row))
    }

    fn scan_get(&self, table: ScannableTableId, partition: &[u8], clustering: &[u8]) -> (result:
        Result<Option<Vec<u8>>>)
        ensures
            result is Ok,
    {
        let mut row = make_partition_key(table.as_str(), partition);
        append_bytes(&mut row, clustering);
        Ok(self.scan_records.get(&row))
    }

    fn put(&mut self, table: TableId, key: &[u8], value: Vec<u8>) -> (result: Result<()>)
        ensures
            result is Ok,
    {
        self.store_kv(table, key, value);
        Ok(())
    }

    fn scan_put(
        &mut self,
        table: ScannableTableId,
        partition: &[u8],
        clustering: &[u8],
        value: Vec<u8>,
    ) -> (result: Result<()>)
        ensures
            result is Ok,
    {
        self.store_row(table, partition, clustering, value);
        Ok(())
    }

    fn scan_keys(&self, table: ScannableTableId, partition: &[u8]) -> (result: Result<Vec<Vec<u8>>>)
        ensures
            result is Ok,
    {
        let prefix = make_partition_key(table.as_str(), partition);
        Ok(self.scan_records.suffixes(&prefix))
    }

    fn apply_writes(&mut self, writes: Vec<MetaWriteOp>) -> (result: Result<()>)
        ensures
            result is Ok,
    {
        let ghost ops = writes@;
        let mut i: usize = 0;
        while i < writes.len()
            invariant
                ops == writes@,
                i <= ops.len(),
                self.wf(),
                forall|t: Seq<char>, k: Seq<u8>| #[trigger]
                    self.kv_at(t, k) == kv_after(old(self).kv_at(t, k), ops, i as int, t, k),
                forall|t: Seq<char>, p: Seq<u8>, c: Seq<u8>| #[trigger]
                    self.row_at(t, p, c) == row_after(
                        old(self).row_at(t, p, c),
                        ops,
                        i as int,
                        t,
                        p,
                        c,
                    ),
            decreases ops.len() - i,
        {
            let ghost before = *self;
            match &writes[i] {
                MetaWriteOp::Put { table, row_key, row_data } => {
                    self.store_kv(*table, row_key, vstd::slice::slice_to_vec(row_data));
                    assert forall|t: Seq<char>, p: Seq<u8>, c: Seq<u8>| #[trigger]
                        self.row_at(t, p, c) == before.row_at(t, p, c) by {}
                },
                MetaWriteOp::ScanPut { table, partition, clustering_key, row_data } => {
                    self.store_row(
                        *table,
                        partition,
                        clustering_key,
                        vstd::slice::slice_to_vec(row_data),
                    );
                    assert forall|t: Seq<char>, k: Seq<u8>| #[trigger]
                        self.kv_at(t, k) == before.kv_at(t, k) by {}
                },
            }
            i = i + 1;
        }
        Ok(())
    }
}

/// In-memory blob store.
#[derive(Debug)]
pub struct InMemoryBlobStore {
    blobs: ByteMap,
    /// Backend object accesses (`get_blob`, which also backs `read_range`);
    /// lets cache tests assert fetch collapsing.
    read_call_count: u64,
}

impl Default for InMemoryBlobStore {
    fn default() -> (store: Self)
        ensures
            store.wf(),
            store.reads() == 0,
            forall|t: Seq<char>, k: Seq<u8>| #[trigger] store.blob_at(t, k) is None,
    {
        InMemoryBlobStore { blobs: ByteMap::new(), read_call_count: 0 }
    }
}

impl BlobStore for InMemoryBlobStore {
    open spec fn blobs_wf(&self) -> bool {
        self.wf()
    }

    open spec fn blobs_answer(&self) -> bool {
        true
    }

    open spec fn blob(&self, table: Seq<char>, key: Seq<u8>) -> Option<Seq<u8>> {
        self.blob_at(table, key)
    }

    fn load(&mut self, table: BlobTableId, key: &[u8]) -> (result: Result<Option<Vec<u8>>>)
        ensures
            result is Ok,
    {
        self.get_blob(table, key)
    }

    fn store(&mut self, table: BlobTableId, key: &[u8], value: Vec<u8>) -> (result: Result<()>)
        ensures
            result is Ok,
    {
        self.put_blob(table, key, value)
    }

    fn remove(&mut self, table: BlobTableId, key: &[u8]) -> (result: Result<()>)
        ensures
            result is Ok,
    {
        self.delete_blob(table, key)
    }
}

/// A counter after one more access, wrapping around.
pub open spec fn one_more(count: u64) -> u64 {
    if count == u64::MAX {
        0
    } else {
        (count + 1) as u64
    }
}

/// What a blob holds after the first `n` writes; the last write to it wins.
pub open spec fn blob_after(
    before: Option<Seq<u8>>,
    writes: Seq<BlobWriteOp>,
    n: int,
    table: Seq<char>,
    key: Seq<u8>,
) -> Option<Seq<u8>>
    decreases n,
{
    if n <= 0 {
        before
    } else if writes[n - 1].table@ == table && writes[n - 1].blob_key@ == key {
        Some(writes[n - 1].blob_data@)
    } else {
        blob_after(before, writes, n - 1, table, key)
    }
}

impl InMemoryBlobStore {
    pub closed spec fn wf(&self) -> bool {
        self.blobs.wf()
    }

    /// The bytes of a blob.
    pub closed spec fn blob_at(&self, table: Seq<char>, key: Seq<u8>) -> Option<Seq<u8>> {
        self.blobs.at(row_key(table, key))
    }

    /// Object-level reads so far.
    pub closed spec fn reads(&self) -> u64 {
        self.read_call_count
    }

    /// Object-level reads served so far; a range read counts as one access.
    pub fn get_blob_calls(&self) -> (calls: u64)
        ensures
            calls == self.reads(),
    {
        self.read_call_count
    }

    /// Copies every blob, for equality across stores.
    pub fn blob_snapshot(&self) -> (blobs: ByteMap)
        requires
            self.wf(),
        ensures
            blobs.wf(),
            forall|t: Seq<char>, k: Seq<u8>|
                blobs.at(#[trigger] row_key(t, k)) == self.blob_at(t, k),
    {
        self.blobs.copy()
    }

    pub fn put_blob(&mut self, table: BlobTableId, key: &[u8], value: Vec<u8>) -> (result: Result<
        (),
    >)
        requires
            old(self).wf(),
        ensures
            result is Ok,
            final(self).wf(),
            final(self).reads() == old(self).reads(),
            forall|t: Seq<char>, k: Seq<u8>| #[trigger]
                final(self).blob_at(t, k) == if t == table@ && k == key@ {
                    Some(value@)
                } else {
                    old(self).blob_at(t, k)
                },
    {
        let row = make_row_key(table.as_str(), key);
        assert(row.len() <= usize::MAX);
        let ghost own = value@;
        self.blobs.insert(row, value);
        proof {
            assert forall|t: Seq<char>, k: Seq<u8>| #[trigger] self.blob_at(t, k) == if t == table@
                && k == key@ {
                Some(own)
            } else {
                old(self).blob_at(t, k)
            } by {
                if row_key(t, k) == row_key(table@, key@) {
                    lemma_be_bytes_len(encode_utf8(t).len(), 8);
                    lemma_row_key_unique(t, k, table@, key@);
                }
            }
        }
        Ok(())
    }

    pub fn apply_writes(&mut self, writes: Vec<BlobWriteOp>) -> (result: Result<()>)
        requires
            old(self).wf(),
        ensures
            result is Ok,
            final(self).wf(),
            final(self).reads() == old(self).reads(),
            forall|t: Seq<char>, k: Seq<u8>| #[trigger]
                final(self).blob_at(t, k) == blob_after(
                    old(self).blob_at(t, k),
                    writes@,
                    writes@.len() as int,
                    t,
                    k,
                ),
    {
        let ghost ops = writes@;
        let mut i: usize = 0;
        while i < writes.len()
            invariant
                ops == writes@,
                i <= ops.len(),
                self.wf(),
                self.reads() == old(self).reads(),
                forall|t: Seq<char>, k: Seq<u8>| #[trigger]
                    self.blob_at(t, k) == blob_after(old(self).blob_at(t, k), ops, i as int, t, k),
            decreases ops.len() - i,
        {
            let op = &writes[i];
            let _ = self.put_blob(op.table, &op.blob_key, vstd::slice::slice_to_vec(&op.blob_data));
            i = i + 1;
        }
        Ok(())
    }

    pub fn delete_blob(&mut self, table: BlobTableId, key: &[u8]) -> (result: Result<()>)
        requires
            old(self).wf(),
        ensures
            result is Ok,
            final(self).wf(),
            final(self).reads() == old(self).reads(),
            forall|t: Seq<char>, k: Seq<u8>| #[trigger]
                final(self).blob_at(t, k) == if t == table@ && k == key@ {
                    None
                } else {
                    old(self).blob_at(t, k)
                },
    {
        let row = make_row_key(table.as_str(), key);
        assert(row.len() <= usize::MAX);
        self.blobs.remove(&row);
        proof {
            assert forall|t: Seq<char>, k: Seq<u8>| #[trigger] self.blob_at(t, k) == if t == table@
                && k == key@ {
                None
            } else {
                old(self).blob_at(t, k)
            } by {
                if row_key(t, k) == row_key(table@, key@) {
                    lemma_be_bytes_len(encode_utf8(t).len(), 8);
                    lemma_row_key_unique(t, k, table@, key@);
                }
            }
        }
        Ok(())
    }

    pub fn get_blob(&mut self, table: BlobTableId, key: &[u8]) -> (result: Result<
        Option<Vec<u8>>,
    >)
        requires
            old(self).wf(),
        ensures
            result matches Ok(value) && opt_bytes(value) == old(self).blob_at(table@, key@),
            final(self).wf(),
            final(self).reads() == one_more(old(self).reads()),
            forall|t: Seq<char>, k: Seq<u8>| #[trigger]
                final(self).blob_at(t, k) == old(self).blob_at(t, k),
    {
        self.read_call_count = self.read_call_count.wrapping_add(1);
        let row = make_row_key(table.as_str(), key);
        Ok(self.blobs.get(&row))
    }

    /// The bytes `[start, end_exclusive)` of a blob, the end clamped to its
    /// length; `None` for a missing blob. It counts as one access; a reversed
    /// range is refused without any.
    pub fn read_range(
        &mut self,
        table: BlobTableId,
        key: &[u8],
        start: usize,
        end_exclusive: usize,
    ) -> (result: Result<Option<Vec<u8>>>)
        requires
            old(self).wf(),
        ensures
            final(self).wf(),
            forall|t: Seq<char>, k: Seq<u8>| #[trigger]
                final(self).blob_at(t, k) == old(self).blob_at(t, k),
            final(self).reads() == if start > end_exclusive {
                old(self).reads()
            } else {
                one_more(old(self).reads())
            },
            range_answer(
                old(self).blob_at(table@, key@),
                start as int,
                end_exclusive as int,
                result,
            ),
    {
        if start > end_exclusive {
            return Err(QueryError::Decode("invalid blob range"));
        }
        match self.get_blob(table, key) {
            Err(error) => Err(error),
            Ok(None) => Ok(None),
            Ok(Some(blob)) => {
                if start > blob.len() {
                    return Err(QueryError::Decode("invalid blob range"));
                }
                let end: usize = if end_exclusive < blob.len() {
                    end_exclusive
                } else {
                    blob.len()
                };
                Ok(
                    Some(
                        vstd::slice::slice_to_vec(
                            vstd::slice::slice_subrange(blob.as_slice(), start, end),
                        ),
                    ),
                )
            },
        }
    }
}

/// Deleting a blob twice is the same as deleting it once, and what was written
/// is what is read: the last write to a row in a batch decides its value.
pub proof fn law_last_write_wins(writes: Seq<MetaWriteOp>, i: int, table: Seq<char>, key: Seq<u8>)
    requires
        0 <= i < writes.len(),
        writes[i] matches MetaWriteOp::Put { table: t, row_key, .. } && t@ == table && row_key@
            == key,
        forall|j: int|
            i < j < writes.len() ==> !(#[trigger] writes[j] matches MetaWriteOp::Put {
                table: t,
                row_key,
                ..
            } && t@ == table && row_key@ == key),
    ensures
        forall|before: Option<Seq<u8>>| #[trigger]
            kv_after(before, writes, writes.len() as int, table, key) == Some(
                (writes[i]->Put_row_data)@,
            ),
{
    lemma_last_write(writes, i, writes.len() as int, table, key);
}

proof fn lemma_last_write(
    writes: Seq<MetaWriteOp>,
    i: int,
    n: int,
    table: Seq<char>,
    key: Seq<u8>,
)
    requires
        0 <= i < n <= writes.len(),
        writes[i] matches MetaWriteOp::Put { table: t, row_key, .. } && t@ == table && row_key@
            == key,
        forall|j: int|
            i < j < n ==> !(#[trigger] writes[j] matches MetaWriteOp::Put {
                table: t,
                row_key,
                ..
            } && t@ == table && row_key@ == key),
    ensures
        forall|before: Option<Seq<u8>>| #[trigger]
            kv_after(before, writes, n, table, key) == Some((writes[i]->Put_row_data)@),
    decreases n,
{
    if i < n - 1 {
        assert(!(writes[n - 1] matches MetaWriteOp::Put { table: t, row_key, .. } && t@ == table
            && row_key@ == key));
        lemma_last_write(writes, i, n - 1, table, key);
        assert forall|before: Option<Seq<u8>>| #[trigger]
            kv_after(before, writes, n, table, key) == Some((writes[i]->Put_row_data)@) by {
            assert(kv_after(before, writes, n - 1, table, key) == Some(
                (writes[i]->Put_row_data)@,
            ));
        }
    }
}

} // verus!
