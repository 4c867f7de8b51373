//! `BatchWriteItem` chunking.

use std::collections::VecDeque;
use vstd::prelude::*;

use crate::text::{
    lemma_name_irreflexive, lemma_name_total, lemma_name_transitive, name_lt, str_eq, str_lt,
};

verus! {

/// DynamoDB caps `BatchWriteItem` at 25 write requests per call.
pub const BATCH_WRITE_LIMIT: usize = 25;

/// Alternator rejects oversized HTTP request bodies. DynamoDB's documented
/// BatchWriteItem payload cap is 16 MiB; keep a margin for JSON/base64 framing.
pub const BATCH_WRITE_PAYLOAD_SOFT_LIMIT: usize = 12 * 1024 * 1024;

pub const BATCH_WRITE_ITEM_OVERHEAD: usize = 512;

/// Four output characters per three input bytes, rounded up; saturating.
pub open spec fn base64_len(raw_len: int) -> int {
    let len = ((raw_len + 2) / 3) * 4;
    if len > usize::MAX {
        usize::MAX as int
    } else {
        len
    }
}

fn base64_size(raw_len: usize) -> (len: usize)
    ensures
        len == base64_len(raw_len as int),
{
    let groups: usize = raw_len / 3 + if raw_len % 3 != 0 { 1 } else { 0 };
    match groups.checked_mul(4) {
        Some(len) => len,
        None => usize::MAX,
    }
}

/// Wire size of one put request: a fixed overhead plus each binary field in
/// base64.
pub fn estimated_batch_write_item_bytes(pk_len: usize, sk_len: usize, value_len: usize) -> (bytes:
    usize)
    requires
        BATCH_WRITE_ITEM_OVERHEAD + base64_len(pk_len as int) + base64_len(sk_len as int)
            + base64_len(value_len as int) <= usize::MAX,
    ensures
        bytes == BATCH_WRITE_ITEM_OVERHEAD + base64_len(pk_len as int) + base64_len(sk_len as int)
            + base64_len(value_len as int),
{
    BATCH_WRITE_ITEM_OVERHEAD + base64_size(pk_len) + base64_size(sk_len) + base64_size(value_len)
}

/// Summed weights of a chunk.
pub open spec fn chunk_bytes<T>(chunk: Seq<(T, usize)>) -> nat
    decreases chunk.len(),
{
    if chunk.len() == 0 {
        0
    } else {
        chunk_bytes(chunk.drop_last()) + chunk.last().1 as nat
    }
}

/// A new item starts a new chunk when the open one is full, or non-empty and
/// too heavy to take it.
pub open spec fn starts_chunk<T>(open: Seq<(T, usize)>, bytes: usize, max_items: usize) -> bool {
    open.len() >= max_items || (open.len() > 0 && chunk_bytes(open) + bytes
        > BATCH_WRITE_PAYLOAD_SOFT_LIMIT)
}

/// Closed chunks and open chunk of `table` after the first `n` items: items of
/// the table are taken in order, each into the open chunk if it fits there.
pub open spec fn packed<T>(
    items: Seq<(String, T, usize)>,
    n: int,
    table: Seq<char>,
    max_items: usize,
) -> (Seq<Seq<(T, usize)>>, Seq<(T, usize)>)
    decreases n,
{
    if n <= 0 {
        (Seq::empty(), Seq::empty())
    } else {
        let (closed, open) = packed(items, n - 1, table, max_items);
        let (name, item, bytes) = items[n - 1];
        if name@ != table {
            (closed, open)
        } else if starts_chunk(open, bytes, max_items) {
            (closed.push(open), seq![(item, bytes)])
        } else {
            (closed, open.push((item, bytes)))
        }
    }
}

/// The chunks of one table.
pub open spec fn table_chunks<T>(
    items: Seq<(String, T, usize)>,
    table: Seq<char>,
    max_items: usize,
) -> Seq<Seq<(T, usize)>> {
    let (closed, open) = packed(items, items.len() as int, table, max_items);
    if open.len() == 0 {
        closed
    } else {
        closed.push(open)
    }
}

/// A chunk without the weights.
pub open spec fn payload<T>(chunk: Seq<(T, usize)>) -> Seq<T> {
    Seq::new(chunk.len(), |i: int| chunk[i].0)
}

/// The items of one table, in order.
pub open spec fn table_items<T>(
    items: Seq<(String, T, usize)>,
    n: int,
    table: Seq<char>,
) -> Seq<(T, usize)>
    decreases n,
{
    if n <= 0 {
        Seq::empty()
    } else if items[n - 1].0@ == table {
        table_items(items, n - 1, table).push((items[n - 1].1, items[n - 1].2))
    } else {
        table_items(items, n - 1, table)
    }
}

/// Round `r` over the first `n` tables: the `r`-th chunk of each table that has
/// one.
pub open spec fn round<T>(
    tables: Seq<(Seq<char>, Seq<Seq<T>>)>,
    r: int,
    n: int,
) -> Seq<(Seq<char>, Seq<T>)>
    decreases n,
{
    if n <= 0 {
        Seq::empty()
    } else {
        let (name, chunks) = tables[n - 1];
        let before = round(tables, r, n - 1);
        if r < chunks.len() {
            before.push((name, chunks[r]))
        } else {
            before
        }
    }
}

/// The first `r` rounds, one after the other.
pub open spec fn rounds<T>(tables: Seq<(Seq<char>, Seq<Seq<T>>)>, r: int) -> Seq<
    (Seq<char>, Seq<T>),
>
    decreases r,
{
    if r <= 0 {
        Seq::empty()
    } else {
        rounds(tables, r - 1) + round(tables, r - 1, tables.len() as int)
    }
}

/// Every chunk of every table, taking one from each table in turn.
pub open spec fn is_round_robin<T>(
    out: Seq<(Seq<char>, Seq<T>)>,
    tables: Seq<(Seq<char>, Seq<Seq<T>>)>,
) -> bool {
    exists|r: int|
        r >= 0 && out == #[trigger] rounds(tables, r) && forall|j: int|
            0 <= j < tables.len() ==> (#[trigger] tables[j]).1.len() <= r
}

/// `name` is among the tables.
pub open spec fn is_listed<T>(tables: Seq<(Seq<char>, Seq<Seq<T>>)>, name: Seq<char>) -> bool {
    exists|i: int| 0 <= i < tables.len() && (#[trigger] tables[i]).0 == name
}

/// Some of the first `n` items goes to the table `name`.
pub open spec fn is_used<T>(items: Seq<(String, T, usize)>, n: int, name: Seq<char>) -> bool {
    exists|k: int| 0 <= k < n && (#[trigger] items[k]).0@ == name
}

/// Names ascend.
pub open spec fn names_ascend(names: Seq<Seq<char>>) -> bool {
    forall|i: int, j: int|
        0 <= i < j < names.len() ==> name_lt(#[trigger] names[i], #[trigger] names[j])
}

/// The names of the tables.
pub open spec fn table_names<T>(tables: Seq<(Seq<char>, Seq<Seq<T>>)>) -> Seq<Seq<char>> {
    Seq::new(tables.len(), |i: int| tables[i].0)
}

/// `tables` holds the chunks of each table that occurs in `items`, sorted by
/// name.
pub open spec fn groups_by_table<T>(
    tables: Seq<(Seq<char>, Seq<Seq<T>>)>,
    items: Seq<(String, T, usize)>,
    max_items: usize,
) -> bool {
    &&& names_ascend(table_names(tables))
    &&& forall|name: Seq<char>| #[trigger]
        is_listed(tables, name) <==> is_used(items, items.len() as int, name)
    &&& forall|i: int|
        0 <= i < tables.len() ==> (#[trigger] tables[i]).1 == chunk_payloads(
            table_chunks(items, tables[i].0, max_items),
        )
}

/// Chunks without the weights.
pub open spec fn chunk_payloads<T>(chunks: Seq<Seq<(T, usize)>>) -> Seq<Seq<T>> {
    Seq::new(chunks.len(), |i: int| payload(chunks[i]))
}

/// A vector of named chunks as a sequence.
pub open spec fn named_chunks<T>(chunks: Seq<(String, Vec<T>)>) -> Seq<(Seq<char>, Seq<T>)> {
    Seq::new(chunks.len(), |i: int| (chunks[i].0@, chunks[i].1@))
}

/// Chunks of one table while they are being filled.
struct TableGroup<T> {
    name: String,
    closed: VecDeque<Vec<T>>,
    open: Vec<T>,
    open_bytes: usize,
}

impl<T> TableGroup<T> {
    spec fn holds(&self, state: (Seq<Seq<(T, usize)>>, Seq<(T, usize)>)) -> bool {
        &&& self.closed@.len() == state.0.len()
        &&& forall|i: int|
            0 <= i < state.0.len() ==> (#[trigger] self.closed@[i])@ == payload(state.0[i])
        &&& self.open@ == payload(state.1)
        &&& self.open_bytes == if chunk_bytes(state.1) > usize::MAX {
            usize::MAX as nat
        } else {
            chunk_bytes(state.1)
        }
    }

    fn take(
        &mut self,
        item: T,
        bytes: usize,
        max_items: usize,
        Ghost(state): Ghost<(Seq<Seq<(T, usize)>>, Seq<(T, usize)>)>,
    )
        requires
            old(self).holds(state),
            max_items >= 1,
        ensures
            final(self).name == old(self).name,
            final(self).holds(
                if starts_chunk(state.1, bytes, max_items) {
                    (state.0.push(state.1), seq![(item, bytes)])
                } else {
                    (state.0, state.1.push((item, bytes)))
                },
            ),
    {
        let exceeds_count: bool = self.open.len() >= max_items;
        let exceeds_bytes: bool = self.open.len() > 0 && self.open_bytes.saturating_add(bytes)
            > BATCH_WRITE_PAYLOAD_SOFT_LIMIT;
        proof {
            let next = state.1.push((item, bytes));
            assert(next.drop_last() =~= state.1);
            assert(payload(next) =~= payload(state.1).push(item));
            let single = seq![(item, bytes)];
            assert(single.drop_last() =~= Seq::empty());
            assert(payload(single) =~= seq![item]);
            reveal_with_fuel(chunk_bytes, 2);
        }
        if exceeds_count || exceeds_bytes {
            let mut full: Vec<T> = Vec::new();
            std::mem::swap(&mut full, &mut self.open);
            self.closed.push_back(full);
            self.open_bytes = 0;
        }
        self.open.push(item);
        self.open_bytes = self.open_bytes.saturating_add(bytes);
        proof {
            if starts_chunk(state.1, bytes, max_items) {
                assert(self.open@ =~= payload(seq![(item, bytes)]));
            }
        }
    }
}

spec fn group_names<T>(groups: Seq<TableGroup<T>>) -> Seq<Seq<char>> {
    Seq::new(groups.len(), |i: int| groups[i].name@)
}

spec fn has_group<T>(groups: Seq<TableGroup<T>>, name: Seq<char>) -> bool {
    exists|i: int| 0 <= i < groups.len() && (#[trigger] groups[i]).name@ == name
}

/// The groups after `n` items.
spec fn grouped<T>(
    groups: Seq<TableGroup<T>>,
    items: Seq<(String, T, usize)>,
    n: int,
    max_items: usize,
) -> bool {
    &&& names_ascend(group_names(groups))
    &&& forall|name: Seq<char>| #[trigger] has_group(groups, name) <==> is_used(items, n, name)
    &&& forall|i: int|
        0 <= i < groups.len() ==> (#[trigger] groups[i]).holds(
            packed(items, n, groups[i].name@, max_items),
        )
}

/// A table that has not occurred yet has nothing packed.
proof fn lemma_unseen<T>(items: Seq<(String, T, usize)>, n: int, table: Seq<char>, max_items: usize)
    requires
        !is_used(items, n, table),
    ensures
        packed(items, n, table, max_items) == (
            Seq::<Seq<(T, usize)>>::empty(),
            Seq::<(T, usize)>::empty(),
        ),
    decreases n,
{
    if n > 0 {
        assert(items[n - 1].0@ != table);
        assert(!is_used(items, n - 1, table));
        lemma_unseen(items, n - 1, table, max_items);
    }
}

/// Position of `name` among the groups: where it is, or where it belongs.
fn find_group<T>(groups: &Vec<TableGroup<T>>, name: &str) -> (found: (usize, bool))
    requires
        names_ascend(group_names(groups@)),
    ensures
        found.0 <= groups@.len(),
        forall|i: int| 0 <= i < found.0 ==> name_lt((#[trigger] groups@[i]).name@, name@),
        found.1 ==> found.0 < groups@.len() && groups@[found.0 as int].name@ == name@,
        !found.1 ==> forall|i: int|
            found.0 <= i < groups@.len() ==> name_lt(name@, (#[trigger] groups@[i]).name@),
{
    let mut at: usize = 0;
    while at < groups.len() && str_lt(groups[at].name.as_str(), name)
        invariant
            at <= groups@.len(),
            forall|i: int| 0 <= i < at ==> name_lt((#[trigger] groups@[i]).name@, name@),
        decreases groups@.len() - at,
    {
        at = at + 1;
    }
    if at < groups.len() && str_eq(groups[at].name.as_str(), name) {
        return (at, true);
    }
    proof {
        if at < groups@.len() {
            lemma_name_total(groups@[at as int].name@, name@);
            assert forall|i: int| at <= i < groups@.len() implies name_lt(
                name@,
                (#[trigger] groups@[i]).name@,
            ) by {
                if at < i {
                    assert(name_lt(group_names(groups@)[at as int], group_names(groups@)[i]));
                    lemma_name_transitive(name@, groups@[at as int].name@, groups@[i].name@);
                }
            }
        }
    }
    (at, false)
}

fn group_items<T>(items: Vec<(String, T, usize)>, max_items: usize) -> (groups: Vec<TableGroup<T>>)
    requires
        max_items >= 1,
    ensures
        grouped(groups@, items@, items@.len() as int, max_items),
{
    let ghost all = items@;
    let mut groups: Vec<TableGroup<T>> = Vec::new();
    let mut n: Ghost<int> = Ghost(0);
    for entry in iter: items
        invariant
            iter.seq() == all,
            n@ == iter.index(),
            max_items >= 1,
            grouped(groups@, all, n@, max_items),
    {
        let (name, item, bytes) = entry;
        let ghost before = groups@;
        assert(all[n@] == (name, item, bytes));
        let (at, found) = find_group(&groups, name.as_str());
        if !found {
            let fresh = TableGroup {
                name,
                closed: VecDeque::new(),
                open: Vec::new(),
                open_bytes: 0,
            };
            proof {
                lemma_name_irreflexive(fresh.name@);
                assert(!has_group(before, fresh.name@));
                lemma_unseen(all, n@, fresh.name@, max_items);
                assert(payload(Seq::<(T, usize)>::empty()) =~= Seq::empty());
                assert(fresh.holds(packed(all, n@, fresh.name@, max_items)));
            }
            groups.insert(at, fresh);
        }
        let ghost mid = groups@;
        let ghost own = mid[at as int].name@;
        assert(own == all[n@].0@);
        proof {
            lemma_group_insert(before, mid, all, n@, at as int, found, max_items);
        }
        groups[at].take(item, bytes, max_items, Ghost(packed(all, n@, own, max_items)));
        proof {
            lemma_group_step(mid, groups@, all, n@, at as int, max_items);
            n@ = n@ + 1;
        }
    }
    groups
}

/// A new group goes where its name belongs.
proof fn lemma_group_insert<T>(
    before: Seq<TableGroup<T>>,
    mid: Seq<TableGroup<T>>,
    items: Seq<(String, T, usize)>,
    n: int,
    at: int,
    found: bool,
    max_items: usize,
)
    requires
        grouped(before, items, n, max_items),
        0 <= at < mid.len(),
        found ==> mid == before,
        !found ==> {
            &&& at <= before.len()
            &&& mid == before.insert(at, mid[at])
            &&& forall|i: int|
                0 <= i < at ==> name_lt((#[trigger] before[i]).name@, mid[at].name@)
            &&& forall|i: int|
                at <= i < before.len() ==> name_lt(mid[at].name@, (#[trigger] before[i]).name@)
            &&& mid[at].holds(packed(items, n, mid[at].name@, max_items))
        },
    ensures
        names_ascend(group_names(mid)),
        forall|i: int|
            0 <= i < mid.len() ==> (#[trigger] mid[i]).holds(
                packed(items, n, mid[i].name@, max_items),
            ),
        forall|name: Seq<char>| #[trigger]
            has_group(mid, name) <==> is_used(items, n, name) || name == mid[at].name@,
{
    let names = group_names(mid);
    let old_names = group_names(before);
    if !found {
        assert forall|i: int, j: int| 0 <= i < j < names.len() implies name_lt(
            #[trigger] names[i],
            #[trigger] names[j],
        ) by {
            let a = if i < at {
                i
            } else {
                i - 1
            };
            let b = if j < at {
                j
            } else {
                j - 1
            };
            if i != at {
                assert(mid[i] == before[a]);
            }
            if j != at {
                assert(mid[j] == before[b]);
            }
            if i != at && j != at {
                assert(name_lt(old_names[a], old_names[b]));
            }
        }
    }
    assert forall|i: int| 0 <= i < mid.len() implies (#[trigger] mid[i]).holds(
        packed(items, n, mid[i].name@, max_items),
    ) by {
        if !found {
            if i < at {
                assert(mid[i] == before[i]);
            } else if i > at {
                assert(mid[i] == before[i - 1]);
            }
        }
    }
    assert forall|name: Seq<char>| #[trigger]
        has_group(mid, name) <==> is_used(items, n, name) || name == mid[at].name@ by {
        if has_group(mid, name) {
            let i = choose|i: int| 0 <= i < mid.len() && (#[trigger] mid[i]).name@ == name;
            if found {
                assert(before[i].name@ == name);
                assert(has_group(before, name));
            } else if i < at {
                assert(before[i].name@ == name);
                assert(has_group(before, name));
            } else if i > at {
                assert(before[i - 1].name@ == name);
                assert(has_group(before, name));
            }
        }
        if is_used(items, n, name) {
            assert(has_group(before, name));
            let i = choose|i: int| 0 <= i < before.len() && (#[trigger] before[i]).name@ == name;
            let m = if found || i < at {
                i
            } else {
                i + 1
            };
            assert(mid[m] == before[i]);
        }
    }
}

/// The group of the next item takes it; the others are unaffected.
proof fn lemma_group_step<T>(
    mid: Seq<TableGroup<T>>,
    after: Seq<TableGroup<T>>,
    items: Seq<(String, T, usize)>,
    n: int,
    at: int,
    max_items: usize,
)
    requires
        0 <= n < items.len(),
        0 <= at < mid.len(),
        names_ascend(group_names(mid)),
        forall|i: int|
            0 <= i < mid.len() ==> (#[trigger] mid[i]).holds(
                packed(items, n, mid[i].name@, max_items),
            ),
        forall|name: Seq<char>| #[trigger]
            has_group(mid, name) <==> is_used(items, n, name) || name == mid[at].name@,
        mid[at].name@ == items[n].0@,
        after == mid.update(at, after[at]),
        after[at].name == mid[at].name,
        after[at].holds(packed(items, n + 1, mid[at].name@, max_items)),
    ensures
        grouped(after, items, n + 1, max_items),
{
    assert(group_names(after) =~= group_names(mid));
    let names = group_names(mid);
    assert forall|i: int| 0 <= i < after.len() implies (#[trigger] after[i]).holds(
        packed(items, n + 1, after[i].name@, max_items),
    ) by {
        if i != at {
            assert(after[i] == mid[i]);
            lemma_name_irreflexive(names[i]);
            assert(i < at ==> name_lt(names[i], names[at]));
            assert(at < i ==> name_lt(names[at], names[i]));
        }
    }
    assert forall|name: Seq<char>| #[trigger] has_group(after, name) <==> is_used(
        items,
        n + 1,
        name,
    ) by {
        if has_group(after, name) {
            let i = choose|i: int| 0 <= i < after.len() && (#[trigger] after[i]).name@ == name;
            assert(mid[i].name@ == name);
            assert(has_group(mid, name));
            if name == mid[at].name@ {
                assert(items[n].0@ == name);
            } else {
                let k = choose|k: int| 0 <= k < n && (#[trigger] items[k]).0@ == name;
                assert(items[k].0@ == name);
            }
        }
        if is_used(items, n + 1, name) {
            let k = choose|k: int| 0 <= k < n + 1 && (#[trigger] items[k]).0@ == name;
            if k < n {
                assert(is_used(items, n, name));
            }
            assert(has_group(mid, name));
            let i = choose|i: int| 0 <= i < mid.len() && (#[trigger] mid[i]).name@ == name;
            assert(after[i].name@ == name);
        }
    }
}

/// Groups write requests into `BatchWriteItem` chunks: one table per chunk, at
/// most `max_items` requests (at least one), and no more wire bytes than the
/// soft limit unless a single request exceeds it. Tables take turns, in name
/// order.
pub fn split_batch_write_chunks<T>(items: Vec<(String, T, usize)>, max_items: usize) -> (chunks: Vec<
    (String, Vec<T>),
>)
    ensures
        exists|tables: Seq<(Seq<char>, Seq<Seq<T>>)>|
            groups_by_table(
                tables,
                items@,
                if max_items == 0 {
                    1
                } else {
                    max_items
                },
            ) && #[trigger] is_round_robin(named_chunks(chunks@), tables),
{
    let max_items: usize = if max_items == 0 {
        1
    } else {
        max_items
    };
    let ghost all = items@;
    let mut groups = group_items(items, max_items);
    let ghost grown = groups@;
    let ghost tables: Seq<(Seq<char>, Seq<Seq<T>>)> = Seq::new(
        grown.len(),
        |i: int| (grown[i].name@, chunk_payloads(table_chunks(all, grown[i].name@, max_items))),
    );
    // Close every open chunk.
    let mut i: usize = 0;
    while i < groups.len()
        invariant
            i <= groups@.len(),
            groups@.len() == grown.len(),
            tables.len() == grown.len(),
            forall|j: int| 0 <= j < grown.len() ==> (#[trigger] groups@[j]).name == grown[j].name,
            forall|j: int| i <= j < grown.len() ==> #[trigger] groups@[j] == grown[j],
            forall|j: int|
                0 <= j < grown.len() ==> (#[trigger] grown[j]).holds(
                    packed(all, all.len() as int, grown[j].name@, max_items),
                ),
            forall|j: int|
                0 <= j < grown.len() ==> (#[trigger] tables[j]) == (
                    grown[j].name@,
                    chunk_payloads(table_chunks(all, grown[j].name@, max_items)),
                ),
            forall|j: int| 0 <= j < i ==> vec_seqs((#[trigger] groups@[j]).closed@) == tables[j].1,
        decreases groups@.len() - i,
    {
        let ghost state = packed(all, all.len() as int, grown[i as int].name@, max_items);
        let mut open: Vec<T> = Vec::new();
        std::mem::swap(&mut open, &mut groups[i].open);
        assert(open@ == payload(state.1));
        if open.len() > 0 {
            groups[i].closed.push_back(open);
        }
        assert(vec_seqs(groups@[i as int].closed@) =~= tables[i as int].1);
        i = i + 1;
    }
    proof {
        assert(table_names(tables) =~= group_names(grown));
        assert forall|name: Seq<char>| #[trigger] is_listed(tables, name) <==> is_used(
            all,
            all.len() as int,
            name,
        ) by {
            if is_listed(tables, name) {
                let i = choose|i: int| 0 <= i < tables.len() && (#[trigger] tables[i]).0 == name;
                assert(grown[i].name@ == name);
            }
            if has_group(grown, name) {
                let i = choose|i: int| 0 <= i < grown.len() && (#[trigger] grown[i]).name@ == name;
                assert(tables[i].0 == name);
            }
            assert(has_group(grown, name) == is_listed(tables, name));
        }
    }
    let chunks = take_turns(groups, Ghost(tables));
    assert(is_round_robin(named_chunks(chunks@), tables));
    chunks
}

/// Vectors as sequences.
spec fn vec_seqs<T>(chunks: Seq<Vec<T>>) -> Seq<Seq<T>> {
    Seq::new(chunks.len(), |i: int| chunks[i]@)
}

/// What is left of a table's chunks after `r` rounds.
spec fn remaining<T>(chunks: Seq<Seq<T>>, r: int) -> Seq<Seq<T>> {
    if r >= chunks.len() {
        Seq::empty()
    } else {
        chunks.skip(r)
    }
}

/// Takes one chunk from each group in turn until all are empty.
fn take_turns<T>(
    groups: Vec<TableGroup<T>>,
    Ghost(tables): Ghost<Seq<(Seq<char>, Seq<Seq<T>>)>>,
) -> (chunks: Vec<(String, Vec<T>)>)
    requires
        groups@.len() == tables.len(),
        forall|j: int|
            0 <= j < tables.len() ==> (#[trigger] groups@[j]).name@ == tables[j].0 && vec_seqs(
                groups@[j].closed@,
            ) == tables[j].1,
    ensures
        is_round_robin(named_chunks(chunks@), tables),
{
    let mut groups = groups;
    let mut chunks: Vec<(String, Vec<T>)> = Vec::new();
    let ghost mut r: int = 0;
    assert(named_chunks(chunks@) =~= rounds(tables, 0));
    proof {
        assert forall|j: int| 0 <= j < tables.len() implies vec_seqs(
            (#[trigger] groups@[j]).closed@,
        ) == remaining(tables[j].1, 0) by {
            if tables[j].1.len() > 0 {
                assert(tables[j].1.skip(0) =~= tables[j].1);
            } else {
                assert(tables[j].1 =~= Seq::empty());
            }
        }
    }
    loop
        invariant
            r >= 0,
            groups@.len() == tables.len(),
            forall|j: int|
                0 <= j < tables.len() ==> (#[trigger] groups@[j]).name@ == tables[j].0 && vec_seqs(
                    groups@[j].closed@,
                ) == remaining(tables[j].1, r),
            named_chunks(chunks@) == rounds(tables, r),
        ensures
            is_round_robin(named_chunks(chunks@), tables),
        decreases total_chunks(groups@, groups@.len() as int),
    {
        let ghost left = total_chunks(groups@, groups@.len() as int);
        let mut emitted: bool = false;
        let mut i: usize = 0;
        let ghost start = named_chunks(chunks@);
        assert(start + round(tables, r, 0) =~= start);
        while i < groups.len()
            invariant
                r >= 0,
                i <= groups@.len(),
                groups@.len() == tables.len(),
                start == rounds(tables, r),
                forall|j: int| 0 <= j < tables.len() ==> (#[trigger] groups@[j]).name@ == tables[j].0,
                forall|j: int|
                    0 <= j < i ==> vec_seqs((#[trigger] groups@[j]).closed@) == remaining(
                        tables[j].1,
                        r + 1,
                    ),
                forall|j: int|
                    i <= j < tables.len() ==> vec_seqs((#[trigger] groups@[j]).closed@)
                        == remaining(tables[j].1, r),
                named_chunks(chunks@) == start + round(tables, r, i as int),
                total_chunks(groups@, groups@.len() as int) <= left,
                emitted ==> total_chunks(groups@, groups@.len() as int) < left,
                !emitted ==> (forall|j: int|
                    0 <= j < i ==> (#[trigger] tables[j]).1.len() <= r) && round(
                    tables,
                    r,
                    i as int,
                ).len() == 0,
            decreases groups@.len() - i,
        {
            let ghost old_groups = groups@;
            let ghost old_chunks = chunks@;
            let ghost own = tables[i as int].1;
            assert(vec_seqs(groups@[i as int].closed@) == remaining(own, r));
            match groups[i].closed.pop_front() {
                Some(chunk) => {
                    proof {
                        let closed = old_groups[i as int].closed@;
                        assert(vec_seqs(closed)[0] == chunk@);
                        assert(remaining(own, r).len() > 0);
                        assert(chunk@ == own[r]);
                        let now = groups@[i as int].closed@;
                        assert forall|k: int| 0 <= k < now.len() implies vec_seqs(now)[k]
                            == remaining(own, r + 1)[k] by {
                            assert(now[k] == closed[k + 1]);
                            assert(vec_seqs(closed)[k + 1] == remaining(own, r)[k + 1]);
                        }
                        assert(vec_seqs(now) =~= remaining(own, r + 1));
                        lemma_total_take(old_groups, groups@, groups@.len() as int, i as int);
                    }
                    let name = groups[i].name.clone();
                    let ghost chunk_seq = chunk@;
                    chunks.push((name, chunk));
                    emitted = true;
                    assert(named_chunks(chunks@) =~= named_chunks(old_chunks).push(
                        (tables[i as int].0, chunk_seq),
                    ));
                    assert(named_chunks(chunks@) =~= start + round(tables, r, i + 1));
                },
                None => {
                    proof {
                        assert(vec_seqs(old_groups[i as int].closed@).len() == 0);
                        assert(own.len() <= r);
                        assert(vec_seqs(groups@[i as int].closed@) =~= remaining(own, r + 1));
                        lemma_total_same(old_groups, groups@, groups@.len() as int);
                    }
                },
            }
            i = i + 1;
        }
        if !emitted {
            assert(named_chunks(chunks@) =~= rounds(tables, r));
            break;
        }
        proof {
            r = r + 1;
        }
    }
    chunks
}

/// Chunks in the first `n` groups.
spec fn total_chunks<T>(groups: Seq<TableGroup<T>>, n: int) -> nat
    decreases n,
{
    if n <= 0 {
        0
    } else {
        total_chunks(groups, n - 1) + groups[n - 1].closed@.len()
    }
}

proof fn lemma_total_same<T>(a: Seq<TableGroup<T>>, b: Seq<TableGroup<T>>, n: int)
    requires
        0 <= n <= a.len(),
        a.len() == b.len(),
        forall|j: int| 0 <= j < n ==> (#[trigger] a[j]).closed@.len() == b[j].closed@.len(),
    ensures
        total_chunks(a, n) == total_chunks(b, n),
    decreases n,
{
    if n > 0 {
        assert(a[n - 1].closed@.len() == b[n - 1].closed@.len());
        lemma_total_same(a, b, n - 1);
    }
}

proof fn lemma_total_take<T>(a: Seq<TableGroup<T>>, b: Seq<TableGroup<T>>, n: int, i: int)
    requires
        0 <= i < n <= a.len(),
        a.len() == b.len(),
        b[i].closed@.len() == a[i].closed@.len() - 1,
        forall|j: int|
            0 <= j < n && j != i ==> (#[trigger] a[j]).closed@.len() == b[j].closed@.len(),
    ensures
        total_chunks(b, n) == total_chunks(a, n) - 1,
    decreases n,
{
    if i < n - 1 {
        assert(a[n - 1].closed@.len() == b[n - 1].closed@.len());
        lemma_total_take(a, b, n - 1, i);
    } else {
        lemma_total_same(a, b, n - 1);
    }
}

/// Chunks one after the other.
pub open spec fn joined<T>(chunks: Seq<Seq<T>>) -> Seq<T>
    decreases chunks.len(),
{
    if chunks.len() == 0 {
        Seq::empty()
    } else {
        joined(chunks.drop_last()) + chunks.last()
    }
}

/// A chunk that may be sent: neither empty nor over the item limit, and over the
/// payload limit only if it is a single request.
pub open spec fn sendable<T>(chunk: Seq<(T, usize)>, max_items: usize) -> bool {
    &&& 1 <= chunk.len() <= max_items
    &&& chunk.len() == 1 || chunk_bytes(chunk) <= BATCH_WRITE_PAYLOAD_SOFT_LIMIT
}

proof fn lemma_packed_sendable<T>(
    items: Seq<(String, T, usize)>,
    n: int,
    table: Seq<char>,
    max_items: usize,
)
    requires
        max_items >= 1,
    ensures
        forall|c: int|
            0 <= c < packed(items, n, table, max_items).0.len() ==> #[trigger] sendable(
                packed(items, n, table, max_items).0[c],
                max_items,
            ),
        packed(items, n, table, max_items).1.len() > 0 ==> sendable(
            packed(items, n, table, max_items).1,
            max_items,
        ),
    decreases n,
{
    if n > 0 {
        lemma_packed_sendable(items, n - 1, table, max_items);
        let (closed, open) = packed(items, n - 1, table, max_items);
        let (name, item, bytes) = items[n - 1];
        if name@ == table {
            if starts_chunk(open, bytes, max_items) {
                let now = closed.push(open);
                assert forall|c: int| 0 <= c < now.len() implies #[trigger] sendable(
                    now[c],
                    max_items,
                ) by {
                    if c < closed.len() {
                        assert(sendable(closed[c], max_items));
                    }
                }
            } else {
                assert(open.push((item, bytes)).drop_last() =~= open);
            }
        }
    }
}

/// Every chunk of every table may be sent.
pub proof fn law_chunks_respect_limits<T>(
    items: Seq<(String, T, usize)>,
    table: Seq<char>,
    max_items: usize,
    c: int,
)
    requires
        max_items >= 1,
        0 <= c < table_chunks(items, table, max_items).len(),
    ensures
        sendable(table_chunks(items, table, max_items)[c], max_items),
{
    lemma_packed_sendable(items, items.len() as int, table, max_items);
    let (closed, open) = packed(items, items.len() as int, table, max_items);
    if c < closed.len() {
        assert(sendable(closed[c], max_items));
    }
}

proof fn lemma_packed_joined<T>(
    items: Seq<(String, T, usize)>,
    n: int,
    table: Seq<char>,
    max_items: usize,
)
    ensures
        joined(packed(items, n, table, max_items).0) + packed(items, n, table, max_items).1
            == table_items(items, n, table),
    decreases n,
{
    if n <= 0 {
        assert(joined(Seq::<Seq<(T, usize)>>::empty()) + Seq::<(T, usize)>::empty() =~= Seq::<
            (T, usize),
        >::empty());
    } else {
        lemma_packed_joined(items, n - 1, table, max_items);
        let (closed, open) = packed(items, n - 1, table, max_items);
        let (name, item, bytes) = items[n - 1];
        let entry = (item, bytes);
        if name@ == table {
            let all = table_items(items, n - 1, table);
            if starts_chunk(open, bytes, max_items) {
                assert(closed.push(open).drop_last() =~= closed);
                assert(joined(closed.push(open)) + seq![entry] =~= all.push(entry));
            } else {
                assert(joined(closed) + open.push(entry) =~= all.push(entry));
            }
        }
    }
}

/// Chunking keeps every request of a table, once and in order.
pub proof fn law_chunks_keep_items<T>(
    items: Seq<(String, T, usize)>,
    table: Seq<char>,
    max_items: usize,
)
    ensures
        joined(table_chunks(items, table, max_items)) == table_items(
            items,
            items.len() as int,
            table,
        ),
{
    lemma_packed_joined(items, items.len() as int, table, max_items);
    let (closed, open) = packed(items, items.len() as int, table, max_items);
    if open.len() == 0 {
        assert(joined(closed) + open =~= joined(closed));
    } else {
        assert(closed.push(open).drop_last() =~= closed);
    }
}

} // verus!
