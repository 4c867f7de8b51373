//! What batching is for: every request is sent once, in order and within the
//! limits, and no table waits for another to finish.

use vstd::arithmetic::power2::{lemma2_to64, lemma_pow2_unfold, pow2};
use vstd::prelude::*;

use crate::store::batch::{
    base64_len, chunk_bytes, chunk_payloads, groups_by_table, is_listed, is_round_robin, is_used,
    joined, law_chunks_keep_items, law_chunks_respect_limits, names_ascend, packed, payload, round,
    rounds, starts_chunk, table_chunks, table_items, table_names,
};
use crate::store::retry::{
    backoff_cap, backoff_exponent, fnv1a, is_ranked, is_ranking, jitter_hash, law_backoff_bounded,
    occurrences, ranking_text, ranks_before, spec_backoff, without_chunk, wrapped,
};
use crate::store::schedule::{sending, sending_to, unfinished, BatchSchedule, ChunkState};
use crate::text::{decimal, lemma_name_irreflexive, name_lt};

verus! {

/// What is sent to a table, chunk after chunk.
pub open spec fn sent_to<T>(out: Seq<(Seq<char>, Seq<T>)>, table: Seq<char>) -> Seq<T>
    decreases out.len(),
{
    if out.len() == 0 {
        Seq::empty()
    } else if out.last().0 == table {
        sent_to(out.drop_last(), table) + out.last().1
    } else {
        sent_to(out.drop_last(), table)
    }
}

/// What the first `n` requests ask to send to a table.
pub open spec fn asked_of<T>(
    items: Seq<(String, T, usize)>,
    n: int,
    table: Seq<char>,
) -> Seq<T>
    decreases n,
{
    if n <= 0 {
        Seq::empty()
    } else if items[n - 1].0@ == table {
        asked_of(items, n - 1, table).push(items[n - 1].1)
    } else {
        asked_of(items, n - 1, table)
    }
}

/// The first `n` chunks one after the other.
pub open spec fn flat<T>(chunks: Seq<Seq<T>>, n: int) -> Seq<T>
    decreases n,
{
    if n <= 0 {
        Seq::empty()
    } else {
        flat(chunks, n - 1) + chunks[n - 1]
    }
}

proof fn lemma_sent_append<T>(
    a: Seq<(Seq<char>, Seq<T>)>,
    b: Seq<(Seq<char>, Seq<T>)>,
    table: Seq<char>,
)
    ensures
        sent_to(a + b, table) == sent_to(a, table) + sent_to(b, table),
    decreases b.len(),
{
    if b.len() == 0 {
        assert(a + b =~= a);
        assert(sent_to(a, table) + sent_to(b, table) =~= sent_to(a, table));
    } else {
        lemma_sent_append(a, b.drop_last(), table);
        assert((a + b).drop_last() =~= a + b.drop_last());
        assert((a + b).last() == b.last());
        assert(sent_to(a + b, table) =~= sent_to(a, table) + sent_to(b, table));
    }
}

/// No two tables have one name.
proof fn lemma_names_differ<T>(tables: Seq<(Seq<char>, Seq<Seq<T>>)>, i: int, j: int)
    requires
        names_ascend(table_names(tables)),
        0 <= i < tables.len(),
        0 <= j < tables.len(),
        i != j,
    ensures
        tables[i].0 != tables[j].0,
{
    let names = table_names(tables);
    if i < j {
        assert(name_lt(names[i], names[j]));
    } else {
        assert(name_lt(names[j], names[i]));
    }
    lemma_name_irreflexive(names[i]);
}

proof fn lemma_round_sends<T>(
    tables: Seq<(Seq<char>, Seq<Seq<T>>)>,
    r: int,
    n: int,
    j: int,
)
    requires
        names_ascend(table_names(tables)),
        0 <= n <= tables.len(),
        0 <= j < tables.len(),
        0 <= r,
    ensures
        sent_to(round(tables, r, n), tables[j].0) == if j < n && r < tables[j].1.len() {
            tables[j].1[r]
        } else {
            Seq::empty()
        },
    decreases n,
{
    if n > 0 {
        let before = round(tables, r, n - 1);
        let after = round(tables, r, n);
        lemma_round_sends(tables, r, n - 1, j);
        if r < tables[n - 1].1.len() {
            assert(after.drop_last() =~= before);
            assert(after.last() == (tables[n - 1].0, tables[n - 1].1[r]));
        }
        if n - 1 != j {
            lemma_names_differ(tables, n - 1, j);
        } else {
            assert(Seq::<T>::empty() + tables[j].1[r] =~= tables[j].1[r]);
        }
    }
}

proof fn lemma_rounds_send<T>(tables: Seq<(Seq<char>, Seq<Seq<T>>)>, r: int, j: int)
    requires
        names_ascend(table_names(tables)),
        0 <= j < tables.len(),
        0 <= r,
    ensures
        sent_to(rounds(tables, r), tables[j].0) == flat(
            tables[j].1,
            if r < tables[j].1.len() {
                r
            } else {
                tables[j].1.len() as int
            },
        ),
    decreases r,
{
    if r > 0 {
        lemma_rounds_send(tables, r - 1, j);
        lemma_round_sends(tables, r - 1, tables.len() as int, j);
        lemma_sent_append(
            rounds(tables, r - 1),
            round(tables, r - 1, tables.len() as int),
            tables[j].0,
        );
        let done = flat(tables[j].1, tables[j].1.len() as int);
        assert(done + Seq::<T>::empty() =~= done);
    }
}

proof fn lemma_flat_payloads<T>(chunks: Seq<Seq<(T, usize)>>, n: int)
    requires
        0 <= n <= chunks.len(),
    ensures
        flat(chunk_payloads(chunks), n) == payload(joined(chunks.take(n))),
    decreases n,
{
    if n > 0 {
        lemma_flat_payloads(chunks, n - 1);
        let part = chunks.take(n);
        assert(part.drop_last() =~= chunks.take(n - 1));
        assert(part.last() == chunks[n - 1]);
        let head = joined(chunks.take(n - 1));
        assert(payload(head + chunks[n - 1]) =~= payload(head) + payload(chunks[n - 1]));
    } else {
        assert(chunks.take(0).len() == 0);
        assert(payload(joined(chunks.take(0))) =~= Seq::<T>::empty());
    }
}

proof fn lemma_asked<T>(items: Seq<(String, T, usize)>, n: int, table: Seq<char>)
    requires
        0 <= n <= items.len(),
    ensures
        asked_of(items, n, table) == payload(table_items(items, n, table)),
    decreases n,
{
    if n > 0 {
        lemma_asked(items, n - 1, table);
    }
    assert(asked_of(items, n, table) =~= payload(table_items(items, n, table)));
}

proof fn lemma_asked_something<T>(items: Seq<(String, T, usize)>, n: int, table: Seq<char>)
    requires
        0 <= n <= items.len(),
    ensures
        asked_of(items, n, table).len() > 0 <==> is_used(items, n, table),
    decreases n,
{
    if n > 0 {
        lemma_asked_something(items, n - 1, table);
        if items[n - 1].0@ == table {
            assert(is_used(items, n, table));
        }
        if is_used(items, n, table) {
            let k = choose|k: int| 0 <= k < n && (#[trigger] items[k]).0@ == table;
            if k < n - 1 {
                assert(is_used(items, n - 1, table));
            }
        }
        if is_used(items, n - 1, table) {
            let k = choose|k: int| 0 <= k < n - 1 && (#[trigger] items[k]).0@ == table;
            assert(items[k].0@ == table);
        }
    }
}

proof fn lemma_unlisted_round<T>(
    tables: Seq<(Seq<char>, Seq<Seq<T>>)>,
    r: int,
    n: int,
    table: Seq<char>,
)
    requires
        0 <= n <= tables.len(),
        !is_listed(tables, table),
    ensures
        sent_to(round(tables, r, n), table) == Seq::<T>::empty(),
    decreases n,
{
    if n > 0 {
        lemma_unlisted_round(tables, r, n - 1, table);
        assert(tables[n - 1].0 != table);
        if r < tables[n - 1].1.len() {
            let after = round(tables, r, n);
            assert(after.drop_last() =~= round(tables, r, n - 1));
            assert(after.last().0 == tables[n - 1].0);
        }
    }
}

proof fn lemma_unlisted_rounds<T>(
    tables: Seq<(Seq<char>, Seq<Seq<T>>)>,
    r: int,
    table: Seq<char>,
)
    requires
        !is_listed(tables, table),
    ensures
        sent_to(rounds(tables, r), table) == Seq::<T>::empty(),
    decreases r,
{
    if r > 0 {
        lemma_unlisted_rounds(tables, r - 1, table);
        lemma_unlisted_round(tables, r - 1, tables.len() as int, table);
        lemma_sent_append(
            rounds(tables, r - 1),
            round(tables, r - 1, tables.len() as int),
            table,
        );
        assert(Seq::<T>::empty() + Seq::<T>::empty() =~= Seq::<T>::empty());
    }
}

/// Batching loses no request and sends none twice: what the chunks of a table
/// hold, one after the other, is what the batch asked to send to it, in order.
pub proof fn law_batch_sends_every_request_once<T>(
    items: Seq<(String, T, usize)>,
    max_items: usize,
    tables: Seq<(Seq<char>, Seq<Seq<T>>)>,
    out: Seq<(Seq<char>, Seq<T>)>,
    table: Seq<char>,
)
    requires
        groups_by_table(tables, items, max_items),
        is_round_robin(out, tables),
    ensures
        sent_to(out, table) == asked_of(items, items.len() as int, table),
{
    let n = items.len() as int;
    let r = choose|r: int|
        r >= 0 && out == #[trigger] rounds(tables, r) && forall|j: int|
            0 <= j < tables.len() ==> (#[trigger] tables[j]).1.len() <= r;
    assert(is_listed(tables, table) <==> is_used(items, n, table));
    if is_listed(tables, table) {
        let j = choose|j: int| 0 <= j < tables.len() && (#[trigger] tables[j]).0 == table;
        lemma_rounds_send(tables, r, j);
        let chunks = table_chunks(items, table, max_items);
        assert(tables[j].1 == chunk_payloads(chunks));
        lemma_flat_payloads(chunks, chunks.len() as int);
        assert(chunks.take(chunks.len() as int) =~= chunks);
        law_chunks_keep_items(items, table, max_items);
        lemma_asked(items, n, table);
    } else {
        lemma_unlisted_rounds(tables, r, table);
        lemma_asked_something(items, n, table);
        assert(asked_of(items, n, table) =~= Seq::<T>::empty());
    }
}

/// The chunk comes from a table's list.
pub open spec fn comes_from<T>(
    tables: Seq<(Seq<char>, Seq<Seq<T>>)>,
    chunk: (Seq<char>, Seq<T>),
    j: int,
    r: int,
) -> bool {
    0 <= j < tables.len() && 0 <= r < tables[j].1.len() && chunk == (tables[j].0, tables[j].1[r])
}

proof fn lemma_round_comes_from<T>(
    tables: Seq<(Seq<char>, Seq<Seq<T>>)>,
    r: int,
    n: int,
    c: int,
) -> (j: int)
    requires
        0 <= r,
        0 <= n <= tables.len(),
        0 <= c < round(tables, r, n).len(),
    ensures
        j < n,
        comes_from(tables, round(tables, r, n)[c], j, r),
    decreases n,
{
    let before = round(tables, r, n - 1);
    if c < before.len() {
        lemma_round_comes_from(tables, r, n - 1, c)
    } else {
        n - 1
    }
}

proof fn lemma_rounds_come_from<T>(
    tables: Seq<(Seq<char>, Seq<Seq<T>>)>,
    r: int,
    c: int,
) -> (at: (int, int))
    requires
        0 <= r,
        0 <= c < rounds(tables, r).len(),
    ensures
        0 <= at.1 < r,
        comes_from(tables, rounds(tables, r)[c], at.0, at.1),
    decreases r,
{
    let before = rounds(tables, r - 1);
    if c < before.len() {
        lemma_rounds_come_from(tables, r - 1, c)
    } else {
        let last = round(tables, r - 1, tables.len() as int);
        let j = lemma_round_comes_from(tables, r - 1, tables.len() as int, c - before.len());
        assert(rounds(tables, r)[c] == last[c - before.len()]);
        (j, r - 1)
    }
}

/// Every chunk sent is one table's, holds something, and holds no more requests
/// than the limit.
pub proof fn law_sent_chunks_respect_the_limit<T>(
    items: Seq<(String, T, usize)>,
    max_items: usize,
    tables: Seq<(Seq<char>, Seq<Seq<T>>)>,
    out: Seq<(Seq<char>, Seq<T>)>,
    c: int,
)
    requires
        max_items >= 1,
        groups_by_table(tables, items, max_items),
        is_round_robin(out, tables),
        0 <= c < out.len(),
    ensures
        1 <= out[c].1.len() <= max_items,
        exists|k: int| 0 <= k < items.len() && (#[trigger] items[k]).0@ == out[c].0,
{
    let r = choose|r: int|
        r >= 0 && out == #[trigger] rounds(tables, r) && forall|j: int|
            0 <= j < tables.len() ==> (#[trigger] tables[j]).1.len() <= r;
    let (j, at) = lemma_rounds_come_from(tables, r, c);
    let chunks = table_chunks(items, tables[j].0, max_items);
    assert(tables[j].1 == chunk_payloads(chunks));
    law_chunks_respect_limits(items, tables[j].0, max_items, at);
    assert(is_listed(tables, tables[j].0));
    assert(is_used(items, items.len() as int, tables[j].0));
}

/// Tables take turns: where a table's chunk number `b` is sent, every table that
/// has a chunk number `a`, with `a` below `b`, has sent it before.
pub proof fn law_tables_take_turns<T>(
    tables: Seq<(Seq<char>, Seq<Seq<T>>)>,
    r: int,
    j: int,
    a: int,
) -> (at: int)
    requires
        0 <= j < tables.len(),
        0 <= a < r,
        a < tables[j].1.len(),
    ensures
        0 <= at < rounds(tables, a + 1).len(),
        rounds(tables, a + 1).len() <= rounds(tables, r).len(),
        rounds(tables, r)[at] == (tables[j].0, tables[j].1[a]),
    decreases r,
{
    let before = rounds(tables, a);
    let turn = round(tables, a, tables.len() as int);
    let k = lemma_round_has(tables, a, tables.len() as int, j);
    assert(rounds(tables, a + 1) == before + turn);
    if r == a + 1 {
        before.len() + k
    } else {
        let at = law_tables_take_turns(tables, r - 1, j, a);
        let last = round(tables, r - 1, tables.len() as int);
        assert(rounds(tables, r) == rounds(tables, r - 1) + last);
        at
    }
}

proof fn lemma_round_has<T>(
    tables: Seq<(Seq<char>, Seq<Seq<T>>)>,
    r: int,
    n: int,
    j: int,
) -> (k: int)
    requires
        0 <= r,
        0 <= j < n <= tables.len(),
        r < tables[j].1.len(),
    ensures
        0 <= k < round(tables, r, n).len(),
        round(tables, r, n)[k] == (tables[j].0, tables[j].1[r]),
    decreases n,
{
    let before = round(tables, r, n - 1);
    if j == n - 1 {
        before.len() as int
    } else {
        lemma_round_has(tables, r, n - 1, j)
    }
}

/// A chunk is full: it has as many requests as allowed, or the first request of
/// the next one would have made it too heavy.
pub open spec fn is_filled<T>(
    chunk: Seq<(T, usize)>,
    next: Seq<(T, usize)>,
    max_items: usize,
) -> bool {
    chunk.len() >= max_items || (next.len() > 0 && chunk_bytes(chunk) + next[0].1 > 12_582_912)
}

proof fn lemma_packed_filled<T>(
    items: Seq<(String, T, usize)>,
    n: int,
    table: Seq<char>,
    max_items: usize,
)
    requires
        0 <= n <= items.len(),
        max_items >= 1,
    ensures
        ({
            let (closed, open) = packed(items, n, table, max_items);
            &&& forall|c: int|
                0 <= c < closed.len() - 1 ==> is_filled(
                    #[trigger] closed[c],
                    closed[c + 1],
                    max_items,
                )
            &&& closed.len() > 0 ==> open.len() > 0 && is_filled(closed.last(), open, max_items)
        }),
    decreases n,
{
    if n > 0 {
        lemma_packed_filled(items, n - 1, table, max_items);
        let (closed, open) = packed(items, n - 1, table, max_items);
        let (name, item, bytes) = items[n - 1];
        if name@ == table {
            if starts_chunk(open, bytes, max_items) {
                let more = closed.push(open);
                let fresh = seq![(item, bytes)];
                assert(is_filled(open, fresh, max_items));
                assert forall|c: int| 0 <= c < more.len() - 1 implies is_filled(
                    #[trigger] more[c],
                    more[c + 1],
                    max_items,
                ) by {
                    if c < closed.len() - 1 {
                        assert(is_filled(closed[c], closed[c + 1], max_items));
                    }
                }
            } else {
                let grown = open.push((item, bytes));
                if closed.len() > 0 {
                    assert(grown[0] == open[0]);
                }
            }
        }
    }
}

/// Chunks are filled: a table's next chunk begins only where its request no
/// longer fits the one before.
pub proof fn law_chunks_are_filled<T>(
    items: Seq<(String, T, usize)>,
    table: Seq<char>,
    max_items: usize,
    c: int,
)
    requires
        max_items >= 1,
        0 <= c < table_chunks(items, table, max_items).len() - 1,
    ensures
        is_filled(
            table_chunks(items, table, max_items)[c],
            table_chunks(items, table, max_items)[c + 1],
            max_items,
        ),
{
    lemma_packed_filled(items, items.len() as int, table, max_items);
    let (closed, open) = packed(items, items.len() as int, table, max_items);
    if c < closed.len() - 1 {
        assert(is_filled(closed[c], closed[c + 1], max_items));
    }
}

/// Base64 takes four characters for every three bytes begun.
pub proof fn law_base64_takes_four_for_three(raw: int)
    requires
        0 <= raw,
        base64_len(raw) < usize::MAX,
    ensures
        base64_len(raw) % 4 == 0,
        3 * (base64_len(raw) / 4) >= raw,
        3 * (base64_len(raw) / 4) < raw + 3,
{
}

/// The longest delay doubles from retry to retry, from fifty milliseconds up to
/// twenty seconds, and no delay is longer or none at all.
pub proof fn law_backoff_doubles(attempt: u32)
    requires
        1 <= attempt <= 30,
    ensures
        backoff_cap(backoff_exponent(1)) == 50,
        ({
            let now = backoff_cap(backoff_exponent(attempt));
            let next = backoff_cap(backoff_exponent((attempt + 1) as u32));
            next == if 2 * now > 20_000 {
                20_000
            } else {
                2 * now
            }
        }),
        backoff_cap(backoff_exponent(0)) == 50,
{
    lemma2_to64();
    let e = backoff_exponent(attempt);
    lemma_pow2_unfold((e + 1) as nat);
    assert(backoff_exponent((attempt + 1) as u32) == e + 1);
    assert(pow2((e + 1) as nat) == 2 * pow2(e));
}

/// A chunk that ended is no longer in flight, and every other one is.
pub proof fn law_only_the_ended_chunk_leaves(
    entries: Seq<(usize, String)>,
    chunk_idx: usize,
    entry: (usize, String),
)
    ensures
        without_chunk(entries, chunk_idx).contains(entry) <==> entries.contains(entry) && entry.0
            != chunk_idx,
        without_chunk(entries, chunk_idx).len() <= entries.len(),
    decreases entries.len(),
{
    if entries.len() > 0 {
        let rest = entries.drop_last();
        let last = entries.last();
        let kept = without_chunk(rest, chunk_idx);
        law_only_the_ended_chunk_leaves(rest, chunk_idx, entry);
        assert(entries[entries.len() - 1] == last);
        if rest.contains(entry) {
            let k = choose|k: int| 0 <= k < rest.len() && rest[k] == entry;
            assert(entries[k] == entry);
        }
        if entries.contains(entry) {
            let k = choose|k: int| 0 <= k < entries.len() && entries[k] == entry;
            if k < rest.len() {
                assert(rest[k] == entry);
            }
        }
        let pushed = kept.push(last);
        assert(pushed[kept.len() as int] == last);
        if kept.contains(entry) {
            let k = choose|k: int| 0 <= k < kept.len() && kept[k] == entry;
            assert(pushed[k] == entry);
        }
        if pushed.contains(entry) {
            let k = choose|k: int| 0 <= k < pushed.len() && pushed[k] == entry;
            if k < kept.len() {
                assert(kept[k] == entry);
            }
        }
    }
}

/// Each occurrence of a name counts once, and no other name's does.
pub proof fn law_each_occurrence_counts(names: Seq<String>, more: String, name: Seq<char>)
    ensures
        ({
            let longer = names.push(more);
            occurrences(longer, longer.len() as int, name) == occurrences(
                names,
                names.len() as int,
                name,
            ) + if more@ == name {
                1nat
            } else {
                0
            }
        }),
        occurrences(Seq::<String>::empty(), 0, name) == 0,
{
    let longer = names.push(more);
    lemma_occurrences_front(names, longer, names.len() as int, name);
}

proof fn lemma_occurrences_front(a: Seq<String>, b: Seq<String>, n: int, name: Seq<char>)
    requires
        n <= a.len() <= b.len(),
        forall|i: int| 0 <= i < a.len() ==> a[i] == b[i],
    ensures
        occurrences(a, n, name) == occurrences(b, n, name),
    decreases n,
{
    if n > 0 {
        lemma_occurrences_front(a, b, n - 1, name);
    }
}

/// The chunks among the first `n` that are being sent to a table.
pub open spec fn sends_to(
    chunks: Seq<(String, ChunkState)>,
    n: int,
    table: Seq<char>,
) -> Set<int> {
    Set::new(
        |i: int| 0 <= i < n && chunks[i].1 == ChunkState::Sending && chunks[i].0@ == table,
    )
}

/// The chunks among the first `n` that are not done.
pub open spec fn unfinished_chunks(chunks: Seq<(String, ChunkState)>, n: int) -> Set<int> {
    Set::new(|i: int| 0 <= i < n && chunks[i].1 != ChunkState::Done)
}

/// The chunks among the first `n` that are being sent.
pub open spec fn sends(chunks: Seq<(String, ChunkState)>, n: int) -> Set<int> {
    Set::new(|i: int| 0 <= i < n && chunks[i].1 == ChunkState::Sending)
}

proof fn lemma_counts_are_sets(
    chunks: Seq<(String, ChunkState)>,
    n: int,
    table: Seq<char>,
)
    requires
        0 <= n <= chunks.len(),
    ensures
        sends_to(chunks, n, table).finite(),
        sends_to(chunks, n, table).len() == sending_to(chunks, n, table),
        unfinished_chunks(chunks, n).finite(),
        unfinished_chunks(chunks, n).len() == unfinished(chunks, n),
        sends(chunks, n).finite(),
        sends(chunks, n).len() == sending(chunks, n),
    decreases n,
{
    if n == 0 {
        assert(sends_to(chunks, n, table) =~= Set::empty());
        assert(unfinished_chunks(chunks, n) =~= Set::empty());
        assert(sends(chunks, n) =~= Set::empty());
    } else {
        lemma_counts_are_sets(chunks, n - 1, table);
        if chunks[n - 1].1 == ChunkState::Sending && chunks[n - 1].0@ == table {
            assert(sends_to(chunks, n, table) =~= sends_to(chunks, n - 1, table).insert(n - 1));
        } else {
            assert(sends_to(chunks, n, table) =~= sends_to(chunks, n - 1, table));
        }
        if chunks[n - 1].1 != ChunkState::Done {
            assert(unfinished_chunks(chunks, n) =~= unfinished_chunks(chunks, n - 1).insert(n - 1));
        } else {
            assert(unfinished_chunks(chunks, n) =~= unfinished_chunks(chunks, n - 1));
        }
        if chunks[n - 1].1 == ChunkState::Sending {
            assert(sends(chunks, n) =~= sends(chunks, n - 1).insert(n - 1));
        } else {
            assert(sends(chunks, n) =~= sends(chunks, n - 1));
        }
    }
}

/// While the limits hold, no more chunks are being sent at once than allowed,
/// neither to one table nor in all.
pub proof fn law_sends_are_limited(schedule: BatchSchedule, table: Seq<char>)
    requires
        schedule.wf(),
        schedule.within_limits(),
    ensures
        sends_to(schedule.chunks@, schedule.chunks@.len() as int, table).len()
            <= schedule.table_concurrency,
        sends(schedule.chunks@, schedule.chunks@.len() as int).len() <= schedule.concurrency,
{
    lemma_counts_are_sets(schedule.chunks@, schedule.chunks@.len() as int, table);
    crate::store::schedule::law_sends_within_concurrency(schedule);
}

/// A waiting chunk can be sent exactly if fewer chunks before it are unfinished
/// than may be sent at once, and fewer are being sent to its table than may.
pub proof fn law_free_slots_are_used(schedule: BatchSchedule, i: int)
    requires
        0 <= i < schedule.chunks@.len(),
        schedule.chunks@[i].1 == ChunkState::Waiting,
    ensures
        schedule.can_send(i) <==> {
            &&& unfinished_chunks(schedule.chunks@, i).len() < schedule.concurrency
            &&& sends_to(
                schedule.chunks@,
                schedule.chunks@.len() as int,
                schedule.chunks@[i].0@,
            ).len() < schedule.table_concurrency
        },
{
    lemma_counts_are_sets(schedule.chunks@, i, schedule.chunks@[i].0@);
    lemma_counts_are_sets(
        schedule.chunks@,
        schedule.chunks@.len() as int,
        schedule.chunks@[i].0@,
    );
}

/// A counter wraps at the width of its type.
pub proof fn law_progress_counters_wrap(counter: usize, n: usize)
    ensures
        counter + n <= usize::MAX ==> wrapped(counter, n) == counter + n,
        counter + n > usize::MAX ==> wrapped(counter, n) + usize::MAX + 1 == counter + n,
{
}

/// Multiplying by a number that has an inverse modulo `2^64` loses nothing.
proof fn lemma_product_injective(x: u64, y: u64, factor: u64, inverse: u64, times: int)
    requires
        factor * inverse == 1 + times * 0x1_0000_0000_0000_0000,
        x.wrapping_mul(factor) == y.wrapping_mul(factor),
    ensures
        x == y,
{
    let m = 0x1_0000_0000_0000_0000int;
    lemma_undone(x, factor, inverse, times);
    lemma_undone(y, factor, inverse, times);
}

proof fn lemma_undone(x: u64, factor: u64, inverse: u64, times: int)
    requires
        factor * inverse == 1 + times * 0x1_0000_0000_0000_0000,
    ensures
        (x.wrapping_mul(factor) * inverse) % 0x1_0000_0000_0000_0000 == x,
{
    let m = 0x1_0000_0000_0000_0000int;
    assert(x.wrapping_mul(factor) == (x * factor) % m);
    vstd::arithmetic::div_mod::lemma_mul_mod_noop_left(x * factor, inverse as int, m);
    assert(x * factor * inverse == x * (factor * inverse)) by (nonlinear_arith);
    assert(x * (1 + times * m) == m * (x * times) + x) by (nonlinear_arith);
    vstd::arithmetic::div_mod::lemma_mod_multiples_vanish(x * times, x as int, m);
    vstd::arithmetic::div_mod::lemma_small_mod(x as nat, m as nat);
}

proof fn lemma_shifts_injective(a: u64, b: u64)
    ensures
        a ^ (a >> 12u64) == b ^ (b >> 12u64) ==> a == b,
        a ^ (a << 25u64) == b ^ (b << 25u64) ==> a == b,
        a ^ (a >> 27u64) == b ^ (b >> 27u64) ==> a == b,
{
    assert(a ^ (a >> 12u64) == b ^ (b >> 12u64) ==> a == b) by (bit_vector);
    assert(a ^ (a << 25u64) == b ^ (b << 25u64) ==> a == b) by (bit_vector);
    assert(a ^ (a >> 27u64) == b ^ (b >> 27u64) ==> a == b) by (bit_vector);
}

proof fn lemma_xor_injective(x: u64, a: u64, b: u64)
    ensures
        x ^ a == x ^ b ==> a == b,
        a ^ x == b ^ x ==> a == b,
{
    assert(x ^ a == x ^ b ==> a == b) by (bit_vector);
    assert(a ^ x == b ^ x ==> a == b) by (bit_vector);
}

/// The mixing behind the first product: nothing is lost.
proof fn lemma_mixing_injective(a: u64, b: u64)
    requires
        ({
            let x = a ^ (a >> 12u64);
            let y = b ^ (b >> 12u64);
            let u = x ^ (x << 25u64);
            let v = y ^ (y << 25u64);
            (u ^ (u >> 27u64)).wrapping_mul(0x2545f4914f6cdd1d) == (v ^ (v >> 27u64)).wrapping_mul(
                0x2545f4914f6cdd1d,
            )
        }),
    ensures
        a == b,
{
    let x = a ^ (a >> 12u64);
    let y = b ^ (b >> 12u64);
    let u = x ^ (x << 25u64);
    let v = y ^ (y << 25u64);
    lemma_product_injective(
        u ^ (u >> 27u64),
        v ^ (v >> 27u64),
        0x2545f4914f6cdd1d,
        0x59071d96d81ecd35,
        934034299265436267,
    );
    lemma_shifts_injective(u, v);
    lemma_shifts_injective(x, y);
    lemma_shifts_injective(a, b);
}

/// Retries are spread out: of one table, different chunks get different jitter on
/// the same attempt, and a chunk gets different jitter on different attempts.
pub proof fn law_jitter_tells_chunks_and_attempts_apart(
    table: Seq<u8>,
    chunk: usize,
    other_chunk: usize,
    attempt: u32,
    other_attempt: u32,
)
    ensures
        jitter_hash(chunk, table, attempt) == jitter_hash(other_chunk, table, attempt) ==> chunk
            == other_chunk,
        jitter_hash(chunk, table, attempt) == jitter_hash(chunk, table, other_attempt) ==> attempt
            == other_attempt,
{
    let hash = fnv1a(table, table.len() as int);
    let own = (hash ^ (chunk as u64)).wrapping_mul(0x9e3779b97f4a7c15);
    let other = (hash ^ (other_chunk as u64)).wrapping_mul(0x9e3779b97f4a7c15);
    if jitter_hash(chunk, table, attempt) == jitter_hash(other_chunk, table, attempt) {
        lemma_mixing_injective(own ^ (attempt as u64), other ^ (attempt as u64));
        lemma_xor_injective(attempt as u64, own, other);
        lemma_product_injective(
            hash ^ (chunk as u64),
            hash ^ (other_chunk as u64),
            0x9e3779b97f4a7c15,
            0xf1de83e19937733d,
            10771413168148108919,
        );
        lemma_xor_injective(hash, chunk as u64, other_chunk as u64);
    }
    if jitter_hash(chunk, table, attempt) == jitter_hash(chunk, table, other_attempt) {
        lemma_mixing_injective(own ^ (attempt as u64), own ^ (other_attempt as u64));
        lemma_xor_injective(own, attempt as u64, other_attempt as u64);
    }
}

/// A table's hash takes in every byte of its name: names that differ in their
/// last byte alone hash differently.
pub proof fn law_table_hash_takes_in_the_name(name: Seq<u8>, a: u8, b: u8)
    ensures
        fnv1a(name.push(a), name.len() as int + 1) == fnv1a(name.push(b), name.len() as int + 1)
            ==> a == b,
        fnv1a(Seq::<u8>::empty(), 0) == 0xcbf29ce484222325,
{
    let x = name.push(a);
    let y = name.push(b);
    lemma_hash_of_front(x, y, name.len() as int);
    let hash = fnv1a(x, name.len() as int);
    if fnv1a(x, name.len() as int + 1) == fnv1a(y, name.len() as int + 1) {
        lemma_product_injective(
            hash ^ (a as u64),
            hash ^ (b as u64),
            0x100000001b3,
            0xce965057aff6957b,
            887285111055,
        );
        lemma_xor_injective(hash, a as u64, b as u64);
    }
}

proof fn lemma_hash_of_front(x: Seq<u8>, y: Seq<u8>, n: int)
    requires
        n <= x.len(),
        n <= y.len(),
        forall|i: int| 0 <= i < n ==> x[i] == y[i],
    ensures
        fnv1a(x, n) == fnv1a(y, n),
    decreases n,
{
    if n > 0 {
        lemma_hash_of_front(x, y, n - 1);
    }
}

/// A delay is the jitter over the longest delay and one, but never none at all.
pub proof fn law_delay_is_the_jitter(chunk: usize, table: Seq<u8>, attempt: u32)
    ensures
        ({
            let delay = spec_backoff(chunk, table, attempt);
            let longest = backoff_cap(backoff_exponent(attempt));
            let jitter = jitter_hash(chunk, table, attempt) as int;
            &&& 1 <= delay <= longest <= 20_000
            &&& delay == jitter % (longest + 1) || (delay == 1 && jitter % (longest + 1) == 0)
        }),
{
    law_backoff_bounded(chunk, table, attempt);
}

/// A ranking's text is that of its parts, with a comma between them; one entry
/// is its name and its count.
pub proof fn law_ranking_text_lists_its_entries(
    a: Seq<(Seq<char>, nat)>,
    b: Seq<(Seq<char>, nat)>,
)
    requires
        a.len() > 0,
        b.len() > 0,
    ensures
        ranking_text(a + b, (a + b).len() as int) == ranking_text(a, a.len() as int) + ","@
            + ranking_text(b, b.len() as int),
        a.len() == 1 ==> ranking_text(a, 1) == a[0].0 + ":"@ + decimal(a[0].1),
    decreases b.len(),
{
    let whole = a + b;
    let n = whole.len() as int;
    lemma_ranking_text_prefix(whole, a, a.len() as int);
    if b.len() == 1 {
        assert(ranking_text(b, 0) =~= Seq::<char>::empty());
        assert(whole[n - 1] == b[0]);
        assert(ranking_text(whole, n) =~= ranking_text(a, a.len() as int) + ","@ + ranking_text(
            b,
            1,
        ));
    } else {
        let c = b.drop_last();
        law_ranking_text_lists_its_entries(a, c);
        assert(a + c =~= whole.drop_last());
        lemma_ranking_text_prefix(whole, a + c, n - 1);
        lemma_ranking_text_prefix(b, c, b.len() - 1);
        assert(whole[n - 1] == b[b.len() - 1]);
        assert(ranking_text(whole, n) =~= ranking_text(a, a.len() as int) + ","@ + ranking_text(
            b,
            b.len() as int,
        ));
    }
    if a.len() == 1 {
        assert(ranking_text(a, 0) =~= Seq::<char>::empty());
        assert(ranking_text(a, 1) =~= a[0].0 + ":"@ + decimal(a[0].1));
    }
}

/// The text of a ranking's first entries depends on no others.
proof fn lemma_ranking_text_prefix(
    whole: Seq<(Seq<char>, nat)>,
    part: Seq<(Seq<char>, nat)>,
    n: int,
)
    requires
        n <= part.len() <= whole.len(),
        forall|i: int| 0 <= i < part.len() ==> #[trigger] whole[i] == part[i],
    ensures
        ranking_text(whole, n) == ranking_text(part, n),
    decreases n,
{
    if n > 0 {
        lemma_ranking_text_prefix(whole, part, n - 1);
        assert(whole[n - 1] == part[n - 1]);
    }
}

/// A ranking lists every name that occurs, once and with how often it does; the
/// counts never rise, and equal ones go by name.
pub proof fn law_ranking_is_by_frequency(
    ranking: Seq<(Seq<char>, nat)>,
    names: Seq<String>,
    i: int,
    j: int,
    k: int,
)
    requires
        is_ranking(ranking, names),
        0 <= i < j < ranking.len(),
        0 <= k < names.len(),
    ensures
        ranking[i].1 >= ranking[j].1,
        ranking[i].1 == ranking[j].1 ==> name_lt(ranking[i].0, ranking[j].0),
        ranking[i].0 != ranking[j].0,
        ranking[i].1 == occurrences(names, names.len() as int, ranking[i].0),
        exists|r: int| 0 <= r < ranking.len() && (#[trigger] ranking[r]).0 == names[k]@,
{
    assert(ranks_before(ranking[i], ranking[j]));
    if ranking[i].0 == ranking[j].0 {
        lemma_name_irreflexive(ranking[i].0);
    }
    lemma_occurs(names, names.len() as int, k);
    assert(is_ranked(ranking, names[k]@));
}

/// A name that is there occurs.
proof fn lemma_occurs(names: Seq<String>, n: int, k: int)
    requires
        0 <= k < n <= names.len(),
    ensures
        occurrences(names, n, names[k]@) > 0,
    decreases n,
{
    if k < n - 1 {
        lemma_occurs(names, n - 1, k);
    }
}

} // verus!
