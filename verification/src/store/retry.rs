//! Retrying of `BatchWriteItem` chunks: progress counters, jittered backoff and
//! the per-chunk decision after each send.

use vstd::arithmetic::power2::{lemma2_to64, lemma_pow2_unfold, pow2};
use vstd::prelude::*;
use vstd::string::StringExecFns;

use crate::errors::QueryError;
use crate::text::{
    decimal, lemma_name_total, lemma_name_transitive, name_lt, put_decimal, str_eq, str_lt,
};

verus! {

/// 8 retries at 50ms exponential backoff = 12.75s worst-case cumulative delay.
pub const BATCH_WRITE_CHUNK_MAX_RETRIES: u32 = 8;

pub const BATCH_WRITE_CHUNK_BASE_BACKOFF_MS: u64 = 50;

pub const BATCH_WRITE_CHUNK_MAX_BACKOFF_MS: u64 = 20_000;

/// How often `name` occurs among the first `n` names.
pub open spec fn occurrences(names: Seq<String>, n: int, name: Seq<char>) -> nat
    decreases n,
{
    if n <= 0 {
        0
    } else {
        occurrences(names, n - 1, name) + if names[n - 1]@ == name {
            1nat
        } else {
            0nat
        }
    }
}

/// More frequent names rank first; ties go by name.
pub open spec fn ranks_before(a: (Seq<char>, nat), b: (Seq<char>, nat)) -> bool {
    a.1 > b.1 || (a.1 == b.1 && name_lt(a.0, b.0))
}

pub open spec fn is_ranked(ranking: Seq<(Seq<char>, nat)>, name: Seq<char>) -> bool {
    exists|i: int| 0 <= i < ranking.len() && (#[trigger] ranking[i]).0 == name
}

/// Each name that occurs, with how often it does, most frequent first.
pub open spec fn is_ranking(ranking: Seq<(Seq<char>, nat)>, names: Seq<String>) -> bool {
    &&& forall|i: int, j: int|
        0 <= i < j < ranking.len() ==> ranks_before(#[trigger] ranking[i], #[trigger] ranking[j])
    &&& forall|i: int|
        0 <= i < ranking.len() ==> (#[trigger] ranking[i]).1 == occurrences(
            names,
            names.len() as int,
            ranking[i].0,
        )
    &&& forall|name: Seq<char>| #[trigger]
        is_ranked(ranking, name) <==> occurrences(names, names.len() as int, name) > 0
}

/// `name:count` pairs joined by commas.
pub open spec fn ranking_text(ranking: Seq<(Seq<char>, nat)>, n: int) -> Seq<char>
    decreases n,
{
    if n <= 0 {
        Seq::empty()
    } else {
        let before = ranking_text(ranking, n - 1);
        let entry = ranking[n - 1].0 + ":"@ + decimal(ranking[n - 1].1);
        if n == 1 {
            before + entry
        } else {
            before + ","@ + entry
        }
    }
}

spec fn pairs(counts: Seq<(String, usize)>) -> Seq<(Seq<char>, nat)> {
    Seq::new(counts.len(), |i: int| (counts[i].0@, counts[i].1 as nat))
}

spec fn counted(counts: Seq<(String, usize)>, name: Seq<char>) -> bool {
    exists|i: int| 0 <= i < counts.len() && (#[trigger] counts[i]).0@ == name
}

/// Distinct names, each with its number of occurrences among the first `n`.
spec fn tallies(counts: Seq<(String, usize)>, names: Seq<String>, n: int) -> bool {
    &&& forall|i: int, j: int|
        0 <= i < j < counts.len() ==> (#[trigger] counts[i]).0@ != (#[trigger] counts[j]).0@
    &&& forall|i: int|
        0 <= i < counts.len() ==> (#[trigger] counts[i]).1 == occurrences(names, n, counts[i].0@)
    &&& forall|name: Seq<char>| #[trigger]
        counted(counts, name) <==> occurrences(names, n, name) > 0
}

proof fn lemma_occurrences_bound(names: Seq<String>, n: int, name: Seq<char>)
    requires
        0 <= n,
    ensures
        occurrences(names, n, name) <= n,
    decreases n,
{
    if n > 0 {
        lemma_occurrences_bound(names, n - 1, name);
    }
}

fn tally(names: &[String]) -> (counts: Vec<(String, usize)>)
    ensures
        tallies(counts@, names@, names@.len() as int),
{
    let mut counts: Vec<(String, usize)> = Vec::new();
    let mut n: usize = 0;
    while n < names.len()
        invariant
            n <= names@.len(),
            tallies(counts@, names@, n as int),
        decreases names@.len() - n,
    {
        let name = &names[n];
        let mut at: usize = 0;
        while at < counts.len() && !str_eq(counts[at].0.as_str(), name.as_str())
            invariant
                at <= counts@.len(),
                forall|i: int| 0 <= i < at ==> (#[trigger] counts@[i]).0@ != name@,
            decreases counts@.len() - at,
        {
            at = at + 1;
        }
        let ghost before = counts@;
        if at < counts.len() {
            proof {
                lemma_occurrences_bound(names@, n as int, name@);
            }
            let count: usize = counts[at].1;
            let owned = counts[at].0.clone();
            counts.set(at, (owned, count + 1));
        } else {
            assert(!counted(before, name@));
            counts.push((name.clone(), 1));
        }
        proof {
            let now = counts@;
            assert forall|i: int| 0 <= i < now.len() implies (#[trigger] now[i]).1 == occurrences(
                names@,
                n + 1,
                now[i].0@,
            ) by {
                if i != at {
                    assert(now[i] == before[i]);
                    if i < at {
                        assert(before[i].0@ != name@);
                    } else {
                        assert(before[at as int].0@ != before[i].0@);
                    }
                }
            }
            assert forall|other: Seq<char>| #[trigger] counted(now, other) <==> occurrences(
                names@,
                n + 1,
                other,
            ) > 0 by {
                if counted(now, other) {
                    let i = choose|i: int| 0 <= i < now.len() && (#[trigger] now[i]).0@ == other;
                    assert(now[i].1 == occurrences(names@, n + 1, other));
                    if i != at {
                        assert(before[i].0@ == other);
                        assert(counted(before, other));
                    }
                }
                if occurrences(names@, n + 1, other) > 0 {
                    if other == name@ {
                        assert(now[at as int].0@ == other);
                    } else {
                        assert(counted(before, other));
                        let i = choose|i: int|
                            0 <= i < before.len() && (#[trigger] before[i]).0@ == other;
                        assert(now[i].0@ == other);
                    }
                }
            }
        }
        n = n + 1;
    }
    counts
}

/// The entries of `sorted` and `rest` together are the tallies.
spec fn split_tallies(
    sorted: Seq<(String, usize)>,
    rest: Seq<(String, usize)>,
    names: Seq<String>,
) -> bool {
    tallies(sorted + rest, names, names.len() as int)
}

fn rank(counts: Vec<(String, usize)>, Ghost(names): Ghost<Seq<String>>) -> (sorted: Vec<
    (String, usize),
>)
    requires
        tallies(counts@, names, names.len() as int),
    ensures
        is_ranking(pairs(sorted@), names),
{
    let mut rest = counts;
    let mut sorted: Vec<(String, usize)> = Vec::new();
    assert(sorted@ + rest@ =~= rest@);
    while rest.len() > 0
        invariant
            split_tallies(sorted@, rest@, names),
            forall|i: int, j: int|
                0 <= i < j < sorted@.len() ==> ranks_before(
                    #[trigger] pairs(sorted@)[i],
                    #[trigger] pairs(sorted@)[j],
                ),
        decreases rest@.len(),
    {
        let ghost old_sorted = sorted@;
        let ghost old_rest = rest@;
        let entry = match rest.pop() {
            Some(entry) => entry,
            None => return sorted,
        };
        let ghost own = (entry.0@, entry.1 as nat);
        let mut at: usize = 0;
        while at < sorted.len() && (sorted[at].1 > entry.1 || (sorted[at].1 == entry.1 && str_lt(
            sorted[at].0.as_str(),
            entry.0.as_str(),
        )))
            invariant
                at <= sorted@.len(),
                own == (entry.0@, entry.1 as nat),
                forall|i: int|
                    0 <= i < at ==> ranks_before(#[trigger] pairs(sorted@)[i], own),
            decreases sorted@.len() - at,
        {
            assert(ranks_before(pairs(sorted@)[at as int], own));
            at = at + 1;
        }
        let ghost entry_value = entry;
        sorted.insert(at, entry);
        proof {
            lemma_rank_insert(old_sorted, old_rest, entry_value, at as int, names);
            assert(sorted@ =~= old_sorted.insert(at as int, entry_value));
            assert(rest@ =~= old_rest.drop_last());
        }
    }
    proof {
        assert(sorted@ + rest@ =~= sorted@);
        let ranking = pairs(sorted@);
        assert forall|name: Seq<char>| #[trigger] is_ranked(ranking, name) <==> occurrences(
            names,
            names.len() as int,
            name,
        ) > 0 by {
            if is_ranked(ranking, name) {
                let i = choose|i: int| 0 <= i < ranking.len() && (#[trigger] ranking[i]).0 == name;
                assert(sorted@[i].0@ == name);
            }
            if counted(sorted@, name) {
                let i = choose|i: int| 0 <= i < sorted@.len() && (#[trigger] sorted@[i]).0@ == name;
                assert(ranking[i].0 == name);
            }
            assert(counted(sorted@, name) == is_ranked(ranking, name));
        }
        assert forall|i: int| 0 <= i < ranking.len() implies (#[trigger] ranking[i]).1
            == occurrences(names, names.len() as int, ranking[i].0) by {
            assert(sorted@[i].1 == occurrences(names, names.len() as int, sorted@[i].0@));
        }
    }
    sorted
}

proof fn lemma_rank_insert(
    sorted: Seq<(String, usize)>,
    rest: Seq<(String, usize)>,
    entry: (String, usize),
    at: int,
    names: Seq<String>,
)
    requires
        rest.len() > 0,
        entry == rest.last(),
        0 <= at <= sorted.len(),
        split_tallies(sorted, rest, names),
        forall|i: int, j: int|
            0 <= i < j < sorted.len() ==> ranks_before(
                #[trigger] pairs(sorted)[i],
                #[trigger] pairs(sorted)[j],
            ),
        forall|i: int|
            0 <= i < at ==> ranks_before(
                #[trigger] pairs(sorted)[i],
                (entry.0@, entry.1 as nat),
            ),
        at < sorted.len() ==> !ranks_before(pairs(sorted)[at], (entry.0@, entry.1 as nat)),
    ensures
        split_tallies(sorted.insert(at, entry), rest.drop_last(), names),
        forall|i: int, j: int|
            0 <= i < j < sorted.len() + 1 ==> ranks_before(
                #[trigger] pairs(sorted.insert(at, entry))[i],
                #[trigger] pairs(sorted.insert(at, entry))[j],
            ),
{
    let own = (entry.0@, entry.1 as nat);
    let old_all = sorted + rest;
    let now = sorted.insert(at, entry);
    let all = now + rest.drop_last();
    // Every new position corresponds to an old one, and the other way round.
    let back = |i: int|
        if i < at {
            i
        } else if i == at {
            old_all.len() - 1
        } else {
            i - 1
        };
    assert forall|i: int| 0 <= i < all.len() implies #[trigger] all[i] == old_all[back(i)] by {}
    assert forall|i: int, j: int| 0 <= i < j < all.len() implies (#[trigger] all[i]).0@ != (
    #[trigger] all[j]).0@ by {
        let a = back(i);
        let b = back(j);
        assert(all[i] == old_all[a]);
        assert(all[j] == old_all[b]);
        assert(a < b ==> old_all[a].0@ != old_all[b].0@);
        assert(b < a ==> old_all[b].0@ != old_all[a].0@);
    }
    assert forall|i: int| 0 <= i < all.len() implies (#[trigger] all[i]).1 == occurrences(
        names,
        names.len() as int,
        all[i].0@,
    ) by {
        assert(all[i] == old_all[back(i)]);
    }
    assert forall|name: Seq<char>| #[trigger] counted(all, name) <==> occurrences(
        names,
        names.len() as int,
        name,
    ) > 0 by {
        if counted(all, name) {
            let i = choose|i: int| 0 <= i < all.len() && (#[trigger] all[i]).0@ == name;
            assert(old_all[back(i)].0@ == name);
            assert(counted(old_all, name));
        }
        if occurrences(names, names.len() as int, name) > 0 {
            assert(counted(old_all, name));
            let i = choose|i: int| 0 <= i < old_all.len() && (#[trigger] old_all[i]).0@ == name;
            let m = if i < at {
                i
            } else if i == old_all.len() - 1 {
                at
            } else {
                i + 1
            };
            assert(all[m] == old_all[back(m)]);
        }
    }
    let ranked = pairs(now);
    let old_ranked = pairs(sorted);
    if at < sorted.len() {
        assert(old_all[at] == sorted[at]);
        assert(old_all[old_all.len() - 1] == entry);
        assert(sorted[at].0@ != entry.0@);
        lemma_name_total(sorted[at].0@, entry.0@);
        assert(ranks_before(own, old_ranked[at]));
    }
    assert forall|i: int, j: int| 0 <= i < j < now.len() implies ranks_before(
        #[trigger] ranked[i],
        #[trigger] ranked[j],
    ) by {
        let a = if i < at {
            i
        } else {
            i - 1
        };
        let b = if j < at {
            j
        } else {
            j - 1
        };
        if i != at {
            assert(ranked[i] == old_ranked[a]);
        }
        if j != at {
            assert(ranked[j] == old_ranked[b]);
        }
        if i == at && b > at {
            assert(ranks_before(old_ranked[at], old_ranked[b]));
            lemma_ranks_transitive(own, old_ranked[at], old_ranked[b]);
        }
    }
}

proof fn lemma_ranks_transitive(
    a: (Seq<char>, nat),
    b: (Seq<char>, nat),
    c: (Seq<char>, nat),
)
    requires
        ranks_before(a, b),
        ranks_before(b, c),
    ensures
        ranks_before(a, c),
{
    if a.1 == b.1 && b.1 == c.1 {
        lemma_name_transitive(a.0, b.0, c.0);
    }
}

/// Counts duplicates in `names` and formats the top `limit` as
/// `name:count,...`, most frequent first (ties by name). Log-friendly summary
/// of e.g. the per-table chunk distribution and the in-flight chunk tables.
pub fn summarize_names(names: &[String], limit: usize) -> (text: String)
    ensures
        exists|ranking: Seq<(Seq<char>, nat)>| #[trigger]
            is_ranking(ranking, names@) && text@ == ranking_text(
                ranking,
                if limit < ranking.len() {
                    limit as int
                } else {
                    ranking.len() as int
                },
            ),
{
    let counts = tally(names);
    let ranked = rank(counts, Ghost(names@));
    let shown: usize = if limit < ranked.len() {
        limit
    } else {
        ranked.len()
    };
    let ghost ranking = pairs(ranked@);
    let mut text = String::new();
    let mut i: usize = 0;
    while i < shown
        invariant
            i <= shown <= ranked@.len(),
            ranking == pairs(ranked@),
            text@ == ranking_text(ranking, i as int),
        decreases shown - i,
    {
        let ghost before = text@;
        if i > 0 {
            text.append(",");
        }
        text.append(ranked[i].0.as_str());
        text.append(":");
        put_decimal(&mut text, ranked[i].1 as u64);
        proof {
            let entry = ranking[i as int].0 + ":"@ + decimal(ranking[i as int].1);
            if i == 0 {
                assert(text@ =~= before + entry);
            } else {
                assert(text@ =~= before + ","@ + entry);
            }
        }
        i = i + 1;
    }
    text
}

/// Counters of one run of batch-write chunks.
pub struct BatchWriteProgress {
    pub chunks_started: usize,
    pub chunks_completed: usize,
    pub chunks_failed: usize,
    pub total_retries: usize,
    pub total_unprocessed_items: usize,
    /// Chunk index and table of each chunk being sent.
    pub in_flight_chunks: Vec<(usize, String)>,
}

/// The counters as reported, with the tables in flight summarised.
pub struct BatchWriteProgressSnapshot {
    pub chunks_started: usize,
    pub chunks_completed: usize,
    pub chunks_failed: usize,
    pub total_retries: usize,
    pub total_unprocessed_items: usize,
    pub in_flight_chunk_count: usize,
    /// Top tables by in-flight chunk count, formatted `name:count,...`.
    pub in_flight_table_summary: String,
}

/// The entries of other chunks.
pub open spec fn without_chunk(entries: Seq<(usize, String)>, chunk_idx: usize) -> Seq<
    (usize, String),
>
    decreases entries.len(),
{
    if entries.len() == 0 {
        Seq::empty()
    } else if entries.last().0 == chunk_idx {
        without_chunk(entries.drop_last(), chunk_idx)
    } else {
        without_chunk(entries.drop_last(), chunk_idx).push(entries.last())
    }
}

/// A counter plus `n`, wrapping around.
pub open spec fn wrapped(counter: usize, n: usize) -> int {
    if counter + n > usize::MAX {
        counter + n - usize::MAX - 1
    } else {
        counter + n
    }
}

impl BatchWriteProgress {
    pub fn new() -> (progress: BatchWriteProgress)
        ensures
            progress.chunks_started == 0,
            progress.chunks_completed == 0,
            progress.chunks_failed == 0,
            progress.total_retries == 0,
            progress.total_unprocessed_items == 0,
            progress.in_flight_chunks@.len() == 0,
    {
        BatchWriteProgress {
            chunks_started: 0,
            chunks_completed: 0,
            chunks_failed: 0,
            total_retries: 0,
            total_unprocessed_items: 0,
            in_flight_chunks: Vec::new(),
        }
    }

    fn forget(&mut self, chunk_idx: usize)
        ensures
            final(self).in_flight_chunks@ == without_chunk(old(self).in_flight_chunks@, chunk_idx),
            final(self).chunks_started == old(self).chunks_started,
            final(self).chunks_completed == old(self).chunks_completed,
            final(self).chunks_failed == old(self).chunks_failed,
            final(self).total_retries == old(self).total_retries,
            final(self).total_unprocessed_items == old(self).total_unprocessed_items,
    {
        let mut kept: Vec<(usize, String)> = Vec::new();
        let mut i: usize = 0;
        let ghost all = self.in_flight_chunks@;
        assert(kept@ =~= without_chunk(all.take(0), chunk_idx));
        while i < self.in_flight_chunks.len()
            invariant
                all == self.in_flight_chunks@,
                i <= all.len(),
                kept@ == without_chunk(all.take(i as int), chunk_idx),
            decreases all.len() - i,
        {
            assert(all.take(i + 1).drop_last() =~= all.take(i as int));
            if self.in_flight_chunks[i].0 != chunk_idx {
                let idx: usize = self.in_flight_chunks[i].0;
                let table = self.in_flight_chunks[i].1.clone();
                kept.push((idx, table));
            }
            i = i + 1;
        }
        assert(all.take(i as int) =~= all);
        self.in_flight_chunks = kept;
    }

    /// A chunk's send starts: a first attempt or a retry.
    pub fn mark_started(&mut self, chunk_idx: usize, table: &str, attempt: u32)
        ensures
            final(self).chunks_started == if attempt == 0 {
                wrapped(old(self).chunks_started, 1)
            } else {
                old(self).chunks_started as int
            },
            final(self).total_retries == if attempt == 0 {
                old(self).total_retries as int
            } else {
                wrapped(old(self).total_retries, 1)
            },
            final(self).chunks_completed == old(self).chunks_completed,
            final(self).chunks_failed == old(self).chunks_failed,
            final(self).total_unprocessed_items == old(self).total_unprocessed_items,
            final(self).in_flight_chunks@.len() > 0,
            final(self).in_flight_chunks@.last().0 == chunk_idx,
            final(self).in_flight_chunks@.last().1@ == table@,
            final(self).in_flight_chunks@.drop_last() == without_chunk(
                old(self).in_flight_chunks@,
                chunk_idx,
            ),
    {
        if attempt == 0 {
            self.chunks_started = self.chunks_started.wrapping_add(1);
        } else {
            self.total_retries = self.total_retries.wrapping_add(1);
        }
        self.forget(chunk_idx);
        let ghost kept = self.in_flight_chunks@;
        self.in_flight_chunks.push((chunk_idx, table.to_owned()));
        assert(self.in_flight_chunks@.drop_last() =~= kept);
    }

    pub fn mark_completed(&mut self, chunk_idx: usize)
        ensures
            final(self).chunks_completed == wrapped(old(self).chunks_completed, 1),
            final(self).in_flight_chunks@ == without_chunk(old(self).in_flight_chunks@, chunk_idx),
            final(self).chunks_started == old(self).chunks_started,
            final(self).chunks_failed == old(self).chunks_failed,
            final(self).total_retries == old(self).total_retries,
            final(self).total_unprocessed_items == old(self).total_unprocessed_items,
    {
        self.chunks_completed = self.chunks_completed.wrapping_add(1);
        self.forget(chunk_idx);
    }

    pub fn mark_attempt_finished(&mut self, chunk_idx: usize)
        ensures
            final(self).in_flight_chunks@ == without_chunk(old(self).in_flight_chunks@, chunk_idx),
            final(self).chunks_started == old(self).chunks_started,
            final(self).chunks_completed == old(self).chunks_completed,
            final(self).chunks_failed == old(self).chunks_failed,
            final(self).total_retries == old(self).total_retries,
            final(self).total_unprocessed_items == old(self).total_unprocessed_items,
    {
        self.forget(chunk_idx);
    }

    pub fn mark_failed(&mut self, chunk_idx: usize)
        ensures
            final(self).chunks_failed == wrapped(old(self).chunks_failed, 1),
            final(self).in_flight_chunks@ == without_chunk(old(self).in_flight_chunks@, chunk_idx),
            final(self).chunks_started == old(self).chunks_started,
            final(self).chunks_completed == old(self).chunks_completed,
            final(self).total_retries == old(self).total_retries,
            final(self).total_unprocessed_items == old(self).total_unprocessed_items,
    {
        self.chunks_failed = self.chunks_failed.wrapping_add(1);
        self.forget(chunk_idx);
    }

    pub fn mark_unprocessed(&mut self, count: usize)
        ensures
            final(self).total_unprocessed_items == wrapped(
                old(self).total_unprocessed_items,
                count,
            ),
            final(self).in_flight_chunks == old(self).in_flight_chunks,
            final(self).chunks_started == old(self).chunks_started,
            final(self).chunks_completed == old(self).chunks_completed,
            final(self).chunks_failed == old(self).chunks_failed,
            final(self).total_retries == old(self).total_retries,
    {
        self.total_unprocessed_items = self.total_unprocessed_items.wrapping_add(count);
    }

    /// Calculates exponential backoff with deterministic jitter for retry delays,
    /// in milliseconds.
    pub fn retry_backoff(chunk_idx: usize, table: &str, attempt: u32) -> (delay_ms: u64)
        ensures
            delay_ms as int == spec_backoff(chunk_idx, vstd::utf8::encode_utf8(table@), attempt),
    {
        let exponent: u32 = if attempt == 0 {
            0
        } else if attempt - 1 > 30 {
            30
        } else {
            attempt - 1
        };
        let cap_ms: u64 = backoff_cap_ms(exponent);
        // Deterministic hash-based jitter using chunk index and table name
        let bytes = table.as_bytes();
        let mut hash: u64 = 0xcbf29ce484222325;
        let mut i: usize = 0;
        while i < bytes.len()
            invariant
                i <= bytes@.len(),
                hash == fnv1a(bytes@, i as int),
            decreases bytes@.len() - i,
        {
            hash = (hash ^ (bytes[i] as u64)).wrapping_mul(0x100000001b3);
            i = i + 1;
        }
        hash = (hash ^ (chunk_idx as u64)).wrapping_mul(0x9e3779b97f4a7c15);
        hash = hash ^ (attempt as u64);
        hash = hash ^ (hash >> 12u64);
        hash = hash ^ (hash << 25u64);
        hash = hash ^ (hash >> 27u64);
        hash = hash.wrapping_mul(0x2545f4914f6cdd1d);
        let jitter_ms: u64 = hash % (cap_ms + 1);
        if jitter_ms == 0 {
            1
        } else {
            jitter_ms
        }
    }

    /// The counters with the tables in flight summarised.
    pub fn snapshot(&self) -> (snapshot: BatchWriteProgressSnapshot)
        ensures
            snapshot.chunks_started == self.chunks_started,
            snapshot.chunks_completed == self.chunks_completed,
            snapshot.chunks_failed == self.chunks_failed,
            snapshot.total_retries == self.total_retries,
            snapshot.total_unprocessed_items == self.total_unprocessed_items,
            snapshot.in_flight_chunk_count == self.in_flight_chunks@.len(),
            exists|names: Seq<String>, ranking: Seq<(Seq<char>, nat)>|
                names.len() == self.in_flight_chunks@.len() && (forall|i: int|
                    0 <= i < names.len() ==> #[trigger] names[i] == self.in_flight_chunks@[i].1)
                    && #[trigger] is_ranking(ranking, names)
                    && snapshot.in_flight_table_summary@ == ranking_text(
                    ranking,
                    if 8 < ranking.len() {
                        8
                    } else {
                        ranking.len() as int
                    },
                ),
    {
        let mut names: Vec<String> = Vec::new();
        let mut i: usize = 0;
        while i < self.in_flight_chunks.len()
            invariant
                i <= self.in_flight_chunks@.len(),
                names@.len() == i,
                forall|j: int|
                    0 <= j < i ==> #[trigger] names@[j] == self.in_flight_chunks@[j].1,
            decreases self.in_flight_chunks@.len() - i,
        {
            names.push(self.in_flight_chunks[i].1.clone());
            i = i + 1;
        }
        BatchWriteProgressSnapshot {
            chunks_started: self.chunks_started,
            chunks_completed: self.chunks_completed,
            chunks_failed: self.chunks_failed,
            total_retries: self.total_retries,
            total_unprocessed_items: self.total_unprocessed_items,
            in_flight_chunk_count: self.in_flight_chunks.len(),
            in_flight_table_summary: summarize_names(&names, 8),
        }
    }
}

/// The longest delay before retry number `attempt`: the base delay doubled per
/// earlier retry, up to the maximum.
pub open spec fn backoff_cap(exponent: nat) -> int {
    let raw = BATCH_WRITE_CHUNK_BASE_BACKOFF_MS * pow2(exponent);
    if raw > BATCH_WRITE_CHUNK_MAX_BACKOFF_MS {
        BATCH_WRITE_CHUNK_MAX_BACKOFF_MS as int
    } else {
        raw
    }
}

/// How often the base delay is doubled before retry number `attempt`.
pub open spec fn backoff_exponent(attempt: u32) -> nat {
    if attempt == 0 {
        0
    } else if attempt - 1 > 30 {
        30
    } else {
        (attempt - 1) as nat
    }
}

/// FNV-1a over the first `n` bytes.
pub open spec fn fnv1a(bytes: Seq<u8>, n: int) -> u64
    decreases n,
{
    if n <= 0 {
        0xcbf29ce484222325
    } else {
        (fnv1a(bytes, n - 1) ^ (bytes[n - 1] as u64)).wrapping_mul(0x100000001b3)
    }
}

/// The table's FNV-1a hash mixed with the chunk index and the attempt.
pub open spec fn jitter_hash(chunk_idx: usize, table: Seq<u8>, attempt: u32) -> u64 {
    let a = (fnv1a(table, table.len() as int) ^ (chunk_idx as u64)).wrapping_mul(
        0x9e3779b97f4a7c15,
    ) ^ (attempt as u64);
    let b = a ^ (a >> 12u64);
    let c = b ^ (b << 25u64);
    let d = c ^ (c >> 27u64);
    d.wrapping_mul(0x2545f4914f6cdd1d)
}

/// A delay spread over `0..=cap` by the hash, and at least one millisecond.
pub open spec fn spec_backoff(chunk_idx: usize, table: Seq<u8>, attempt: u32) -> int {
    let jitter = jitter_hash(chunk_idx, table, attempt) as int % (backoff_cap(
        backoff_exponent(attempt),
    ) + 1);
    if jitter == 0 {
        1
    } else {
        jitter
    }
}

fn backoff_cap_ms(exponent: u32) -> (cap_ms: u64)
    ensures
        cap_ms as int == backoff_cap(exponent as nat),
        50 <= cap_ms <= 20_000,
{
    let mut cap_ms: u64 = BATCH_WRITE_CHUNK_BASE_BACKOFF_MS;
    let mut e: u32 = 0;
    proof {
        lemma2_to64();
    }
    while e < exponent
        invariant
            e <= exponent,
            cap_ms as int == backoff_cap(e as nat),
            50 <= cap_ms <= 20_000,
        decreases exponent - e,
    {
        proof {
            lemma_pow2_unfold((e + 1) as nat);
        }
        cap_ms = if cap_ms * 2 > BATCH_WRITE_CHUNK_MAX_BACKOFF_MS {
            BATCH_WRITE_CHUNK_MAX_BACKOFF_MS
        } else {
            cap_ms * 2
        };
        e = e + 1;
    }
    cap_ms
}

/// A retry waits at least a millisecond and never longer than the maximum.
pub proof fn law_backoff_bounded(chunk_idx: usize, table: Seq<u8>, attempt: u32)
    ensures
        1 <= spec_backoff(chunk_idx, table, attempt) <= backoff_cap(backoff_exponent(attempt)),
        backoff_cap(backoff_exponent(attempt)) <= BATCH_WRITE_CHUNK_MAX_BACKOFF_MS,
{
    vstd::arithmetic::power2::lemma_pow2_pos(backoff_exponent(attempt));
}

/// One chunk being written: what is still to send, and how often it was tried.
pub struct ChunkWrite<R> {
    pub chunk_idx: usize,
    pub table: String,
    pub pending: Vec<R>,
    pub attempt: u32,
}

/// What to do after a send.
pub enum ChunkStep {
    /// Everything is written.
    Done,
    /// Wait, then send what is pending.
    Retry { backoff_ms: u64 },
    /// Give up.
    Fail(QueryError),
}

/// The error of a chunk whose leftovers never drained.
pub open spec fn unprocessed_text(leftovers: nat, attempt: nat) -> Seq<char> {
    "dynamo batch_write_item: "@ + decimal(leftovers) + " items still unprocessed after "@
        + decimal(attempt) + " retries"@
}

impl<R> ChunkWrite<R> {
    /// A chunk is retried at most eight times.
    pub open spec fn wf(&self) -> bool {
        self.attempt <= BATCH_WRITE_CHUNK_MAX_RETRIES
    }

    pub fn new(chunk_idx: usize, table: String, requests: Vec<R>) -> (write: ChunkWrite<R>)
        ensures
            write.wf(),
            write.chunk_idx == chunk_idx,
            write.table == table,
            write.pending == requests,
            write.attempt == 0,
    {
        ChunkWrite { chunk_idx, table, pending: requests, attempt: 0 }
    }

    /// Records that the pending requests are being sent.
    pub fn start(&self, progress: &mut BatchWriteProgress)
        ensures
            final(progress).in_flight_chunks@.len() > 0,
            final(progress).in_flight_chunks@.last().0 == self.chunk_idx,
            final(progress).in_flight_chunks@.last().1@ == self.table@,
            final(progress).in_flight_chunks@.drop_last() == without_chunk(
                old(progress).in_flight_chunks@,
                self.chunk_idx,
            ),
            final(progress).chunks_started == if self.attempt == 0 {
                wrapped(old(progress).chunks_started, 1)
            } else {
                old(progress).chunks_started as int
            },
            final(progress).total_retries == if self.attempt == 0 {
                old(progress).total_retries as int
            } else {
                wrapped(old(progress).total_retries, 1)
            },
            final(progress).chunks_completed == old(progress).chunks_completed,
            final(progress).chunks_failed == old(progress).chunks_failed,
            final(progress).total_unprocessed_items == old(progress).total_unprocessed_items,
    {
        progress.mark_started(self.chunk_idx, self.table.as_str(), self.attempt);
    }

    /// The send failed: everything stays pending, to be retried while retries
    /// are left.
    pub fn on_send_error(&mut self, error: QueryError, progress: &mut BatchWriteProgress) -> (step:
        ChunkStep)
        requires
            old(self).wf(),
        ensures
            final(self).chunk_idx == old(self).chunk_idx,
            final(self).table == old(self).table,
            final(self).pending == old(self).pending,
            final(self).attempt == old(self).attempt + 1,
            old(self).attempt < BATCH_WRITE_CHUNK_MAX_RETRIES ==> final(self).wf() && step == (
            ChunkStep::Retry {
                backoff_ms: spec_backoff(
                    old(self).chunk_idx,
                    vstd::utf8::encode_utf8(old(self).table@),
                    final(self).attempt,
                ) as u64,
            }) && final(progress).chunks_failed == old(progress).chunks_failed,
            old(self).attempt == BATCH_WRITE_CHUNK_MAX_RETRIES ==> step == ChunkStep::Fail(error)
                && final(progress).chunks_failed == wrapped(old(progress).chunks_failed, 1),
            final(progress).chunks_started == old(progress).chunks_started,
            final(progress).chunks_completed == old(progress).chunks_completed,
            final(progress).total_retries == old(progress).total_retries,
            final(progress).total_unprocessed_items == old(progress).total_unprocessed_items,
            final(progress).in_flight_chunks@ == without_chunk(
                old(progress).in_flight_chunks@,
                old(self).chunk_idx,
            ),
    {
        progress.mark_attempt_finished(self.chunk_idx);
        self.attempt = self.attempt + 1;
        if self.attempt > BATCH_WRITE_CHUNK_MAX_RETRIES {
            progress.mark_failed(self.chunk_idx);
            proof {
                lemma_without_twice(old(progress).in_flight_chunks@, self.chunk_idx);
            }
            return ChunkStep::Fail(error);
        }
        ChunkStep::Retry {
            backoff_ms: BatchWriteProgress::retry_backoff(
                self.chunk_idx,
                self.table.as_str(),
                self.attempt,
            ),
        }
    }

    /// The send was answered with the requests that were not processed: only
    /// those stay pending.
    pub fn on_response(&mut self, leftovers: Vec<R>, progress: &mut BatchWriteProgress) -> (step:
        ChunkStep)
        requires
            old(self).wf(),
        ensures
            final(self).chunk_idx == old(self).chunk_idx,
            final(self).table == old(self).table,
            leftovers@.len() == 0 ==> step == ChunkStep::Done && *final(self) == *old(self)
                && final(progress).chunks_completed == wrapped(old(progress).chunks_completed, 1)
                && final(progress).chunks_failed == old(progress).chunks_failed
                && final(progress).total_unprocessed_items
                == old(progress).total_unprocessed_items,
            leftovers@.len() > 0 ==> final(self).attempt == old(self).attempt + 1
                && final(progress).chunks_completed == old(progress).chunks_completed
                && final(progress).total_unprocessed_items == wrapped(
                old(progress).total_unprocessed_items,
                leftovers@.len() as usize,
            ),
            leftovers@.len() > 0 && old(self).attempt < BATCH_WRITE_CHUNK_MAX_RETRIES
                ==> final(self).wf() && final(self).pending == leftovers && step == (
            ChunkStep::Retry {
                backoff_ms: spec_backoff(
                    old(self).chunk_idx,
                    vstd::utf8::encode_utf8(old(self).table@),
                    final(self).attempt,
                ) as u64,
            }) && final(progress).chunks_failed == old(progress).chunks_failed,
            leftovers@.len() > 0 && old(self).attempt == BATCH_WRITE_CHUNK_MAX_RETRIES ==> (
            step matches ChunkStep::Fail(QueryError::Backend(text)) && text@ == unprocessed_text(
                leftovers@.len(),
                final(self).attempt as nat,
            )) && final(progress).chunks_failed == wrapped(old(progress).chunks_failed, 1),
            final(progress).chunks_started == old(progress).chunks_started,
            final(progress).total_retries == old(progress).total_retries,
            final(progress).in_flight_chunks@ == without_chunk(
                old(progress).in_flight_chunks@,
                old(self).chunk_idx,
            ),
    {
        if leftovers.len() == 0 {
            progress.mark_completed(self.chunk_idx);
            return ChunkStep::Done;
        }
        progress.mark_attempt_finished(self.chunk_idx);
        progress.mark_unprocessed(leftovers.len());
        self.attempt = self.attempt + 1;
        if self.attempt > BATCH_WRITE_CHUNK_MAX_RETRIES {
            progress.mark_failed(self.chunk_idx);
            proof {
                lemma_without_twice(old(progress).in_flight_chunks@, self.chunk_idx);
            }
            let mut text = "dynamo batch_write_item: ".to_owned();
            put_decimal(&mut text, leftovers.len() as u64);
            text.append(" items still unprocessed after ");
            put_decimal(&mut text, self.attempt as u64);
            text.append(" retries");
            return ChunkStep::Fail(QueryError::Backend(text));
        }
        self.pending = leftovers;
        ChunkStep::Retry {
            backoff_ms: BatchWriteProgress::retry_backoff(
                self.chunk_idx,
                self.table.as_str(),
                self.attempt,
            ),
        }
    }
}

proof fn lemma_without_twice(entries: Seq<(usize, String)>, chunk_idx: usize)
    ensures
        without_chunk(without_chunk(entries, chunk_idx), chunk_idx) == without_chunk(
            entries,
            chunk_idx,
        ),
    decreases entries.len(),
{
    if entries.len() > 0 {
        lemma_without_twice(entries.drop_last(), chunk_idx);
        if entries.last().0 != chunk_idx {
            let kept = without_chunk(entries.drop_last(), chunk_idx);
            assert(kept.push(entries.last()).drop_last() =~= kept);
        }
    }
}

} // verus!
