//! Indexed streams and ordered maps keyed by them.

use vstd::prelude::*;
use vstd::string::StringExecFns;
use vstd::utf8::encode_utf8;

use crate::errors::{QueryError, Result};
use crate::hex::{hex_decode, hex_encode, hex_text, lemma_hex_text};
use crate::text::{
    lemma_name_irreflexive, lemma_name_total, lemma_name_transitive, lemma_utf8_concat, name_lt,
    str_eq, str_lt,
};

verus! {

/// What a stream indexes.
#[derive(Debug, Clone, Copy, PartialEq, Eq, Structural)]
pub enum IndexKind {
    Addr,
    Topic0,
    Topic1,
    Topic2,
    Topic3,
    From,
    To,
    Selector,
    TopLevel,
    HasTransfer,
}

impl IndexKind {
    /// The name a kind has in stream ids.
    pub open spec fn spec_name(self) -> Seq<char> {
        match self {
            IndexKind::Addr => "addr"@,
            IndexKind::Topic0 => "topic0"@,
            IndexKind::Topic1 => "topic1"@,
            IndexKind::Topic2 => "topic2"@,
            IndexKind::Topic3 => "topic3"@,
            IndexKind::From => "from"@,
            IndexKind::To => "to"@,
            IndexKind::Selector => "selector"@,
            IndexKind::TopLevel => "top_level"@,
            IndexKind::HasTransfer => "has_transfer"@,
        }
    }

    /// The position of a kind among all of them.
    pub open spec fn rank(self) -> nat {
        match self {
            IndexKind::Addr => 0,
            IndexKind::Topic0 => 1,
            IndexKind::Topic1 => 2,
            IndexKind::Topic2 => 3,
            IndexKind::Topic3 => 4,
            IndexKind::From => 5,
            IndexKind::To => 6,
            IndexKind::Selector => 7,
            IndexKind::TopLevel => 8,
            IndexKind::HasTransfer => 9,
        }
    }

    fn at_rank(rank: usize) -> (kind: IndexKind)
        requires
            rank < 10,
        ensures
            kind.rank() == rank,
    {
        match rank {
            0 => IndexKind::Addr,
            1 => IndexKind::Topic0,
            2 => IndexKind::Topic1,
            3 => IndexKind::Topic2,
            4 => IndexKind::Topic3,
            5 => IndexKind::From,
            6 => IndexKind::To,
            7 => IndexKind::Selector,
            8 => IndexKind::TopLevel,
            _ => IndexKind::HasTransfer,
        }
    }

    pub fn name(self) -> (name: &'static str)
        ensures
            name@ == self.spec_name(),
    {
        match self {
            IndexKind::Addr => "addr",
            IndexKind::Topic0 => "topic0",
            IndexKind::Topic1 => "topic1",
            IndexKind::Topic2 => "topic2",
            IndexKind::Topic3 => "topic3",
            IndexKind::From => "from",
            IndexKind::To => "to",
            IndexKind::Selector => "selector",
            IndexKind::TopLevel => "top_level",
            IndexKind::HasTransfer => "has_transfer",
        }
    }

    /// The kind of a log's topic at a position; a log indexes at most four.
    pub fn topic(position: usize) -> (kind: Option<IndexKind>)
        ensures
            kind == spec_topic(position as int),
    {
        match position {
            0 => Some(IndexKind::Topic0),
            1 => Some(IndexKind::Topic1),
            2 => Some(IndexKind::Topic2),
            3 => Some(IndexKind::Topic3),
            _ => None,
        }
    }
}

pub open spec fn spec_topic(position: int) -> Option<IndexKind> {
    if position == 0 {
        Some(IndexKind::Topic0)
    } else if position == 1 {
        Some(IndexKind::Topic1)
    } else if position == 2 {
        Some(IndexKind::Topic2)
    } else if position == 3 {
        Some(IndexKind::Topic3)
    } else {
        None
    }
}

/// The canonical id of a stream: its kind and the indexed bytes in hex.
pub open spec fn stream_id(kind: IndexKind, bytes: Seq<u8>) -> Seq<char> {
    kind.spec_name() + "/"@ + hex_text(bytes)
}

/// `id` is the canonical id of some stream.
pub open spec fn is_stream_id(id: Seq<char>) -> bool {
    exists|kind: IndexKind, bytes: Seq<u8>| id == #[trigger] stream_id(kind, bytes)
}

/// One indexed stream, held by its canonical id.
#[derive(Debug, Clone)]
pub struct StreamKey {
    id: String,
}

impl View for StreamKey {
    type V = Seq<char>;

    closed spec fn view(&self) -> Seq<char> {
        self.id@
    }
}

impl StreamKey {
    /// The stream of a kind and the bytes it indexes.
    pub fn new(kind: IndexKind, bytes: &[u8]) -> (key: StreamKey)
        ensures
            key@ == stream_id(kind, bytes@),
    {
        let mut id = kind.name().to_owned();
        id.append("/");
        let hex = hex_encode(bytes);
        id.append(hex.as_str());
        StreamKey { id }
    }

    /// The canonical id.
    pub fn render(&self) -> (id: String)
        ensures
            id@ == self@,
    {
        self.id.as_str().to_owned()
    }

    pub fn copy(&self) -> (key: StreamKey)
        ensures
            key@ == self@,
    {
        StreamKey { id: self.id.as_str().to_owned() }
    }

    /// Reads a canonical id back; anything else is an error.
    pub fn parse(id: &str) -> (result: Result<StreamKey>)
        ensures
            match result {
                Ok(key) => is_stream_id(id@) && key@ == id@,
                Err(error) => !is_stream_id(id@) && error == QueryError::Decode("invalid stream id"),
            },
    {
        let text = id.as_bytes();
        let mut rank: usize = 0;
        while rank < 10
            invariant
                rank <= 10,
                text@ == encode_utf8(id@),
                forall|kind: IndexKind, bytes: Seq<u8>|
                    kind.rank() < rank ==> id@ != #[trigger] stream_id(kind, bytes),
            decreases 10 - rank,
        {
            let kind = IndexKind::at_rank(rank);
            let mut prefix = kind.name().to_owned();
            prefix.append("/");
            let head = prefix.as_str().as_bytes();
            let ghost stem = kind.spec_name() + "/"@;
            assert(head@ == encode_utf8(stem));
            if head.len() <= text.len() {
                let rest = vstd::slice::slice_subrange(text, head.len(), text.len());
                let decoded = hex_decode(rest);
                if let Ok(bytes) = &decoded {
                    let key = StreamKey::new(kind, bytes);
                    if str_eq(key.id.as_str(), id) {
                        return Ok(key);
                    }
                }
                assert forall|other: IndexKind, bytes: Seq<u8>| other.rank() < rank + 1 implies id@
                    != #[trigger] stream_id(other, bytes) by {
                    if other.rank() == rank && id@ == stream_id(other, bytes) {
                        assert(other == kind);
                        lemma_utf8_concat(stem, hex_text(bytes));
                        lemma_hex_text(bytes);
                        assert(rest@ =~= encode_utf8(hex_text(bytes)));
                    }
                }
            } else {
                assert forall|other: IndexKind, bytes: Seq<u8>| other.rank() < rank + 1 implies id@
                    != #[trigger] stream_id(other, bytes) by {
                    if other.rank() == rank && id@ == stream_id(other, bytes) {
                        assert(other == kind);
                        lemma_utf8_concat(stem, hex_text(bytes));
                    }
                }
            }
            rank = rank + 1;
        }
        assert(!is_stream_id(id@)) by {
            assert forall|kind: IndexKind, bytes: Seq<u8>| id@ != #[trigger] stream_id(
                kind,
                bytes,
            ) by {
                assert(kind.rank() < 10);
            }
        }
        Err(QueryError::Decode("invalid stream id"))
    }
}

/// Every stream's id parses back to the stream.
pub proof fn law_stream_ids_parse(kind: IndexKind, bytes: Seq<u8>)
    ensures
        is_stream_id(stream_id(kind, bytes)),
{
}

/// Keys sort by stream id, then by start.
pub open spec fn key_lt(a: (Seq<char>, u64), b: (Seq<char>, u64)) -> bool {
    name_lt(a.0, b.0) || (a.0 == b.0 && a.1 < b.1)
}

pub proof fn lemma_key_total(a: (Seq<char>, u64), b: (Seq<char>, u64))
    ensures
        key_lt(a, b) || key_lt(b, a) || a == b,
{
    lemma_name_total(a.0, b.0);
}

pub proof fn lemma_key_irreflexive(a: (Seq<char>, u64))
    ensures
        !key_lt(a, a),
{
    lemma_name_irreflexive(a.0);
}

pub proof fn lemma_key_transitive(
    a: (Seq<char>, u64),
    b: (Seq<char>, u64),
    c: (Seq<char>, u64),
)
    requires
        key_lt(a, b),
        key_lt(b, c),
    ensures
        key_lt(a, c),
{
    if name_lt(a.0, b.0) && name_lt(b.0, c.0) {
        lemma_name_transitive(a.0, b.0, c.0);
    }
}

/// One value of a [`StreamMap`].
pub struct StreamEntry<V> {
    pub stream: StreamKey,
    pub start: u64,
    pub value: V,
}

/// The key of an entry.
pub open spec fn entry_key<V>(entry: StreamEntry<V>) -> (Seq<char>, u64) {
    (entry.stream@, entry.start)
}

/// Entries in strictly ascending key order.
pub open spec fn keys_sorted<V>(entries: Seq<StreamEntry<V>>) -> bool {
    forall|i: int, j: int|
        0 <= i < j < entries.len() ==> key_lt(
            #[trigger] entry_key(entries[i]),
            #[trigger] entry_key(entries[j]),
        )
}

/// Some entry has the key.
pub open spec fn has_key<V>(entries: Seq<StreamEntry<V>>, key: (Seq<char>, u64)) -> bool {
    exists|i: int| 0 <= i < entries.len() && #[trigger] entry_key(entries[i]) == key
}

/// Where the entry of a key stands.
pub open spec fn key_index<V>(entries: Seq<StreamEntry<V>>, key: (Seq<char>, u64)) -> int {
    choose|i: int| 0 <= i < entries.len() && #[trigger] entry_key(entries[i]) == key
}

/// Entries as a map.
pub open spec fn entries_map<V>(entries: Seq<StreamEntry<V>>) -> Map<(Seq<char>, u64), V> {
    Map::new(
        |key: (Seq<char>, u64)| has_key(entries, key),
        |key: (Seq<char>, u64)| entries[key_index(entries, key)].value,
    )
}

/// The map holds each entry under its key.
pub proof fn lemma_entry<V>(entries: Seq<StreamEntry<V>>, i: int)
    requires
        keys_sorted(entries),
        0 <= i < entries.len(),
    ensures
        entries_map(entries).contains_key(entry_key(entries[i])),
        entries_map(entries)[entry_key(entries[i])] == entries[i].value,
        key_index(entries, entry_key(entries[i])) == i,
{
    let key = entry_key(entries[i]);
    assert(has_key(entries, key));
    let j = key_index(entries, key);
    assert(0 <= j < entries.len() && entry_key(entries[j]) == key);
    lemma_key_irreflexive(key);
    if i < j {
        assert(key_lt(entry_key(entries[i]), entry_key(entries[j])));
    }
    if j < i {
        assert(key_lt(entry_key(entries[j]), entry_key(entries[i])));
    }
}

/// A value replaced under its key.
pub proof fn lemma_entry_update<V>(
    before: Seq<StreamEntry<V>>,
    after: Seq<StreamEntry<V>>,
    at: int,
)
    requires
        keys_sorted(before),
        0 <= at < before.len(),
        after.len() == before.len(),
        entry_key(after[at]) == entry_key(before[at]),
        forall|i: int| 0 <= i < before.len() && i != at ==> after[i] == before[i],
    ensures
        keys_sorted(after),
        entries_map(after) == entries_map(before).insert(entry_key(before[at]), after[at].value),
{
    assert forall|i: int| 0 <= i < before.len() implies #[trigger] entry_key(after[i]) == entry_key(
        before[i],
    ) by {}
    assert(keys_sorted(after)) by {
        assert forall|i: int, j: int| 0 <= i < j < after.len() implies key_lt(
            #[trigger] entry_key(after[i]),
            #[trigger] entry_key(after[j]),
        ) by {
            assert(key_lt(entry_key(before[i]), entry_key(before[j])));
        }
    }
    let left = entries_map(after);
    let right = entries_map(before).insert(entry_key(before[at]), after[at].value);
    assert forall|key: (Seq<char>, u64)| left.contains_key(key) == right.contains_key(key) && (
    left.contains_key(key) ==> left[key] == right[key]) by {
        if has_key(after, key) {
            let i = key_index(after, key);
            lemma_entry(after, i);
            assert(entry_key(before[i]) == key);
            lemma_entry(before, i);
            if i != at {
                lemma_entry(before, at);
                if key == entry_key(before[at]) {
                    assert(key_index(before, key) == at);
                }
            }
        }
        if has_key(before, key) {
            let i = key_index(before, key);
            assert(entry_key(after[i]) == key);
            assert(has_key(after, key));
        }
        lemma_entry(after, at);
    }
    assert(left =~= right);
}

/// An entry inserted at its place.
pub proof fn lemma_entry_insert<V>(
    before: Seq<StreamEntry<V>>,
    entry: StreamEntry<V>,
    at: int,
)
    requires
        keys_sorted(before),
        0 <= at <= before.len(),
        forall|i: int| 0 <= i < at ==> key_lt(#[trigger] entry_key(before[i]), entry_key(entry)),
        forall|i: int|
            at <= i < before.len() ==> key_lt(entry_key(entry), #[trigger] entry_key(before[i])),
    ensures
        keys_sorted(before.insert(at, entry)),
        !has_key(before, entry_key(entry)),
        entries_map(before.insert(at, entry)) == entries_map(before).insert(
            entry_key(entry),
            entry.value,
        ),
{
    let after = before.insert(at, entry);
    let key = entry_key(entry);
    assert forall|i: int, j: int| 0 <= i < j < after.len() implies key_lt(
        #[trigger] entry_key(after[i]),
        #[trigger] entry_key(after[j]),
    ) by {
        let a = if i < at { i } else { i - 1 };
        let b = if j < at { j } else { j - 1 };
        if i != at {
            assert(after[i] == before[a]);
            assert(entry_key(before[a]) == entry_key(after[i]));
        }
        if j != at {
            assert(after[j] == before[b]);
            assert(entry_key(before[b]) == entry_key(after[j]));
        }
    }
    if has_key(before, key) {
        let i = key_index(before, key);
        lemma_key_irreflexive(key);
        assert(entry_key(before[i]) == key);
    }
    let left = entries_map(after);
    let right = entries_map(before).insert(key, entry.value);
    assert(after[at] == entry);
    lemma_entry(after, at);
    assert forall|k: (Seq<char>, u64)|
        #![trigger left.dom().contains(k)]
        #![trigger left[k]]
        left.dom().contains(k) == right.dom().contains(k) && (left.dom().contains(k) ==> left[k]
            == right[k]) by {
        if has_key(after, k) {
            let i = key_index(after, k);
            lemma_entry(after, i);
            if i != at {
                let a = if i < at { i } else { i - 1 };
                assert(after[i] == before[a]);
                assert(entry_key(before[a]) == k);
                lemma_entry(before, a);
            }
        }
        if has_key(before, k) {
            let a = key_index(before, k);
            let i = if a < at { a } else { a + 1 };
            assert(after[i] == before[a]);
            assert(entry_key(after[i]) == k);
            assert(has_key(after, k));
        }
    }
    assert(left =~= right);
}

/// An ordered map from `(stream, start)` to a value.
pub struct StreamMap<V> {
    pub entries: Vec<StreamEntry<V>>,
}

impl<V> StreamMap<V> {
    /// Keys ascend, so none occurs twice.
    pub open spec fn wf(self) -> bool {
        keys_sorted(self.entries@)
    }

    pub open spec fn map(self) -> Map<(Seq<char>, u64), V> {
        entries_map(self.entries@)
    }

    pub fn new() -> (map: StreamMap<V>)
        ensures
            map.wf(),
            map.entries@.len() == 0,
            map.map() == Map::<(Seq<char>, u64), V>::empty(),
    {
        let map = StreamMap { entries: Vec::new() };
        assert(map.map() =~= Map::<(Seq<char>, u64), V>::empty());
        map
    }

    /// Whether the keys ascend.
    pub fn is_sorted(&self) -> (sorted: bool)
        ensures
            sorted == self.wf(),
    {
        let mut n: usize = 1;
        while n < self.entries.len()
            invariant
                1 <= n,
                n <= self.entries@.len() || self.entries@.len() == 0,
                forall|i: int, j: int|
                    0 <= i < j < n && j < self.entries@.len() ==> key_lt(
                        #[trigger] entry_key(self.entries@[i]),
                        #[trigger] entry_key(self.entries@[j]),
                    ),
            decreases self.entries@.len() - n,
        {
            let before = &self.entries[n - 1];
            let entry = &self.entries[n];
            let ghost previous = entry_key(self.entries@[n - 1]);
            let ghost here = entry_key(self.entries@[n as int]);
            if !(str_lt(before.stream.id.as_str(), entry.stream.id.as_str()) || (str_eq(
                before.stream.id.as_str(),
                entry.stream.id.as_str(),
            ) && before.start < entry.start)) {
                assert(!key_lt(previous, here));
                return false;
            }
            assert forall|i: int| 0 <= i < n implies key_lt(
                #[trigger] entry_key(self.entries@[i]),
                here,
            ) by {
                if i < n - 1 {
                    assert(key_lt(entry_key(self.entries@[i]), previous));
                    lemma_key_transitive(entry_key(self.entries@[i]), previous, here);
                }
            }
            n = n + 1;
        }
        true
    }

    /// Where a key stands or belongs.
    pub fn search(&self, stream: &StreamKey, start: u64) -> (place: core::result::Result<
        usize,
        usize,
    >)
        requires
            self.wf(),
        ensures
            match place {
                Ok(at) => at < self.entries@.len() && entry_key(self.entries@[at as int]) == (
                    stream@,
                    start,
                ),
                Err(at) => {
                    &&& at <= self.entries@.len()
                    &&& forall|i: int|
                        0 <= i < at ==> key_lt(
                            #[trigger] entry_key(self.entries@[i]),
                            (stream@, start),
                        )
                    &&& forall|i: int|
                        at <= i < self.entries@.len() ==> key_lt(
                            (stream@, start),
                            #[trigger] entry_key(self.entries@[i]),
                        )
                },
            },
    {
        let ghost key = (stream@, start);
        let mut low: usize = 0;
        let mut high: usize = self.entries.len();
        while low < high
            invariant
                self.wf(),
                key == (stream@, start),
                low <= high <= self.entries@.len(),
                forall|i: int| 0 <= i < low ==> key_lt(#[trigger] entry_key(self.entries@[i]), key),
                forall|i: int|
                    high <= i < self.entries@.len() ==> key_lt(
                        key,
                        #[trigger] entry_key(self.entries@[i]),
                    ),
            decreases high - low,
        {
            let mid: usize = low + (high - low) / 2;
            let entry = &self.entries[mid];
            let ghost here = entry_key(self.entries@[mid as int]);
            if str_lt(entry.stream.id.as_str(), stream.id.as_str()) || (str_eq(
                entry.stream.id.as_str(),
                stream.id.as_str(),
            ) && entry.start < start) {
                assert forall|i: int| 0 <= i < mid + 1 implies key_lt(
                    #[trigger] entry_key(self.entries@[i]),
                    key,
                ) by {
                    if i < mid {
                        assert(key_lt(entry_key(self.entries@[i]), here));
                        lemma_key_transitive(entry_key(self.entries@[i]), here, key);
                    }
                }
                low = mid + 1;
            } else if str_eq(entry.stream.id.as_str(), stream.id.as_str()) && entry.start == start {
                return Ok(mid);
            } else {
                proof {
                    lemma_key_total(here, key);
                    assert(key_lt(key, here));
                }
                assert forall|i: int| mid <= i < self.entries@.len() implies key_lt(
                    key,
                    #[trigger] entry_key(self.entries@[i]),
                ) by {
                    if i > mid {
                        assert(key_lt(here, entry_key(self.entries@[i])));
                        lemma_key_transitive(key, here, entry_key(self.entries@[i]));
                    }
                }
                high = mid;
            }
        }
        Err(low)
    }

    pub fn get(&self, stream: &StreamKey, start: u64) -> (value: Option<&V>)
        requires
            self.wf(),
        ensures
            match value {
                Some(value) => self.map().contains_key((stream@, start)) && *value == self.map()[(
                    stream@,
                    start,
                )],
                None => !self.map().contains_key((stream@, start)),
            },
    {
        match self.search(stream, start) {
            Ok(at) => {
                proof {
                    lemma_entry(self.entries@, at as int);
                }
                Some(&self.entries[at].value)
            },
            Err(_) => {
                proof {
                    if has_key(self.entries@, (stream@, start)) {
                        let i = key_index(self.entries@, (stream@, start));
                        assert(entry_key(self.entries@[i]) == (stream@, start));
                        lemma_key_irreflexive((stream@, start));
                    }
                }
                None
            },
        }
    }

    /// Sets the value of a key.
    pub fn insert(&mut self, stream: StreamKey, start: u64, value: V)
        requires
            old(self).wf(),
        ensures
            final(self).wf(),
            final(self).map() == old(self).map().insert((stream@, start), value),
    {
        let ghost before = self.entries@;
        match self.search(&stream, start) {
            Ok(at) => {
                let entry = StreamEntry { stream, start, value };
                self.entries.set(at, entry);
                proof {
                    lemma_entry_update(before, self.entries@, at as int);
                }
            },
            Err(at) => {
                let entry = StreamEntry { stream, start, value };
                proof {
                    lemma_entry_insert(before, entry, at as int);
                }
                self.entries.insert(at, entry);
            },
        }
    }

    /// Finds a key, giving it `value` first if it is absent.
    pub fn slot(&mut self, stream: &StreamKey, start: u64, value: V) -> (at: usize)
        requires
            old(self).wf(),
        ensures
            final(self).wf(),
            at < final(self).entries@.len(),
            entry_key(final(self).entries@[at as int]) == (stream@, start),
            final(self).map() == if old(self).map().contains_key((stream@, start)) {
                old(self).map()
            } else {
                old(self).map().insert((stream@, start), value)
            },
    {
        let ghost before = self.entries@;
        match self.search(stream, start) {
            Ok(at) => {
                proof {
                    lemma_entry(before, at as int);
                }
                at
            },
            Err(at) => {
                let entry = StreamEntry { stream: stream.copy(), start, value };
                proof {
                    lemma_entry_insert(before, entry, at as int);
                }
                self.entries.insert(at, entry);
                assert(self.entries@[at as int] == entry);
                at
            },
        }
    }
}

/// Appending an entry with a greater key.
pub proof fn lemma_entry_push<V>(entries: Seq<StreamEntry<V>>, entry: StreamEntry<V>)
    requires
        keys_sorted(entries),
        forall|i: int|
            0 <= i < entries.len() ==> key_lt(#[trigger] entry_key(entries[i]), entry_key(entry)),
    ensures
        keys_sorted(entries.push(entry)),
        entries_map(entries.push(entry)) == entries_map(entries).insert(
            entry_key(entry),
            entry.value,
        ),
        !entries_map(entries).contains_key(entry_key(entry)),
{
    lemma_entry_insert(entries, entry, entries.len() as int);
    assert(entries.insert(entries.len() as int, entry) =~= entries.push(entry));
}

/// The part of a map whose starts lie below a bound.
pub open spec fn starts_below<V>(map: Map<(Seq<char>, u64), V>, bound: u64) -> Map<
    (Seq<char>, u64),
    V,
> {
    map.restrict(Set::new(|key: (Seq<char>, u64)| key.1 < bound))
}

/// The part of a map whose starts do not lie below a bound.
pub open spec fn from_on<V>(map: Map<(Seq<char>, u64), V>, bound: u64) -> Map<
    (Seq<char>, u64),
    V,
> {
    map.restrict(Set::new(|key: (Seq<char>, u64)| key.1 >= bound))
}

/// Entry `i` of a part is one of the first `n` of all entries, on its side of
/// the bound.
spec fn stems_from<V>(
    part: Seq<StreamEntry<V>>,
    i: int,
    all: Seq<StreamEntry<V>>,
    n: int,
    bound: u64,
    below: bool,
) -> bool {
    has_key(all.take(n), entry_key(part[i])) && (part[i].start < bound) == below
}

/// Entry `i` of all entries is in the part, if it is on that side of the bound.
spec fn is_dealt<V>(
    part: Seq<StreamEntry<V>>,
    all: Seq<StreamEntry<V>>,
    i: int,
    bound: u64,
    below: bool,
) -> bool {
    (all[i].start < bound) == below ==> {
        &&& entries_map(part).contains_key(entry_key(all[i]))
        &&& entries_map(part)[entry_key(all[i])] == all[i].value
    }
}

/// What `part` holds once the first `n` of all entries were dealt out, of
/// those with a start on one side of the bound.
spec fn is_part<V>(
    part: Seq<StreamEntry<V>>,
    all: Seq<StreamEntry<V>>,
    n: int,
    bound: u64,
    below: bool,
) -> bool {
    &&& keys_sorted(part)
    &&& forall|i: int| 0 <= i < n ==> #[trigger] is_dealt(part, all, i, bound, below)
    &&& forall|i: int|
        0 <= i < part.len() ==> #[trigger] stems_from(part, i, all, n, bound, below)
}

proof fn lemma_part_step<V>(
    part: Seq<StreamEntry<V>>,
    all: Seq<StreamEntry<V>>,
    n: int,
    bound: u64,
    below: bool,
)
    requires
        keys_sorted(all),
        0 <= n < all.len(),
        is_part(part, all, n, bound, below),
    ensures
        (all[n].start < bound) == below ==> is_part(part.push(all[n]), all, n + 1, bound, below),
        (all[n].start < bound) != below ==> is_part(part, all, n + 1, bound, below),
{
    let entry = all[n];
    assert forall|key: (Seq<char>, u64)| has_key(all.take(n), key) implies #[trigger] has_key(
        all.take(n + 1),
        key,
    ) by {
        let i = key_index(all.take(n), key);
        assert(entry_key(all.take(n + 1)[i]) == key);
    }
    assert(entry_key(all.take(n + 1)[n]) == entry_key(entry));
    if (entry.start < bound) == below {
        let next = part.push(entry);
        assert forall|i: int| 0 <= i < part.len() implies key_lt(
            #[trigger] entry_key(part[i]),
            entry_key(entry),
        ) by {
            let key = entry_key(part[i]);
            assert(stems_from(part, i, all, n, bound, below));
            let j = key_index(all.take(n), key);
            assert(entry_key(all.take(n)[j]) == key);
            assert(key_lt(entry_key(all[j]), entry_key(all[n])));
        }
        lemma_entry_push(part, entry);
        assert forall|i: int| 0 <= i < next.len() implies #[trigger] stems_from(
            next,
            i,
            all,
            n + 1,
            bound,
            below,
        ) by {
            if i < part.len() {
                assert(next[i] == part[i]);
                assert(stems_from(part, i, all, n, bound, below));
            }
        }
        assert forall|i: int| 0 <= i < n + 1 implies #[trigger] is_dealt(
            next,
            all,
            i,
            bound,
            below,
        ) by {
            if i < n {
                lemma_key_irreflexive(entry_key(entry));
                assert(key_lt(entry_key(all[i]), entry_key(all[n])));
                assert(is_dealt(part, all, i, bound, below));
            }
        }
    } else {
        assert forall|i: int| 0 <= i < part.len() implies #[trigger] stems_from(
            part,
            i,
            all,
            n + 1,
            bound,
            below,
        ) by {
            assert(stems_from(part, i, all, n, bound, below));
        }
        assert(is_dealt(part, all, n, bound, below));
    }
}

proof fn lemma_part_map<V>(
    part: Seq<StreamEntry<V>>,
    all: Seq<StreamEntry<V>>,
    bound: u64,
    below: bool,
)
    requires
        keys_sorted(all),
        is_part(part, all, all.len() as int, bound, below),
    ensures
        below ==> entries_map(part) == starts_below(entries_map(all), bound),
        !below ==> entries_map(part) == from_on(entries_map(all), bound),
{
    assert(all.take(all.len() as int) =~= all);
    let whole = entries_map(all);
    let left = entries_map(part);
    let right = if below {
        starts_below(whole, bound)
    } else {
        from_on(whole, bound)
    };
    assert forall|key: (Seq<char>, u64)|
        #![trigger left.dom().contains(key)]
        #![trigger left[key]]
        left.dom().contains(key) == right.dom().contains(key) && (left.dom().contains(key) ==> left[key]
            == right[key]) by {
        if has_key(part, key) {
            let i = key_index(part, key);
            assert(entry_key(part[i]) == key);
            assert(stems_from(part, i, all, all.len() as int, bound, below));
        }
        if has_key(all, key) {
            let i = key_index(all, key);
            assert(entry_key(all[i]) == key);
            assert(is_dealt(part, all, i, bound, below));
            lemma_entry(all, i);
        }
    }
    assert(left =~= right);
}

impl<V> StreamMap<V> {
    /// Parts the entries that start below a bound from the others.
    pub fn split_below(self, bound: u64) -> (parts: (StreamMap<V>, StreamMap<V>))
        requires
            self.wf(),
        ensures
            parts.0.wf(),
            parts.1.wf(),
            parts.0.map() == starts_below(self.map(), bound),
            parts.1.map() == from_on(self.map(), bound),
            forall|i: int|
                0 <= i < parts.0.entries@.len() ==> (#[trigger] parts.0.entries@[i]).start < bound,
    {
        let ghost all = self.entries@;
        let mut lower: Vec<StreamEntry<V>> = Vec::new();
        let mut upper: Vec<StreamEntry<V>> = Vec::new();
        for entry in iter: self.entries
            invariant
                iter.seq() == all,
                keys_sorted(all),
                is_part(lower@, all, iter.index() as int, bound, true),
                is_part(upper@, all, iter.index() as int, bound, false),
        {
            proof {
                let n = iter.index() as int;
                assert(entry == all[n]);
                lemma_part_step(lower@, all, n, bound, true);
                lemma_part_step(upper@, all, n, bound, false);
            }
            if entry.start < bound {
                lower.push(entry);
            } else {
                upper.push(entry);
            }
        }
        proof {
            lemma_part_map(lower@, all, bound, true);
            lemma_part_map(upper@, all, bound, false);
            assert forall|i: int| 0 <= i < lower@.len() implies (#[trigger] lower@[i]).start
                < bound by {
                assert(stems_from(lower@, i, all, all.len() as int, bound, true));
            }
        }
        (StreamMap { entries: lower }, StreamMap { entries: upper })
    }
}

/// A set of streams, in the order they were first added.
pub struct StreamSet {
    pub streams: Vec<StreamKey>,
}

impl StreamSet {
    pub open spec fn set(self) -> Set<Seq<char>> {
        Set::new(|id: Seq<char>| self.lists(id))
    }

    pub open spec fn lists(self, id: Seq<char>) -> bool {
        exists|i: int| 0 <= i < self.streams@.len() && (#[trigger] self.streams@[i])@ == id
    }

    pub fn new() -> (set: StreamSet)
        ensures
            set.streams@.len() == 0,
            set.set() == Set::<Seq<char>>::empty(),
    {
        let set = StreamSet { streams: Vec::new() };
        assert(set.set() =~= Set::<Seq<char>>::empty());
        set
    }

    pub fn contains(&self, stream: &StreamKey) -> (found: bool)
        ensures
            found == self.set().contains(stream@),
    {
        let mut i: usize = 0;
        while i < self.streams.len()
            invariant
                i <= self.streams@.len(),
                forall|j: int| 0 <= j < i ==> (#[trigger] self.streams@[j])@ != stream@,
            decreases self.streams@.len() - i,
        {
            if str_eq(self.streams[i].id.as_str(), stream.id.as_str()) {
                assert(self.lists(stream@));
                return true;
            }
            i = i + 1;
        }
        false
    }

    /// Adds a stream; says whether it was absent.
    pub fn insert(&mut self, stream: &StreamKey) -> (added: bool)
        ensures
            added == !old(self).set().contains(stream@),
            final(self).set() == old(self).set().insert(stream@),
    {
        if self.contains(stream) {
            assert(self.set() =~= old(self).set().insert(stream@));
            return false;
        }
        let ghost before = *self;
        self.streams.push(stream.copy());
        proof {
            let n = before.streams@.len() as int;
            assert forall|id: Seq<char>| self.lists(id) == (before.lists(id) || id == stream@) by {
                if before.lists(id) {
                    let i = choose|i: int|
                        0 <= i < before.streams@.len() && (#[trigger] before.streams@[i])@ == id;
                    assert(self.streams@[i]@ == id);
                }
                assert(self.streams@[n]@ == stream@);
                if self.lists(id) {
                    let i = choose|i: int|
                        0 <= i < self.streams@.len() && (#[trigger] self.streams@[i])@ == id;
                    if i < n {
                        assert(before.streams@[i]@ == id);
                    }
                }
            }
            assert(self.set() =~= before.set().insert(stream@));
        }
        true
    }
}

} // verus!
