//! Writing the pieces of a snapshot, and that reading gives them back.

use vstd::prelude::*;
use vstd::utf8::{encode_utf8, encode_utf8_decode_utf8, encode_utf8_valid_utf8};

use crate::be::{
    be_bytes, lemma_be_bytes_len, lemma_be_limit_values, lemma_be_value_of_bytes, put_u32,
    put_u64,
};
use crate::rlp::append_bytes;
use crate::write::bitmap::{bitmap_bits, bitmap_bytes, bitmap_decoded, bitmap_serialize};
use crate::write::codec::{
    parse_blob, parse_counts, parse_counts_n, parse_dir, parse_dir_n, parse_key, parse_pages,
    parse_pages_n, parse_pairs_n, parse_take, parse_u32, parse_u64,
};
use crate::write::index::SealedPageCounts;
use crate::write::pages::{page_bits, PageMap};
use crate::write::seal::count_pairs;
use crate::write::streams::{
    entries_map, entry_key, is_stream_id, key_lt, keys_sorted, lemma_entry_push, StreamEntry,
};

verus! {

/// A length as four bytes.
pub open spec fn len_bytes(n: nat) -> Seq<u8> {
    be_bytes((n as u32) as nat, 4)
}

/// A length-prefixed byte string.
pub open spec fn blob_bytes(b: Seq<u8>) -> Seq<u8> {
    len_bytes(b.len()) + b
}

/// A length-prefixed text.
pub open spec fn text_bytes(text: Seq<char>) -> Seq<u8> {
    blob_bytes(encode_utf8(text))
}

pub open spec fn key_bytes(key: (Seq<char>, u64)) -> Seq<u8> {
    text_bytes(key.0) + be_bytes(key.1 as nat, 8)
}

pub open spec fn page_entry_bytes(entry: StreamEntry<roaring::RoaringBitmap>) -> Seq<u8> {
    key_bytes(entry_key(entry)) + blob_bytes(bitmap_bytes(entry.value))
}

pub open spec fn dir_entry_bytes(entry: (u64, u64, u64)) -> Seq<u8> {
    be_bytes(entry.0 as nat, 8) + be_bytes(entry.1 as nat, 8) + be_bytes(entry.2 as nat, 8)
}

pub open spec fn pair_bytes(pair: (u32, u32)) -> Seq<u8> {
    be_bytes(pair.0 as nat, 4) + be_bytes(pair.1 as nat, 4)
}

/// The bytes of items one after the other.
pub open spec fn joined_bytes<T>(items: Seq<T>, bytes: spec_fn(T) -> Seq<u8>) -> Seq<u8>
    decreases items.len(),
{
    if items.len() == 0 {
        Seq::empty()
    } else {
        bytes(items[0]) + joined_bytes(items.drop_first(), bytes)
    }
}

proof fn lemma_joined_push<T>(items: Seq<T>, item: T, bytes: spec_fn(T) -> Seq<u8>)
    ensures
        joined_bytes(items.push(item), bytes) == joined_bytes(items, bytes) + bytes(item),
    decreases items.len(),
{
    if items.len() == 0 {
        assert(items.push(item).drop_first() =~= items);
        assert(joined_bytes(items.push(item), bytes) =~= joined_bytes(items, bytes) + bytes(item));
    } else {
        assert(items.push(item).drop_first() =~= items.drop_first().push(item));
        lemma_joined_push(items.drop_first(), item, bytes);
        assert(joined_bytes(items.push(item), bytes) =~= joined_bytes(items, bytes) + bytes(item));
    }
}

pub open spec fn pairs_body(pairs: Seq<(u32, u32)>) -> Seq<u8> {
    joined_bytes(pairs, |pair: (u32, u32)| pair_bytes(pair))
}

pub open spec fn count_entry_bytes(entry: StreamEntry<Vec<(u32, u32)>>) -> Seq<u8> {
    key_bytes(entry_key(entry)) + len_bytes(entry.value@.len()) + pairs_body(entry.value@)
}

pub open spec fn pages_bytes(entries: Seq<StreamEntry<roaring::RoaringBitmap>>) -> Seq<u8> {
    len_bytes(entries.len()) + joined_bytes(
        entries,
        |entry: StreamEntry<roaring::RoaringBitmap>| page_entry_bytes(entry),
    )
}

pub open spec fn dir_bytes(dir: Seq<(u64, u64, u64)>) -> Seq<u8> {
    len_bytes(dir.len()) + joined_bytes(dir, |entry: (u64, u64, u64)| dir_entry_bytes(entry))
}

pub open spec fn counts_bytes(entries: Seq<StreamEntry<Vec<(u32, u32)>>>) -> Seq<u8> {
    len_bytes(entries.len()) + joined_bytes(
        entries,
        |entry: StreamEntry<Vec<(u32, u32)>>| count_entry_bytes(entry),
    )
}

/// Four bytes can hold the number.
pub open spec fn fits(n: nat) -> bool {
    n <= u32::MAX
}

/// A key can be written so that it reads back.
pub open spec fn key_fits(key: (Seq<char>, u64)) -> bool {
    is_stream_id(key.0) && fits(encode_utf8(key.0).len())
}

/// Pages can be written so that they read back.
pub open spec fn pages_fit(entries: Seq<StreamEntry<roaring::RoaringBitmap>>) -> bool {
    &&& fits(entries.len())
    &&& forall|i: int|
        0 <= i < entries.len() ==> key_fits(entry_key(#[trigger] entries[i])) && fits(
            bitmap_bytes(entries[i].value).len(),
        )
}

/// Page counts can be written so that they read back.
pub open spec fn counts_fit(entries: Seq<StreamEntry<Vec<(u32, u32)>>>) -> bool {
    &&& fits(entries.len())
    &&& forall|i: int|
        0 <= i < entries.len() ==> key_fits(entry_key(#[trigger] entries[i])) && fits(
            entries[i].value@.len(),
        )
}

/// Serialized bitmaps deserialize to what they were made from.
pub open spec fn bitmaps_read_back(entries: Seq<StreamEntry<roaring::RoaringBitmap>>) -> bool {
    forall|i: int|
        0 <= i < entries.len() ==> bitmap_decoded(bitmap_bytes((#[trigger] entries[i]).value))
            == Some(bitmap_bits(entries[i].value))
}

fn put_blob(out: &mut Vec<u8>, bytes: &[u8])
    ensures
        final(out)@ == old(out)@ + blob_bytes(bytes@),
{
    put_u32(out, bytes.len() as u32);
    append_bytes(out, bytes);
    assert(out@ =~= old(out)@ + blob_bytes(bytes@));
}

pub fn put_str(out: &mut Vec<u8>, text: &str)
    ensures
        final(out)@ == old(out)@ + text_bytes(text@),
{
    put_blob(out, text.as_bytes());
}

pub fn put_bitmap(out: &mut Vec<u8>, bitmap: &roaring::RoaringBitmap)
    ensures
        final(out)@ == old(out)@ + blob_bytes(bitmap_bytes(*bitmap)),
        bitmap_decoded(bitmap_bytes(*bitmap)) == Some(bitmap_bits(*bitmap)),
{
    let bytes = bitmap_serialize(bitmap);
    put_blob(out, &bytes);
}

pub fn put_pages(out: &mut Vec<u8>, pages: &PageMap)
    ensures
        final(out)@ == old(out)@ + pages_bytes(pages.entries@),
        bitmaps_read_back(pages.entries@),
{
    let ghost all = pages.entries@;
    let ghost base = old(out)@ + len_bytes(all.len());
    put_u32(out, pages.entries.len() as u32);
    let mut i: usize = 0;
    assert(all.take(0) =~= Seq::empty());
    assert(base + Seq::<u8>::empty() =~= base);
    while i < pages.entries.len()
        invariant
            all == pages.entries@,
            i <= all.len(),
            out@ == base + joined_bytes(
                all.take(i as int),
                |entry: StreamEntry<roaring::RoaringBitmap>| page_entry_bytes(entry),
            ),
            forall|k: int|
                0 <= k < i ==> bitmap_decoded(bitmap_bytes((#[trigger] all[k]).value)) == Some(
                    bitmap_bits(all[k].value),
                ),
        decreases all.len() - i,
    {
        let entry = &pages.entries[i];
        let ghost before = out@;
        let id = entry.stream.render();
        put_str(out, id.as_str());
        put_u64(out, entry.start);
        put_bitmap(out, &entry.value);
        proof {
            assert(out@ =~= before + page_entry_bytes(all[i as int]));
            lemma_joined_push(
                all.take(i as int),
                all[i as int],
                |entry: StreamEntry<roaring::RoaringBitmap>| page_entry_bytes(entry),
            );
            assert(all.take(i + 1) =~= all.take(i as int).push(all[i as int]));
        }
        i = i + 1;
    }
    assert(all.take(i as int) =~= all);
    assert(out@ =~= old(out)@ + pages_bytes(all));
}

pub fn put_dir(out: &mut Vec<u8>, dir: &Vec<(u64, u64, u64)>)
    ensures
        final(out)@ == old(out)@ + dir_bytes(dir@),
{
    let ghost base = old(out)@ + len_bytes(dir@.len());
    put_u32(out, dir.len() as u32);
    let mut i: usize = 0;
    assert(dir@.take(0) =~= Seq::empty());
    assert(base + Seq::<u8>::empty() =~= base);
    while i < dir.len()
        invariant
            i <= dir@.len(),
            out@ == base + joined_bytes(
                dir@.take(i as int),
                |entry: (u64, u64, u64)| dir_entry_bytes(entry),
            ),
        decreases dir@.len() - i,
    {
        let (block, first, end) = dir[i];
        let ghost before = out@;
        put_u64(out, block);
        put_u64(out, first);
        put_u64(out, end);
        proof {
            assert(out@ =~= before + dir_entry_bytes(dir@[i as int]));
            lemma_joined_push(
                dir@.take(i as int),
                dir@[i as int],
                |entry: (u64, u64, u64)| dir_entry_bytes(entry),
            );
            assert(dir@.take(i + 1) =~= dir@.take(i as int).push(dir@[i as int]));
        }
        i = i + 1;
    }
    assert(dir@.take(i as int) =~= dir@);
    assert(out@ =~= old(out)@ + dir_bytes(dir@));
}

fn put_pairs(out: &mut Vec<u8>, pairs: &Vec<(u32, u32)>)
    ensures
        final(out)@ == old(out)@ + pairs_body(pairs@),
{
    let ghost base = out@;
    let mut i: usize = 0;
    assert(pairs@.take(0) =~= Seq::empty());
    assert(base + Seq::<u8>::empty() =~= base);
    while i < pairs.len()
        invariant
            i <= pairs@.len(),
            out@ == base + joined_bytes(
                pairs@.take(i as int),
                |pair: (u32, u32)| pair_bytes(pair),
            ),
        decreases pairs@.len() - i,
    {
        let (page, count) = pairs[i];
        let ghost before = out@;
        put_u32(out, page);
        put_u32(out, count);
        proof {
            assert(out@ =~= before + pair_bytes(pairs@[i as int]));
            lemma_joined_push(
                pairs@.take(i as int),
                pairs@[i as int],
                |pair: (u32, u32)| pair_bytes(pair),
            );
            assert(pairs@.take(i + 1) =~= pairs@.take(i as int).push(pairs@[i as int]));
        }
        i = i + 1;
    }
    assert(pairs@.take(i as int) =~= pairs@);
}

pub fn put_page_counts(out: &mut Vec<u8>, counts: &SealedPageCounts)
    ensures
        final(out)@ == old(out)@ + counts_bytes(counts.entries@),
{
    let ghost all = counts.entries@;
    let ghost base = old(out)@ + len_bytes(all.len());
    put_u32(out, counts.entries.len() as u32);
    let mut i: usize = 0;
    assert(all.take(0) =~= Seq::empty());
    assert(base + Seq::<u8>::empty() =~= base);
    while i < counts.entries.len()
        invariant
            all == counts.entries@,
            i <= all.len(),
            out@ == base + joined_bytes(
                all.take(i as int),
                |entry: StreamEntry<Vec<(u32, u32)>>| count_entry_bytes(entry),
            ),
        decreases all.len() - i,
    {
        let entry = &counts.entries[i];
        let ghost before = out@;
        let id = entry.stream.render();
        put_str(out, id.as_str());
        put_u64(out, entry.start);
        put_u32(out, entry.value.len() as u32);
        put_pairs(out, &entry.value);
        proof {
            assert(out@ =~= before + count_entry_bytes(all[i as int]));
            lemma_joined_push(
                all.take(i as int),
                all[i as int],
                |entry: StreamEntry<Vec<(u32, u32)>>| count_entry_bytes(entry),
            );
            assert(all.take(i + 1) =~= all.take(i as int).push(all[i as int]));
        }
        i = i + 1;
    }
    assert(all.take(i as int) =~= all);
    assert(out@ =~= old(out)@ + counts_bytes(all));
}

pub(crate) proof fn lemma_take_front(b: Seq<u8>, rest: Seq<u8>)
    ensures
        parse_take(b + rest, b.len()) == Ok::<_, crate::errors::QueryError>((b, rest)),
{
    assert((b + rest).take(b.len() as int) =~= b);
    assert((b + rest).skip(b.len() as int) =~= rest);
}

pub(crate) proof fn lemma_u32_front(value: u32, rest: Seq<u8>)
    ensures
        parse_u32(be_bytes(value as nat, 4) + rest) == Ok::<_, crate::errors::QueryError>(
            (value, rest),
        ),
{
    lemma_be_limit_values();
    lemma_be_bytes_len(value as nat, 4);
    lemma_be_value_of_bytes(value as nat, 4);
    lemma_take_front(be_bytes(value as nat, 4), rest);
}

pub(crate) proof fn lemma_u64_front(value: u64, rest: Seq<u8>)
    ensures
        parse_u64(be_bytes(value as nat, 8) + rest) == Ok::<_, crate::errors::QueryError>(
            (value, rest),
        ),
{
    lemma_be_limit_values();
    lemma_be_bytes_len(value as nat, 8);
    lemma_be_value_of_bytes(value as nat, 8);
    lemma_take_front(be_bytes(value as nat, 8), rest);
}

proof fn lemma_blob_front(b: Seq<u8>, rest: Seq<u8>)
    requires
        fits(b.len()),
    ensures
        parse_blob(blob_bytes(b) + rest) == Ok::<_, crate::errors::QueryError>((b, rest)),
{
    lemma_u32_front(b.len() as u32, b + rest);
    assert(blob_bytes(b) + rest =~= len_bytes(b.len()) + (b + rest));
    lemma_take_front(b, rest);
}

proof fn lemma_key_front(key: (Seq<char>, u64), rest: Seq<u8>)
    requires
        key_fits(key),
    ensures
        parse_key(key_bytes(key) + rest) == Ok::<_, crate::errors::QueryError>((key, rest)),
{
    let start = be_bytes(key.1 as nat, 8);
    lemma_blob_front(encode_utf8(key.0), start + rest);
    assert(key_bytes(key) + rest =~= text_bytes(key.0) + (start + rest));
    encode_utf8_valid_utf8(key.0);
    encode_utf8_decode_utf8(key.0);
    lemma_u64_front(key.1, rest);
}

/// Pages with the entries set one after the other.
spec fn set_pages(
    pages: Map<(Seq<char>, u64), Set<u32>>,
    entries: Seq<StreamEntry<roaring::RoaringBitmap>>,
) -> Map<(Seq<char>, u64), Set<u32>>
    decreases entries.len(),
{
    if entries.len() == 0 {
        pages
    } else {
        set_pages(
            pages.insert(entry_key(entries[0]), bitmap_bits(entries[0].value)),
            entries.drop_first(),
        )
    }
}

proof fn lemma_set_pages(
    done: Seq<StreamEntry<roaring::RoaringBitmap>>,
    more: Seq<StreamEntry<roaring::RoaringBitmap>>,
)
    requires
        keys_sorted(done + more),
    ensures
        set_pages(page_bits(entries_map(done)), more) == page_bits(entries_map(done + more)),
    decreases more.len(),
{
    if more.len() == 0 {
        assert(done + more =~= done);
    } else {
        let next = done.push(more[0]);
        assert(next + more.drop_first() =~= done + more);
        lemma_sorted_prefix(done, more);
        lemma_entry_push(done, more[0]);
        assert(page_bits(entries_map(next)) =~= page_bits(entries_map(done)).insert(
            entry_key(more[0]),
            bitmap_bits(more[0].value),
        ));
        lemma_set_pages(next, more.drop_first());
    }
}

proof fn lemma_sorted_prefix<V>(done: Seq<StreamEntry<V>>, more: Seq<StreamEntry<V>>)
    requires
        keys_sorted(done + more),
        more.len() > 0,
    ensures
        keys_sorted(done),
        forall|i: int|
            0 <= i < done.len() ==> key_lt(#[trigger] entry_key(done[i]), entry_key(more[0])),
{
    let all = done + more;
    assert forall|i: int, j: int| 0 <= i < j < done.len() implies key_lt(
        #[trigger] entry_key(done[i]),
        #[trigger] entry_key(done[j]),
    ) by {
        assert(all[i] == done[i] && all[j] == done[j]);
        assert(key_lt(entry_key(all[i]), entry_key(all[j])));
    }
    assert forall|i: int| 0 <= i < done.len() implies key_lt(
        #[trigger] entry_key(done[i]),
        entry_key(more[0]),
    ) by {
        let n = done.len() as int;
        assert(all[i] == done[i] && all[n] == more[0]);
        assert(key_lt(entry_key(all[i]), entry_key(all[n])));
    }
}

proof fn lemma_pages_front(
    entries: Seq<StreamEntry<roaring::RoaringBitmap>>,
    rest: Seq<u8>,
    pages: Map<(Seq<char>, u64), Set<u32>>,
)
    requires
        bitmaps_read_back(entries),
        forall|i: int|
            0 <= i < entries.len() ==> key_fits(entry_key(#[trigger] entries[i])) && fits(
                bitmap_bytes(entries[i].value).len(),
            ),
    ensures
        parse_pages_n(
            joined_bytes(
                entries,
                |entry: StreamEntry<roaring::RoaringBitmap>| page_entry_bytes(entry),
            ) + rest,
            entries.len(),
            pages,
        ) == Ok::<_, crate::errors::QueryError>((set_pages(pages, entries), rest)),
    decreases entries.len(),
{
    let body = joined_bytes(
        entries,
        |entry: StreamEntry<roaring::RoaringBitmap>| page_entry_bytes(entry),
    );
    if entries.len() == 0 {
        assert(body + rest =~= rest);
    } else {
        let first = entries[0];
        let others = entries.drop_first();
        let tail = joined_bytes(
            others,
            |entry: StreamEntry<roaring::RoaringBitmap>| page_entry_bytes(entry),
        );
        let blob = blob_bytes(bitmap_bytes(first.value));
        assert(body == page_entry_bytes(first) + tail);
        assert(body + rest =~= key_bytes(entry_key(first)) + (blob + (tail + rest)));
        lemma_key_front(entry_key(first), blob + (tail + rest));
        lemma_blob_front(bitmap_bytes(first.value), tail + rest);
        assert forall|i: int| 0 <= i < others.len() implies key_fits(
            entry_key(#[trigger] others[i]),
        ) && fits(bitmap_bytes(others[i].value).len()) && bitmap_decoded(
            bitmap_bytes(others[i].value),
        ) == Some(bitmap_bits(others[i].value)) by {
            assert(others[i] == entries[i + 1]);
        }
        lemma_pages_front(
            others,
            rest,
            pages.insert(entry_key(first), bitmap_bits(first.value)),
        );
    }
}

/// Written pages read back.
pub(crate) proof fn lemma_pages_round_trip(pages: PageMap, rest: Seq<u8>)
    requires
        pages.wf(),
        pages_fit(pages.entries@),
        bitmaps_read_back(pages.entries@),
    ensures
        parse_pages(pages_bytes(pages.entries@) + rest) == Ok::<_, crate::errors::QueryError>(
            (page_bits(pages.map()), rest),
        ),
{
    let entries = pages.entries@;
    let body = joined_bytes(
        entries,
        |entry: StreamEntry<roaring::RoaringBitmap>| page_entry_bytes(entry),
    );
    lemma_u32_front(entries.len() as u32, body + rest);
    assert(pages_bytes(entries) + rest =~= len_bytes(entries.len()) + (body + rest));
    lemma_pages_front(entries, rest, Map::empty());
    let none: Seq<StreamEntry<roaring::RoaringBitmap>> = Seq::empty();
    assert(none + entries =~= entries);
    lemma_set_pages(none, entries);
    assert(entries_map(none) =~= Map::empty());
    assert(page_bits(entries_map(none)) =~= Map::empty());
}

proof fn lemma_dir_front(dir: Seq<(u64, u64, u64)>, rest: Seq<u8>, done: Seq<(u64, u64, u64)>)
    ensures
        parse_dir_n(
            joined_bytes(dir, |entry: (u64, u64, u64)| dir_entry_bytes(entry)) + rest,
            dir.len(),
            done,
        ) == Ok::<_, crate::errors::QueryError>((done + dir, rest)),
    decreases dir.len(),
{
    let body = joined_bytes(dir, |entry: (u64, u64, u64)| dir_entry_bytes(entry));
    if dir.len() == 0 {
        assert(body + rest =~= rest);
        assert(done + dir =~= done);
    } else {
        let (block, first, end) = dir[0];
        let tail = joined_bytes(
            dir.drop_first(),
            |entry: (u64, u64, u64)| dir_entry_bytes(entry),
        );
        let a = be_bytes(block as nat, 8);
        let b = be_bytes(first as nat, 8);
        let c = be_bytes(end as nat, 8);
        assert(body == dir_entry_bytes(dir[0]) + tail);
        assert(body + rest =~= a + (b + (c + (tail + rest))));
        lemma_u64_front(block, b + (c + (tail + rest)));
        lemma_u64_front(first, c + (tail + rest));
        lemma_u64_front(end, tail + rest);
        lemma_dir_front(dir.drop_first(), rest, done.push(dir[0]));
        assert(done.push(dir[0]) + dir.drop_first() =~= done + dir);
    }
}

/// A written directory reads back.
pub(crate) proof fn lemma_dir_round_trip(dir: Seq<(u64, u64, u64)>, rest: Seq<u8>)
    requires
        fits(dir.len()),
    ensures
        parse_dir(dir_bytes(dir) + rest) == Ok::<_, crate::errors::QueryError>((dir, rest)),
{
    let body = joined_bytes(dir, |entry: (u64, u64, u64)| dir_entry_bytes(entry));
    lemma_u32_front(dir.len() as u32, body + rest);
    assert(dir_bytes(dir) + rest =~= len_bytes(dir.len()) + (body + rest));
    lemma_dir_front(dir, rest, Seq::empty());
    assert(Seq::<(u64, u64, u64)>::empty() + dir =~= dir);
}

proof fn lemma_pairs_front(pairs: Seq<(u32, u32)>, rest: Seq<u8>, done: Seq<(u32, u32)>)
    ensures
        parse_pairs_n(pairs_body(pairs) + rest, pairs.len(), done) == Ok::<
            _,
            crate::errors::QueryError,
        >((done + pairs, rest)),
    decreases pairs.len(),
{
    if pairs.len() == 0 {
        assert(pairs_body(pairs) + rest =~= rest);
        assert(done + pairs =~= done);
    } else {
        let (page, count) = pairs[0];
        let tail = pairs_body(pairs.drop_first());
        let a = be_bytes(page as nat, 4);
        let b = be_bytes(count as nat, 4);
        assert(pairs_body(pairs) == pair_bytes(pairs[0]) + tail);
        assert(pairs_body(pairs) + rest =~= a + (b + (tail + rest)));
        lemma_u32_front(page, b + (tail + rest));
        lemma_u32_front(count, tail + rest);
        lemma_pairs_front(pairs.drop_first(), rest, done.push(pairs[0]));
        assert(done.push(pairs[0]) + pairs.drop_first() =~= done + pairs);
    }
}

spec fn set_counts(
    counts: Map<(Seq<char>, u64), Seq<(u32, u32)>>,
    entries: Seq<StreamEntry<Vec<(u32, u32)>>>,
) -> Map<(Seq<char>, u64), Seq<(u32, u32)>>
    decreases entries.len(),
{
    if entries.len() == 0 {
        counts
    } else {
        set_counts(
            counts.insert(entry_key(entries[0]), entries[0].value@),
            entries.drop_first(),
        )
    }
}

proof fn lemma_set_counts(
    done: Seq<StreamEntry<Vec<(u32, u32)>>>,
    more: Seq<StreamEntry<Vec<(u32, u32)>>>,
)
    requires
        keys_sorted(done + more),
    ensures
        set_counts(count_pairs(entries_map(done)), more) == count_pairs(entries_map(done + more)),
    decreases more.len(),
{
    if more.len() == 0 {
        assert(done + more =~= done);
    } else {
        let next = done.push(more[0]);
        assert(next + more.drop_first() =~= done + more);
        lemma_sorted_prefix(done, more);
        lemma_entry_push(done, more[0]);
        assert(count_pairs(entries_map(next)) =~= count_pairs(entries_map(done)).insert(
            entry_key(more[0]),
            more[0].value@,
        ));
        lemma_set_counts(next, more.drop_first());
    }
}

proof fn lemma_counts_front(
    entries: Seq<StreamEntry<Vec<(u32, u32)>>>,
    rest: Seq<u8>,
    counts: Map<(Seq<char>, u64), Seq<(u32, u32)>>,
)
    requires
        forall|i: int|
            0 <= i < entries.len() ==> key_fits(entry_key(#[trigger] entries[i])) && fits(
                entries[i].value@.len(),
            ),
    ensures
        parse_counts_n(
            joined_bytes(
                entries,
                |entry: StreamEntry<Vec<(u32, u32)>>| count_entry_bytes(entry),
            ) + rest,
            entries.len(),
            counts,
        ) == Ok::<_, crate::errors::QueryError>((set_counts(counts, entries), rest)),
    decreases entries.len(),
{
    let body = joined_bytes(
        entries,
        |entry: StreamEntry<Vec<(u32, u32)>>| count_entry_bytes(entry),
    );
    if entries.len() == 0 {
        assert(body + rest =~= rest);
    } else {
        let first = entries[0];
        let others = entries.drop_first();
        let tail = joined_bytes(
            others,
            |entry: StreamEntry<Vec<(u32, u32)>>| count_entry_bytes(entry),
        );
        let pairs = first.value@;
        let len = len_bytes(pairs.len());
        assert(body == count_entry_bytes(first) + tail);
        assert(body + rest =~= key_bytes(entry_key(first)) + (len + (pairs_body(pairs) + (tail
            + rest))));
        lemma_key_front(entry_key(first), len + (pairs_body(pairs) + (tail + rest)));
        lemma_u32_front(pairs.len() as u32, pairs_body(pairs) + (tail + rest));
        lemma_pairs_front(pairs, tail + rest, Seq::empty());
        assert(Seq::<(u32, u32)>::empty() + pairs =~= pairs);
        assert forall|i: int| 0 <= i < others.len() implies key_fits(
            entry_key(#[trigger] others[i]),
        ) && fits(others[i].value@.len()) by {
            assert(others[i] == entries[i + 1]);
        }
        lemma_counts_front(others, rest, counts.insert(entry_key(first), pairs));
    }
}

/// Written page counts read back.
pub(crate) proof fn lemma_counts_round_trip(counts: SealedPageCounts, rest: Seq<u8>)
    requires
        counts.wf(),
        counts_fit(counts.entries@),
    ensures
        parse_counts(counts_bytes(counts.entries@) + rest) == Ok::<_, crate::errors::QueryError>(
            (count_pairs(counts.map()), rest),
        ),
{
    let entries = counts.entries@;
    let body = joined_bytes(
        entries,
        |entry: StreamEntry<Vec<(u32, u32)>>| count_entry_bytes(entry),
    );
    lemma_u32_front(entries.len() as u32, body + rest);
    assert(counts_bytes(entries) + rest =~= len_bytes(entries.len()) + (body + rest));
    lemma_counts_front(entries, rest, Map::empty());
    let none: Seq<StreamEntry<Vec<(u32, u32)>>> = Seq::empty();
    assert(none + entries =~= entries);
    lemma_set_counts(none, entries);
    assert(entries_map(none) =~= Map::empty());
    assert(count_pairs(entries_map(none)) =~= Map::empty());
}

} // verus!
