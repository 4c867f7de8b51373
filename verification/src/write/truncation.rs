//! A truncated snapshot payload never reads as a snapshot.
//!
//! Reading consumes bytes from the front and never looks at what is behind, so
//! bytes that read keep reading the same with more bytes appended.

use vstd::prelude::*;

use crate::errors::QueryError;
use crate::write::codec::{
    parse_bitmap, parse_blob, parse_counts, parse_counts_n, parse_dir, parse_dir_n, parse_key,
    parse_pages, parse_pages_n, parse_pairs_n, parse_take, parse_text, parse_u32, parse_u64,
};
use crate::write::snapshot_codec::{
    bytes_behind, parse_position, parse_snapshot, parse_state, parse_states, parse_tail,
    parse_tails, SNAPSHOT_VERSION,
};

verus! {

proof fn lemma_more_take(s: Seq<u8>, n: nat, more: Seq<u8>)
    ensures
        parse_take(s, n) matches Ok((piece, rest)) ==> parse_take(s + more, n) == Ok::<
            _,
            QueryError,
        >((piece, rest + more)),
{
    if n <= s.len() {
        assert((s + more).take(n as int) =~= s.take(n as int));
        assert((s + more).skip(n as int) =~= s.skip(n as int) + more);
    }
}

proof fn lemma_more_u32(s: Seq<u8>, more: Seq<u8>)
    ensures
        parse_u32(s) matches Ok((piece, rest)) ==> parse_u32(s + more) == Ok::<
            _,
            QueryError,
        >((piece, rest + more)),
{
    lemma_more_take(s, 4, more);
}

proof fn lemma_more_u64(s: Seq<u8>, more: Seq<u8>)
    ensures
        parse_u64(s) matches Ok((piece, rest)) ==> parse_u64(s + more) == Ok::<
            _,
            QueryError,
        >((piece, rest + more)),
{
    lemma_more_take(s, 8, more);
}

proof fn lemma_more_blob(s: Seq<u8>, more: Seq<u8>)
    ensures
        parse_blob(s) matches Ok((piece, rest)) ==> parse_blob(s + more) == Ok::<
            _,
            QueryError,
        >((piece, rest + more)),
{
    lemma_more_u32(s, more);
    if let Ok((n, s)) = parse_u32(s) {
        lemma_more_take(s, n as nat, more);
    }
}

proof fn lemma_more_text(s: Seq<u8>, more: Seq<u8>)
    ensures
        parse_text(s) matches Ok((piece, rest)) ==> parse_text(s + more) == Ok::<
            _,
            QueryError,
        >((piece, rest + more)),
{
    lemma_more_blob(s, more);
}

proof fn lemma_more_bitmap(s: Seq<u8>, more: Seq<u8>)
    ensures
        parse_bitmap(s) matches Ok((piece, rest)) ==> parse_bitmap(s + more) == Ok::<
            _,
            QueryError,
        >((piece, rest + more)),
{
    lemma_more_blob(s, more);
}

proof fn lemma_more_key(s: Seq<u8>, more: Seq<u8>)
    ensures
        parse_key(s) matches Ok((piece, rest)) ==> parse_key(s + more) == Ok::<
            _,
            QueryError,
        >((piece, rest + more)),
{
    lemma_more_text(s, more);
    if let Ok((_, s)) = parse_text(s) {
        lemma_more_u64(s, more);
    }
}

proof fn lemma_more_pages_n(s: Seq<u8>, n: nat, pages: Map<(Seq<char>, u64), Set<u32>>, more: Seq<u8>)
    ensures
        parse_pages_n(s, n, pages) matches Ok((piece, rest)) ==> parse_pages_n(s + more, n, pages) == Ok::<
            _,
            QueryError,
        >((piece, rest + more)),
    decreases n,
{
    if n > 0 {
        lemma_more_key(s, more);
        if let Ok((key, s)) = parse_key(s) {
            lemma_more_bitmap(s, more);
            if let Ok((bits, s)) = parse_bitmap(s) {
                lemma_more_pages_n(s, (n - 1) as nat, pages.insert(key, bits), more);
            }
        }
    }
}

proof fn lemma_more_pages(s: Seq<u8>, more: Seq<u8>)
    ensures
        parse_pages(s) matches Ok((piece, rest)) ==> parse_pages(s + more) == Ok::<
            _,
            QueryError,
        >((piece, rest + more)),
{
    lemma_more_u32(s, more);
    if let Ok((n, s)) = parse_u32(s) {
        lemma_more_pages_n(s, n as nat, Map::empty(), more);
    }
}

proof fn lemma_more_dir_n(s: Seq<u8>, n: nat, dir: Seq<(u64, u64, u64)>, more: Seq<u8>)
    ensures
        parse_dir_n(s, n, dir) matches Ok((piece, rest)) ==> parse_dir_n(s + more, n, dir) == Ok::<
            _,
            QueryError,
        >((piece, rest + more)),
    decreases n,
{
    if n > 0 {
        lemma_more_u64(s, more);
        if let Ok((block, s)) = parse_u64(s) {
            lemma_more_u64(s, more);
            if let Ok((first, s)) = parse_u64(s) {
                lemma_more_u64(s, more);
                if let Ok((end, s)) = parse_u64(s) {
                    lemma_more_dir_n(s, (n - 1) as nat, dir.push((block, first, end)), more);
                }
            }
        }
    }
}

proof fn lemma_more_dir(s: Seq<u8>, more: Seq<u8>)
    ensures
        parse_dir(s) matches Ok((piece, rest)) ==> parse_dir(s + more) == Ok::<
            _,
            QueryError,
        >((piece, rest + more)),
{
    lemma_more_u32(s, more);
    if let Ok((n, s)) = parse_u32(s) {
        lemma_more_dir_n(s, n as nat, Seq::empty(), more);
    }
}

proof fn lemma_more_pairs_n(s: Seq<u8>, n: nat, pairs: Seq<(u32, u32)>, more: Seq<u8>)
    ensures
        parse_pairs_n(s, n, pairs) matches Ok((piece, rest)) ==> parse_pairs_n(s + more, n, pairs) == Ok::<
            _,
            QueryError,
        >((piece, rest + more)),
    decreases n,
{
    if n > 0 {
        lemma_more_u32(s, more);
        if let Ok((page, s)) = parse_u32(s) {
            lemma_more_u32(s, more);
            if let Ok((count, s)) = parse_u32(s) {
                lemma_more_pairs_n(s, (n - 1) as nat, pairs.push((page, count)), more);
            }
        }
    }
}

proof fn lemma_more_counts_n(s: Seq<u8>, n: nat, counts: Map<(Seq<char>, u64), Seq<(u32, u32)>>, more: Seq<u8>)
    ensures
        parse_counts_n(s, n, counts) matches Ok((piece, rest)) ==> parse_counts_n(s + more, n, counts) == Ok::<
            _,
            QueryError,
        >((piece, rest + more)),
    decreases n,
{
    if n > 0 {
        lemma_more_key(s, more);
        if let Ok((key, s)) = parse_key(s) {
            lemma_more_u32(s, more);
            if let Ok((len, s)) = parse_u32(s) {
                lemma_more_pairs_n(s, len as nat, Seq::empty(), more);
                if let Ok((pairs, s)) = parse_pairs_n(s, len as nat, Seq::empty()) {
                    lemma_more_counts_n(s, (n - 1) as nat, counts.insert(key, pairs), more);
                }
            }
        }
    }
}

proof fn lemma_more_counts(s: Seq<u8>, more: Seq<u8>)
    ensures
        parse_counts(s) matches Ok((piece, rest)) ==> parse_counts(s + more) == Ok::<
            _,
            QueryError,
        >((piece, rest + more)),
{
    lemma_more_u32(s, more);
    if let Ok((n, s)) = parse_u32(s) {
        lemma_more_counts_n(s, n as nat, Map::empty(), more);
    }
}

proof fn lemma_more_state(s: Seq<u8>, more: Seq<u8>)
    ensures
        parse_state(s) matches Ok((piece, rest)) ==> parse_state(s + more) == Ok::<
            _,
            QueryError,
        >((piece, rest + more)),
{
    lemma_more_u64(s, more);
    if let Ok((_, s)) = parse_u64(s) {
        lemma_more_take(s, 32, more);
        if let Ok((_, s)) = parse_take(s, 32) {
            lemma_more_pages(s, more);
            if let Ok((_, s)) = parse_pages(s) {
                lemma_more_dir(s, more);
                if let Ok((_, s)) = parse_dir(s) {
                    lemma_more_counts(s, more);
                }
            }
        }
    }
}

proof fn lemma_more_tail(s: Seq<u8>, more: Seq<u8>)
    ensures
        parse_tail(s) matches Ok((piece, rest)) ==> parse_tail(s + more) == Ok::<
            _,
            QueryError,
        >((piece, rest + more)),
{
    lemma_more_pages(s, more);
    if let Ok((_, s)) = parse_pages(s) {
        lemma_more_dir(s, more);
    }
}

proof fn lemma_more_position(s: Seq<u8>, more: Seq<u8>)
    ensures
        parse_position(s) matches Ok((piece, rest)) ==> parse_position(s + more) == Ok::<
            _,
            QueryError,
        >((piece, rest + more)),
{
    lemma_more_u64(s, more);
    if let Ok((_, s)) = parse_u64(s) {
        lemma_more_u64(s, more);
        if let Ok((_, s)) = parse_u64(s) {
            lemma_more_u64(s, more);
            if let Ok((_, s)) = parse_u64(s) {
                lemma_more_u64(s, more);
            }
        }
    }
}

proof fn lemma_more_states(s: Seq<u8>, more: Seq<u8>)
    ensures
        parse_states(s) matches Ok((piece, rest)) ==> parse_states(s + more) == Ok::<
            _,
            QueryError,
        >((piece, rest + more)),
{
    lemma_more_state(s, more);
    if let Ok((_, s)) = parse_state(s) {
        lemma_more_state(s, more);
        if let Ok((_, s)) = parse_state(s) {
            lemma_more_state(s, more);
        }
    }
}

proof fn lemma_more_tails(s: Seq<u8>, more: Seq<u8>)
    ensures
        parse_tails(s) matches Ok((piece, rest)) ==> parse_tails(s + more) == Ok::<
            _,
            QueryError,
        >((piece, rest + more)),
{
    lemma_more_tail(s, more);
    if let Ok((_, s)) = parse_tail(s) {
        lemma_more_tail(s, more);
        if let Ok((_, s)) = parse_tail(s) {
            lemma_more_tail(s, more);
        }
    }
}

proof fn lemma_more_behind(s: Seq<u8>, more: Seq<u8>)
    ensures
        bytes_behind(s) matches Some(rest) ==> bytes_behind(s + more) == Some(rest + more),
{
    reveal(bytes_behind);
    lemma_more_take(s, 1, more);
    if let Ok((_, s)) = parse_take(s, 1) {
        lemma_more_position(s, more);
        if let Ok((_, s)) = parse_position(s) {
            lemma_more_states(s, more);
            if let Ok((_, s)) = parse_states(s) {
                lemma_more_tails(s, more);
            }
        }
    }
}

/// A payload decodes exactly when it can be read.
proof fn lemma_decodes(s: Seq<u8>)
    ensures
        parse_snapshot(s) is Ok == bytes_behind(s) is Some,
{
    reveal(bytes_behind);
}

/// No proper prefix of a payload decodes, where the payload itself is read to
/// its end, as every encoded working set is.
pub proof fn law_no_prefix_decodes(payload: Seq<u8>, n: int)
    requires
        bytes_behind(payload) == Some(Seq::<u8>::empty()),
        0 <= n < payload.len(),
    ensures
        parse_snapshot(payload.take(n)) is Err,
{
    let front = payload.take(n);
    let more = payload.skip(n);
    assert(front + more =~= payload);
    lemma_decodes(front);
    lemma_more_behind(front, more);
    if let Some(rest) = bytes_behind(front) {
        assert((rest + more).len() > 0);
    }
}

/// A payload of another version does not decode, whatever follows the version.
pub proof fn law_other_versions_are_refused(payload: Seq<u8>, version: u8)
    requires
        payload.len() > 0,
        version != SNAPSHOT_VERSION,
    ensures
        parse_snapshot(payload.update(0, version)) is Err,
{
}

} // verus!
