//! Reading and writing the pieces of a snapshot: fixed-width integers,
//! length-prefixed texts and bitmaps, pages, directories and page counts.

use vstd::prelude::*;
use vstd::utf8::{decode_utf8, valid_utf8};

use crate::be::{be_value, read_be};
use crate::errors::{QueryError, Result};
use crate::write::bitmap::{bitmap_bits, bitmap_decoded, bitmap_deserialize};
use crate::write::index::SealedPageCounts;
use crate::write::pages::{page_bits, PageMap};
use crate::write::seal::count_pairs;
use crate::write::streams::{is_stream_id, StreamKey, StreamMap};

verus! {

/// What reading a piece from the front of bytes gives: the piece and the
/// bytes behind it, or an error.
pub type Parsed<T> = core::result::Result<(T, Seq<u8>), QueryError>;

/// The first `n` bytes.
pub open spec fn parse_take(s: Seq<u8>, n: nat) -> Parsed<Seq<u8>> {
    if n <= s.len() {
        Ok((s.take(n as int), s.skip(n as int)))
    } else {
        Err(QueryError::Decode("snapshot truncated"))
    }
}

pub open spec fn parse_u32(s: Seq<u8>) -> Parsed<u32> {
    match parse_take(s, 4) {
        Ok((b, rest)) => Ok((be_value(b) as u32, rest)),
        Err(error) => Err(error),
    }
}

pub open spec fn parse_u64(s: Seq<u8>) -> Parsed<u64> {
    match parse_take(s, 8) {
        Ok((b, rest)) => Ok((be_value(b) as u64, rest)),
        Err(error) => Err(error),
    }
}

/// A length-prefixed byte string.
pub open spec fn parse_blob(s: Seq<u8>) -> Parsed<Seq<u8>> {
    match parse_u32(s) {
        Ok((n, rest)) => parse_take(rest, n as nat),
        Err(error) => Err(error),
    }
}

/// A length-prefixed UTF-8 text.
pub open spec fn parse_text(s: Seq<u8>) -> Parsed<Seq<char>> {
    match parse_blob(s) {
        Ok((b, rest)) => if valid_utf8(b) {
            Ok((decode_utf8(b), rest))
        } else {
            Err(QueryError::Decode("snapshot utf8"))
        },
        Err(error) => Err(error),
    }
}

/// A length-prefixed serialized bitmap.
pub open spec fn parse_bitmap(s: Seq<u8>) -> Parsed<Set<u32>> {
    match parse_blob(s) {
        Ok((b, rest)) => match bitmap_decoded(b) {
            Some(bits) => Ok((bits, rest)),
            None => Err(QueryError::Decode("snapshot bitmap")),
        },
        Err(error) => Err(error),
    }
}

/// A stream id and a start.
pub open spec fn parse_key(s: Seq<u8>) -> Parsed<(Seq<char>, u64)> {
    match parse_text(s) {
        Ok((id, rest)) => if is_stream_id(id) {
            match parse_u64(rest) {
                Ok((start, rest)) => Ok(((id, start), rest)),
                Err(error) => Err(error),
            }
        } else {
            Err(QueryError::Decode("invalid stream id"))
        },
        Err(error) => Err(error),
    }
}

/// `n` pages, added to `pages`; a page that occurs twice counts as read last.
pub open spec fn parse_pages_n(
    s: Seq<u8>,
    n: nat,
    pages: Map<(Seq<char>, u64), Set<u32>>,
) -> Parsed<Map<(Seq<char>, u64), Set<u32>>>
    decreases n,
{
    if n == 0 {
        Ok((pages, s))
    } else {
        match parse_key(s) {
            Ok((key, rest)) => match parse_bitmap(rest) {
                Ok((bits, rest)) => parse_pages_n(rest, (n - 1) as nat, pages.insert(key, bits)),
                Err(error) => Err(error),
            },
            Err(error) => Err(error),
        }
    }
}

/// Counted pages.
pub open spec fn parse_pages(s: Seq<u8>) -> Parsed<Map<(Seq<char>, u64), Set<u32>>> {
    match parse_u32(s) {
        Ok((n, rest)) => parse_pages_n(rest, n as nat, Map::empty()),
        Err(error) => Err(error),
    }
}

/// `n` directory entries, added to `dir`.
pub open spec fn parse_dir_n(s: Seq<u8>, n: nat, dir: Seq<(u64, u64, u64)>) -> Parsed<
    Seq<(u64, u64, u64)>,
>
    decreases n,
{
    if n == 0 {
        Ok((dir, s))
    } else {
        match parse_u64(s) {
            Ok((block, rest)) => match parse_u64(rest) {
                Ok((first, rest)) => match parse_u64(rest) {
                    Ok((end, rest)) => parse_dir_n(
                        rest,
                        (n - 1) as nat,
                        dir.push((block, first, end)),
                    ),
                    Err(error) => Err(error),
                },
                Err(error) => Err(error),
            },
            Err(error) => Err(error),
        }
    }
}

/// Counted directory entries.
pub open spec fn parse_dir(s: Seq<u8>) -> Parsed<Seq<(u64, u64, u64)>> {
    match parse_u32(s) {
        Ok((n, rest)) => parse_dir_n(rest, n as nat, Seq::empty()),
        Err(error) => Err(error),
    }
}

/// `n` pairs, added to `pairs`.
pub open spec fn parse_pairs_n(s: Seq<u8>, n: nat, pairs: Seq<(u32, u32)>) -> Parsed<
    Seq<(u32, u32)>,
>
    decreases n,
{
    if n == 0 {
        Ok((pairs, s))
    } else {
        match parse_u32(s) {
            Ok((page, rest)) => match parse_u32(rest) {
                Ok((count, rest)) => parse_pairs_n(rest, (n - 1) as nat, pairs.push((page, count))),
                Err(error) => Err(error),
            },
            Err(error) => Err(error),
        }
    }
}

/// `n` accumulator entries, added to `counts`; the last one of a key counts.
pub open spec fn parse_counts_n(
    s: Seq<u8>,
    n: nat,
    counts: Map<(Seq<char>, u64), Seq<(u32, u32)>>,
) -> Parsed<Map<(Seq<char>, u64), Seq<(u32, u32)>>>
    decreases n,
{
    if n == 0 {
        Ok((counts, s))
    } else {
        match parse_key(s) {
            Ok((key, rest)) => match parse_u32(rest) {
                Ok((len, rest)) => match parse_pairs_n(rest, len as nat, Seq::empty()) {
                    Ok((pairs, rest)) => parse_counts_n(
                        rest,
                        (n - 1) as nat,
                        counts.insert(key, pairs),
                    ),
                    Err(error) => Err(error),
                },
                Err(error) => Err(error),
            },
            Err(error) => Err(error),
        }
    }
}

/// Counted accumulator entries.
pub open spec fn parse_counts(s: Seq<u8>) -> Parsed<Map<(Seq<char>, u64), Seq<(u32, u32)>>> {
    match parse_u32(s) {
        Ok((n, rest)) => parse_counts_n(rest, n as nat, Map::empty()),
        Err(error) => Err(error),
    }
}

/// A read position in bytes.
pub struct Cursor<'a> {
    pub bytes: &'a [u8],
    pub pos: usize,
}

impl<'a> Cursor<'a> {
    pub open spec fn wf(self) -> bool {
        self.pos <= self.bytes@.len()
    }

    /// What is left to read.
    pub open spec fn rest(self) -> Seq<u8> {
        self.bytes@.skip(self.pos as int)
    }

    pub fn new(bytes: &'a [u8]) -> (cursor: Cursor<'a>)
        ensures
            cursor.wf(),
            cursor.rest() == bytes@,
    {
        let cursor = Cursor { bytes, pos: 0 };
        assert(cursor.rest() =~= bytes@);
        cursor
    }
}

/// `String::from_utf8` gives the text that valid UTF-8 encodes, and an error
/// for anything else.
#[verifier::external_body]
fn utf8_text(bytes: Vec<u8>) -> (text: Option<String>)
    ensures
        match text {
            Some(text) => valid_utf8(bytes@) && text@ == decode_utf8(bytes@),
            None => !valid_utf8(bytes@),
        },
{
    String::from_utf8(bytes).ok()
}

/// Reads `n` bytes.
pub fn take<'a>(cur: &mut Cursor<'a>, n: usize) -> (result: Result<&'a [u8]>)
    requires
        old(cur).wf(),
    ensures
        final(cur).wf(),
        match result {
            Ok(bytes) => parse_take(old(cur).rest(), n as nat) == Ok::<_, QueryError>(
                (bytes@, final(cur).rest()),
            ),
            Err(error) => parse_take(old(cur).rest(), n as nat) == Err::<
                (Seq<u8>, Seq<u8>),
                QueryError,
            >(error),
        },
{
    let left: usize = cur.bytes.len() - cur.pos;
    if n > left {
        return Err(QueryError::Decode("snapshot truncated"));
    }
    let bytes = vstd::slice::slice_subrange(cur.bytes, cur.pos, cur.pos + n);
    let ghost before = cur.rest();
    cur.pos = cur.pos + n;
    assert(bytes@ =~= before.take(n as int));
    assert(cur.rest() =~= before.skip(n as int));
    Ok(bytes)
}

pub fn take_u32(cur: &mut Cursor) -> (result: Result<u32>)
    requires
        old(cur).wf(),
    ensures
        final(cur).wf(),
        match result {
            Ok(value) => parse_u32(old(cur).rest()) == Ok::<_, QueryError>(
                (value, final(cur).rest()),
            ),
            Err(error) => parse_u32(old(cur).rest()) == Err::<(u32, Seq<u8>), QueryError>(error),
        },
{
    match take(cur, 4) {
        Ok(bytes) => {
            let value: u64 = read_be(bytes);
            Ok(value as u32)
        },
        Err(error) => Err(error),
    }
}

pub fn take_u64(cur: &mut Cursor) -> (result: Result<u64>)
    requires
        old(cur).wf(),
    ensures
        final(cur).wf(),
        match result {
            Ok(value) => parse_u64(old(cur).rest()) == Ok::<_, QueryError>(
                (value, final(cur).rest()),
            ),
            Err(error) => parse_u64(old(cur).rest()) == Err::<(u64, Seq<u8>), QueryError>(error),
        },
{
    match take(cur, 8) {
        Ok(bytes) => Ok(read_be(bytes)),
        Err(error) => Err(error),
    }
}

fn take_blob<'a>(cur: &mut Cursor<'a>) -> (result: Result<&'a [u8]>)
    requires
        old(cur).wf(),
    ensures
        final(cur).wf(),
        match result {
            Ok(bytes) => parse_blob(old(cur).rest()) == Ok::<_, QueryError>(
                (bytes@, final(cur).rest()),
            ),
            Err(error) => parse_blob(old(cur).rest()) == Err::<(Seq<u8>, Seq<u8>), QueryError>(
                error,
            ),
        },
{
    match take_u32(cur) {
        Ok(len) => take(cur, len as usize),
        Err(error) => Err(error),
    }
}

pub fn take_str(cur: &mut Cursor) -> (result: Result<String>)
    requires
        old(cur).wf(),
    ensures
        final(cur).wf(),
        match result {
            Ok(text) => parse_text(old(cur).rest()) == Ok::<_, QueryError>(
                (text@, final(cur).rest()),
            ),
            Err(error) => parse_text(old(cur).rest()) == Err::<(Seq<char>, Seq<u8>), QueryError>(
                error,
            ),
        },
{
    match take_blob(cur) {
        Ok(bytes) => match utf8_text(vstd::slice::slice_to_vec(bytes)) {
            Some(text) => Ok(text),
            None => Err(QueryError::Decode("snapshot utf8")),
        },
        Err(error) => Err(error),
    }
}

pub fn take_bitmap(cur: &mut Cursor) -> (result: Result<roaring::RoaringBitmap>)
    requires
        old(cur).wf(),
    ensures
        final(cur).wf(),
        match result {
            Ok(bitmap) => parse_bitmap(old(cur).rest()) == Ok::<_, QueryError>(
                (bitmap_bits(bitmap), final(cur).rest()),
            ),
            Err(error) => parse_bitmap(old(cur).rest()) == Err::<(Set<u32>, Seq<u8>), QueryError>(
                error,
            ),
        },
{
    match take_blob(cur) {
        Ok(bytes) => match bitmap_deserialize(bytes) {
            Some(bitmap) => Ok(bitmap),
            None => Err(QueryError::Decode("snapshot bitmap")),
        },
        Err(error) => Err(error),
    }
}

fn take_key(cur: &mut Cursor) -> (result: Result<(StreamKey, u64)>)
    requires
        old(cur).wf(),
    ensures
        final(cur).wf(),
        match result {
            Ok((stream, start)) => parse_key(old(cur).rest()) == Ok::<_, QueryError>(
                ((stream@, start), final(cur).rest()),
            ),
            Err(error) => parse_key(old(cur).rest()) == Err::<
                ((Seq<char>, u64), Seq<u8>),
                QueryError,
            >(error),
        },
{
    let id = match take_str(cur) {
        Ok(id) => id,
        Err(error) => {
            return Err(error);
        },
    };
    let stream = match StreamKey::parse(id.as_str()) {
        Ok(stream) => stream,
        Err(error) => {
            return Err(error);
        },
    };
    match take_u64(cur) {
        Ok(start) => Ok((stream, start)),
        Err(error) => Err(error),
    }
}

pub fn take_pages(cur: &mut Cursor) -> (result: Result<PageMap>)
    requires
        old(cur).wf(),
    ensures
        final(cur).wf(),
        match result {
            Ok(pages) => pages.wf() && parse_pages(old(cur).rest()) == Ok::<_, QueryError>(
                (page_bits(pages.map()), final(cur).rest()),
            ),
            Err(error) => parse_pages(old(cur).rest()) == Err::<
                (Map<(Seq<char>, u64), Set<u32>>, Seq<u8>),
                QueryError,
            >(error),
        },
{
    let count: u32 = match take_u32(cur) {
        Ok(count) => count,
        Err(error) => {
            return Err(error);
        },
    };
    let ghost whole = parse_pages(old(cur).rest());
    let mut pages: PageMap = StreamMap::new();
    let mut left: u32 = count;
    assert(page_bits(pages.map()) =~= Map::empty());
    while left > 0
        invariant
            cur.wf(),
            pages.wf(),
            whole == parse_pages_n(cur.rest(), left as nat, page_bits(pages.map())),
            whole == parse_pages(old(cur).rest()),
        decreases left,
    {
        let (stream, start) = match take_key(cur) {
            Ok(key) => key,
            Err(error) => {
                return Err(error);
            },
        };
        let bitmap = match take_bitmap(cur) {
            Ok(bitmap) => bitmap,
            Err(error) => {
                return Err(error);
            },
        };
        let ghost before = pages.map();
        let ghost key = (stream@, start);
        let ghost bits = bitmap_bits(bitmap);
        pages.insert(stream, start, bitmap);
        assert(page_bits(pages.map()) =~= page_bits(before).insert(key, bits));
        left = left - 1;
    }
    Ok(pages)
}

pub fn take_dir(cur: &mut Cursor) -> (result: Result<Vec<(u64, u64, u64)>>)
    requires
        old(cur).wf(),
    ensures
        final(cur).wf(),
        match result {
            Ok(dir) => parse_dir(old(cur).rest()) == Ok::<_, QueryError>((dir@, final(cur).rest())),
            Err(error) => parse_dir(old(cur).rest()) == Err::<
                (Seq<(u64, u64, u64)>, Seq<u8>),
                QueryError,
            >(error),
        },
{
    let count: u32 = match take_u32(cur) {
        Ok(count) => count,
        Err(error) => {
            return Err(error);
        },
    };
    let ghost whole = parse_dir(old(cur).rest());
    let mut dir: Vec<(u64, u64, u64)> = Vec::new();
    let mut left: u32 = count;
    while left > 0
        invariant
            cur.wf(),
            whole == parse_dir_n(cur.rest(), left as nat, dir@),
            whole == parse_dir(old(cur).rest()),
        decreases left,
    {
        let block: u64 = match take_u64(cur) {
            Ok(block) => block,
            Err(error) => {
                return Err(error);
            },
        };
        let first: u64 = match take_u64(cur) {
            Ok(first) => first,
            Err(error) => {
                return Err(error);
            },
        };
        let end: u64 = match take_u64(cur) {
            Ok(end) => end,
            Err(error) => {
                return Err(error);
            },
        };
        dir.push((block, first, end));
        left = left - 1;
    }
    Ok(dir)
}

fn take_pairs(cur: &mut Cursor, count: u32) -> (result: Result<Vec<(u32, u32)>>)
    requires
        old(cur).wf(),
    ensures
        final(cur).wf(),
        match result {
            Ok(pairs) => parse_pairs_n(old(cur).rest(), count as nat, Seq::empty()) == Ok::<
                _,
                QueryError,
            >((pairs@, final(cur).rest())),
            Err(error) => parse_pairs_n(old(cur).rest(), count as nat, Seq::empty()) == Err::<
                (Seq<(u32, u32)>, Seq<u8>),
                QueryError,
            >(error),
        },
{
    let ghost whole = parse_pairs_n(cur.rest(), count as nat, Seq::empty());
    let mut pairs: Vec<(u32, u32)> = Vec::new();
    let mut left: u32 = count;
    while left > 0
        invariant
            cur.wf(),
            whole == parse_pairs_n(cur.rest(), left as nat, pairs@),
            whole == parse_pairs_n(old(cur).rest(), count as nat, Seq::empty()),
        decreases left,
    {
        let page: u32 = match take_u32(cur) {
            Ok(page) => page,
            Err(error) => {
                return Err(error);
            },
        };
        let number: u32 = match take_u32(cur) {
            Ok(number) => number,
            Err(error) => {
                return Err(error);
            },
        };
        pairs.push((page, number));
        left = left - 1;
    }
    Ok(pairs)
}

pub fn take_page_counts(cur: &mut Cursor) -> (result: Result<SealedPageCounts>)
    requires
        old(cur).wf(),
    ensures
        final(cur).wf(),
        match result {
            Ok(counts) => counts.wf() && parse_counts(old(cur).rest()) == Ok::<_, QueryError>(
                (count_pairs(counts.map()), final(cur).rest()),
            ),
            Err(error) => parse_counts(old(cur).rest()) == Err::<
                (Map<(Seq<char>, u64), Seq<(u32, u32)>>, Seq<u8>),
                QueryError,
            >(error),
        },
{
    let count: u32 = match take_u32(cur) {
        Ok(count) => count,
        Err(error) => {
            return Err(error);
        },
    };
    let ghost whole = parse_counts(old(cur).rest());
    let mut counts: SealedPageCounts = StreamMap::new();
    let mut left: u32 = count;
    assert(count_pairs(counts.map()) =~= Map::empty());
    while left > 0
        invariant
            cur.wf(),
            counts.wf(),
            whole == parse_counts_n(cur.rest(), left as nat, count_pairs(counts.map())),
            whole == parse_counts(old(cur).rest()),
        decreases left,
    {
        let (stream, start) = match take_key(cur) {
            Ok(key) => key,
            Err(error) => {
                return Err(error);
            },
        };
        let len: u32 = match take_u32(cur) {
            Ok(len) => len,
            Err(error) => {
                return Err(error);
            },
        };
        let pairs = match take_pairs(cur, len) {
            Ok(pairs) => pairs,
            Err(error) => {
                return Err(error);
            },
        };
        let ghost before = counts.map();
        let ghost key = (stream@, start);
        let ghost listed = pairs@;
        counts.insert(stream, start, pairs);
        assert(count_pairs(counts.map()) =~= count_pairs(before).insert(key, listed));
        left = left - 1;
    }
    Ok(counts)
}

} // verus!
