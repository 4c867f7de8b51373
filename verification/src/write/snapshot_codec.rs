//! The snapshot payload: the whole open working set, its block and frontier.
//!
//! The set of streams already inventoried is not persisted: it restores
//! empty, so the first flush re-emits the open page's streams, which is
//! idempotent.

use std::collections::VecDeque;

use vstd::prelude::*;

use crate::be::{be_bytes, put_u64};
use crate::errors::{QueryError, Result};
use crate::rlp::append_bytes;
use crate::write::codec::{
    parse_counts, parse_dir, parse_pages, parse_take, parse_u64, take, take_dir, take_page_counts,
    take_pages, take_u64, Cursor, Parsed,
};
use crate::write::dir::{extend_dir, listed_dir};
use crate::write::family::FamilyFrontier;
use crate::write::index::{ChainDigest, FamilyState, FamilyTail, OpenState, OpenTail};
use crate::write::put::{
    bitmaps_read_back, counts_bytes, counts_fit, dir_bytes, fits, lemma_counts_round_trip,
    lemma_dir_round_trip, lemma_pages_round_trip, lemma_take_front, lemma_u64_front, pages_bytes,
    pages_fit, put_dir, put_page_counts, put_pages,
};
use crate::write::seal::count_pairs;
use crate::write::streams::StreamSet;

verus! {

pub const SNAPSHOT_VERSION: u8 = 1;

/// What a snapshot keeps of one family's state.
pub struct StateContent {
    pub sealed_id: u64,
    pub seal_chain: Seq<u8>,
    pub pages: Map<(Seq<char>, u64), Set<u32>>,
    pub dir: Seq<(u64, u64, u64)>,
    pub counts: Map<(Seq<char>, u64), Seq<(u32, u32)>>,
}

/// What a snapshot keeps of one family's tail.
pub struct TailContent {
    pub pages: Map<(Seq<char>, u64), Set<u32>>,
    pub dir: Seq<(u64, u64, u64)>,
}

/// What a snapshot keeps.
pub struct SnapshotContent {
    pub block: u64,
    pub log_frontier: u64,
    pub tx_frontier: u64,
    pub trace_frontier: u64,
    pub log: StateContent,
    pub tx: StateContent,
    pub trace: StateContent,
    pub log_tail: TailContent,
    pub tx_tail: TailContent,
    pub trace_tail: TailContent,
}

pub open spec fn state_content(state: FamilyState) -> StateContent {
    StateContent {
        sealed_id: state.sealed_id,
        seal_chain: state.seal_chain@,
        pages: state.bits(),
        dir: state.dir@,
        counts: count_pairs(state.sealed_page_counts.map()),
    }
}

pub open spec fn tail_content(tail: FamilyTail) -> TailContent {
    TailContent { pages: tail.bits(), dir: tail.dir@ }
}

pub open spec fn snapshot_content(
    state: OpenState,
    tail: OpenTail,
    block: u64,
    frontier: FamilyFrontier,
) -> SnapshotContent {
    SnapshotContent {
        block,
        log_frontier: frontier.log,
        tx_frontier: frontier.tx,
        trace_frontier: frontier.trace,
        log: state_content(state.log),
        tx: state_content(state.tx),
        trace: state_content(state.trace),
        log_tail: tail_content(tail.log),
        tx_tail: tail_content(tail.tx),
        trace_tail: tail_content(tail.trace),
    }
}

pub open spec fn state_bytes(state: FamilyState) -> Seq<u8> {
    be_bytes(state.sealed_id as nat, 8) + state.seal_chain@ + pages_bytes(state.pages.entries@)
        + dir_bytes(state.dir@) + counts_bytes(state.sealed_page_counts.entries@)
}

pub open spec fn tail_bytes(tail: FamilyTail) -> Seq<u8> {
    pages_bytes(tail.pages.entries@) + dir_bytes(tail.dir@)
}

/// The payload: version, block, frontiers, then the families' states and
/// tails, each in the order log, tx, trace.
pub open spec fn snapshot_bytes(
    state: OpenState,
    tail: OpenTail,
    block: u64,
    frontier: FamilyFrontier,
) -> Seq<u8> {
    seq![SNAPSHOT_VERSION] + be_bytes(block as nat, 8) + be_bytes(frontier.log as nat, 8)
        + be_bytes(frontier.tx as nat, 8) + be_bytes(frontier.trace as nat, 8) + state_bytes(
        state.log,
    ) + state_bytes(state.tx) + state_bytes(state.trace) + tail_bytes(tail.log) + tail_bytes(
        tail.tx,
    ) + tail_bytes(tail.trace)
}

pub open spec fn parse_state(s: Seq<u8>) -> Parsed<StateContent> {
    match parse_u64(s) {
        Ok((sealed_id, s)) => match parse_take(s, 32) {
            Ok((seal_chain, s)) => match parse_pages(s) {
                Ok((pages, s)) => match parse_dir(s) {
                    Ok((dir, s)) => match parse_counts(s) {
                        Ok((counts, s)) => Ok(
                            (StateContent { sealed_id, seal_chain, pages, dir, counts }, s),
                        ),
                        Err(error) => Err(error),
                    },
                    Err(error) => Err(error),
                },
                Err(error) => Err(error),
            },
            Err(error) => Err(error),
        },
        Err(error) => Err(error),
    }
}

pub open spec fn parse_tail(s: Seq<u8>) -> Parsed<TailContent> {
    match parse_pages(s) {
        Ok((pages, s)) => match parse_dir(s) {
            Ok((dir, s)) => Ok((TailContent { pages, dir }, s)),
            Err(error) => Err(error),
        },
        Err(error) => Err(error),
    }
}

/// The block and the three frontiers.
pub open spec fn parse_position(s: Seq<u8>) -> Parsed<(u64, u64, u64, u64)> {
    match parse_u64(s) {
        Ok((block, s)) => match parse_u64(s) {
            Ok((log, s)) => match parse_u64(s) {
                Ok((tx, s)) => match parse_u64(s) {
                    Ok((trace, s)) => Ok(((block, log, tx, trace), s)),
                    Err(error) => Err(error),
                },
                Err(error) => Err(error),
            },
            Err(error) => Err(error),
        },
        Err(error) => Err(error),
    }
}

pub open spec fn parse_states(s: Seq<u8>) -> Parsed<(StateContent, StateContent, StateContent)> {
    match parse_state(s) {
        Ok((log, s)) => match parse_state(s) {
            Ok((tx, s)) => match parse_state(s) {
                Ok((trace, s)) => Ok(((log, tx, trace), s)),
                Err(error) => Err(error),
            },
            Err(error) => Err(error),
        },
        Err(error) => Err(error),
    }
}

pub open spec fn parse_tails(s: Seq<u8>) -> Parsed<(TailContent, TailContent, TailContent)> {
    match parse_tail(s) {
        Ok((log, s)) => match parse_tail(s) {
            Ok((tx, s)) => match parse_tail(s) {
                Ok((trace, s)) => Ok(((log, tx, trace), s)),
                Err(error) => Err(error),
            },
            Err(error) => Err(error),
        },
        Err(error) => Err(error),
    }
}

/// What a payload holds. Bytes behind the last tail are not looked at.
pub open spec fn parse_snapshot(s: Seq<u8>) -> core::result::Result<SnapshotContent, QueryError> {
    match parse_take(s, 1) {
        Ok((version, s)) => if version[0] != SNAPSHOT_VERSION {
            Err(QueryError::Decode("snapshot version"))
        } else {
            match parse_position(s) {
                Ok(((block, log_frontier, tx_frontier, trace_frontier), s)) => match parse_states(
                    s,
                ) {
                    Ok(((log, tx, trace), s)) => match parse_tails(s) {
                        Ok(((log_tail, tx_tail, trace_tail), s)) => Ok(
                            SnapshotContent {
                                block,
                                log_frontier,
                                tx_frontier,
                                trace_frontier,
                                log,
                                tx,
                                trace,
                                log_tail,
                                tx_tail,
                                trace_tail,
                            },
                        ),
                        Err(error) => Err(error),
                    },
                    Err(error) => Err(error),
                },
                Err(error) => Err(error),
            }
        },
        Err(error) => Err(error),
    }
}

/// The bytes behind the last tail, where a payload can be read.
#[verifier::opaque]
pub open spec fn bytes_behind(s: Seq<u8>) -> Option<Seq<u8>> {
    match parse_take(s, 1) {
        Ok((version, s)) => if version[0] != SNAPSHOT_VERSION {
            None
        } else {
            match parse_position(s) {
                Ok((_, s)) => match parse_states(s) {
                    Ok((_, s)) => match parse_tails(s) {
                        Ok((_, s)) => Some(s),
                        Err(_) => None,
                    },
                    Err(_) => None,
                },
                Err(_) => None,
            }
        },
        Err(_) => None,
    }
}

/// A state can be written so that it reads back: its lengths fit four bytes
/// and its keys are stream ids.
pub open spec fn state_fits(state: FamilyState) -> bool {
    &&& state.pages.wf()
    &&& pages_fit(state.pages.entries@)
    &&& fits(state.dir@.len())
    &&& state.sealed_page_counts.wf()
    &&& counts_fit(state.sealed_page_counts.entries@)
}

/// A tail can be written so that it reads back.
pub open spec fn tail_fits(tail: FamilyTail) -> bool {
    &&& tail.pages.wf()
    &&& pages_fit(tail.pages.entries@)
    &&& fits(tail.dir@.len())
}

/// A working set can be written so that it reads back.
pub open spec fn snapshot_fits(state: OpenState, tail: OpenTail) -> bool {
    &&& state_fits(state.log)
    &&& state_fits(state.tx)
    &&& state_fits(state.trace)
    &&& tail_fits(tail.log)
    &&& tail_fits(tail.tx)
    &&& tail_fits(tail.trace)
}

fn put_state(out: &mut Vec<u8>, state: &FamilyState)
    ensures
        final(out)@ == old(out)@ + state_bytes(*state),
        bitmaps_read_back(state.pages.entries@),
{
    put_u64(out, state.sealed_id);
    append_bytes(out, &state.seal_chain);
    put_pages(out, &state.pages);
    put_dir(out, &listed_dir(&state.dir));
    put_page_counts(out, &state.sealed_page_counts);
    assert(out@ =~= old(out)@ + state_bytes(*state));
}

fn put_tail(out: &mut Vec<u8>, tail: &FamilyTail)
    ensures
        final(out)@ == old(out)@ + tail_bytes(*tail),
        bitmaps_read_back(tail.pages.entries@),
{
    put_pages(out, &tail.pages);
    put_dir(out, &tail.dir);
    assert(out@ =~= old(out)@ + tail_bytes(*tail));
}

proof fn lemma_state_front(state: FamilyState, rest: Seq<u8>)
    requires
        state_fits(state),
        bitmaps_read_back(state.pages.entries@),
    ensures
        parse_state(state_bytes(state) + rest) == Ok::<_, QueryError>(
            (state_content(state), rest),
        ),
{
    let a = be_bytes(state.sealed_id as nat, 8);
    let b = state.seal_chain@;
    let c = pages_bytes(state.pages.entries@);
    let d = dir_bytes(state.dir@);
    let e = counts_bytes(state.sealed_page_counts.entries@);
    assert(state_bytes(state) + rest =~= a + (b + (c + (d + (e + rest)))));
    lemma_u64_front(state.sealed_id, b + (c + (d + (e + rest))));
    lemma_take_front(b, c + (d + (e + rest)));
    lemma_pages_round_trip(state.pages, d + (e + rest));
    lemma_dir_round_trip(state.dir@, e + rest);
    lemma_counts_round_trip(state.sealed_page_counts, rest);
}

proof fn lemma_tail_front(tail: FamilyTail, rest: Seq<u8>)
    requires
        tail_fits(tail),
        bitmaps_read_back(tail.pages.entries@),
    ensures
        parse_tail(tail_bytes(tail) + rest) == Ok::<_, QueryError>((tail_content(tail), rest)),
{
    let c = pages_bytes(tail.pages.entries@);
    let d = dir_bytes(tail.dir@);
    assert(tail_bytes(tail) + rest =~= c + (d + rest));
    lemma_pages_round_trip(tail.pages, d + rest);
    lemma_dir_round_trip(tail.dir@, rest);
}

proof fn lemma_position_front(block: u64, frontier: FamilyFrontier, rest: Seq<u8>)
    ensures
        parse_position(
            be_bytes(block as nat, 8) + (be_bytes(frontier.log as nat, 8) + (be_bytes(
                frontier.tx as nat,
                8,
            ) + (be_bytes(frontier.trace as nat, 8) + rest))),
        ) == Ok::<_, QueryError>(((block, frontier.log, frontier.tx, frontier.trace), rest)),
{
    let p4 = be_bytes(frontier.trace as nat, 8) + rest;
    let p3 = be_bytes(frontier.tx as nat, 8) + p4;
    let p2 = be_bytes(frontier.log as nat, 8) + p3;
    lemma_u64_front(block, p2);
    lemma_u64_front(frontier.log, p3);
    lemma_u64_front(frontier.tx, p4);
    lemma_u64_front(frontier.trace, rest);
}

proof fn lemma_states_front(state: OpenState, rest: Seq<u8>)
    requires
        state_fits(state.log),
        state_fits(state.tx),
        state_fits(state.trace),
        bitmaps_read_back(state.log.pages.entries@),
        bitmaps_read_back(state.tx.pages.entries@),
        bitmaps_read_back(state.trace.pages.entries@),
    ensures
        parse_states(
            state_bytes(state.log) + (state_bytes(state.tx) + (state_bytes(state.trace) + rest)),
        ) == Ok::<_, QueryError>(
            (
                (state_content(state.log), state_content(state.tx), state_content(state.trace)),
                rest,
            ),
        ),
{
    let s3 = state_bytes(state.trace) + rest;
    let s2 = state_bytes(state.tx) + s3;
    lemma_state_front(state.log, s2);
    lemma_state_front(state.tx, s3);
    lemma_state_front(state.trace, rest);
}

proof fn lemma_tails_front(tail: OpenTail, rest: Seq<u8>)
    requires
        tail_fits(tail.log),
        tail_fits(tail.tx),
        tail_fits(tail.trace),
        bitmaps_read_back(tail.log.pages.entries@),
        bitmaps_read_back(tail.tx.pages.entries@),
        bitmaps_read_back(tail.trace.pages.entries@),
    ensures
        parse_tails(
            tail_bytes(tail.log) + (tail_bytes(tail.tx) + (tail_bytes(tail.trace) + rest)),
        ) == Ok::<_, QueryError>(
            (
                (tail_content(tail.log), tail_content(tail.tx), tail_content(tail.trace)),
                rest,
            ),
        ),
{
    let t3 = tail_bytes(tail.trace) + rest;
    let t2 = tail_bytes(tail.tx) + t3;
    lemma_tail_front(tail.log, t2);
    lemma_tail_front(tail.tx, t3);
    lemma_tail_front(tail.trace, rest);
}

proof fn lemma_add_assoc(a: Seq<u8>, b: Seq<u8>, c: Seq<u8>)
    ensures
        (a + b) + c == a + (b + c),
{
    assert((a + b) + c =~= a + (b + c));
}

/// The payload with the brackets the other way.
proof fn lemma_snapshot_nested(
    state: OpenState,
    tail: OpenTail,
    block: u64,
    frontier: FamilyFrontier,
)
    ensures
        snapshot_bytes(state, tail, block, frontier) == seq![SNAPSHOT_VERSION] + (be_bytes(
            block as nat,
            8,
        ) + (be_bytes(frontier.log as nat, 8) + (be_bytes(frontier.tx as nat, 8) + (be_bytes(
            frontier.trace as nat,
            8,
        ) + (state_bytes(state.log) + (state_bytes(state.tx) + (state_bytes(state.trace) + (
        tail_bytes(tail.log) + (tail_bytes(tail.tx) + (tail_bytes(tail.trace) + Seq::<
            u8,
        >::empty())))))))))),
{
    let none: Seq<u8> = Seq::empty();
    let t3 = tail_bytes(tail.trace);
    let t2 = tail_bytes(tail.tx);
    let t1 = tail_bytes(tail.log);
    let s3 = state_bytes(state.trace);
    let s2 = state_bytes(state.tx);
    let s1 = state_bytes(state.log);
    let p4 = be_bytes(frontier.trace as nat, 8);
    let p3 = be_bytes(frontier.tx as nat, 8);
    let p2 = be_bytes(frontier.log as nat, 8);
    let p1 = be_bytes(block as nat, 8);
    let a0 = seq![SNAPSHOT_VERSION];
    let a1 = a0 + p1;
    let a2 = a1 + p2;
    let a3 = a2 + p3;
    let a4 = a3 + p4;
    let a5 = a4 + s1;
    let a6 = a5 + s2;
    let a7 = a6 + s3;
    let a8 = a7 + t1;
    let a9 = a8 + t2;
    let r10 = t3 + none;
    assert(r10 =~= t3);
    let r9 = t2 + r10;
    let r8 = t1 + r9;
    let r7 = s3 + r8;
    let r6 = s2 + r7;
    let r5 = s1 + r6;
    let r4 = p4 + r5;
    let r3 = p3 + r4;
    let r2 = p2 + r3;
    lemma_add_assoc(a8, t2, r10);
    lemma_add_assoc(a7, t1, r9);
    lemma_add_assoc(a6, s3, r8);
    lemma_add_assoc(a5, s2, r7);
    lemma_add_assoc(a4, s1, r6);
    lemma_add_assoc(a3, p4, r5);
    lemma_add_assoc(a2, p3, r4);
    lemma_add_assoc(a1, p2, r3);
    lemma_add_assoc(a0, p1, r2);
}

proof fn lemma_snapshot_front(
    state: OpenState,
    tail: OpenTail,
    block: u64,
    frontier: FamilyFrontier,
)
    requires
        snapshot_fits(state, tail),
        bitmaps_read_back(state.log.pages.entries@),
        bitmaps_read_back(state.tx.pages.entries@),
        bitmaps_read_back(state.trace.pages.entries@),
        bitmaps_read_back(tail.log.pages.entries@),
        bitmaps_read_back(tail.tx.pages.entries@),
        bitmaps_read_back(tail.trace.pages.entries@),
    ensures
        parse_snapshot(snapshot_bytes(state, tail, block, frontier)) == Ok::<_, QueryError>(
            snapshot_content(state, tail, block, frontier),
        ),
        bytes_behind(snapshot_bytes(state, tail, block, frontier)) == Some(Seq::<u8>::empty()),
{
    let none: Seq<u8> = Seq::empty();
    let tails = tail_bytes(tail.log) + (tail_bytes(tail.tx) + (tail_bytes(tail.trace) + none));
    let states = state_bytes(state.log) + (state_bytes(state.tx) + (state_bytes(state.trace)
        + tails));
    let position = be_bytes(block as nat, 8) + (be_bytes(frontier.log as nat, 8) + (be_bytes(
        frontier.tx as nat,
        8,
    ) + (be_bytes(frontier.trace as nat, 8) + states)));
    lemma_snapshot_nested(state, tail, block, frontier);
    lemma_take_front(seq![SNAPSHOT_VERSION], position);
    lemma_position_front(block, frontier, states);
    lemma_states_front(state, tails);
    lemma_tails_front(tail, none);
    reveal(bytes_behind);
}

/// Encodes the open working set. Decoding the bytes gives the same working set
/// back, as far as its lengths fit the format.
pub fn encode_snapshot(
    state: &OpenState,
    tail: &OpenTail,
    block: u64,
    frontier: FamilyFrontier,
) -> (bytes: Vec<u8>)
    ensures
        bytes@ == snapshot_bytes(*state, *tail, block, frontier),
        snapshot_fits(*state, *tail) ==> parse_snapshot(bytes@) == Ok::<_, QueryError>(
            snapshot_content(*state, *tail, block, frontier),
        ),
        snapshot_fits(*state, *tail) ==> bytes_behind(bytes@) == Some(Seq::<u8>::empty()),
{
    let mut out: Vec<u8> = Vec::new();
    out.push(SNAPSHOT_VERSION);
    put_u64(&mut out, block);
    put_u64(&mut out, frontier.log);
    put_u64(&mut out, frontier.tx);
    put_u64(&mut out, frontier.trace);
    put_state(&mut out, &state.log);
    put_state(&mut out, &state.tx);
    put_state(&mut out, &state.trace);
    put_tail(&mut out, &tail.log);
    put_tail(&mut out, &tail.tx);
    put_tail(&mut out, &tail.trace);
    proof {
        assert(out@ =~= snapshot_bytes(*state, *tail, block, frontier));
        if snapshot_fits(*state, *tail) {
            lemma_snapshot_front(*state, *tail, block, frontier);
        }
    }
    out
}

/// A digest from its 32 bytes.
fn digest_from(bytes: &[u8]) -> (digest: ChainDigest)
    requires
        bytes@.len() == 32,
    ensures
        digest@ == bytes@,
{
    let mut digest: ChainDigest = [0u8; 32];
    let mut i: usize = 0;
    while i < 32
        invariant
            i <= 32,
            bytes@.len() == 32,
            forall|j: int| 0 <= j < i ==> #[trigger] digest@[j] == bytes@[j],
        decreases 32 - i,
    {
        digest[i] = bytes[i];
        i = i + 1;
    }
    assert(digest@ =~= bytes@);
    digest
}

fn take_state(cur: &mut Cursor) -> (result: Result<FamilyState>)
    requires
        old(cur).wf(),
    ensures
        final(cur).wf(),
        match result {
            Ok(state) => {
                &&& parse_state(old(cur).rest()) == Ok::<_, QueryError>(
                    (state_content(state), final(cur).rest()),
                )
                &&& state.pages.wf()
                &&& state.sealed_page_counts.wf()
                &&& state.open_streams_seen.set() == Set::<Seq<char>>::empty()
            },
            Err(error) => parse_state(old(cur).rest()) == Err::<(StateContent, Seq<u8>), QueryError>(
                error,
            ),
        },
{
    let sealed_id: u64 = match take_u64(cur) {
        Ok(sealed_id) => sealed_id,
        Err(error) => {
            return Err(error);
        },
    };
    let seal_chain: ChainDigest = match take(cur, 32) {
        Ok(bytes) => digest_from(bytes),
        Err(error) => {
            return Err(error);
        },
    };
    let pages = match take_pages(cur) {
        Ok(pages) => pages,
        Err(error) => {
            return Err(error);
        },
    };
    let mut dir: VecDeque<(u64, u64, u64)> = VecDeque::new();
    match take_dir(cur) {
        Ok(entries) => extend_dir(&mut dir, &entries),
        Err(error) => {
            return Err(error);
        },
    };
    assert(dir@ =~= Seq::<(u64, u64, u64)>::empty() + dir@);
    let sealed_page_counts = match take_page_counts(cur) {
        Ok(counts) => counts,
        Err(error) => {
            return Err(error);
        },
    };
    let open_streams_seen = StreamSet::new();
    Ok(FamilyState { pages, dir, sealed_id, open_streams_seen, seal_chain, sealed_page_counts })
}

fn take_tail(cur: &mut Cursor) -> (result: Result<FamilyTail>)
    requires
        old(cur).wf(),
    ensures
        final(cur).wf(),
        match result {
            Ok(tail) => {
                &&& parse_tail(old(cur).rest()) == Ok::<_, QueryError>(
                    (tail_content(tail), final(cur).rest()),
                )
                &&& tail.pages.wf()
            },
            Err(error) => parse_tail(old(cur).rest()) == Err::<(TailContent, Seq<u8>), QueryError>(
                error,
            ),
        },
{
    let pages = match take_pages(cur) {
        Ok(pages) => pages,
        Err(error) => {
            return Err(error);
        },
    };
    match take_dir(cur) {
        Ok(dir) => Ok(FamilyTail { pages, dir }),
        Err(error) => Err(error),
    }
}

fn take_position(cur: &mut Cursor) -> (result: Result<(u64, u64, u64, u64)>)
    requires
        old(cur).wf(),
    ensures
        final(cur).wf(),
        match result {
            Ok(position) => parse_position(old(cur).rest()) == Ok::<_, QueryError>(
                (position, final(cur).rest()),
            ),
            Err(error) => parse_position(old(cur).rest()) == Err::<
                ((u64, u64, u64, u64), Seq<u8>),
                QueryError,
            >(error),
        },
{
    let block: u64 = match take_u64(cur) {
        Ok(block) => block,
        Err(error) => {
            return Err(error);
        },
    };
    let log: u64 = match take_u64(cur) {
        Ok(log) => log,
        Err(error) => {
            return Err(error);
        },
    };
    let tx: u64 = match take_u64(cur) {
        Ok(tx) => tx,
        Err(error) => {
            return Err(error);
        },
    };
    match take_u64(cur) {
        Ok(trace) => Ok((block, log, tx, trace)),
        Err(error) => Err(error),
    }
}

fn take_states(cur: &mut Cursor) -> (result: Result<OpenState>)
    requires
        old(cur).wf(),
    ensures
        final(cur).wf(),
        match result {
            Ok(state) => {
                &&& parse_states(old(cur).rest()) == Ok::<_, QueryError>(
                    (
                        (
                            state_content(state.log),
                            state_content(state.tx),
                            state_content(state.trace),
                        ),
                        final(cur).rest(),
                    ),
                )
                &&& is_restored(state)
            },
            Err(error) => parse_states(old(cur).rest()) == Err::<
                ((StateContent, StateContent, StateContent), Seq<u8>),
                QueryError,
            >(error),
        },
{
    let log = match take_state(cur) {
        Ok(state) => state,
        Err(error) => {
            return Err(error);
        },
    };
    let tx = match take_state(cur) {
        Ok(state) => state,
        Err(error) => {
            return Err(error);
        },
    };
    match take_state(cur) {
        Ok(trace) => Ok(OpenState { log, tx, trace }),
        Err(error) => Err(error),
    }
}

fn take_tails(cur: &mut Cursor) -> (result: Result<OpenTail>)
    requires
        old(cur).wf(),
    ensures
        final(cur).wf(),
        match result {
            Ok(tail) => {
                &&& parse_tails(old(cur).rest()) == Ok::<_, QueryError>(
                    (
                        (tail_content(tail.log), tail_content(tail.tx), tail_content(tail.trace)),
                        final(cur).rest(),
                    ),
                )
                &&& tail.log.pages.wf()
                &&& tail.tx.pages.wf()
                &&& tail.trace.pages.wf()
            },
            Err(error) => parse_tails(old(cur).rest()) == Err::<
                ((TailContent, TailContent, TailContent), Seq<u8>),
                QueryError,
            >(error),
        },
{
    let log = match take_tail(cur) {
        Ok(tail) => tail,
        Err(error) => {
            return Err(error);
        },
    };
    let tx = match take_tail(cur) {
        Ok(tail) => tail,
        Err(error) => {
            return Err(error);
        },
    };
    match take_tail(cur) {
        Ok(trace) => Ok(OpenTail { log, tx, trace }),
        Err(error) => Err(error),
    }
}

/// A restored family state: ordered maps, and no stream inventoried yet.
pub open spec fn state_restored(state: FamilyState) -> bool {
    &&& state.pages.wf()
    &&& state.sealed_page_counts.wf()
    &&& state.open_streams_seen.set() == Set::<Seq<char>>::empty()
}

/// A restored state of all families.
pub open spec fn is_restored(state: OpenState) -> bool {
    state_restored(state.log) && state_restored(state.tx) && state_restored(state.trace)
}

/// Decodes a payload into the open working set, the frontier and the block. A
/// wrong version byte, missing bytes, or a piece that does not decode is an
/// error.
pub fn decode_snapshot(bytes: &[u8]) -> (result: Result<(OpenState, OpenTail, FamilyFrontier, u64)>)
    ensures
        match result {
            Ok((state, tail, frontier, block)) => {
                &&& parse_snapshot(bytes@) == Ok::<_, QueryError>(
                    snapshot_content(state, tail, block, frontier),
                )
                &&& is_restored(state)
                &&& tail.log.pages.wf()
                &&& tail.tx.pages.wf()
                &&& tail.trace.pages.wf()
            },
            Err(error) => parse_snapshot(bytes@) == Err::<SnapshotContent, QueryError>(error),
        },
{
    let mut cur = Cursor::new(bytes);
    let version: u8 = match take(&mut cur, 1) {
        Ok(bytes) => bytes[0],
        Err(error) => {
            return Err(error);
        },
    };
    if version != SNAPSHOT_VERSION {
        return Err(QueryError::Decode("snapshot version"));
    }
    let (block, log, tx, trace) = match take_position(&mut cur) {
        Ok(position) => position,
        Err(error) => {
            return Err(error);
        },
    };
    let state = match take_states(&mut cur) {
        Ok(state) => state,
        Err(error) => {
            return Err(error);
        },
    };
    match take_tails(&mut cur) {
        Ok(tail) => Ok((state, tail, FamilyFrontier { log, tx, trace }, block)),
        Err(error) => Err(error),
    }
}

} // verus!
