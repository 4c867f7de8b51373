//! What the index is for: every record of a block is found under each of its
//! streams, by the id it was given, and under no other stream.

use vstd::prelude::*;

use crate::hex::{hex_text, lemma_hex_text};
use crate::primitives::{CallKind, Hash32};
use crate::types::ingest_types::{logs_before, IngestTrace, IngestTx, Log};
use crate::types::reverts::ancestor_failed;
use crate::types::row_laws::law_transfers_are_committed_moves;
use crate::types::txs::envelope_2718_body;
use crate::write::engine::is_accumulated;
use crate::write::entries::{
    block_log_streams, block_trace_streams, log_streams, trace_streams, tx_streams, tx_streams_at,
};
use crate::write::index::{enters, law_bits_are_the_records_ids, FamilyTail};
use crate::write::pages::bits_at;
use crate::write::streams::{stream_id, IndexKind};

verus! {

/// Different streams have different ids: the kind and the indexed bytes can be
/// told from the id.
pub proof fn law_stream_ids_tell_streams_apart(
    a_kind: IndexKind,
    a: Seq<u8>,
    b_kind: IndexKind,
    b: Seq<u8>,
)
    requires
        stream_id(a_kind, a) == stream_id(b_kind, b),
    ensures
        a_kind == b_kind,
        a == b,
{
    lemma_name_of_kind(a_kind);
    lemma_name_of_kind(b_kind);
    reveal_strlit("/");
    let left = a_kind.spec_name();
    let right = b_kind.spec_name();
    let id = stream_id(a_kind, a);
    assert(id[left.len() as int] == '/');
    assert(stream_id(b_kind, b)[right.len() as int] == '/');
    if left.len() < right.len() {
        assert(stream_id(b_kind, b)[left.len() as int] == right[left.len() as int]);
    } else if right.len() < left.len() {
        assert(id[right.len() as int] == left[right.len() as int]);
    }
    assert forall|i: int| 0 <= i < left.len() implies left[i] == right[i] by {
        assert(id[i] == left[i]);
        assert(stream_id(b_kind, b)[i] == right[i]);
    }
    assert(left =~= right);
    lemma_names_differ(a_kind, b_kind);
    let n = left.len() + 1;
    assert(hex_text(a) =~= id.skip(n as int));
    assert(hex_text(b) =~= stream_id(b_kind, b).skip(n as int));
    lemma_hex_text(a);
    lemma_hex_text(b);
}

/// Names of kinds are free of slashes.
proof fn lemma_name_of_kind(kind: IndexKind)
    ensures
        forall|i: int| 0 <= i < kind.spec_name().len() ==> #[trigger] kind.spec_name()[i] != '/',
{
    reveal_strlit("addr");
    reveal_strlit("topic0");
    reveal_strlit("topic1");
    reveal_strlit("topic2");
    reveal_strlit("topic3");
    reveal_strlit("from");
    reveal_strlit("to");
    reveal_strlit("selector");
    reveal_strlit("top_level");
    reveal_strlit("has_transfer");
}

/// Different kinds have different names.
proof fn lemma_names_differ(a: IndexKind, b: IndexKind)
    requires
        a.spec_name() == b.spec_name(),
    ensures
        a == b,
{
    reveal_strlit("addr");
    reveal_strlit("topic0");
    reveal_strlit("topic1");
    reveal_strlit("topic2");
    reveal_strlit("topic3");
    reveal_strlit("from");
    reveal_strlit("to");
    reveal_strlit("selector");
    reveal_strlit("top_level");
    reveal_strlit("has_transfer");
    assert("addr"@.len() == 4 && "addr"@[0] == 'a');
    assert("from"@.len() == 4 && "from"@[0] == 'f');
    assert("topic0"@.len() == 6 && "topic0"@[5] == '0');
    assert("topic1"@.len() == 6 && "topic1"@[5] == '1');
    assert("topic2"@.len() == 6 && "topic2"@[5] == '2');
    assert("topic3"@.len() == 6 && "topic3"@[5] == '3');
    assert("to"@.len() == 2);
    assert("selector"@.len() == 8);
    assert("top_level"@.len() == 9);
    assert("has_transfer"@.len() == 12);
}

/// A log has a stream: its address's, or that of one of its first four topics
/// in its own position.
pub open spec fn log_has(address: Seq<u8>, topics: Seq<Hash32>, stream: Seq<char>) -> bool {
    ||| stream == stream_id(IndexKind::Addr, address)
    ||| topics.len() > 0 && stream == stream_id(IndexKind::Topic0, topics[0]@)
    ||| topics.len() > 1 && stream == stream_id(IndexKind::Topic1, topics[1]@)
    ||| topics.len() > 2 && stream == stream_id(IndexKind::Topic2, topics[2]@)
    ||| topics.len() > 3 && stream == stream_id(IndexKind::Topic3, topics[3]@)
}

/// A tx has a stream: its sender's, its recipient's, or, where it calls, that of
/// the first four bytes of its calldata.
pub open spec fn tx_has(
    sender: Seq<u8>,
    to: Option<Seq<u8>>,
    input: Seq<u8>,
    stream: Seq<char>,
) -> bool {
    ||| stream == stream_id(IndexKind::From, sender)
    ||| to is Some && stream == stream_id(IndexKind::To, to->Some_0)
    ||| to is Some && input.len() >= 4 && stream == stream_id(
        IndexKind::Selector,
        input.subrange(0, 4),
    )
}

/// A frame has a stream: its sender's, its recipient's, that of the first four
/// bytes of its input, that of root frames, or that of value transfers.
pub open spec fn frame_has(frame: IngestTrace, reverted: bool, stream: Seq<char>) -> bool {
    ||| stream == stream_id(IndexKind::From, frame.from@)
    ||| frame.to matches Some(to) && stream == stream_id(IndexKind::To, to@)
    ||| frame.input@.len() >= 4 && stream == stream_id(
        IndexKind::Selector,
        frame.input@.subrange(0, 4),
    )
    ||| frame.trace_address@.len() == 0 && stream == stream_id(IndexKind::TopLevel, Seq::empty())
    ||| {
        &&& exists|i: int| 0 <= i < 32 && #[trigger] frame.value@[i] != 0
        &&& frame.typ != CallKind::DelegateCall
        &&& frame.status == 0
        &&& !reverted
        &&& frame.tx_status
        &&& stream == stream_id(IndexKind::HasTransfer, Seq::empty())
    }
}

/// A log is listed under its address and each of its first four topics, once
/// each, and under nothing else.
pub proof fn law_log_streams_are_its_own(address: Seq<u8>, topics: Seq<Hash32>, stream: Seq<char>)
    ensures
        log_streams(address, topics).contains(stream) <==> log_has(address, topics, stream),
        log_streams(address, topics).len() == 1 + if topics.len() < 4 {
            topics.len()
        } else {
            4
        },
        log_streams(address, topics).no_duplicates(),
{
    let streams = log_streams(address, topics);
    assert(streams[0] == stream_id(IndexKind::Addr, address));
    if topics.len() > 0 {
        assert(streams[1] == stream_id(IndexKind::Topic0, topics[0]@));
    }
    if topics.len() > 1 {
        assert(streams[2] == stream_id(IndexKind::Topic1, topics[1]@));
    }
    if topics.len() > 2 {
        assert(streams[3] == stream_id(IndexKind::Topic2, topics[2]@));
    }
    if topics.len() > 3 {
        assert(streams[4] == stream_id(IndexKind::Topic3, topics[3]@));
    }
    if streams.contains(stream) {
        let i = choose|i: int| 0 <= i < streams.len() && streams[i] == stream;
        assert(i == 0 || i == 1 || i == 2 || i == 3 || i == 4);
    }
    let kinds = seq![
        IndexKind::Addr,
        IndexKind::Topic0,
        IndexKind::Topic1,
        IndexKind::Topic2,
        IndexKind::Topic3,
    ];
    assert forall|i: int, j: int| 0 <= i < j < streams.len() implies streams[i] != streams[j] by {
        let a = if i == 0 {
            address
        } else {
            topics[i - 1]@
        };
        let b = topics[j - 1]@;
        assert(streams[i] == stream_id(kinds[i], a));
        assert(streams[j] == stream_id(kinds[j], b));
        if streams[i] == streams[j] {
            law_stream_ids_tell_streams_apart(kinds[i], a, kinds[j], b);
        }
    }
}

/// A tx is listed under its sender, its recipient and its selector, and under
/// nothing else.
pub proof fn law_tx_streams_are_its_own(
    sender: Seq<u8>,
    to: Option<Seq<u8>>,
    input: Seq<u8>,
    stream: Seq<char>,
)
    ensures
        tx_streams(sender, (to, input)).contains(stream) <==> tx_has(sender, to, input, stream),
{
    let streams = tx_streams(sender, (to, input));
    assert(input.take(4) =~= input.subrange(0, 4));
    assert(streams[0] == stream_id(IndexKind::From, sender));
    if to is Some {
        assert(streams[1] == stream_id(IndexKind::To, to->Some_0));
        if input.len() >= 4 {
            assert(streams[2] == stream_id(IndexKind::Selector, input.subrange(0, 4)));
        }
    }
    if streams.contains(stream) {
        let i = choose|i: int| 0 <= i < streams.len() && streams[i] == stream;
        assert(i == 0 || i == 1 || i == 2);
    }
}

/// A frame is listed under its sender, recipient and selector, as a root frame
/// and as a transfer, where it is one, and under nothing else.
pub proof fn law_frame_streams_are_its_own(frame: IngestTrace, reverted: bool, stream: Seq<char>)
    ensures
        trace_streams(frame, reverted).contains(stream) <==> frame_has(frame, reverted, stream),
{
    law_transfers_are_committed_moves(frame, reverted);
    let streams = trace_streams(frame, reverted);
    let input = frame.input@;
    assert(input.take(4) =~= input.subrange(0, 4));
    let a = seq![stream_id(IndexKind::From, frame.from@)];
    let b = match frame.to {
        Some(to) => seq![stream_id(IndexKind::To, to@)],
        None => Seq::empty(),
    };
    let c = if input.len() >= 4 {
        seq![stream_id(IndexKind::Selector, input.subrange(0, 4))]
    } else {
        Seq::empty()
    };
    let d = if frame.trace_address@.len() == 0 {
        seq![stream_id(IndexKind::TopLevel, Seq::empty())]
    } else {
        Seq::empty()
    };
    let e = if frame.spec_is_transfer(reverted) {
        seq![stream_id(IndexKind::HasTransfer, Seq::empty())]
    } else {
        Seq::empty()
    };
    assert(streams =~= a + b + c + d + e);
    lemma_contains_parts(a, b, c, d, e, stream);
}

proof fn lemma_contains_parts(
    a: Seq<Seq<char>>,
    b: Seq<Seq<char>>,
    c: Seq<Seq<char>>,
    d: Seq<Seq<char>>,
    e: Seq<Seq<char>>,
    x: Seq<char>,
)
    requires
        a.len() == 1,
        b.len() <= 1,
        c.len() <= 1,
        d.len() <= 1,
        e.len() <= 1,
    ensures
        (a + b + c + d + e).contains(x) <==> {
            ||| a[0] == x
            ||| b.len() == 1 && b[0] == x
            ||| c.len() == 1 && c[0] == x
            ||| d.len() == 1 && d[0] == x
            ||| e.len() == 1 && e[0] == x
        },
{
    let all = a + b + c + d + e;
    assert(all[0] == a[0]);
    let m = a.len() as int;
    let n = m + b.len();
    let o = n + c.len();
    let p = o + d.len();
    if b.len() == 1 {
        assert(all[m] == b[0]);
    }
    if c.len() == 1 {
        assert(all[n] == c[0]);
    }
    if d.len() == 1 {
        assert(all[o] == d[0]);
    }
    if e.len() == 1 {
        assert(all[p] == e[0]);
    }
    if all.contains(x) {
        let i = choose|i: int| 0 <= i < all.len() && all[i] == x;
        assert(i == 0 || i == m || i == n || i == o || i == p);
    }
}

/// The streams of a block's logs stand at the logs' block-wide positions.
proof fn lemma_block_log_streams(logs_by_tx: Seq<Vec<Log>>, t: int, k: int)
    requires
        0 <= t < logs_by_tx.len(),
        0 <= k < logs_by_tx[t]@.len(),
    ensures
        logs_before(logs_by_tx, t) + k < block_log_streams(logs_by_tx).len(),
        block_log_streams(logs_by_tx)[logs_before(logs_by_tx, t) + k] == log_streams(
            logs_by_tx[t]@[k].address@,
            logs_by_tx[t]@[k].topics@,
        ),
    decreases logs_by_tx.len(),
{
    let rest = logs_by_tx.drop_last();
    lemma_block_log_total(rest);
    lemma_block_log_total(logs_by_tx);
    lemma_logs_before_part(logs_by_tx, rest.len() as int);
    lemma_logs_before_part(logs_by_tx, t);
    if t < rest.len() {
        lemma_block_log_streams(rest, t, k);
        assert(rest[t] == logs_by_tx[t]);
    }
}

proof fn lemma_logs_before_part(logs_by_tx: Seq<Vec<Log>>, n: int)
    requires
        0 <= n < logs_by_tx.len(),
    ensures
        logs_before(logs_by_tx.drop_last(), n) == logs_before(logs_by_tx, n),
    decreases n,
{
    if n > 0 {
        lemma_logs_before_part(logs_by_tx, n - 1);
    }
}

/// A block's logs have as many stream lists as there are logs.
proof fn lemma_block_log_total(logs_by_tx: Seq<Vec<Log>>)
    ensures
        block_log_streams(logs_by_tx).len() == logs_before(logs_by_tx, logs_by_tx.len() as int),
    decreases logs_by_tx.len(),
{
    if logs_by_tx.len() > 0 {
        let rest = logs_by_tx.drop_last();
        lemma_block_log_total(rest);
        lemma_logs_before_part(logs_by_tx, rest.len() as int);
    }
}

/// An id is entered under a stream: the bit of the id's place in its page is set
/// in the page of that stream.
pub open spec fn is_found(tail: FamilyTail, stream: Seq<char>, id: int) -> bool {
    bits_at(tail.bits(), (stream, (id / 65_536 * 65_536) as u64)).contains((id % 65_536) as u32)
}

/// After a block is accumulated, the id of record `i` is found under a stream
/// exactly when the record has that stream, or it was found before.
proof fn lemma_found(
    before: FamilyTail,
    after: FamilyTail,
    first: u64,
    count: u32,
    block: u64,
    records: Seq<Seq<Seq<char>>>,
    i: int,
    stream: Seq<char>,
)
    requires
        is_accumulated(before, after, first, count, block, records),
        first + records.len() <= u64::MAX,
        0 <= i < records.len(),
    ensures
        is_found(after, stream, first + i) <==> is_found(before, stream, first + i)
            || records[i].contains(stream),
{
    let id = first + i;
    let key = (stream, (id / 65_536 * 65_536) as u64);
    let offset = (id % 65_536) as u32;
    law_bits_are_the_records_ids(before.bits(), first, records, key, offset);
    if records[i].contains(stream) {
        assert(enters(first, records, i, key, offset));
    }
    if exists|j: int| #[trigger] enters(first, records, j, key, offset) {
        let j = choose|j: int| #[trigger] enters(first, records, j, key, offset);
        assert(j == i);
    }
}

/// Log `k` of tx `t` is found under a stream by its id, the block's first log id
/// plus its block-wide position, exactly when it has that stream.
pub proof fn law_logs_are_found(
    before: FamilyTail,
    after: FamilyTail,
    first: u64,
    count: u32,
    block: u64,
    logs_by_tx: Seq<Vec<Log>>,
    t: int,
    k: int,
    stream: Seq<char>,
)
    requires
        is_accumulated(before, after, first, count, block, block_log_streams(logs_by_tx)),
        first + logs_before(logs_by_tx, logs_by_tx.len() as int) <= u64::MAX,
        0 <= t < logs_by_tx.len(),
        0 <= k < logs_by_tx[t]@.len(),
        !is_found(before, stream, first + logs_before(logs_by_tx, t) + k),
    ensures
        is_found(after, stream, first + logs_before(logs_by_tx, t) + k) <==> log_has(
            logs_by_tx[t]@[k].address@,
            logs_by_tx[t]@[k].topics@,
            stream,
        ),
{
    let records = block_log_streams(logs_by_tx);
    let i = logs_before(logs_by_tx, t) + k;
    lemma_block_log_total(logs_by_tx);
    lemma_block_log_streams(logs_by_tx, t, k);
    lemma_found(before, after, first, count, block, records, i, stream);
    law_log_streams_are_its_own(
        logs_by_tx[t]@[k].address@,
        logs_by_tx[t]@[k].topics@,
        stream,
    );
}

/// Tx `i` is found under a stream by its id, the block's first tx id plus its
/// position, exactly when it has that stream.
pub proof fn law_txs_are_found(
    before: FamilyTail,
    after: FamilyTail,
    first: u64,
    count: u32,
    block: u64,
    txs: Seq<IngestTx>,
    i: int,
    stream: Seq<char>,
)
    requires
        is_accumulated(
            before,
            after,
            first,
            count,
            block,
            txs.map_values(|tx: IngestTx| tx_streams_at(tx)),
        ),
        first + txs.len() <= u64::MAX,
        0 <= i < txs.len(),
        envelope_2718_body(txs[i].signed_tx_bytes@) is Some,
        !is_found(before, stream, first + i),
    ensures
        ({
            let body = envelope_2718_body(txs[i].signed_tx_bytes@)->Some_0;
            is_found(after, stream, first + i) <==> tx_has(txs[i].sender@, body.0, body.1, stream)
        }),
{
    let records = txs.map_values(|tx: IngestTx| tx_streams_at(tx));
    let body = envelope_2718_body(txs[i].signed_tx_bytes@)->Some_0;
    lemma_found(before, after, first, count, block, records, i, stream);
    law_tx_streams_are_its_own(txs[i].sender@, body.0, body.1, stream);
    assert(body == (body.0, body.1));
}

/// Frame `i` is found under a stream by its id, the block's first frame id plus
/// its position, exactly when it has that stream; a move under a failed frame is
/// no transfer.
pub proof fn law_frames_are_found(
    before: FamilyTail,
    after: FamilyTail,
    first: u64,
    count: u32,
    block: u64,
    frames: Seq<IngestTrace>,
    i: int,
    stream: Seq<char>,
)
    requires
        is_accumulated(before, after, first, count, block, block_trace_streams(frames)),
        first + frames.len() <= u64::MAX,
        0 <= i < frames.len(),
        !is_found(before, stream, first + i),
    ensures
        is_found(after, stream, first + i) <==> frame_has(
            frames[i],
            ancestor_failed(frames, i),
            stream,
        ),
{
    let records = block_trace_streams(frames);
    lemma_found(before, after, first, count, block, records, i, stream);
    law_frame_streams_are_its_own(frames[i], ancestor_failed(frames, i), stream);
}

/// Accumulating a block enters no id but the block's own, and files exactly one
/// directory entry for it, from its first id to behind its last; a block without
/// records files none.
pub proof fn law_block_enters_only_its_ids(
    before: FamilyTail,
    after: FamilyTail,
    first: u64,
    count: u32,
    block: u64,
    records: Seq<Seq<Seq<char>>>,
    stream: Seq<char>,
    id: int,
)
    requires
        is_accumulated(before, after, first, count, block, records),
        first + records.len() <= u64::MAX,
        count == records.len(),
        0 <= id <= u64::MAX,
        !(first <= id < first + count),
    ensures
        is_found(after, stream, id) <==> is_found(before, stream, id),
        count == 0 ==> after.dir@ == before.dir@,
        count > 0 ==> after.dir@.len() == before.dir@.len() + 1 && after.dir@.drop_last()
            == before.dir@ && after.dir@.last().0 == block && after.dir@.last().1 == first
            && after.dir@.last().2 == first + count,
{
    let key = (stream, (id / 65_536 * 65_536) as u64);
    let offset = (id % 65_536) as u32;
    law_bits_are_the_records_ids(before.bits(), first, records, key, offset);
    if exists|j: int| #[trigger] enters(first, records, j, key, offset) {
        let j = choose|j: int| #[trigger] enters(first, records, j, key, offset);
        assert(first + j == id);
    }
    if count > 0 {
        assert(after.dir@.drop_last() =~= before.dir@);
    }
}

} // verus!
