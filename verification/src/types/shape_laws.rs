//! Which bytes are rows, where frames stand in their call tree, and how signed
//! transactions are framed.

use vstd::prelude::*;

use crate::be::{be_value, lemma_be_limit_values};
use crate::primitives::CallKind;
use crate::rlp::{
    be_min, is_uint, lemma_be_min_of_value, list_items, payload_items, rlp_items, rlp_list, uint_of,
};
use crate::types::ingest_types::IngestTrace;
use crate::types::logs::{is_log_row, topic_items, StoredLog};
use crate::types::reverts::{ancestor_failed, failed_above, strict_prefix};
use crate::types::trace_address::{
    address_of, count_at, descends_by_one, last_shallower, no_level_skipped, parent_of, ranks_fit,
    sibling_rank,
};
use crate::types::traces::{is_trace_row, path_items, to_bytes, StoredTrace};
use crate::types::txs::{tx_framing, TxKind};

verus! {

/// Kinds and the bytes that they are stored as determine each other, and only
/// six bytes are a kind's.
pub proof fn law_kinds_and_bytes_match(kind: CallKind, byte: u8)
    ensures
        CallKind::spec_from_byte(kind.spec_to_byte()) == Some(kind),
        CallKind::spec_from_byte(byte) == Some(kind) <==> kind.spec_to_byte() == byte,
        CallKind::spec_from_byte(byte) is Some <==> byte < 6,
{
}

proof fn lemma_uint_is_shortest(item: (bool, Seq<u8>), width: nat)
    requires
        is_uint(item, width),
    ensures
        item == (false, be_min(uint_of(item))),
{
    lemma_be_min_of_value(item.1);
}

/// Log rows are canonical: bytes that decode to a log are the ones that it
/// encodes to.
pub proof fn law_log_rows_are_canonical(bytes: Seq<u8>, log: StoredLog)
    requires
        list_items(bytes) is Some,
        is_log_row(list_items(bytes)->Some_0),
        log.reads(list_items(bytes)->Some_0),
    ensures
        bytes == rlp_list(log.items()),
{
    let items = list_items(bytes)->Some_0;
    lemma_uint_is_shortest(items[0], 4);
    lemma_uint_is_shortest(items[1], 4);
    let topics = topic_items(log.topics@);
    assert(payload_items(items[3].1) == Some(topics));
    assert(items[3].1 == rlp_items(topics));
    assert(items =~= log.items());
    assert(bytes == rlp_list(items));
}

/// Frame rows are canonical: bytes that decode to a frame are the ones that it
/// encodes to, but for the byte of a tx that succeeded, which need not be one.
pub proof fn law_frame_rows_are_canonical(bytes: Seq<u8>, trace: StoredTrace)
    requires
        list_items(bytes) is Some,
        is_trace_row(list_items(bytes)->Some_0),
        trace.reads(list_items(bytes)->Some_0),
    ensures
        bytes == rlp_list(list_items(bytes)->Some_0),
        list_items(bytes)->Some_0.len() == 13,
        list_items(bytes)->Some_0.drop_last() == trace.items().drop_last(),
        uint_of(list_items(bytes)->Some_0[12]) <= 1 ==> bytes == rlp_list(trace.items()),
{
    let items = list_items(bytes)->Some_0;
    lemma_uint_is_shortest(items[0], 1);
    lemma_uint_is_shortest(items[3], 32);
    lemma_uint_is_shortest(items[4], 8);
    lemma_uint_is_shortest(items[5], 8);
    lemma_uint_is_shortest(items[8], 1);
    lemma_uint_is_shortest(items[9], 4);
    lemma_uint_is_shortest(items[10], 4);
    lemma_uint_is_shortest(items[12], 1);
    lemma_be_limit_values();
    crate::be::lemma_be_bytes_of_value(items[0].1);
    assert(uint_of(items[0]) < 256) by {
        if items[0].1.len() == 0 {
            assert(be_value(items[0].1) == 0);
        }
    }
    assert(trace.typ.spec_to_byte() == uint_of(items[0]));
    let steps = payload_items(items[11].1)->Some_0;
    assert(items[11].1 == rlp_items(steps));
    assert forall|i: int| 0 <= i < steps.len() implies steps[i] == path_items(
        trace.trace_address@,
    )[i] by {
        assert(is_uint(steps[i], 4));
        lemma_uint_is_shortest(steps[i], 4);
        assert(trace.trace_address@[i] as nat == uint_of(steps[i]));
    }
    assert(steps =~= path_items(trace.trace_address@));
    assert(items.drop_last() =~= trace.items().drop_last());
    if uint_of(items[12]) <= 1 {
        assert(items[12] == trace.items()[12]);
        assert(items =~= trace.items());
    }
}

/// A frame lies under a failed one exactly if some failed frame of its own tx
/// stands on the path from the root to it.
pub proof fn law_failures_stay_in_their_tx(traces: Seq<IngestTrace>, i: int)
    requires
        0 <= i < traces.len(),
    ensures
        ancestor_failed(traces, i) <==> exists|j: int|
            {
                &&& 0 <= j < traces.len()
                &&& (#[trigger] traces[j]).tx_index == traces[i].tx_index
                &&& traces[j].status != 0
                &&& traces[j].trace_address@.len() < traces[i].trace_address@.len()
                &&& forall|k: int|
                    0 <= k < traces[j].trace_address@.len() ==> traces[j].trace_address@[k]
                        == traces[i].trace_address@[k]
            },
        traces[i].trace_address@.len() == 0 ==> !ancestor_failed(traces, i),
{
    let own = traces[i].trace_address@;
    if ancestor_failed(traces, i) {
        let j = choose|j: int| failed_above(traces, i, j);
        let above = traces[j].trace_address@;
        assert forall|k: int| 0 <= k < above.len() implies above[k] == own[k] by {
            assert(above[k] == own.take(above.len() as int)[k]);
        }
        assert(traces[j].tx_index == traces[i].tx_index);
    }
    if exists|j: int|
        {
            &&& 0 <= j < traces.len()
            &&& (#[trigger] traces[j]).tx_index == traces[i].tx_index
            &&& traces[j].status != 0
            &&& traces[j].trace_address@.len() < own.len()
            &&& forall|k: int|
                0 <= k < traces[j].trace_address@.len() ==> traces[j].trace_address@[k] == own[k]
        } {
        let j = choose|j: int|
            {
                &&& 0 <= j < traces.len()
                &&& (#[trigger] traces[j]).tx_index == traces[i].tx_index
                &&& traces[j].status != 0
                &&& traces[j].trace_address@.len() < own.len()
                &&& forall|k: int|
                    0 <= k < traces[j].trace_address@.len() ==> traces[j].trace_address@[k]
                        == own[k]
            };
        let above = traces[j].trace_address@;
        assert(above =~= own.take(above.len() as int));
        assert(strict_prefix(above, own));
        assert(failed_above(traces, i, j));
    }
}

/// The root frame of a tx has the empty address.
pub proof fn law_root_has_the_empty_address(depths: Seq<u32>, i: int)
    requires
        0 <= i < depths.len(),
        depths[i] == 0,
    ensures
        address_of(depths, i) == Seq::<u32>::empty(),
{
    reveal(address_of);
}

/// The first call that a frame makes has the frame's address and a zero.
pub proof fn law_first_call_is_zero(depths: Seq<u32>, i: int)
    requires
        0 < i < depths.len(),
        depths[i] == depths[i - 1] + 1,
    ensures
        address_of(depths, i) == address_of(depths, i - 1).push(0),
{
    reveal(address_of);
    assert(last_shallower(depths, i - 1, depths[i] as int) == i - 1);
    assert(count_at(depths, i, i, depths[i] as int) == 0);
}

proof fn lemma_shallower_skips(depths: Seq<u32>, lo: int, hi: int, level: int)
    requires
        -1 <= lo <= hi < depths.len(),
        forall|k: int| lo < k <= hi ==> (#[trigger] depths[k]) >= level,
    ensures
        last_shallower(depths, hi, level) == last_shallower(depths, lo, level),
    decreases hi - lo,
{
    if lo < hi {
        assert(depths[hi] >= level);
        lemma_shallower_skips(depths, lo, hi - 1, level);
    }
}

proof fn lemma_count_skips(depths: Seq<u32>, from: int, lo: int, hi: int, level: int)
    requires
        from <= lo <= hi <= depths.len(),
        0 <= lo,
        forall|k: int| lo <= k < hi ==> (#[trigger] depths[k]) != level,
    ensures
        count_at(depths, from, hi, level) == count_at(depths, from, lo, level),
    decreases hi - lo,
{
    if lo < hi {
        assert(depths[hi - 1] != level);
        lemma_count_skips(depths, from, lo, hi - 1, level);
    }
}

proof fn lemma_shallower_below(depths: Seq<u32>, from: int, level: int)
    requires
        -1 <= from < depths.len(),
    ensures
        -1 <= last_shallower(depths, from, level) <= from,
    decreases from + 1,
{
    if from >= 0 {
        lemma_shallower_below(depths, from - 1, level);
    }
}

/// The next call that a frame makes has the address of the one before, with its
/// last step counted up by one: only deeper frames lie between them.
pub proof fn law_next_call_counts_up(depths: Seq<u32>, i: int, j: int)
    requires
        ranks_fit(depths),
        0 <= i < j < depths.len(),
        depths[i] > 0,
        depths[j] == depths[i],
        forall|k: int| i < k < j ==> (#[trigger] depths[k]) > depths[i],
        0 <= parent_of(depths, i) < i,
    ensures
        address_of(depths, i).len() > 0,
        address_of(depths, j).len() == address_of(depths, i).len(),
        address_of(depths, j).drop_last() == address_of(depths, i).drop_last(),
        address_of(depths, j).last() == address_of(depths, i).last() + 1,
{
    reveal(address_of);
    let level = depths[i] as int;
    lemma_shallower_skips(depths, i - 1, j - 1, level);
    let parent = parent_of(depths, i);
    assert(parent_of(depths, j) == parent);
    assert(count_at(depths, parent + 1, i + 1, level) == count_at(depths, parent + 1, i, level) + 1);
    lemma_count_skips(depths, parent + 1, i + 1, j, level);
    assert(sibling_rank(depths, j) == sibling_rank(depths, i) + 1);
    assert(sibling_rank(depths, j) < u32::MAX);
    let a = address_of(depths, parent).push(sibling_rank(depths, i) as u32);
    let b = address_of(depths, parent).push(sibling_rank(depths, j) as u32);
    assert(a.drop_last() =~= address_of(depths, parent));
    assert(b.drop_last() =~= address_of(depths, parent));
}

/// A call sequence is taken exactly if it starts at the root and never goes down
/// more than one level at a time.
pub proof fn law_levels_are_not_skipped(depths: Seq<u32>)
    ensures
        no_level_skipped(depths) <==> forall|i: int|
            0 < i < depths.len() ==> (#[trigger] depths[i]) <= depths[i - 1] + 1,
{
    if no_level_skipped(depths) {
        assert forall|i: int| 0 < i < depths.len() implies (#[trigger] depths[i]) <= depths[i - 1]
            + 1 by {
            assert(descends_by_one(depths, i));
        }
    }
}

/// A typed transaction is its type byte and its fields; a legacy one is its
/// fields, which begin with a list header. Nothing else is framed.
pub proof fn law_type_byte_frames_the_fields(fields: Seq<u8>, signed: Seq<u8>)
    ensures
        tx_framing(seq![1u8] + fields) == Some((TxKind::Eip2930, fields)),
        tx_framing(seq![2u8] + fields) == Some((TxKind::Eip1559, fields)),
        tx_framing(seq![3u8] + fields) == Some((TxKind::Eip4844, fields)),
        tx_framing(seq![4u8] + fields) == Some((TxKind::Eip7702, fields)),
        signed.len() > 0 && signed[0] >= 0xc0 ==> tx_framing(signed) == Some(
            (TxKind::Legacy, signed),
        ),
        signed.len() == 0 ==> tx_framing(signed) is None,
        signed.len() > 0 && (signed[0] == 0 || 5 <= signed[0] < 0xc0) ==> tx_framing(
            signed,
        ) is None,
{
    assert((seq![1u8] + fields).skip(1) =~= fields);
    assert((seq![2u8] + fields).skip(1) =~= fields);
    assert((seq![3u8] + fields).skip(1) =~= fields);
    assert((seq![4u8] + fields).skip(1) =~= fields);
}

/// Recipients survive their byte form: an absent one is no bytes, and a present
/// one its twenty.
pub proof fn law_recipients_survive(a: Option<[u8; 20]>, b: Option<[u8; 20]>)
    ensures
        to_bytes(a) == to_bytes(b) <==> a == b,
        a is None <==> to_bytes(a).len() == 0,
        a matches Some(address) ==> to_bytes(a) == address@,
{
    match (a, b) {
        (Some(x), Some(y)) => {
            if x@ == y@ {
                assert(x =~= y);
                assert(x == y);
            }
        },
        (Some(x), None) => {
            assert(x@.len() == 20);
        },
        (None, Some(y)) => {
            assert(y@.len() == 20);
        },
        (None, None) => {},
    }
}

} // verus!
