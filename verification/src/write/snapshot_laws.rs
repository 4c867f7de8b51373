//! Which generation a store commits, what its manifest row says, and what a
//! payload must be to be served.

use vstd::prelude::*;

use crate::be::{
    be_bytes, lemma_be_bytes_len, lemma_be_limit_values, lemma_be_value_of_bytes,
};
use crate::errors::QueryError;
use crate::write::engine::track_wf;
use crate::write::family::FamilyFrontier;
use crate::write::index::{FamilyState, FamilyTail, OpenState, OpenTail};
use crate::write::probe::{monus, wrapped};
use crate::write::snapshot::{
    blake3_of, commits, descends, is_covered, is_manifest_row, manifest_bytes, may_touch,
    payload_matches, reads_as, SnapshotManifest, StoreCall, StorePhase, StoreRun,
};
use crate::write::snapshot_codec::{snapshot_bytes, state_bytes, tail_bytes};

verus! {

/// A generation is stored exactly if none was committed before or it is newer
/// than the committed one.
pub proof fn law_newer_generations_are_stored(
    previous: Option<SnapshotManifest>,
    generation: u64,
)
    ensures
        !is_covered(previous, generation) <==> (previous matches Some(p) ==> p.generation
            < generation),
{
}

/// A manifest row has its fields at fixed places: magic, version, generation,
/// payload length, digest, and the generation before, all numbers big-endian.
pub proof fn law_manifest_fields_have_their_places(manifest: SnapshotManifest)
    ensures
        ({
            let row = manifest_bytes(manifest);
            &&& row.len() == 62
            &&& row.subrange(0, 4) == seq![0x43u8, 0x44u8, 0x53u8, 0x4du8]
            &&& row[4] == 1
            &&& row.subrange(5, 13) == be_bytes(manifest.generation as nat, 8)
            &&& row.subrange(13, 21) == be_bytes(manifest.payload_len as nat, 8)
            &&& row.subrange(21, 53) == manifest.digest@
            &&& match manifest.previous {
                Some(previous) => row[53] == 1 && row.subrange(54, 62) == be_bytes(
                    previous as nat,
                    8,
                ),
                None => row[53] == 0 && row.subrange(54, 62) == be_bytes(0, 8),
            }
        }),
{
    let row = manifest_bytes(manifest);
    lemma_be_bytes_len(manifest.generation as nat, 8);
    lemma_be_bytes_len(manifest.payload_len as nat, 8);
    lemma_be_bytes_len(0, 8);
    if let Some(previous) = manifest.previous {
        lemma_be_bytes_len(previous as nat, 8);
        assert(row.subrange(54, 62) =~= be_bytes(previous as nat, 8));
    } else {
        assert(row.subrange(54, 62) =~= be_bytes(0, 8));
    }
    assert(row.subrange(0, 4) =~= seq![0x43u8, 0x44u8, 0x53u8, 0x4du8]);
    assert(row.subrange(5, 13) =~= be_bytes(manifest.generation as nat, 8));
    assert(row.subrange(13, 21) =~= be_bytes(manifest.payload_len as nat, 8));
    assert(row.subrange(21, 53) =~= manifest.digest@);
}

/// A row of another length, with another magic or version, or with a flag that
/// is neither zero nor one is no manifest.
pub proof fn law_other_rows_are_no_manifest(row: Seq<u8>)
    requires
        is_manifest_row(row),
    ensures
        row.len() == 62,
        row[0] == 0x43,
        row[1] == 0x44,
        row[2] == 0x53,
        row[3] == 0x4d,
        row[4] == 1,
        row[53] == 0 || row[53] == 1,
{
    let head = row.take(4);
    assert(head[0] == row[0]);
    assert(head[1] == row[1]);
    assert(head[2] == row[2]);
    assert(head[3] == row[3]);
}

/// A payload is served only if it is as long as the committed one and has its
/// digest; the committed one is.
pub proof fn law_served_payload_has_the_digest(
    manifest: SnapshotManifest,
    previous: Option<SnapshotManifest>,
    generation: u64,
    stored: Seq<u8>,
    payload: Seq<u8>,
)
    requires
        commits(manifest, previous, generation, stored),
    ensures
        payload_matches(manifest, stored),
        payload_matches(manifest, payload) ==> payload.len() == stored.len() && blake3_of(payload)
            == blake3_of(stored),
        manifest.generation == generation,
        manifest.previous is Some <==> previous is Some,
        previous matches Some(p) ==> manifest.previous == Some(p.generation),
{
}

/// A failed call ends a run with its error, but for the last: that the old
/// generation could not be removed is no failure.
pub proof fn law_only_the_discard_may_fail(run: StoreRun, error: QueryError, call: StoreCall)
    requires
        run.makes(run.next_phase(Err(error)), Err(error), call),
    ensures
        run.phase is Removing || run.phase is Writing || run.phase is Committing ==> call
            == StoreCall::Finish(Err(error)),
        run.phase is Discarding ==> call == StoreCall::Finish(Ok(())),
{
}

/// A run whose calls succeed removes what lies at the target key, writes the
/// payload there, puts the manifest row, and removes the generation before the
/// one that it replaces, if there is one.
pub proof fn law_store_calls_come_in_order(run: StoreRun, call: StoreCall)
    requires
        run.makes(run.next_phase(Ok(())), Ok(()), call),
    ensures
        match run.phase {
            StorePhase::Begun => call matches StoreCall::Remove(key) && key@ == be_bytes(
                run.manifest.generation as nat,
                8,
            ),
            StorePhase::Removing => call matches StoreCall::Write(key, payload) && key@ == be_bytes(
                run.manifest.generation as nat,
                8,
            ) && payload@ == run.payload@,
            StorePhase::Writing => call matches StoreCall::Commit(row) && is_manifest_row(row@)
                && reads_as(row@, run.manifest),
            StorePhase::Committing => match run.previous {
                Some(previous) => match previous.previous {
                    Some(old) => call matches StoreCall::Discard(key) && key@ == be_bytes(
                        old as nat,
                        8,
                    ),
                    None => call == StoreCall::Finish(Ok(())),
                },
                None => call == StoreCall::Finish(Ok(())),
            },
            _ => call == StoreCall::Finish(Ok(())),
        },
{
    crate::write::snapshot::law_manifest_round_trip(run.manifest);
}

/// A payload begins with its version, its block and its frontiers.
pub proof fn law_payload_begins_with_its_position(
    state: OpenState,
    tail: OpenTail,
    block: u64,
    frontier: FamilyFrontier,
)
    ensures
        ({
            let bytes = snapshot_bytes(state, tail, block, frontier);
            &&& bytes.len() >= 33
            &&& bytes[0] == 1
            &&& bytes.subrange(1, 9) == be_bytes(block as nat, 8)
            &&& bytes.subrange(9, 17) == be_bytes(frontier.log as nat, 8)
            &&& bytes.subrange(17, 25) == be_bytes(frontier.tx as nat, 8)
            &&& bytes.subrange(25, 33) == be_bytes(frontier.trace as nat, 8)
        }),
{
    let bytes = snapshot_bytes(state, tail, block, frontier);
    lemma_be_bytes_len(block as nat, 8);
    lemma_be_bytes_len(frontier.log as nat, 8);
    lemma_be_bytes_len(frontier.tx as nat, 8);
    lemma_be_bytes_len(frontier.trace as nat, 8);
    let head = seq![1u8] + be_bytes(block as nat, 8) + be_bytes(frontier.log as nat, 8) + be_bytes(
        frontier.tx as nat,
        8,
    ) + be_bytes(frontier.trace as nat, 8);
    let rest = state_bytes(state.log) + state_bytes(state.tx) + state_bytes(state.trace)
        + tail_bytes(tail.log) + tail_bytes(tail.tx) + tail_bytes(tail.trace);
    assert(bytes =~= head + rest);
    assert(bytes.subrange(1, 9) =~= be_bytes(block as nat, 8));
    assert(bytes.subrange(9, 17) =~= be_bytes(frontier.log as nat, 8));
    assert(bytes.subrange(17, 25) =~= be_bytes(frontier.tx as nat, 8));
    assert(bytes.subrange(25, 33) =~= be_bytes(frontier.trace as nat, 8));
}

/// Every bit of the pages stands for an id from the boundary on and in a page
/// that begins below the frontier.
pub open spec fn bits_lie_between(
    pages: Map<(Seq<char>, u64), Set<u32>>,
    boundary: u64,
    frontier: u64,
) -> bool {
    forall|key: (Seq<char>, u64)| #[trigger]
        pages.contains_key(key) ==> {
            &&& key.1 % 65_536 == 0
            &&& boundary <= key.1 < frontier
            &&& forall|o: u32| #[trigger] pages[key].contains(o) ==> o < 65_536
        }
}

/// A working set is in order exactly if its maps are ordered, its boundary is a
/// page start at or below the frontier, its open pages lie between the two, and
/// it accumulates counts of the boundary's page group alone.
pub proof fn law_order_is_what_indexing_needs(
    state: FamilyState,
    tail: FamilyTail,
    frontier: u64,
)
    ensures
        track_wf(state, tail, frontier) <==> {
            &&& state.pages.wf()
            &&& tail.pages.wf()
            &&& state.sealed_page_counts.wf()
            &&& state.sealed_id % 65_536 == 0
            &&& state.sealed_id <= frontier
            &&& bits_lie_between(state.bits(), state.sealed_id, frontier)
            &&& bits_lie_between(tail.bits(), state.sealed_id, frontier)
            &&& forall|key: (Seq<char>, u64)| #[trigger]
                state.sealed_page_counts.map().contains_key(key) ==> key.1 == state.sealed_id
                    - state.sealed_id % 16_777_216
        },
{
    if bits_lie_between(state.bits(), state.sealed_id, frontier) && bits_lie_between(
        tail.bits(),
        state.sealed_id,
        frontier,
    ) {
        assert(crate::write::pages::pages_wf(state.bits(), state.sealed_id));
        assert(crate::write::pages::pages_wf(tail.bits(), state.sealed_id));
        assert(crate::write::engine::pages_below(state.bits(), frontier));
        assert(crate::write::engine::pages_below(tail.bits(), frontier));
    }
    if track_wf(state, tail, frontier) {
        assert(bits_lie_between(state.bits(), state.sealed_id, frontier)) by {
            assert forall|key: (Seq<char>, u64)| #[trigger] state.bits().contains_key(key) implies {
                &&& key.1 % 65_536 == 0
                &&& state.sealed_id <= key.1 < frontier
                &&& forall|o: u32| #[trigger] state.bits()[key].contains(o) ==> o < 65_536
            } by {
                assert(crate::write::bitmap::in_page(state.bits()[key]));
            }
        }
        assert(bits_lie_between(tail.bits(), state.sealed_id, frontier)) by {
            assert forall|key: (Seq<char>, u64)| #[trigger] tail.bits().contains_key(key) implies {
                &&& key.1 % 65_536 == 0
                &&& state.sealed_id <= key.1 < frontier
                &&& forall|o: u32| #[trigger] tail.bits()[key].contains(o) ==> o < 65_536
            } by {
                assert(crate::write::bitmap::in_page(tail.bits()[key]));
            }
        }
    }
}

/// Counters wrap at the width of their type, and a growth is the difference, or
/// nothing where the earlier copy is the larger.
pub proof fn law_counters_count(a: u64, b: u64)
    ensures
        wrapped(a, b) == (a + b) % 0x1_0000_0000_0000_0000,
        a >= b ==> monus(a, b) == a - b,
        a <= b ==> monus(a, b) == 0,
        a + b <= u64::MAX ==> monus(wrapped(a, b) as u64, a) == b,
{
}

/// Storing a generation touches no blob of another table, and of its own only
/// the blob of the generation and that of the one before the committed one: the
/// committed payload stays until the new one is committed.
pub proof fn law_committed_payload_is_not_touched(
    previous: Option<SnapshotManifest>,
    generation: u64,
    table: Seq<char>,
    key: Seq<u8>,
)
    ensures
        may_touch(previous, generation, table, key) ==> table == "ingest_snapshot"@,
        may_touch(previous, generation, table, key) ==> exists|g: u64|
            #[trigger] be_bytes(g as nat, 8) == key && (g == generation || (previous matches Some(
                p,
            ) && p.previous == Some(g))),
        (previous matches Some(p) && descends(p) && key == be_bytes(p.generation as nat, 8))
            ==> !may_touch(previous, generation, table, key),
{
    if may_touch(previous, generation, table, key) {
        if key == be_bytes(generation as nat, 8) {
        } else {
            let g = previous->Some_0.previous->Some_0;
            assert(be_bytes(g as nat, 8) == key);
        }
    }
    if let Some(p) = previous {
        lemma_be_limit_values();
        lemma_be_value_of_bytes(p.generation as nat, 8);
        lemma_be_value_of_bytes(generation as nat, 8);
        if let Some(q) = p.previous {
            lemma_be_value_of_bytes(q as nat, 8);
        }
    }
}

} // verus!
