//! Checkpoint persistence.
//!
//! The snapshot payload, which can exceed any meta-row size limit, is one
//! object in the blob store, keyed by its generation; then a small manifest row
//! is committed to the meta store with a single put. The manifest is the only
//! thing the loader trusts, so a crash between the two leaves the old manifest
//! pointing at the old, complete generation.
//!
//! The generation is the checkpoint block number. Successive checkpoints carry
//! non-decreasing block numbers; one that does not increase is skipped.

use vstd::prelude::*;
use vstd::string::StringExecFns;

use crate::be::{
    be_bytes, be_value, lemma_be_bytes_len, lemma_be_limit_values, lemma_be_order,
    lemma_be_value_of_bytes, lex_lt, put_u64, read_be,
};
use crate::errors::{QueryError, Result};
use crate::rlp::append_bytes;
use crate::store::blob::{BlobStore, BlobTableId};
use crate::store::meta::{opt_bytes, MetaStore, TableId};
use crate::text::{decimal, put_decimal};

verus! {

/// The digest that `blake3::hash` gives for bytes.
pub uninterp spec fn blake3_of(bytes: Seq<u8>) -> Seq<u8>;

/// `blake3::hash`: 32 bytes that depend on the input alone.
#[verifier::external_body]
fn blake3_hash(bytes: &[u8]) -> (digest: [u8; 32])
    ensures
        digest@ == blake3_of(bytes@),
{
    *blake3::hash(bytes).as_bytes()
}

/// The committed pointer to the latest snapshot generation.
#[derive(Debug, Clone, Copy, PartialEq, Eq)]
pub struct SnapshotManifest {
    pub generation: u64,
    pub payload_len: u64,
    pub digest: [u8; 32],
    pub previous: Option<u64>,
}

pub const MANIFEST_MAGIC: [u8; 4] = [0x43, 0x44, 0x53, 0x4d];

pub const MANIFEST_VERSION: u8 = 1;

/// Magic, version, generation, payload length, digest, previous flag, previous
/// generation.
pub const MANIFEST_LEN: usize = 62;

/// The row of a manifest.
pub open spec fn manifest_bytes(manifest: SnapshotManifest) -> Seq<u8> {
    MANIFEST_MAGIC@ + seq![MANIFEST_VERSION] + be_bytes(manifest.generation as nat, 8) + be_bytes(
        manifest.payload_len as nat,
        8,
    ) + manifest.digest@ + (match manifest.previous {
        Some(previous) => seq![1u8] + be_bytes(previous as nat, 8),
        None => seq![0u8] + be_bytes(0, 8),
    })
}

/// Bytes are a manifest row: right length, magic and version, and a flag that
/// is zero or one.
pub open spec fn is_manifest_row(bytes: Seq<u8>) -> bool {
    &&& bytes.len() == MANIFEST_LEN
    &&& bytes.take(4) == MANIFEST_MAGIC@
    &&& bytes[4] == MANIFEST_VERSION
    &&& bytes[53] <= 1
}

/// The fields of a manifest row.
pub open spec fn reads_as(bytes: Seq<u8>, manifest: SnapshotManifest) -> bool {
    &&& manifest.generation == be_value(bytes.subrange(5, 13))
    &&& manifest.payload_len == be_value(bytes.subrange(13, 21))
    &&& manifest.digest@ == bytes.subrange(21, 53)
    &&& manifest.previous == if bytes[53] == 1 {
        Some(be_value(bytes.subrange(54, 62)) as u64)
    } else {
        None
    }
}

/// The manifest in an optional row; anything else is none.
pub open spec fn manifest_in(row: Option<Seq<u8>>, manifest: Option<SnapshotManifest>) -> bool {
    match manifest {
        Some(manifest) => row is Some && is_manifest_row(row->Some_0) && reads_as(
            row->Some_0,
            manifest,
        ),
        None => row is None || !is_manifest_row(row->Some_0),
    }
}

/// An encoded manifest decodes to itself.
pub proof fn law_manifest_round_trip(manifest: SnapshotManifest)
    ensures
        is_manifest_row(manifest_bytes(manifest)),
        reads_as(manifest_bytes(manifest), manifest),
{
    let bytes = manifest_bytes(manifest);
    let prior: u64 = match manifest.previous {
        Some(previous) => previous,
        None => 0,
    };
    lemma_be_limit_values();
    lemma_be_bytes_len(manifest.generation as nat, 8);
    lemma_be_bytes_len(manifest.payload_len as nat, 8);
    lemma_be_bytes_len(prior as nat, 8);
    lemma_be_value_of_bytes(manifest.generation as nat, 8);
    lemma_be_value_of_bytes(manifest.payload_len as nat, 8);
    lemma_be_value_of_bytes(prior as nat, 8);
    assert(bytes.take(4) =~= MANIFEST_MAGIC@);
    assert(bytes.subrange(5, 13) =~= be_bytes(manifest.generation as nat, 8));
    assert(bytes.subrange(13, 21) =~= be_bytes(manifest.payload_len as nat, 8));
    assert(bytes.subrange(21, 53) =~= manifest.digest@);
    assert(bytes.subrange(54, 62) =~= be_bytes(prior as nat, 8));
}

impl SnapshotManifest {
    pub fn encode(&self) -> (bytes: Vec<u8>)
        ensures
            bytes@ == manifest_bytes(*self),
    {
        let mut out: Vec<u8> = Vec::new();
        let magic: [u8; 4] = MANIFEST_MAGIC;
        append_bytes(&mut out, &magic);
        out.push(MANIFEST_VERSION);
        put_u64(&mut out, self.generation);
        put_u64(&mut out, self.payload_len);
        append_bytes(&mut out, &self.digest);
        match self.previous {
            Some(previous) => {
                out.push(1);
                put_u64(&mut out, previous);
            },
            None => {
                out.push(0);
                put_u64(&mut out, 0);
            },
        }
        assert(out@ =~= manifest_bytes(*self));
        out
    }

    /// `None` = not a manifest (wrong magic, version, length or flag).
    pub fn decode(bytes: &[u8]) -> (manifest: Option<SnapshotManifest>)
        ensures
            manifest_in(Some(bytes@), manifest),
    {
        if bytes.len() != MANIFEST_LEN {
            return None;
        }
        let magic: [u8; 4] = MANIFEST_MAGIC;
        assert(bytes@.take(4) == magic@ <==> bytes@[0] == magic@[0] && bytes@[1] == magic@[1]
            && bytes@[2] == magic@[2] && bytes@[3] == magic@[3]) by {
            if bytes@.take(4) == magic@ {
                assert(bytes@.take(4)[0] == magic@[0]);
                assert(bytes@.take(4)[1] == magic@[1]);
                assert(bytes@.take(4)[2] == magic@[2]);
                assert(bytes@.take(4)[3] == magic@[3]);
            }
            if bytes@[0] == magic@[0] && bytes@[1] == magic@[1] && bytes@[2] == magic@[2]
                && bytes@[3] == magic@[3] {
                assert(bytes@.take(4) =~= magic@);
            }
        }
        if bytes[0] != magic[0] || bytes[1] != magic[1] || bytes[2] != magic[2] || bytes[3]
            != magic[3] || bytes[4] != MANIFEST_VERSION || bytes[53] > 1 {
            return None;
        }
        let generation: u64 = read_be(vstd::slice::slice_subrange(bytes, 5, 13));
        let payload_len: u64 = read_be(vstd::slice::slice_subrange(bytes, 13, 21));
        let digest: [u8; 32] = crate::rlp::array32(vstd::slice::slice_subrange(bytes, 21, 53));
        let prior: u64 = read_be(vstd::slice::slice_subrange(bytes, 54, 62));
        let previous: Option<u64> = if bytes[53] == 1 {
            Some(prior)
        } else {
            None
        };
        Some(SnapshotManifest { generation, payload_len, digest, previous })
    }
}

/// Blob key for a snapshot generation: fixed-width big-endian.
pub fn generation_key(generation: u64) -> (key: Vec<u8>)
    ensures
        key@ == be_bytes(generation as nat, 8),
{
    let mut key: Vec<u8> = Vec::new();
    put_u64(&mut key, generation);
    assert(key@ =~= be_bytes(generation as nat, 8));
    key
}

/// Byte order of the keys equals generation order, so distinct generations
/// have distinct keys.
pub proof fn law_generation_keys_sort(a: u64, b: u64)
    ensures
        lex_lt(be_bytes(a as nat, 8), be_bytes(b as nat, 8)) <==> a < b,
        be_bytes(a as nat, 8) == be_bytes(b as nat, 8) ==> a == b,
{
    lemma_be_limit_values();
    lemma_be_bytes_len(a as nat, 8);
    lemma_be_bytes_len(b as nat, 8);
    lemma_be_value_of_bytes(a as nat, 8);
    lemma_be_value_of_bytes(b as nat, 8);
    lemma_be_order(be_bytes(a as nat, 8), be_bytes(b as nat, 8));
}

/// Reads a manifest row for recovery: a present row that does not decode is an
/// error; absence is a store that never checkpointed.
pub fn strict_manifest(row: Option<Vec<u8>>) -> (result: Result<Option<SnapshotManifest>>)
    ensures
        match result {
            Ok(manifest) => manifest_in(opt_bytes(row), manifest) && manifest is None == row is None,
            Err(error) => {
                &&& row is Some && !is_manifest_row(row->Some_0@)
                &&& error == QueryError::Decode("ingest snapshot manifest row failed to decode")
            },
        },
{
    match row {
        None => Ok(None),
        Some(bytes) => match SnapshotManifest::decode(&bytes) {
            Some(manifest) => Ok(Some(manifest)),
            None => Err(QueryError::Decode("ingest snapshot manifest row failed to decode")),
        },
    }
}

/// The payload is the one that the manifest committed.
pub open spec fn payload_matches(manifest: SnapshotManifest, payload: Seq<u8>) -> bool {
    payload.len() == manifest.payload_len && blake3_of(payload) == manifest.digest@
}

/// Why a payload is not the one that the manifest committed.
pub open spec fn payload_fault(
    manifest: SnapshotManifest,
    payload: Option<Seq<u8>>,
) -> Seq<char> {
    match payload {
        None => "ingest snapshot manifest points at generation "@ + decimal(
            manifest.generation as nat,
        ) + " but its payload blob is missing"@,
        Some(payload) => if payload.len() != manifest.payload_len {
            "ingest snapshot generation "@ + decimal(manifest.generation as nat)
                + " payload length mismatch: manifest says "@ + decimal(
                manifest.payload_len as nat,
            ) + ", blob has "@ + decimal(payload.len())
        } else {
            "ingest snapshot generation "@ + decimal(manifest.generation as nat)
                + " payload digest mismatch"@
        },
    }
}

/// Checks a loaded payload against its manifest: a missing blob, a wrong
/// length and a wrong digest are errors.
pub fn check_payload(manifest: &SnapshotManifest, payload: Option<Vec<u8>>) -> (result: Result<
    Vec<u8>,
>)
    ensures
        match result {
            Ok(bytes) => payload == Some(bytes) && payload_matches(*manifest, bytes@),
            Err(error) => {
                &&& payload is None || !payload_matches(*manifest, payload->Some_0@)
                &&& error is Backend
                &&& error.spec_detail() == payload_fault(*manifest, opt_bytes(payload))
            },
        },
{
    let bytes = match payload {
        Some(bytes) => bytes,
        None => {
            let mut text = "ingest snapshot manifest points at generation ".to_owned();
            put_decimal(&mut text, manifest.generation);
            text.append(" but its payload blob is missing");
            return Err(QueryError::Backend(text));
        },
    };
    if bytes.len() as u64 != manifest.payload_len {
        let mut text = "ingest snapshot generation ".to_owned();
        put_decimal(&mut text, manifest.generation);
        text.append(" payload length mismatch: manifest says ");
        put_decimal(&mut text, manifest.payload_len);
        text.append(", blob has ");
        put_decimal(&mut text, bytes.len() as u64);
        return Err(QueryError::Backend(text));
    }
    let digest: [u8; 32] = blake3_hash(&bytes);
    if !crate::be::bytes_eq(&digest, &manifest.digest) {
        let mut text = "ingest snapshot generation ".to_owned();
        put_decimal(&mut text, manifest.generation);
        text.append(" payload digest mismatch");
        return Err(QueryError::Backend(text));
    }
    Ok(bytes)
}

/// The manifest that commits a payload over an earlier one.
pub open spec fn commits(
    manifest: SnapshotManifest,
    previous: Option<SnapshotManifest>,
    generation: u64,
    payload: Seq<u8>,
) -> bool {
    &&& manifest.generation == generation
    &&& manifest.payload_len == payload.len()
    &&& manifest.digest@ == blake3_of(payload)
    &&& manifest.previous == match previous {
        Some(previous) => Some(previous.generation),
        None => None,
    }
}

/// The generation before a manifest's own is lower. Every manifest that
/// [`SnapshotStore::store`] commits is so.
pub open spec fn descends(manifest: SnapshotManifest) -> bool {
    manifest.previous matches Some(previous) ==> previous < manifest.generation
}

/// Storing over `previous` does not discard generation `g`.
pub open spec fn spares(previous: Option<SnapshotManifest>, g: u64) -> bool {
    previous matches Some(previous) ==> previous.previous != Some(g)
}

/// A generation that does not increase is not stored: the committed snapshot
/// already covers it, and the manifest never regresses.
pub open spec fn is_covered(previous: Option<SnapshotManifest>, generation: u64) -> bool {
    previous matches Some(previous) && generation <= previous.generation
}

/// A stored generation lies above the one it replaces, so the manifest never
/// regresses and the generation before the previous one is neither of the two
/// that are kept.
pub proof fn law_generations_ascend(
    manifest: SnapshotManifest,
    previous: Option<SnapshotManifest>,
    generation: u64,
    payload: Seq<u8>,
)
    requires
        commits(manifest, previous, generation, payload),
        !is_covered(previous, generation),
    ensures
        descends(manifest),
        previous matches Some(p) ==> p.generation < manifest.generation,
        previous matches Some(p) ==> descends(p) && p.previous is Some ==> p.previous->Some_0
            < p.generation < manifest.generation,
{
}

/// Decides what storing a payload commits; none where the committed snapshot
/// covers the generation.
pub fn plan_store(previous: &Option<SnapshotManifest>, generation: u64, payload: &[u8]) -> (manifest:
    Option<SnapshotManifest>)
    ensures
        match manifest {
            Some(manifest) => !is_covered(*previous, generation) && commits(
                manifest,
                *previous,
                generation,
                payload@,
            ),
            None => is_covered(*previous, generation),
        },
{
    let prior: Option<u64> = match previous {
        Some(previous) => {
            if generation <= previous.generation {
                return None;
            }
            Some(previous.generation)
        },
        None => None,
    };
    let digest: [u8; 32] = blake3_hash(payload);
    Some(
        SnapshotManifest {
            generation,
            payload_len: payload.len() as u64,
            digest,
            previous: prior,
        },
    )
}

/// How far storing a generation has come.
#[derive(Debug, Clone, Copy, PartialEq, Eq, Structural)]
pub enum StorePhase {
    /// Nothing was called yet.
    Begun,
    /// The object at the target key is being removed.
    Removing,
    /// The payload is being written.
    Writing,
    /// The manifest row is being put.
    Committing,
    /// The generation before the previous one is being removed.
    Discarding,
    /// Nothing is left to call.
    Finished,
}

/// The next store call of a run, or its outcome.
#[derive(Debug)]
pub enum StoreCall {
    /// Remove the object at the key.
    Remove(Vec<u8>),
    /// Write the payload at the key.
    Write(Vec<u8>, Vec<u8>),
    /// Put the manifest row.
    Commit(Vec<u8>),
    /// Remove the object at the key; failing to changes nothing.
    Discard(Vec<u8>),
    Finish(Result<()>),
}

/// Storing one generation, as a sequence of store calls: the payload first, so
/// that the manifest put commits it, and only then the removal of the
/// generation before the previous one.
///
/// The target key is removed before it is written, so an object left at it by
/// an earlier crash cannot leave bytes behind.
pub struct StoreRun {
    pub phase: StorePhase,
    /// What was committed before.
    pub previous: Option<SnapshotManifest>,
    /// What the run commits.
    pub manifest: SnapshotManifest,
    pub payload: Vec<u8>,
}

impl StoreRun {
    /// The generation that a committed run drops.
    pub open spec fn stale(self) -> Option<u64> {
        match self.previous {
            Some(previous) => previous.previous,
            None => None,
        }
    }

    /// What follows when the last call answered `outcome`: the phase that the
    /// run comes to. A failure ends it, but for that of the discard.
    pub open spec fn next_phase(self, outcome: Result<()>) -> StorePhase {
        match self.phase {
            StorePhase::Begun => StorePhase::Removing,
            StorePhase::Removing if outcome is Ok => StorePhase::Writing,
            StorePhase::Writing if outcome is Ok => StorePhase::Committing,
            StorePhase::Committing if outcome is Ok && self.stale() is Some => {
                StorePhase::Discarding
            },
            _ => StorePhase::Finished,
        }
    }

    /// The call that a run makes as it comes to `phase`.
    pub open spec fn makes(self, phase: StorePhase, outcome: Result<()>, call: StoreCall) -> bool {
        let key = be_bytes(self.manifest.generation as nat, 8);
        match phase {
            StorePhase::Begun => false,
            StorePhase::Removing => call matches StoreCall::Remove(at) && at@ == key,
            StorePhase::Writing => call matches StoreCall::Write(at, payload) && at@ == key
                && payload@ == self.payload@,
            StorePhase::Committing => call matches StoreCall::Commit(row) && row@
                == manifest_bytes(self.manifest),
            StorePhase::Discarding => call matches StoreCall::Discard(at) && at@ == be_bytes(
                self.stale()->Some_0 as nat,
                8,
            ),
            StorePhase::Finished => call == StoreCall::Finish(
                if self.phase is Discarding || self.phase is Finished {
                    Ok(())
                } else {
                    outcome
                },
            ),
        }
    }

    /// Plans to store a generation over what the manifest row holds; `None`
    /// where the committed snapshot covers it. A row that is no manifest is
    /// replaced.
    pub fn begin(row: Option<Vec<u8>>, generation: u64, payload: Vec<u8>) -> (run: Option<
        StoreRun,
    >)
        ensures
            match run {
                Some(run) => {
                    &&& run.phase is Begun
                    &&& manifest_in(opt_bytes(row), run.previous)
                    &&& !is_covered(run.previous, generation)
                    &&& commits(run.manifest, run.previous, generation, payload@)
                    &&& run.payload == payload
                },
                None => exists|previous: Option<SnapshotManifest>|
                    #[trigger] manifest_in(opt_bytes(row), previous) && is_covered(
                        previous,
                        generation,
                    ),
            },
    {
        let previous = match row {
            Some(bytes) => SnapshotManifest::decode(&bytes),
            None => None,
        };
        assert(manifest_in(opt_bytes(row), previous));
        match plan_store(&previous, generation, &payload) {
            Some(manifest) => Some(
                StoreRun { phase: StorePhase::Begun, previous, manifest, payload },
            ),
            None => None,
        }
    }

    /// Takes the outcome of the last call (any, at the begin) and says what to
    /// call next.
    pub fn next(&mut self, outcome: Result<()>) -> (call: StoreCall)
        ensures
            final(self).phase == old(self).next_phase(outcome),
            old(self).makes(final(self).phase, outcome, call),
            final(self).previous == old(self).previous,
            final(self).manifest == old(self).manifest,
            !(final(self).phase is Writing) ==> final(self).payload == old(self).payload,
    {
        let phase = self.phase;
        self.phase = StorePhase::Finished;
        if phase == StorePhase::Begun {
            self.phase = StorePhase::Removing;
            return StoreCall::Remove(generation_key(self.manifest.generation));
        }
        if phase == StorePhase::Discarding || phase == StorePhase::Finished {
            return StoreCall::Finish(Ok(()));
        }
        if outcome.is_err() {
            return StoreCall::Finish(outcome);
        }
        if phase == StorePhase::Removing {
            self.phase = StorePhase::Writing;
            let mut payload: Vec<u8> = Vec::new();
            std::mem::swap(&mut self.payload, &mut payload);
            return StoreCall::Write(generation_key(self.manifest.generation), payload);
        }
        if phase == StorePhase::Writing {
            self.phase = StorePhase::Committing;
            return StoreCall::Commit(self.manifest.encode());
        }
        let stale: Option<u64> = match &self.previous {
            Some(previous) => previous.previous,
            None => None,
        };
        match stale {
            Some(stale) => {
                self.phase = StorePhase::Discarding;
                StoreCall::Discard(generation_key(stale))
            },
            None => StoreCall::Finish(outcome),
        }
    }
}

/// The manifest is put only after the payload was written, and nothing that it
/// could still point at is removed before it is put: a run that stops anywhere
/// leaves the committed generation's payload in place.
pub proof fn law_payload_before_manifest(run: StoreRun, outcome: Result<()>, call: StoreCall)
    requires
        run.makes(run.next_phase(outcome), outcome, call),
        !is_covered(run.previous, run.manifest.generation),
    ensures
        call is Commit ==> run.phase is Writing && outcome is Ok,
        call is Discard ==> run.phase is Committing && outcome is Ok,
        call matches StoreCall::Remove(key) ==> run.previous is Some ==> key@ != be_bytes(
            run.previous->Some_0.generation as nat,
            8,
        ),
        call matches StoreCall::Write(key, _) ==> run.previous is Some ==> key@ != be_bytes(
            run.previous->Some_0.generation as nat,
            8,
        ),
{
    if run.previous is Some {
        law_generation_keys_sort(run.manifest.generation, run.previous->Some_0.generation);
    }
}

/// The refusal of a checkpoint that cannot be read and is not covered.
pub open spec fn leftover_text(generation: u64, head: u64) -> Seq<char> {
    "checkpoint generation "@ + decimal(generation as nat) + " is ahead of the published head "@
        + decimal(head as nat)
        + " but its payload lives in a blob store this config no longer has; restore [store.blob] for one run (or reset the store) before going blob-less"@
}

/// What a manifest left behind by a blob-backed past means for a store without
/// payloads.
pub fn check_leftover(manifest: Option<SnapshotManifest>, head: u64) -> (result: Result<()>)
    ensures
        match result {
            Ok(_) => manifest is None || manifest->Some_0.generation <= head,
            Err(error) => {
                &&& manifest is Some && manifest->Some_0.generation > head
                &&& error is Backend
                &&& error.spec_detail() == leftover_text(manifest->Some_0.generation, head)
            },
        },
{
    match manifest {
        Some(manifest) => {
            if manifest.generation > head {
                let mut text = "checkpoint generation ".to_owned();
                put_decimal(&mut text, manifest.generation);
                text.append(" is ahead of the published head ");
                put_decimal(&mut text, head);
                text.append(
                    " but its payload lives in a blob store this config no longer has; restore [store.blob] for one run (or reset the store) before going blob-less",
                );
                return Err(QueryError::Backend(text));
            }
            Ok(())
        },
        None => Ok(()),
    }
}

/// Key of the manifest row.
pub const MANIFEST_KEY: [u8; 6] = [0x6c, 0x61, 0x74, 0x65, 0x73, 0x74];

/// The snapshot of a store: payload blobs and one manifest row.
pub struct SnapshotStore<M, B> {
    pub meta: M,
    pub blobs: B,
    /// `false` for a store without blobs: checkpoint payloads can be neither
    /// written nor read.
    pub payloads_enabled: bool,
}

/// Table of the manifest row, and of the payload blobs.
pub open spec fn snapshot_table() -> Seq<char> {
    "ingest_snapshot"@
}

/// The manifest row is there and is no manifest, and the error says so.
pub open spec fn is_row_fault(row: Option<Seq<u8>>, error: QueryError) -> bool {
    &&& row is Some && !is_manifest_row(row->Some_0)
    &&& error == QueryError::Decode("ingest snapshot manifest row failed to decode")
}

/// What a load finds wrong: the row is no manifest, or its payload is missing
/// or not the one that it committed.
pub open spec fn is_load_fault<M: MetaStore, B: BlobStore>(
    store: SnapshotStore<M, B>,
    error: QueryError,
) -> bool {
    ||| is_row_fault(store.row(), error)
    ||| exists|manifest: SnapshotManifest|
        {
            &&& #[trigger] manifest_in(store.row(), Some(manifest))
            &&& store.payload(manifest.generation) matches Some(payload) ==> !payload_matches(
                manifest,
                payload,
            )
            &&& error is Backend
            &&& error.spec_detail() == payload_fault(manifest, store.payload(manifest.generation))
        }
}

/// A blob that storing a generation may write or remove: that of the generation
/// and that of the one before the committed one.
pub open spec fn may_touch(
    previous: Option<SnapshotManifest>,
    generation: u64,
    table: Seq<char>,
    key: Seq<u8>,
) -> bool {
    &&& !is_covered(previous, generation)
    &&& table == snapshot_table()
    &&& key == be_bytes(generation as nat, 8) || (previous is Some
        && previous->Some_0.previous is Some && key == be_bytes(
        previous->Some_0.previous->Some_0 as nat,
        8,
    ))
}

/// What storing a generation does to a store: nothing where the committed
/// snapshot covers it; else the manifest row commits the payload, and the store
/// serves it.
pub open spec fn is_stored<M: MetaStore, B: BlobStore>(
    before: SnapshotStore<M, B>,
    after: SnapshotStore<M, B>,
    generation: u64,
    payload: Seq<u8>,
) -> bool {
    exists|previous: Option<SnapshotManifest>|
        {
            &&& #[trigger] manifest_in(before.row(), previous)
            &&& if is_covered(previous, generation) {
                &&& after.row() == before.row()
                &&& forall|t: Seq<char>, k: Seq<u8>| #[trigger]
                    after.blobs.blob(t, k) == before.blobs.blob(t, k)
            } else {
                &&& exists|manifest: SnapshotManifest|
                    #[trigger] commits(manifest, previous, generation, payload) && after.row()
                        == Some(manifest_bytes(manifest))
                &&& spares(previous, generation) ==> after.payload(generation) == Some(payload)
                    && after.serves(payload)
            }
        }
}

impl<M: MetaStore, B: BlobStore> SnapshotStore<M, B> {
    pub open spec fn wf(self) -> bool {
        self.meta.wf() && self.blobs.blobs_wf()
    }

    /// No operation on either store fails.
    pub open spec fn answers(self) -> bool {
        self.meta.answers() && self.blobs.blobs_answer()
    }

    /// No operation fails that a load needs: the payload is read only where the
    /// row is a manifest.
    pub open spec fn load_answers(self) -> bool {
        &&& self.meta.answers()
        &&& self.row() is Some && is_manifest_row(self.row()->Some_0) ==> self.blobs.blobs_answer()
    }

    /// The manifest row.
    pub open spec fn row(self) -> Option<Seq<u8>> {
        self.meta.kv_at(snapshot_table(), MANIFEST_KEY@)
    }

    /// The payload of a generation.
    pub open spec fn payload(self, generation: u64) -> Option<Seq<u8>> {
        self.blobs.blob(snapshot_table(), be_bytes(generation as nat, 8))
    }

    /// Exactly two payloads are kept: that of the committed generation and, if
    /// there is one, that of the generation before it.
    pub open spec fn keeps_two(self) -> bool {
        match self.row() {
            None => forall|g: u64| (#[trigger] self.payload(g)) is None,
            Some(_) => exists|manifest: SnapshotManifest|
                {
                    &&& #[trigger] manifest_in(self.row(), Some(manifest))
                    &&& descends(manifest)
                    &&& forall|g: u64|
                        (#[trigger] self.payload(g)) is Some <==> g == manifest.generation
                            || manifest.previous == Some(g)
                },
        }
    }

    /// The manifest row and the blob it points at are in order, and hold this
    /// payload.
    pub open spec fn serves(self, payload: Seq<u8>) -> bool {
        exists|manifest: SnapshotManifest|
            #[trigger] manifest_in(self.row(), Some(manifest)) && self.payload(manifest.generation)
                == Some(payload) && payload_matches(manifest, payload)
    }

    pub fn new(meta: M, blobs: B) -> (store: SnapshotStore<M, B>)
        ensures
            store == (SnapshotStore { meta, blobs, payloads_enabled: true }),
    {
        SnapshotStore { meta, blobs, payloads_enabled: true }
    }

    /// For a run without a blob store: no checkpoint is written, and recovery
    /// handles a leftover manifest without touching blobs.
    pub fn without_payloads(meta: M, blobs: B) -> (store: SnapshotStore<M, B>)
        ensures
            store == (SnapshotStore { meta, blobs, payloads_enabled: false }),
    {
        SnapshotStore { meta, blobs, payloads_enabled: false }
    }

    pub(crate) fn read_row(&self) -> (result: Result<Option<Vec<u8>>>)
        requires
            self.wf(),
        ensures
            self.meta.answers() ==> result is Ok,
            result matches Ok(row) ==> opt_bytes(row) == self.row(),
    {
        let key: [u8; 6] = MANIFEST_KEY;
        self.meta.get(TableId::new("ingest_snapshot"), &key)
    }

    /// True when a snapshot row exists, whatever it holds.
    pub fn is_initialized(&self) -> (result: Result<bool>)
        requires
            self.wf(),
        ensures
            self.meta.answers() ==> result is Ok,
            result matches Ok(found) ==> found == (self.row() is Some),
    {
        match self.read_row() {
            Ok(row) => Ok(row.is_some()),
            Err(error) => Err(error),
        }
    }

    /// Loads the latest snapshot payload via the manifest. No row gives
    /// `None`. A present row that is no manifest, or a manifest whose blob is
    /// missing or does not match it, is an error.
    pub fn load(&mut self) -> (result: Result<Option<Vec<u8>>>)
        requires
            old(self).wf(),
        ensures
            final(self).wf(),
            final(self).meta == old(self).meta,
            final(self).payloads_enabled == old(self).payloads_enabled,
            forall|t: Seq<char>, k: Seq<u8>| #[trigger]
                final(self).blobs.blob(t, k) == old(self).blobs.blob(t, k),
            match result {
                Ok(None) => old(self).row() is None,
                Ok(Some(payload)) => old(self).serves(payload@),
                Err(error) => old(self).load_answers() ==> is_load_fault(*old(self), error),
            },
    {
        let row = match self.read_row() {
            Ok(row) => row,
            Err(error) => {
                return Err(error);
            },
        };
        let manifest = match strict_manifest(row) {
            Ok(Some(manifest)) => manifest,
            Ok(None) => {
                return Ok(None);
            },
            Err(error) => {
                return Err(error);
            },
        };
        assert(manifest_in(old(self).row(), Some(manifest)));
        let key = generation_key(manifest.generation);
        let payload = match self.blobs.load(BlobTableId::new("ingest_snapshot"), &key) {
            Ok(payload) => payload,
            Err(error) => {
                return Err(error);
            },
        };
        match check_payload(&manifest, payload) {
            Ok(bytes) => Ok(Some(bytes)),
            Err(error) => Err(error),
        }
    }

    /// Persists one snapshot generation: blob write, then the manifest put as
    /// the commit point, then best-effort removal of the generation before the
    /// previous one.
    ///
    /// The target key is removed before it is written, so an object left at it
    /// by an earlier crash cannot leave bytes behind. Whatever fails, the
    /// committed generation's payload stays.
    pub fn store(&mut self, generation: u64, payload: Vec<u8>) -> (result: Result<()>)
        requires
            old(self).wf(),
        ensures
            final(self).wf(),
            final(self).payloads_enabled == old(self).payloads_enabled,
            forall|previous: SnapshotManifest|
                #[trigger] manifest_in(old(self).row(), Some(previous)) && spares(
                    Some(previous),
                    previous.generation,
                ) ==> final(self).payload(previous.generation) == old(self).payload(
                    previous.generation,
                ),
            old(self).answers() ==> forall|previous: SnapshotManifest|
                #[trigger] manifest_in(old(self).row(), Some(previous)) && !is_covered(
                    Some(previous),
                    generation,
                ) && previous.previous is Some ==> final(self).payload(
                    previous.previous->Some_0,
                ) is None,
            forall|previous: Option<SnapshotManifest>, t: Seq<char>, k: Seq<u8>|
                #![trigger manifest_in(old(self).row(), previous), final(self).blobs.blob(t, k)]
                manifest_in(old(self).row(), previous) && !may_touch(previous, generation, t, k)
                    ==> final(self).blobs.blob(t, k) == old(self).blobs.blob(t, k),
            forall|t: Seq<char>, p: Seq<u8>, c: Seq<u8>| #[trigger]
                final(self).meta.row_at(t, p, c) == old(self).meta.row_at(t, p, c),
            result is Ok ==> forall|t: Seq<char>, k: Seq<u8>|
                !(t == snapshot_table() && k == MANIFEST_KEY@) ==> #[trigger]
                    final(self).meta.kv_at(t, k) == old(self).meta.kv_at(t, k),
            old(self).answers() ==> result is Ok && final(self).answers(),
            old(self).answers() && old(self).keeps_two() ==> final(self).keeps_two(),
            result is Err && old(self).meta.answers() ==> final(self).meta == old(self).meta,
            result is Err && old(self).meta.answers() ==> forall|served: Seq<u8>| #[trigger]
                old(self).serves(served) ==> final(self).serves(served),
            result is Ok ==> is_stored(*old(self), *final(self), generation, payload@),
    {
        let row = match self.read_row() {
            Ok(row) => row,
            Err(error) => {
                return Err(error);
            },
        };
        let ghost written = payload@;
        let mut run = match StoreRun::begin(row, generation, payload) {
            Some(run) => run,
            None => {
                return Ok(());
            },
        };
        let ghost previous = run.previous;
        let ghost manifest = run.manifest;
        assert(manifest_in(old(self).row(), previous));
        proof {
            assert forall|other: SnapshotManifest| #[trigger] manifest_in(
                old(self).row(),
                Some(other),
            ) implies previous is Some && other.generation == previous->Some_0.generation
                && other.previous == previous->Some_0.previous && other.generation != generation by {
            }
            assert forall|g: u64| g != generation implies #[trigger] be_bytes(g as nat, 8)
                != be_bytes(generation as nat, 8) by {
                law_generation_keys_sort(g, generation);
            }
        }
        let blob_table = BlobTableId::new("ingest_snapshot");
        let mut outcome: Result<()> = Ok(());
        if let StoreCall::Remove(key) = run.next(outcome) {
            outcome = self.blobs.remove(blob_table, &key);
        } else {
            return Ok(());
        }
        match run.next(outcome) {
            StoreCall::Write(key, payload) => {
                outcome = self.blobs.store(blob_table, &key, payload);
            },
            StoreCall::Finish(result) => {
                return result;
            },
            _ => {
                return Ok(());
            },
        }
        match run.next(outcome) {
            StoreCall::Commit(row) => {
                let latest: [u8; 6] = MANIFEST_KEY;
                outcome = self.meta.put(TableId::new("ingest_snapshot"), &latest, row);
            },
            StoreCall::Finish(result) => {
                return result;
            },
            _ => {
                return Ok(());
            },
        }
        assert(commits(manifest, previous, generation, written));
        match run.next(outcome) {
            StoreCall::Discard(key) => {
                proof {
                    let stale = run.stale()->Some_0;
                    assert forall|g: u64| g != stale implies #[trigger] be_bytes(g as nat, 8)
                        != be_bytes(stale as nat, 8) by {
                        law_generation_keys_sort(g, stale);
                    }
                }
                let _ = self.blobs.remove(blob_table, &key);
            },
            StoreCall::Finish(result) => {
                if result.is_err() {
                    return result;
                }
            },
            _ => {
                return Ok(());
            },
        }
        proof {
            law_manifest_round_trip(manifest);
            assert(manifest_in(self.row(), Some(manifest)));
            assert(manifest_in(old(self).row(), previous));
            if old(self).answers() && old(self).keeps_two() {
                if old(self).row() is Some {
                    let held = choose|held: SnapshotManifest|
                        {
                            &&& #[trigger] manifest_in(old(self).row(), Some(held))
                            &&& descends(held)
                            &&& forall|g: u64|
                                (#[trigger] old(self).payload(g)) is Some <==> g == held.generation
                                    || held.previous == Some(g)
                        };
                    assert(previous is Some && held.generation == previous->Some_0.generation
                        && held.previous == previous->Some_0.previous);
                }
                assert forall|g: u64|
                    (#[trigger] self.payload(g)) is Some <==> g == manifest.generation
                        || manifest.previous == Some(g) by {
                    let was = old(self).payload(g);
                    law_generation_keys_sort(g, generation);
                    if previous is Some && previous->Some_0.previous is Some {
                        law_generation_keys_sort(g, previous->Some_0.previous->Some_0);
                    }
                }
            }
        }
        Ok(())
    }
}

/// A store serves one payload at most, so what a load gives back after a store
/// is what was stored.
pub proof fn law_served_payload_is_unique<M: MetaStore, B: BlobStore>(
    store: SnapshotStore<M, B>,
    a: Seq<u8>,
    b: Seq<u8>,
)
    requires
        store.serves(a),
        store.serves(b),
    ensures
        a == b,
{
}

/// What storing over a committed snapshot means: one that covers the generation
/// stays committed and served; else the new payload is served, and the
/// committed generation becomes the previous one.
pub proof fn law_stored_generation_is_served<M: MetaStore, B: BlobStore>(
    before: SnapshotStore<M, B>,
    after: SnapshotStore<M, B>,
    previous: Option<SnapshotManifest>,
    generation: u64,
    payload: Seq<u8>,
    latest: SnapshotManifest,
)
    requires
        is_stored(before, after, generation, payload),
        manifest_in(before.row(), previous),
        manifest_in(after.row(), Some(latest)),
    ensures
        is_covered(previous, generation) ==> {
            &&& after.row() == before.row()
            &&& forall|served: Seq<u8>| #[trigger]
                before.serves(served) ==> after.serves(served)
        },
        !is_covered(previous, generation) ==> {
            &&& latest.generation == generation
            &&& latest.previous == match previous {
                Some(previous) => Some(previous.generation),
                None => None,
            }
            &&& spares(previous, generation) ==> after.serves(payload)
        },
{
    let held = choose|held: Option<SnapshotManifest>|
        {
            &&& #[trigger] manifest_in(before.row(), held)
            &&& if is_covered(held, generation) {
                &&& after.row() == before.row()
                &&& forall|t: Seq<char>, k: Seq<u8>| #[trigger]
                    after.blobs.blob(t, k) == before.blobs.blob(t, k)
            } else {
                &&& exists|manifest: SnapshotManifest|
                    #[trigger] commits(manifest, held, generation, payload) && after.row() == Some(
                        manifest_bytes(manifest),
                    )
                &&& spares(held, generation) ==> after.payload(generation) == Some(payload)
                    && after.serves(payload)
            }
        };
    assert(held is Some == previous is Some);
    if is_covered(held, generation) {
        assert forall|served: Seq<u8>| #[trigger] before.serves(served) implies after.serves(
            served,
        ) by {
            let manifest = choose|manifest: SnapshotManifest|
                #[trigger] manifest_in(before.row(), Some(manifest)) && before.payload(
                    manifest.generation,
                ) == Some(served) && payload_matches(manifest, served);
            assert(manifest_in(after.row(), Some(manifest)));
            assert(after.payload(manifest.generation) == before.payload(manifest.generation));
        }
    } else {
        let manifest = choose|manifest: SnapshotManifest|
            #[trigger] commits(manifest, held, generation, payload) && after.row() == Some(
                manifest_bytes(manifest),
            );
        law_manifest_round_trip(manifest);
    }
}

/// A load finds nothing wrong with a store that serves a payload, so it fails
/// only where an operation that it needs fails.
pub proof fn law_served_payload_loads<M: MetaStore, B: BlobStore>(
    store: SnapshotStore<M, B>,
    payload: Seq<u8>,
    error: QueryError,
)
    requires
        store.serves(payload),
    ensures
        store.row() is Some,
        !is_load_fault(store, error),
{
}

} // verus!
