# monad_query

The write side and the storage layer of a chain-data query store, verified with
Verus: what a block's records become as rows and ids, how the index over them is
accumulated, sealed and flushed, how a run resumes, and how rows and blobs are
laid out in their stores.

* `src/types` — blocks, transactions, logs and traces, their row encodings, and
  the checks on externally archived payloads.
* `src/store` — metadata and blob stores: key layouts, batching, retries, range
  reads, caches, and an in-memory store of each kind.
* `src/write` — id assignment, the open index and its sealing, the data track,
  snapshots, recovery, and the publishable head.
* `app` — the async pipeline and the backend clients around the library.

The laws are public proof functions named `law_..`. The ones that span the whole
index are in `src/write/seal_laws.rs` (what a seal emits does not depend on how
often the tail was flushed), `src/write/mirror.rs` and
`src/write/mirror_steps.rs` (the rows written so far mirror the working set, so
a rebuild at a flush boundary gives it back), and `src/write/replay.rs` (a
replay seals identical artifacts). `src/write/order.rs` says when a recovered
working set is in order, and `src/write/truncation.rs` that a cut or foreign
snapshot payload is refused. `src/write/flow.rs` says in which order the tracks
make blocks durable, and when a barrier may be passed.

What is taken on trust is marked `#[verifier::external_body]`: calls into
`alloy`, `roaring`, `blake3`, `quick_cache` and a few functions of the standard
library, each with a comment that says what is claimed of it. Row codecs,
dictionaries and the digests of the checksum chains are supplied by the caller,
as closures or through the traits of `app/engine.rs`.
