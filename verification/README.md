# substrate-runtime-fuzzer

Building blocks of a Substrate runtime fuzzing harness, with their behaviour
stated in Verus contracts and proved.

- `src/input.rs`: splitting a fuzzer input into chunks at the `********`
  delimiter, reading each chunk's header (block lapse and origin), and the
  extraction of extrinsics under the per-input block limit and the
  per-block extrinsic limit.
- `src/storage.rs`: `FuzzingExternalities`, a transactional key-value store
  (top-level and child storages, nested transactions as layers of pending
  writes) whose every operation is specified against the abstract model in
  `src/model.rs`.
- `src/laws.rs`: properties spanning several operations: what reads see
  after each write, that rollback undoes a transaction, that commit and
  flush change nothing that reads see.
- `src/compact.rs`: appending to a SCALE-encoded vector in place, with the
  compact length prefix read and written through `parity-scale-codec`.
- `src/bytemap.rs`, `src/bytes.rs`: a map keyed by byte strings and byte
  string comparisons.
- `src/harness.rs`, `src/roundtrip.rs`: decisions the runtime harnesses take
  (the replay step: new blocks and weight metering; searching nested calls;
  balance and broker invariants;
  encoding round trips), on plain values read from the runtime.
- `app/`: the runtime-facing side that Verus does not see: the
  `sp_externalities::Externalities` implementation over the store,
  conversions from and to `sp_core::storage::Storage`, and SCALE decoding of
  extrinsics.
