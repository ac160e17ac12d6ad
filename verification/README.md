# smysl

A verified library for the smysl knowledge-record format: identifiers and their text forms,
the record types (units, attestations, relations, threads, views, contentions, pack
descriptions, schema declarations, label bindings), their deterministic CBOR encoding and
strict decoding, the surface-syntax lexer and header values, unknown header keys carried as
payload CBOR, the canonical surface writer, checking attributed quotes against their source,
and the checks a store is held to.

- `src/` is the library. Every function in it is verified by Verus against its contract;
  the few calls into `blake3`, `unicode-normalization` and std that Verus cannot read stand
  behind small trusted wrappers whose contracts say what those crates promise.
- The `*round_trip.rs` modules under `src/cbor/` and the end of `record.rs` prove that the
  reader gives back what the writer wrote, for every payload type and for whole record
  envelopes.
- `src/surface/payload.rs` proves that a payload map's layout does not depend on authored
  order and that the first authored entry under a key wins; `src/surface/payload_laws.rs`
  proves that a payload that reads back is re-emitted byte for byte.
- `app/` holds what works on floats: quantising to 1/1024, the float forms of weights,
  gaps and salience, the numeric reading of header numbers, and the bits each float of an
  object quantises to before it becomes payload. The library carries those
  values as `binary32` bit patterns.
- `tests/` runs the library on concrete values.
