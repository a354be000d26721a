# hrest_core

HRest encodes JSON payloads as a compact binary TLV stream. A per-route
contract maps every field name to a one-byte token ID; encoding writes an
object as `(token ID, type byte, value)` triples, decoding reads them back and
refuses unknown tokens, unknown type bytes, truncated input, nesting deeper
than 32 levels and non-finite floats.

## Layout

- `src/` — the library, verified with Verus.
  - `varint.rs`: ZigZag + LEB128 integers, with their round-trip law.
  - `wire.rs`: the wire format as spec functions (`spec_encode_payload`,
    `spec_decode_payload`).
  - `encoder.rs`, `decoder.rs`: the executable codec, proved equal to the
    spec functions.
  - `round_trip.rs`: decoding an encoding gives the payload back.
  - `contract.rs`, `loader.rs`, `canonical.rs`: field maps, contract loading
    and validation, and the canonical JSON text whose SHA-256 is the
    contract hash.
  - `laws.rs`: properties that span several functions.
  - `outside.rs`, `text.rs`: the calls into `hex`, `sha2`, `serde_json` and
    std, each behind a small trusted wrapper with its contract.
- `tests/` — unit and integration tests, run against the compiled library.
- `app/` — JSON text parsing and printing, reading the contract file, and the
  C and WebAssembly exports.
