# abi_values

Encoding and decoding of Solidity ABI values, verified with Verus.

- `src/types.rs` — `Type`, the ABI types, and their model `AbiType`.
- `src/word.rs` — `Uint256`, a 256-bit integer held as four 64-bit limbs;
  big-endian words as mathematical functions; the calls into
  `ethereum_types` (`U256`, `H160`).
- `src/value.rs` — `Value`, the ABI values, and their model `AbiValue`;
  `Value::type_of`.
- `src/encoding.rs` — the head/tail encoding of a sequence of values as
  mathematical functions, with the lemmas about it.
- `src/encode.rs` — `Value::encode`, proved to produce exactly that encoding.
- `src/decoding.rs` — what decoding gives, panics on, or fails on, as
  mathematical functions.
- `src/decode.rs` — `Value::decode_from_slice`, proved to agree with it.
- `src/laws.rs` — properties of the codec as a whole: decoding an encoding
  gives back the values for the values that `round_trips` describes (strings
  and fixed arrays of dynamic elements only in the outermost sequence, arrays
  only of static elements; elsewhere the decoder reads offsets from other
  places), decoded values have the requested types and sizes, encodings are
  made of whole words of a given length, strings encode as their bytes, and
  more.

The tests under `tests/` run the library against `ethereum_types`.
