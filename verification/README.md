# glh

GLH is a small binary format for a tagged value tree (null, bool, int, float,
string, bytes, array, ordered object, hash map) behind an 8-byte header
(`GLH`, version 1, total length as a little-endian `u32`).

- `src/` is the library, verified with Verus:
  - `models/data.rs`: the tree `Data` (floats as their bit patterns, hash maps
    as key/value pairs with distinct keys) and its model `Value`;
  - `format.rs`: the format as spec functions (`encode_file`, `decode_file`,
    `check_header`, the cursor readers) and the error messages;
  - `helpers.rs`, `functions/reader.rs`, `functions/writer.rs`: the cursor
    readers, `verify`, `decode_value`, `decode`, `encode`,
    `serialize_to_bytes`, each proved against those spec functions;
  - `laws.rs`: what holds across them, e.g. that decoding an encoded
    well-formed value gives the value back, at any cursor position.
- `Data`'s `==` compares floats by IEEE-754 equality and hash maps as maps.
- `app/` holds file I/O and the serde/JSON bridge, with a copy of the tree
  that uses `f64` and `HashMap`.
