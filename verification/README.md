# ron

Rusty Object Notation: a reader and writers of RON text whose behaviour is
stated in Verus contracts and proved.

## Layout

- `src/` is the verified library.
  - `parse.rs` and `parse/`: the byte cursor and the scanners of RON's
    tokens (whitespace and comments, identifiers, integers, floats, strings,
    characters, struct names, extension attributes). Each scanner has a
    specification (`*_scan`) that says what it reads and what it fails with.
  - `de.rs`: reading a whole document into a `Value`, and the deserializer's
    steps for typed reading (sequences, tuples, structs, maps, options,
    newtypes, enums).
  - `value.rs`: the `Value` tree and its model; a mapping keeps each key
    once, where it first came, with the value it last had, and mappings
    compare as maps. `ValueMap` is a map from values to values.
  - `meta.rs`: metadata of fields, nested by struct.
  - `ser.rs`, `encode.rs`, `raw.rs`: writers of RON text.
  - `decode.rs`: a character cursor that tracks lines and columns.
  - `error.rs`, `message.rs`, `span.rs`: errors, their messages, and
    positions and spans in a text.
  - `unexpected.rs`: what a value of the wrong type turned out to be, and
    the errors of deserializing into a type.
  - `options.rs`, `extensions.rs`: reading options and extensions.
  - `serde_data.rs`: which serde data types survive untagged, internally
    tagged and flattened representations.
  - `id.rs`: a deserializer that reads only identifiers;
    `conformance.rs`: records of where the published grammar and the parser
    disagree.
  - `roundtrip.rs`: what the writers write, the reader reads back, from
    single integers and strings up to nested values.
- `tests/`: tests of the library.
- `app/`: the connections to serde and rustc-serialize, floating point, and
  I/O, which stay outside the verified part.
