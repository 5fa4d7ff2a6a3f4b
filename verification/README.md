# parson

A JSON parser and serializer in Verus: documents are read into a value tree, checked
against schema values, and written back in compact or pretty form.

- `src/grammar.rs` states the accepted JSON grammar as spec functions over characters
  (whitespace and optional comments, strings with escapes and surrogate pairs, numbers
  without leading zeros, trailing commas, duplicate and NUL keys refused, a nesting limit
  of 2048, a byte order mark skipped, nothing after the value).
- `src/parser.rs` is the recursive-descent parser, proved to return exactly what the grammar
  gives; `src/serializer.rs` writes compact and pretty text, proved against `serialized`.
- `src/roundtrip.rs` proves that the text written for a value parses back to that value, and
  `src/reread.rs` that a parsed document, written again, parses to the same value.
- `src/context.rs` proves that whitespace around a document's value changes nothing,
  `src/comments.rs` that allowing comments only widens what parses, and `src/nesting.rs`
  where the nesting limit falls.
- `src/generate.rs` makes the differential fuzzer's random inputs (with rand's `gen_range`)
  and proves that every valid document it generates parses back to the value it stands for.
- `src/number.rs` keeps numbers as their decimal text and decides, without floating point,
  whether a number overflows binary64.
- `src/object.rs`, `src/array.rs`, `src/value.rs` and `src/validate.rs` hold the value tree,
  its operations and their laws.
- `app/` holds file reading, binary64 conversions and `%1.17g` formatting, the error type's
  `Display`, the WebAssembly export and the loop of the differential fuzzer against
  serde_json.
