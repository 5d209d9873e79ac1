# data_query

Querying of JSON data with small path expressions:

- `.some-key.some-other-key` follows members of objects;
- `.some-array[0]` selects element 0, `[0-2,6]` elements 0, 1, 2 and 6,
  `[3-]` those from 3, `[-3]` those up to 3, `[]` all of them;
- `.some-map[key1, key2]` selects the members `key1` and `key2`.

Layout:

- `src/` is the library, with its specification and proofs: the query language
  and its lexer (`lexer.rs`), running queries over a JSON value (`query.rs`,
  `value.rs`), number keys (`com_type.rs`, `chars.rs`), errors (`error.rs`)
  and the properties proved of the whole (`laws.rs`).
- `app/` is ordinary Rust without proofs: it turns any `serde::Serialize`
  value into the library's JSON value with `serde_json`, runs the query, and
  turns the answer back. Nothing proves it; it is kept to conversions.
- `tests/` runs the library on concrete queries.
