# sexp

A lightweight s-expression parser and data format, verified with Verus.

- `src/text.rs` — character classes, the integer and float literal grammars
  that `i64` and `f64` accept, decimal printing, UTF-8 widths.
- `src/sexp.rs` — the `Atom` and `Sexp` types, their models, constructors
  and accessors.
- `src/error.rs` — parse errors, byte indices, lines and columns.
- `src/grammar.rs` — what reading text gives, as spec functions.
- `src/parser.rs` — the reader, proved to follow `grammar.rs`.
- `src/printer.rs` — the writer, with its text as spec functions.
- `src/map.rs` — reading a list of `(key value)` pairs as a map, its entries
  kept in key order.
- `src/laws.rs` — written text reads back as what was written, when its
  strings are quoted or are non-empty without `(`, `)` or `;`, and its
  floats are float literals that do not read as integers; quoted text
  reads back as its string; the only errors are the text ending too early,
  at its end, and text left over, before it.
- `app/lib.rs` — floats as `f64`, `Display`, `Debug` and `std::error::Error`
  on copies of the types, and a `BTreeMap` view of maps.

A float atom is held by the library as the literal that denotes it, so that
reading, comparing and writing need no floating-point arithmetic.
