# veloci

The verified core of a small full-text search toolkit, written in Verus.

- `src/expression.rs` — score expressions such as `$SCORE * 2.0`: the
  tokenizer (with the grammar of number literals) and the plan of the
  computation, proved against a character-by-character model.
- `src/compact.rs` — the compact integer format: `vint32` varints and
  length-prefixed sequences, with round-trip lemmas.
- `src/doc_loader.rs` — the index cache of a database and the lookup of a
  document's byte range in the document store.
- `src/fst_index.rs` — fuzzy key search and line maps built with `fst`.
- `src/request_params.rs` — how the search server reads its query strings.

`app/` holds the command-line front end: file I/O, floating-point score
arithmetic and the serde glue of the compact format.
