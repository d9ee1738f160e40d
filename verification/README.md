# exspec_lang

Language analyzers for Python and Rust projects, verified with Verus: the
file-name conventions that pair tests with production files, helper
detection, import and re-export extraction, HTTP route discovery, Cargo
workspace layout, and the decisions that map test files to the production
code they exercise.

Layout:

- `src/text.rs`, `src/paths.rs` — text and path operations with their
  mathematical models.
- `src/syntax.rs` — tree-sitter syntax trees held as pre-order node
  listings; the parse itself is the only trusted step.
- `src/lang_python/` — Python stems, helpers, imports, re-exports, routes
  (`routes.rs`) and test-function facts (`functions.rs`).
- `src/lang_rust/` — Rust stems, helpers, `use` paths, re-exports,
  workspace members, inline tests and test-function facts.
- `src/mapping.rs` — layer-1 and layer-2 mapping decisions.
- `src/observe.rs` — shared records (re-exports, import mappings,
  production functions, strategies).
- `app/` — file-system and parser plumbing around the library.
- `tests/` — tests on concrete inputs.
