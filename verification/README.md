# dirtydata

A canonical graph IR for audio projects, changed only through patches, with
deterministic hashing, replay, three-way merge, commit validation, an action
language for people, a review DSL, intents and an observer of external files.
The library under `src/` is verified with Verus; `app/` is the command line
around it (files, JSON, terminal output).

## Layout

- `src/ids.rs`, `src/types.rs`, `src/ir.rs`, `src/keyed.rs`: identifiers,
  value types, the graph and string-keyed maps kept in key order.
- `src/patch.rs`: operations, patches, application and replay, with the
  replayability and explainability laws.
- `src/hash.rs`: the canonical byte encoding and BLAKE3 digests.
- `src/diff.rs`, `src/merge.rs`: differences between graphs and the merge of
  two sides (symmetric in its sides).
- `src/topo.rs`, `src/validate.rs`: Kahn's algorithm (with the cycles among
  the nodes it cannot order) and commit validation.
- `src/rack.rs`: a modular rack's cable state as a step function, and the
  order in which its modules run.
- `src/actions.rs`: compiling user actions into operations.
- `src/dsl.rs`, `src/report.rs`: the review DSL, summaries and diagnosis.
- `src/intent.rs`, `src/observer.rs`, `src/storage.rs`, `src/palette.rs`:
  intents, file observations and repair, the store's paths and files, the
  command palette.
- `src/text.rs`, `src/hex.rs`, `src/walk.rs`: text, hexadecimal and
  ordered-walk helpers.
- `app/`: `main.rs` (commands), `store.rs` (the project directory on disk),
  `wire.rs` (the JSON form of the library's values).
- `tests/`: tests run against the compiled library.
