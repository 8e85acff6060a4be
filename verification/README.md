# schema_engine

A schema engine whose logic is verified with Verus.

- `src/names.rs` — name tables: parse-order interning and resolution.
- `src/legacy.rs`, `src/legacy_ingest.rs` — the lowered legacy schema form and its
  migration into the stringless encoded form (`src/encoded.rs`); the two protocol-line
  roots become role-tagged interface declarations.
- `src/shape.rs`, `src/authority_ingest.rs` — the authority-bound path: declared keys
  (resolved names), declared shapes (the hasher updates over resolved structure), and
  the member assignment a universe is built from. `lemma_front_ends_agree` states that
  two front ends parsing the same declared content agree on both.
- `src/storage.rs`, `src/lib.rs` — front-door and storage messages, and the decisions of
  the signal, nexus and storage planes.
- `src/wire.rs`, `src/client.rs` — length-prefixed frames, the command line, and the
  checks each framed connection makes.
- `app/` — the daemon: actors, sockets, the legacy grammar, the native document decode,
  hashing and archiving, all of which live in the schema-language, core-schema,
  name-table, content-identity, signal-schema and signal-sema-storage crates.
