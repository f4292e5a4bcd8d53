# onto_extra

Extraction of knowledge graphs from text, driven by a JSON-LD ontology.
The ontology's classes and relations become a BAML schema that steers an
LLM extractor; the entities it extracts become Cypher statements that store
them in Neo4j.

## Layout

- `src/` — the library, verified with Verus.
  - `json.rs` — an owned JSON value and its mathematical model.
  - `text.rs`, `assoc.rs` — string helpers and a string-keyed map.
  - `ontology/` — the model (`model.rs`), prefix resolution (`resolver.rs`),
    JSON-LD parsing (`parse.rs`), the JSON Schema and lookups (`schema.rs`),
    and what holds of every parsed ontology (`laws.rs`).
  - `persistence/` — the Cypher generator (`cypher.rs`) and its laws.
  - `extraction/` — the BAML schema and the replacement of entity ids by
    UUIDs (`baml.rs`), and their laws.
  - `neo4j.rs` — the HTTP transaction protocol: request bodies, response
    checks and graph rows.
- `app/` — the HTTP service: file and network I/O, the BAML client, the
  Neo4j client, and the error types with `Display`.
- `tests/` — tests of the library on concrete values.
