# json_db

A small in-memory database of JSON rows, verified with Verus.

- `src/json.rs` — JSON values (`Json`, objects as `JsonMap` with their keys
  in order) and their mathematical model `JsonV`.
- `src/assoc.rs` — lists of key/value pairs read as maps (`assoc_get`,
  `assoc_put`), the model of every keyed collection here.
- `src/database/` — tables (`Table`), their rows (`Row`), indexes (`Index`),
  relations between tables (`Relation`, `OneToOne`, `OneToMany`) and the
  database (`Database`).
- `src/database/query/` — selector paths (`SelectParser`) and selection of
  columns across relations (`SelectProcessor`).
- `app/main.rs` — reading and writing a database as a JSON file.
