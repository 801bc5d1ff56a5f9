# ternary database

An in-memory database for rows whose fields hold ternary values (-1, 0, +1),
written in Verus. Every function carries a contract that Verus proves.

Modules under `src/`:

- `ternary`: the `Ternary` value and `FieldValue`.
- `row`: `Row`, a record of named fields; a name reads as its first entry.
- `table`: `TernaryTable`, rows stored under auto-incremented ids in ascending
  order of id, kept well formed by a type invariant; its view is the name, the
  id sequence, the row sequence and the next id. `history_rows` describes the
  rows that any run of insertions, deletions and changes leaves.
- `index`: `TernaryHashIndex` and `TernaryBTreeIndex`, which file row ids by
  the ternary value of one field.
- `query`: `TernaryQuery` (filter, stable sort, limit, aggregates) and the
  specification of a query's result.
- `transaction`: `TernaryTransaction`, an operation log with a commit flag.
- `text`: character-level helpers (white space, trimming, splitting into
  words) shared by the parser.
- `parser`: `parse_ternary_query` for `SELECT field FROM table [WHERE field op
  value]`, specified over the words of the text; keywords are whole words in
  any case.

Functions named `law_*` are proof functions stating properties that span
several operations. `tests/` holds the executable tests.
