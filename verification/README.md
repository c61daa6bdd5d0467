# stannum

The logic of a full-text index for PostgreSQL, with its contracts proved by
Verus.

- `src/` is the library. It holds the rules of the extension: ranked retrieval
  with block-max pruning, scoring and its statistics, query fields, scan states
  and their counters, planning decisions, clause recognition, highlighting,
  index options, the dictionary's identity and life cycle. Scores, boosts and
  parameters are held as the bit patterns of their numbers, and arithmetic on
  them comes in through functions that the callers supply.
- `tests/` runs the library on concrete values.
- `app/` is the extension around it. `app/pg.rs` and the files under `app/pg/`
  talk to the server; the others drive the library over traits and need no
  server to compile. The index storage and the query language are crates of
  their own, which implement `host::Host` and `pg::am::Store` and install
  themselves when the extension is loaded.
