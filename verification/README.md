# elitesql_core

The core of an embedded database, written and proved in Verus: records with many
versions, transactions that read a stable snapshot, secondary and unique indexes,
foreign keys, checkpoints, compaction and recovery.

- `src/` is the library. Every item in it is verified. Contracts speak of views:
  a state is seen as the versions of its records, a record as a map from column
  names to values, an index as a set of pairs. Laws that relate several functions
  stand in `*_laws.rs` and at the end of the modules they belong to.
- What the files of a store hold is `disk.rs`, with the law of recovery: opening
  them gives back what was committed. `disk_steps.rs`, `disk_laws.rs`,
  `disk_loads.rs` and `disk_upkeep.rs` show that every commit, checkpoint, load,
  rewrite and change of the catalog keeps the files and the state in step, and
  `invariant_laws.rs` that each keeps the invariant of the state.
- What an index and a lookup promise over the life of a database stands in
  `index_laws.rs`, `stream_laws.rs`, `marks.rs` and `plain_laws.rs`: an index stays
  in step with the records, a unique one admits a value once, and a lookup finds
  exactly the records with the value, whichever way it goes. `foreign_laws.rs`
  says the same of references: each finds its record.
- `tests/` runs the library on concrete values.
- `app/` is what surrounds it: files, locks, threads, JSON and floats.

Where the library calls another crate, the call stands behind a small function
whose doc comment says what is taken on trust: `checksum.rs` (CRC-32), `ids.rs`
(ULIDs), `bytes.rs` (UTF-8) and `cow.rs` (shared pointers).
