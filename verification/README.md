# ProbeDB

An embedded SQL database whose tables hold vectors beside ordinary columns, with its
logic verified by Verus.

- `src/types.rs`, `src/double.rs`, `src/decimal.rs`, `src/natural.rs`, `src/number.rs`,
  `src/text.rs`: values and their texts. Doubles are IEEE 754 binary64 numbers, computed
  on their bit patterns.
- `src/sql/`: the statements and the parser.
- `src/storage/`: the tables, and the text format in which they are saved.
- `src/persistence/`: checks on snapshots, the write-ahead log, and recovery.
- `src/executor/`: conditions, queries, and what statements change.
- `src/db.rs`: the database, from SQL text to result text.
- `app/`: the files on disk, a C interface and a demonstration.

Each module states what it computes as spec functions, and its functions are proved to
return exactly that. Proof functions whose names begin with `law_` state what holds of
several of them together: that a saved database is loaded as it was, that a log replayed
on a snapshot gives back the tables, that a query selects the rows that meet its
condition, and so on.
