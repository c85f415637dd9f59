# nosql

A small key-value database of nested tables, with its logic verified by Verus.

- `src/data_types`: the stored values (text, 64-bit integers, tables), their byte
  encodings, and the table byte format with its parser (`format.rs`, `roundtrip.rs`).
- `src/commands`: the table commands (`set`, `get`, `touch`, `inc`, `list`, `open`),
  database commands, and the dump file's record format with its loader.
- `src/server.rs`, `src/client.rs`: the framing of words on the wire, and running a
  command in the table that a path names.
- `src/laws.rs`: properties that span operations (reads after writes, removal,
  loading what a dump wrote).
- `app/`: the TCP server and command-line client around the library (I/O only).
