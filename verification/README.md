# redis_clone

A small Redis-compatible in-memory server whose logic is verified with Verus.

- `src/` is the library: the keyspace and its data types, the RESP format, request
  framing, command parsing and execution, sessions (transactions and pub/sub),
  snapshots and the append-only log. Its functions carry contracts, and the
  `laws` and `history` modules state what holds across functions.
- `tests/` runs the library on concrete requests.
- `app/` is the program around it: the command line, sockets, files, the clock and
  floating-point arithmetic.

Time enters the library as a number: nanoseconds since the database was created.
Sorted-set scores enter it as the bits of a double together with its decimal text,
read and added by the program.
