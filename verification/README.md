# valkey-rdb-tools

Reads Valkey and Redis RDB snapshots and turns them into Apache Arrow record batches, ready to be
written as Parquet, Arrow IPC, CSV or JSON. The library is written in Verus: what each function
returns is stated in its contract and proved.

- `src/` is the library: the RDB parser with its compact encodings, LZF and CRC-64; the
  conversion of entries to rows and batches; summaries, filters, and what the commands decide.
- `app/` is the `valkey-rdb` program and the `valkey_rdb` Python module around it: arguments,
  files, and the format-specific writers.
- `tests/` runs the library on concrete input.

The input is streamed: a reader takes bytes from a `ByteSource` piece by piece, keeps the checksum
of what has passed, and holds of the file only the value that it is reading and what is left of
the last piece. Large plain collections come as several entries, so they are not held whole
either, unless chunking is turned off. A `ByteSource` outside the library (a file, in `app/`) is
taken at its word.

Arrow arrays and batches, glob patterns and a few functions of the standard library are called
through small items whose contracts are taken for granted; each says which function it calls.

The glob matcher does not come to an end on every key pattern. A pattern with a `/**/` between
braces, and a `*` behind it where the matcher may not come to an end, is reported as an error once
it meets a key with a separator; `PatternV` says which patterns these are.

The laws of the library are public proof functions whose names start with `law_`.
