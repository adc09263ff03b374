# floresta_db

A database of fixed-width keys for Bitcoin-style indexes, written in Rust and
verified with Verus.

A set stores 16-byte keys; a map stores a value for each. Keys are hashed with
XXH64 into separately chained buckets. Nodes and values live in page files whose
live counts decide which pages are used again. A checkpoint copies the newest
entry of every key into one of two banks, and recovery opens the newest bank
that is intact.

## Layout

- `src/` is the library. It works on the bytes of files and does no I/O. Every
  executable function has a contract, and the files are described by what they
  hold: chains of nodes, page counts, and the stack of values of every key. What
  an operation makes of damaged files is stated too.
- `src/database.rs` and `src/database/` are the interface: reads, writes,
  batches, checkpoints and recovery. `src/database/laws.rs` states what the
  operations mean for the values of a key.
- `src/exercise.rs` runs operations on a database and on a model of it, and is
  proved never to see them disagree. The run of an input is proved to find room
  for every operation; a random run ends where the database first refuses one.
- `src/load.rs`, `src/load/` and `src/ring.rs` index the unspent outputs of a
  chain of blocks.
- `tests/` runs the library on concrete values.
- `app/` holds the programs: files, threads, the command line and the requests
  to Bitcoin Core.

## Assumptions

Operations are sequential: whoever shares a database between threads puts a
lock around it. Three functions of the `bitcoin` crate and the text of operating
system errors are taken on trust; the items that call them say what is claimed.
