# wal_db

A write-ahead log, verified with Verus.

A record is framed with its CRC32C checksum and its length and written at the end of
the log; the offset at which its frame begins is its sequence number. `append` hands
the bytes to the store, `sync` makes them durable, `iter` reads them back. Opening a
log scans it from its head, stops at the first record that is incomplete or damaged,
and cuts off what follows.

## Layout

- `src/`: the library. Every item is verified, except the four functions and the type
  declaration under "What is trusted".
  - `bytes`: integers as little-endian bytes.
  - `record`, `stamped`, `checksum`: frames and their checksum.
  - `image`: what the bytes of a log mean. The laws of recovery stand here.
  - `store`: the backend trait and the in-memory store.
  - `commit`: the contiguous-written watermark and group commit, as a state machine.
  - `wal`: the log: append, sync, iterate, truncate, recover. The laws of durability
    stand here.
  - `concurrent`, `group`: appends and syncs that happen at once, in any order of
    completion.
  - `segment`, `positioned`: which bytes go to which file, and what to do after each
    attempt to move them.
  - `config`, `error`, `lsn`, `decimal`: configuration, errors, numbers and names.
- `tests/`: tests of the library.
- `app/`: the log on real files, shared between threads: file access, atomics, the
  lock and the condition variable, and typed records.

## What is trusted

- `checksum::checksum` and `checksum::checksum_append`: that `crc32c::crc32c` and
  `crc32c::crc32c_append` compute CRC32C, which `checksum` defines bit by bit. What
  follows from that is proved: that a checksum can be carried on, that a changed byte
  is noticed, that a run of zeros is no record.
- `error::other_io_error` and `error::io_error_text`: they make an `std::io::Error` and
  read its text. Nothing is assumed of what the error holds or displays as.
- `error::ExIoError` declares the type `std::io::Error`, which is opaque here.
- A `WalStore` outside the library keeps the contract of the trait.
