# srrdb

A small relational database that speaks the MySQL wire protocol, with its engine
written in Verus: every function of the library, but for the items named under "What is
trusted", carries a contract that the verifier proves.

## Layout

- `src/engine/`: values and their order, the catalog, rows, indexes, conditions,
  queries, statements, the write-ahead log, checkpoints and recovery. `ahead.rs` tells
  what a statement will put into the log, so that the log can be written first. The
  laws of the engine stand in `conditions.rs`, `laws.rs`, `mirror.rs`, `upkeep.rs`,
  `twins.rs` and `durability.rs`.
- `src/sql/`: the statements that the engine reads, taken from `sqlparser`. `guard.rs`
  refuses the texts on which its parser would panic.
- `src/protocol/`, `src/server/`, `src/client.rs`, `src/reply.rs`, `src/exchange.rs`:
  packets, the handshake, commands and results on both sides of a connection, and the
  laws that each side understands the other.
- `src/console.rs`, `src/repl.rs`, `src/config.rs`: what the prompts and the
  configuration do.
- `src/float.rs`, `src/text.rs`, `src/le.rs`, `src/names.rs`, `src/words.rs`,
  `src/order.rs`, `src/model.rs`: floating-point numbers by their bits, texts, bytes,
  maps by name, words, orders and views.
- `app/`: the program around the library: arguments, files, sockets and terminals.
- `tests/`: tests of the library.

## What is trusted

Outside calls stand behind small items whose contracts are believed: the parser and
tokenizer of `sqlparser` (`src/sql/source.rs`, `src/sql/tokenizer.rs`), `bincode` for
numbers and texts (`src/engine/codec.rs`), `sha1` and `rand`
(`src/protocol/handshake.rs`), and case mapping, white space and UTF-8 of the standard
library (`src/text.rs`).

Floating-point numbers are kept by their bits. Reading a literal as such a number, and
writing one as a text, is done in `app/`; `Numbers` holds what it found out.
