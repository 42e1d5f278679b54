# concurrent_interner

A string interner for use from many threads at a time, written and verified with Verus.

An interner consists of a hash table and a fixed number of arenas. A thread that wants to intern
strings asks for a member, which owns one of the arenas until it is released. Interning a string
takes three steps: a look in the table, which any number of threads can have at a time; if the
string is not there, storing its text in the member's own arena, which needs no lock; and entering
it in the table, unless another member has been first. What comes out is an `IStr`: 32 bits that
name the arena and the place of the string in it.

What the contracts in `src/` promise:

- Whoever interns a string gets the same `IStr` for it, if the hash builder gives equal strings
  equal hashes, and different strings get different ones, however the steps of the members are
  interleaved (`src/interner.rs`, `src/history.rs`).
- What was interned reads back, from the interner and from its frozen form, with any hash builder.
- The arenas on the shelf and those of the members are all the arenas there are, and none is in two
  places (`src/history.rs`).
- An arena only grows, no string in it ever changes or moves, and no two share a byte. A string
  goes into what is left of the last chunk, into a new chunk, or, if it is larger than a chunk,
  stands on its own. The chunks take at most twice the bytes of the strings in them, and what is
  left of the last one (`src/storage.rs`).
- Once every member is released, the arenas are back in order (`src/pool.rs`).
- References to strings are equal exactly if the strings are (`src/sso.rs`).

`src/serial.rs` is an interner for a single thread, which asks for a hash builder that gives equal
strings equal hashes, and `src/workload.rs` interns a text word by word.

What is taken on trust about `dashmap`, `typed-arena` and the standard library stands in
`src/table.rs`, `src/serial.rs`, `src/text.rs` and `src/workload.rs`, each with what it claims.

`app/` puts the interner behind a lock, so that members can be handed out to threads and come back
when they are dropped, and holds the benchmark. The lock is shared while the table is read, free
while text is stored, and exclusive only while a new string is entered.
