# shm-pbx

The shared memory private branch exchange: a shared memory file that gives clients the basic
structures for joining point-to-point message rings, each of which works similar to the kernel's
io-uring.

A server lays the file out and advertises the slots of the rings. Clients join the two sides of a
ring, exchange fixed size entries through it, and share the memory that belongs to it. When both
sides of a ring are gone the server takes it up again.

## Layout

- `src/` is the library. Everything in it is verified with Verus: the layout of the file, the life
  of a client slot, the queues of a ring, what a wait is armed with and how its outcome reads, the
  bookkeeping of an io-uring, and the control protocol. A shared memory is a `Mapping` there: bytes
  at an address, which one party at a time changes.
- `src/layout.rs`, `src/ring.rs`, `src/tracker.rs` and `src/serve.rs` state what holds of the memory
  as a whole: rings keep clear of each other, entries arrive once and in order, a ring can be joined
  again once both of its clients are gone.
- `app/` is the server program around it. It maps the file, does the system calls, and works on the
  words of the live memory as atomics. What a slot, a ring head or the blocked word becomes, and what
  an outcome means, it asks the library. What it knows by itself is where the words of the file head,
  of a ring info and of a ring head are, in which order they are read and written, and that the
  indicator of a side is one when that side is ready to send and zero when it is not. The rounds over
  a whole memory that the library verifies (`Server::serve`, `bring_up`, `track_clients`,
  `reap_client`, `Client::join`, `Ring::leave`) are not what runs there: those work on memory that
  nobody else changes meanwhile, so `app/live.rs` has loops of its own around the functions on words.
  Only `Shared::into_server` is called as it is.
- `tests/` runs the library on concrete memories.

## What is trusted

The collections of `hashbrown` (`src/tracker.rs`) and `slotmap` (`src/io_uring.rs`), and
`uapi::getpid` (`src/uapi.rs`). Each call stands behind a small function that says what is believed
of it.

The library does not speak of memory orderings, nor of what happens when several processes change
the same words at a time. An exchange of a single word is one call of a verified function inside a
compare-and-swap loop of `app/`.
