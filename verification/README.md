# mqpool

Bounded FIFO message queues, an open-addressing hash table and the
bookkeeping of a small thread pool, verified with Verus.

- `src/lib.rs` — `MessageQueueInternal`, a ring that keeps one slot free
  (capacity `len - 1`), and `MessageQueueError`.
- `src/messagequeue.rs` — `MessageQueueInternal` of the worker queues, a ring
  with a message counter (capacity `len`).
- `src/ring.rs` — ring arithmetic and the FIFO law of both queues.
- `src/backstore.rs` — the fixed-length slot store behind the queues and the table.
- `src/hashint.rs` — `HashInt`, linear probing keyed by `usize`, with its map
  view and the laws of insertion and resizing.
- `src/thread.rs`, `src/threadpool.rs` — tasks, worker states, queries and
  answers, and `Pool`, which decides where each task goes.
- `app/` — what shares the queues between threads, signals through an
  eventfd and spawns the workers and the pool's event loop.
