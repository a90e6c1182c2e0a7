# atlas

An I/O daemon for storage engines: clients place fixed-size requests in a
shared-memory ring, the daemon coalesces adjacent reads and writes, runs
them in priority order through a pluggable backend, and answers every
request on its own channel.

## Layout

- `src/` — the library, with its specifications and proofs.
  - `protocol.rs` — wire records, operation and priority codes, path
    encoding, shared-memory segment names.
  - `spsc.rs` — the single-producer single-consumer ring: header checks,
    cursor arithmetic on wrapping counters, FIFO push and pop.
  - `batch.rs` — the batching engine: stable sort by (channel, fd, offset)
    and merging of adjacent or overlapping requests, with proofs that every
    request is answered exactly once and that a merged operation only
    stands for requests of its own channel and file.
  - `priority_order.rs` — the order of the scheduling classes.
  - `scheduler.rs` — three priority queues drained Critical, High, Low.
  - `pipeline.rs` — the pass-through and batched pipelines.
  - `executor.rs` — the backend interface and its batched execution.
  - `service.rs` — virtual file descriptors and one round of execution,
    specified step by step for every backend outcome.
  - `client.rs` — building client requests, reading responses, and the
    data region's bump allocator.
- `tests/` — tests of the library.
- `app/` — the daemon and client around the library: shared memory,
  atomics, the POSIX and io_uring backends, the C interface.
