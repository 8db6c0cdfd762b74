# rmemqueue

A Kafka-like in-memory message queue: topics split into partitions, each an
append-only log whose offsets grow by one per message; producers that choose a
partition by key or in turn; consumers that read by offset, form groups that share
the partitions of their topics, and commit the offsets they have consumed.

## Layout

- `src/` — the library, verified with Verus. Every operation of the queue is an
  exec function with a contract over an abstract view:
  - `partition.rs`, `topic.rs`, `broker_backend.rs`: storage, capacity and
    retention, watermarks, metadata;
  - `broker.rs`: the broker (topics created on first use, partition choice,
    consumer groups, committed offsets, shutdown);
  - `partitioner.rs`, `partition_assignor.rs`, `consumer_group.rs`: partition
    choice, round-robin assignment and group membership;
  - `base_consumer.rs`, `base_producer.rs`, `stream_producer.rs`, `typed.rs`:
    the client side, with one poll round as a function of consumer and broker;
  - `config.rs`, `numparse.rs`: configuration and its numeric settings;
  - `laws.rs`: properties that relate several operations (read after write,
    consecutive offsets, one owner per partition, in-order consumption, ...);
  - `runs.rs`: properties of runs of many calls (insertion order of lists, turns of
    the key-less fallback, watermarks after `a` appends, `k` polls in order, paused
    partitions staying silent).
- `app/` — the thread-safe and async front end: the broker behind a lock with a
  process-wide registry, blocking polls that wait for messages, `async` producers
  and consumers, typed payloads of any type, and JSON payloads.
- `tests/` — tests of the library.
