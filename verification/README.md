# apalis_backends

Backends for task queues, with the behaviour of each stated as contracts and proved by Verus.

- `src/task.rs`: tasks, their identifiers and their idempotency keys.
- `src/channel.rs`: both ends of an unbounded channel of `futures_channel` as one value.
- `src/lock.rs`: the lock of `futures_util`: what was lent, what was left, what was given back.
- `src/memory.rs`: the in-memory backend over that channel. A key passes once, ever.
- `src/dequeue.rs`: the in-memory backend in a `VecDeque` behind a lock of `futures_util`. A key is
  in the queue at most once.
- `src/json.rs`: the store of JSON tasks. A task that is sent is dropped while a stored task has
  its key.
- `src/select.rs`: choosing elements of a sequence by their positions, for the laws.
- `app/`: the same backends as `Sink`s and `Stream`s, with locks and wakers. It is not verified.

The functions named `law_..` state what holds of each backend as a whole.
