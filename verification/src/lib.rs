//! Task-queue backends: an in-memory queue over a channel, an in-memory queue behind a lock, and
//! a store of JSON tasks. All three drop a task whose idempotency key they already know.

pub mod channel;
pub mod dequeue;
pub mod json;
pub mod lock;
pub mod memory;
pub mod select;
pub mod task;
