use apalis_backends::channel::Polled;
use apalis_backends::json::{
    JsonMapMetadata, JsonStorage, JsonTask, Status, TaskKey, TaskWithMeta,
};
use apalis_backends::task::{Parts, RandomId, Task, TaskId};
use serde_json::Value;

fn id(low: u64) -> RandomId {
    RandomId { high: 0, low }
}

fn task(args: u64, own: Option<u64>, key: Option<&str>) -> JsonTask {
    let mut ctx = JsonMapMetadata::new();
    ctx.insert("n".to_string(), Value::from(args));
    Task {
        args: Value::from(args),
        parts: Parts {
            task_id: own.map(|own| TaskId::new(id(own))),
            idempotency_key: key.map(|key| key.to_string()),
            ctx,
        },
    }
}

fn at(low: u64, queue: &str, status: Status) -> TaskKey {
    TaskKey { task_id: TaskId(id(low)), queue: queue.to_string(), status }
}

fn storage() -> JsonStorage<u64> {
    JsonStorage::new("u64".to_string())
}

fn args(storage: &JsonStorage<u64>, low: u64) -> Option<u64> {
    storage.get(&at(low, "u64", Status::Pending)).map(|task| task.args.as_u64().unwrap())
}

#[test]
fn a_sent_task_is_found_pending() {
    let mut storage = storage();
    assert_eq!(storage.poll_ready(), Polled::Ready(Ok(())));
    assert_eq!(storage.start_send(task(5, Some(1), Some("k"))), Ok(()));
    let found = storage.get(&at(1, "u64", Status::Pending)).unwrap();
    assert_eq!(found.args, Value::from(5));
    assert_eq!(found.ctx.get("n"), Some(&Value::from(5)));
    assert_eq!(found.result, None);
    assert_eq!(found.idempotency_key, Some("k".to_string()));
    assert!(storage.get(&at(1, "u64", Status::Done)).is_none());
    assert!(storage.get(&at(1, "u32", Status::Pending)).is_none());
    assert!(storage.get(&at(2, "u64", Status::Pending)).is_none());
}

#[test]
fn a_stored_task_without_an_identifier_gets_the_fresh_one() {
    let mut storage = storage();
    assert_eq!(storage.start_send_as(task(5, None, None), id(9)), Ok(()));
    assert_eq!(storage.start_send_as(task(6, Some(3), None), id(10)), Ok(()));
    assert_eq!(args(&storage, 9), Some(5));
    assert_eq!(args(&storage, 3), Some(6));
    assert_eq!(args(&storage, 10), None);
}

#[test]
fn a_known_key_is_dropped() {
    let mut storage = storage();
    assert_eq!(storage.start_send(task(1, Some(1), Some("k"))), Ok(()));
    assert_eq!(storage.start_send(task(2, Some(2), Some("k"))), Ok(()));
    assert_eq!(storage.start_send(task(3, Some(3), Some("l"))), Ok(()));
    assert_eq!(args(&storage, 1), Some(1));
    assert_eq!(args(&storage, 2), None);
    assert_eq!(args(&storage, 3), Some(3));
    assert_eq!(storage.start_send(task(4, Some(4), Some("k"))), Ok(()));
    assert_eq!(args(&storage, 4), None);
    assert_eq!(args(&storage, 1), Some(1));
}

#[test]
fn a_key_counts_whatever_the_queue_and_status() {
    let mut storage = storage();
    storage.insert(
        at(1, "elsewhere", Status::Done),
        TaskWithMeta {
            args: Value::Null,
            ctx: JsonMapMetadata::new(),
            result: Some(Value::Bool(true)),
            idempotency_key: Some("k".to_string()),
        },
    );
    assert_eq!(storage.start_send(task(2, Some(2), Some("k"))), Ok(()));
    assert_eq!(args(&storage, 2), None);
    let stored = storage.get(&at(1, "elsewhere", Status::Done)).unwrap();
    assert_eq!(stored.result, Some(Value::Bool(true)));
}

#[test]
fn the_same_identifier_takes_the_place() {
    let mut storage = storage();
    assert_eq!(storage.start_send(task(1, Some(1), Some("k"))), Ok(()));
    assert_eq!(storage.start_send(task(2, Some(1), Some("l"))), Ok(()));
    assert_eq!(args(&storage, 1), Some(2));
    assert_eq!(storage.start_send(task(3, Some(3), Some("k"))), Ok(()));
    assert_eq!(args(&storage, 3), Some(3));
}

#[test]
fn keyless_tasks_are_all_stored() {
    let mut storage = storage();
    for n in 0..4 {
        assert_eq!(storage.start_send(task(n, Some(n), None)), Ok(()));
    }
    for n in 0..4 {
        assert_eq!(args(&storage, n), Some(n));
    }
}

#[test]
fn flushing_stores_what_was_buffered_without_looking_at_keys() {
    let mut storage = storage();
    assert_eq!(storage.start_send(task(1, Some(1), Some("k"))), Ok(()));
    storage.buffer_task(task(2, Some(2), Some("k")));
    storage.buffer_task(task(3, None, Some("k")));
    storage.buffer_task(task(4, Some(2), None));
    assert_eq!(storage.buffered(), 3);
    assert_eq!(args(&storage, 2), None);
    assert_eq!(storage.poll_flush_as(vec![id(20), id(30), id(40)]), Polled::Ready(Ok(())));
    assert_eq!(storage.buffered(), 0);
    assert_eq!(args(&storage, 1), Some(1));
    assert_eq!(args(&storage, 2), Some(4));
    assert_eq!(args(&storage, 30), Some(3));
    assert_eq!(args(&storage, 20), None);
    assert_eq!(args(&storage, 40), None);
    assert_eq!(storage.poll_flush(), Polled::Ready(Ok(())));
    assert_eq!(args(&storage, 2), Some(4));
}

#[test]
fn closing_is_flushing() {
    let mut storage = storage();
    storage.buffer_task(task(1, Some(1), None));
    storage.buffer_task(task(2, None, None));
    assert_eq!(storage.poll_close(), Polled::Ready(Ok(())));
    assert_eq!(storage.buffered(), 0);
    assert_eq!(args(&storage, 1), Some(1));
    assert_eq!(storage.start_send(task(3, Some(3), None)), Ok(()));
    assert_eq!(args(&storage, 3), Some(3));
}

#[test]
fn a_key_is_known_while_its_holder_is_stored() {
    let mut storage = storage();
    assert_eq!(storage.start_send(task(1, Some(1), Some("k"))), Ok(()));
    assert_eq!(storage.start_send(task(2, Some(2), None)), Ok(()));
    assert_eq!(storage.start_send(task(3, Some(2), None)), Ok(()));
    assert_eq!(storage.start_send(task(4, Some(1), Some("k"))), Ok(()));
    assert_eq!(storage.start_send(task(5, Some(5), Some("k"))), Ok(()));
    assert_eq!(args(&storage, 1), Some(1));
    assert_eq!(args(&storage, 2), Some(3));
    assert_eq!(args(&storage, 5), None);
}
