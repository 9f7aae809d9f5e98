use std::collections::VecDeque;
use std::sync::atomic::{AtomicUsize, Ordering};
use std::sync::Arc;
use std::time::Duration;

use apalis_backends::dequeue::{
    as_poll_error, as_send_error, backend, fetch_from, store_in, Config, InMemoryDb,
    IntervalStrategy, VecDequeBackend, VecDequeError,
};
use apalis_backends::task::{Parts, RandomId, Task};

fn task(args: u32, key: Option<&str>) -> Task<u32, (), RandomId> {
    Task {
        args,
        parts: Parts { task_id: None, idempotency_key: key.map(|key| key.to_string()), ctx: () },
    }
}

fn config(prev_count: usize) -> Config {
    Config {
        strategy: IntervalStrategy { poll_interval: Duration::from_millis(5) },
        prev_count: Arc::new(AtomicUsize::new(prev_count)),
    }
}

fn count(config: &Config) -> usize {
    config.prev_count.load(Ordering::Relaxed)
}

fn fetched(queue: &mut VecDeque<Task<u32, (), RandomId>>) -> Option<u32> {
    let fetched = fetch_from(Some(queue));
    let args = fetched.task.unwrap().map(|task| task.args);
    assert_eq!(fetched.count, Some(if args.is_some() { 1 } else { 0 }));
    args
}

#[test]
fn tasks_are_fetched_in_order() {
    let mut queue = VecDeque::new();
    for args in [1, 2, 3] {
        assert!(store_in(Some(&mut queue), task(args, None)).is_ok());
    }
    assert_eq!(fetched(&mut queue), Some(1));
    assert_eq!(fetched(&mut queue), Some(2));
    assert_eq!(fetched(&mut queue), Some(3));
    assert_eq!(fetched(&mut queue), None);
}

#[test]
fn interleaved_stores_and_fetches_keep_the_order() {
    let mut queue = VecDeque::new();
    let mut order = vec![];
    assert!(store_in(Some(&mut queue), task(1, Some("k"))).is_ok());
    assert!(store_in(Some(&mut queue), task(2, None)).is_ok());
    order.push(fetched(&mut queue));
    assert!(store_in(Some(&mut queue), task(3, Some("k"))).is_ok());
    assert!(store_in(Some(&mut queue), task(4, Some("k"))).is_ok());
    order.push(fetched(&mut queue));
    assert!(store_in(Some(&mut queue), task(5, Some("l"))).is_ok());
    for _ in 0..3 {
        order.push(fetched(&mut queue));
    }
    assert_eq!(order, vec![Some(1), Some(2), Some(3), Some(5), None]);
}

#[test]
fn a_key_in_the_queue_is_not_stored_again() {
    let mut queue = VecDeque::new();
    for (args, key) in [(1, Some("k")), (2, Some("l")), (3, None), (4, Some("k")), (5, None)] {
        assert!(store_in(Some(&mut queue), task(args, key)).is_ok());
    }
    let mut order = vec![];
    while let Some(args) = fetched(&mut queue) {
        order.push(args);
    }
    assert_eq!(order, vec![1, 2, 3, 5]);
}

#[test]
fn a_fetched_key_is_free_again() {
    let mut queue = VecDeque::new();
    assert!(store_in(Some(&mut queue), task(1, Some("k"))).is_ok());
    assert_eq!(fetched(&mut queue), Some(1));
    assert!(store_in(Some(&mut queue), task(2, Some("k"))).is_ok());
    assert_eq!(fetched(&mut queue), Some(2));
}

#[test]
fn a_refused_lock_is_an_error_of_polling() {
    let fetched = fetch_from::<u32>(None);
    assert_eq!(fetched.count, None);
    let error = fetched.task.unwrap_err();
    assert_eq!(error.to_string(), "Polling error: Failed to acquire lock");
    let error = store_in(None, task(1, None)).unwrap_err();
    assert!(matches!(error, VecDequeError::PollError(_)));
    assert_eq!(error.to_string(), "Polling error: Failed to acquire lock");
}

#[test]
fn errors_are_reported_with_their_cause() {
    let refused = VecDequeError::lock_refused();
    let polled = as_poll_error(Err::<(), VecDequeError>(refused.clone())).unwrap_err();
    assert!(matches!(polled, VecDequeError::PollError(_)));
    assert_eq!(polled.to_string(), "Polling error: Polling error: Failed to acquire lock");
    let sent = as_send_error(Err::<(), VecDequeError>(refused)).unwrap_err();
    assert!(matches!(sent, VecDequeError::SendError(_)));
    assert_eq!(sent.to_string(), "Sending error: Polling error: Failed to acquire lock");
    assert_eq!(as_poll_error(Ok(4)).unwrap(), 4);
    assert_eq!(as_send_error(Ok(5)).unwrap(), 5);
}

#[test]
fn a_new_db_is_empty_and_shared_by_its_clones() {
    let db: InMemoryDb<u32> = InMemoryDb::default();
    let config = config(9);
    assert!(db.fetch_next(&config).unwrap().is_none());
    assert_eq!(count(&config), 0);
    assert!(db.clone().store(task(1, Some("k"))).is_ok());
    assert!(db.store(task(2, Some("k"))).is_ok());
    assert_eq!(db.as_arc().try_lock().unwrap().len(), 1);
    assert_eq!(db.fetch_next(&config).unwrap().unwrap().args, 1);
    assert_eq!(count(&config), 1);
    let other = db.clone();
    assert!(Arc::ptr_eq(db.as_arc(), &other.into_inner()));
    assert_eq!(Arc::strong_count(db.as_arc()), 1);
    assert!(format!("{db:?}").starts_with("InMemoryDb"));
}

#[test]
fn whoever_finds_the_queue_locked_gets_an_error() {
    let db: InMemoryDb<u32> = InMemoryDb::new();
    let config = config(9);
    assert!(db.store(task(1, None)).is_ok());
    let shared = db.clone().into_inner();
    let guard = shared.try_lock();
    let error = db.fetch_next(&config).unwrap_err();
    assert_eq!(error.to_string(), "Polling error: Failed to acquire lock");
    assert!(db.store(task(2, None)).is_err());
    assert_eq!(count(&config), 9);
    drop(guard);
    assert_eq!(db.fetch_next(&config).unwrap().unwrap().args, 1);
    assert!(db.fetch_next(&config).unwrap().is_none());
}

#[test]
fn a_backend_starts_as_if_a_task_had_been_fetched() {
    let made: VecDequeBackend<u32> = backend(Duration::from_secs(2));
    let (db, config) = made.into_parts();
    assert_eq!(count(&config), 1);
    assert_eq!(config.strategy.poll_interval, Duration::from_secs(2));
    assert_eq!(db.as_arc().try_lock().unwrap().len(), 0);
}

#[test]
fn a_backend_reports_errors_of_polling_and_sending() {
    let made: VecDequeBackend<u32> = backend(Duration::from_millis(1));
    let (db, _) = made.clone().into_parts();
    assert!(made.send_once(task(1, Some("k"))).is_ok());
    assert!(made.send_once(task(2, Some("k"))).is_ok());
    {
        let guard = db.as_arc().try_lock();
        assert!(guard.is_some());
        assert_eq!(
            made.poll_once().unwrap_err().to_string(),
            "Polling error: Polling error: Failed to acquire lock"
        );
        assert_eq!(
            made.send_once(task(3, None)).unwrap_err().to_string(),
            "Sending error: Polling error: Failed to acquire lock"
        );
    }
    assert_eq!(made.poll_once().unwrap().unwrap().args, 1);
    assert!(made.poll_once().unwrap().is_none());
}

#[test]
fn clones_of_a_backend_share_the_queue_and_the_count() {
    let made: VecDequeBackend<u32> = backend(Duration::from_millis(1));
    let other = made.clone();
    let (_, config) = made.clone().into_parts();
    assert!(other.poll_once().unwrap().is_none());
    assert_eq!(count(&config), 0);
    assert!(other.send_once(task(1, None)).is_ok());
    assert_eq!(made.poll_once().unwrap().unwrap().args, 1);
    assert_eq!(count(&config), 1);
    assert_eq!(count(&config.clone()), 1);
    assert!(Arc::ptr_eq(&config.prev_count, &other.into_parts().1.prev_count));
}
