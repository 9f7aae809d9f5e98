use std::sync::Arc;
use std::task::Context;

use apalis_backends::channel::{Polled, SendError, TaskChannel};
use apalis_backends::memory::{
    ChannelStorage, MemorySink, MemoryStorage, OwnChannel, SharedKeys, TaskStream,
};
use apalis_backends::task::{Parts, RandomId, Task, TaskId};
use futures_util::task::noop_waker;

const FRESH: RandomId = RandomId { high: 7, low: 11 };

fn task(args: &str, key: Option<&str>) -> Task<String, u8, RandomId> {
    Task {
        args: args.to_string(),
        parts: Parts { task_id: None, idempotency_key: key.map(|key| key.to_string()), ctx: 3 },
    }
}

fn next_args(storage: &mut ChannelStorage<String, u8>) -> Polled<Option<String>> {
    let waker = noop_waker();
    match storage.poll_next(&mut Context::from_waker(&waker)) {
        Polled::Ready(next) => Polled::Ready(next.map(|task| task.args)),
        Polled::Pending => Polled::Pending,
    }
}

fn ready(args: &str) -> Polled<Option<String>> {
    Polled::Ready(Some(args.to_string()))
}

fn close(storage: &mut ChannelStorage<String, u8>) {
    let waker = noop_waker();
    let closed = storage.poll_close(&mut Context::from_waker(&waker));
    assert_eq!(closed, Polled::Ready(Ok(())));
}

#[test]
fn an_empty_storage_is_pending() {
    let mut storage = MemoryStorage::default();
    assert_eq!(next_args(&mut storage), Polled::Pending);
}

#[test]
fn tasks_are_received_in_order() {
    let mut storage = MemoryStorage::new();
    for args in ["a", "b", "c"] {
        assert_eq!(storage.start_send(task(args, None)), Ok(()));
    }
    assert_eq!(next_args(&mut storage), ready("a"));
    assert_eq!(next_args(&mut storage), ready("b"));
    assert_eq!(storage.start_send(task("d", None)), Ok(()));
    assert_eq!(next_args(&mut storage), ready("c"));
    assert_eq!(next_args(&mut storage), ready("d"));
    assert_eq!(next_args(&mut storage), Polled::Pending);
}

#[test]
fn unique_jobs_deliver_one_email() {
    let to = "test@example.com";
    let mut storage = MemoryStorage::new();
    assert_eq!(storage.start_send(task("Background email job", Some(to))), Ok(()));
    assert_eq!(storage.start_send(task("[Copy] Background email job", Some(to))), Ok(()));
    assert_eq!(next_args(&mut storage), ready("Background email job"));
    assert_eq!(next_args(&mut storage), Polled::Pending);
}

#[test]
fn a_key_is_remembered_after_its_task_was_received() {
    let mut storage = MemoryStorage::new();
    assert_eq!(storage.start_send(task("a", Some("k"))), Ok(()));
    assert_eq!(next_args(&mut storage), ready("a"));
    assert_eq!(storage.start_send(task("b", Some("k"))), Ok(()));
    assert_eq!(storage.start_send(task("c", Some("l"))), Ok(()));
    assert_eq!(next_args(&mut storage), ready("c"));
}

#[test]
fn only_the_first_task_of_each_key_passes() {
    let mut storage = MemoryStorage::new();
    let sent = [("a", Some("x")), ("b", None), ("c", Some("y")), ("d", Some("x")), ("e", None)];
    for (args, key) in sent {
        assert_eq!(storage.start_send(task(args, key)), Ok(()));
    }
    for args in ["a", "b", "c", "e"] {
        assert_eq!(next_args(&mut storage), ready(args));
    }
    assert_eq!(next_args(&mut storage), Polled::Pending);
}

#[test]
fn a_task_without_an_identifier_gets_the_fresh_one() {
    let mut storage = MemoryStorage::new();
    assert_eq!(storage.start_send_as(task("a", Some("k")), FRESH), Ok(()));
    let waker = noop_waker();
    match storage.poll_next(&mut Context::from_waker(&waker)) {
        Polled::Ready(Some(task)) => {
            assert_eq!(task.parts.task_id, Some(TaskId::new(FRESH)));
            assert_eq!(task.parts.idempotency_key, Some("k".to_string()));
            assert_eq!(task.parts.ctx, 3);
            assert_eq!(task.args, "a");
        }
        _ => panic!("a task waits"),
    }
}

#[test]
fn a_task_keeps_its_own_identifier() {
    let own = RandomId { high: 1, low: 2 };
    let mut item = task("a", None);
    item.parts.task_id = Some(TaskId::new(own));
    let mut storage = MemoryStorage::new();
    assert_eq!(storage.start_send_as(item, FRESH), Ok(()));
    let waker = noop_waker();
    match storage.poll_next(&mut Context::from_waker(&waker)) {
        Polled::Ready(Some(task)) => assert_eq!(task.parts.task_id, Some(TaskId(own))),
        _ => panic!("a task waits"),
    }
}

#[test]
fn identifiers_are_drawn_for_tasks_without_one() {
    let mut storage = MemoryStorage::new();
    assert_eq!(storage.start_send(task("a", None)), Ok(()));
    assert_eq!(storage.start_send(task("b", None)), Ok(()));
    let waker = noop_waker();
    let mut ids = vec![];
    for _ in 0..2 {
        match storage.poll_next(&mut Context::from_waker(&waker)) {
            Polled::Ready(Some(task)) => ids.push(task.parts.task_id),
            _ => panic!("a task waits"),
        }
    }
    assert!(ids[0].is_some() && ids[1].is_some());
    assert_ne!(ids[0], ids[1]);
}

#[test]
fn a_closed_storage_refuses_and_remembers_the_key() {
    let mut storage = MemoryStorage::new();
    assert_eq!(storage.start_send(task("a", None)), Ok(()));
    close(&mut storage);
    assert_eq!(storage.start_send(task("b", Some("k"))), Err(SendError::Disconnected));
    assert_eq!(storage.start_send(task("b", Some("k"))), Ok(()));
    assert_eq!(storage.start_send(task("c", None)), Err(SendError::Disconnected));
    assert_eq!(next_args(&mut storage), ready("a"));
    assert_eq!(next_args(&mut storage), Polled::Ready(None));
    assert_eq!(next_args(&mut storage), Polled::Ready(None));
}

#[test]
fn readiness_follows_the_channel() {
    let waker = noop_waker();
    let mut cx = Context::from_waker(&waker);
    let mut storage: ChannelStorage<String, u8> = MemoryStorage::new();
    assert_eq!(storage.poll_ready(&mut cx), Polled::Ready(Ok(())));
    assert_eq!(storage.poll_flush(&mut cx), Polled::Ready(Ok(())));
    assert_eq!(storage.poll_close(&mut cx), Polled::Ready(Ok(())));
    assert_eq!(storage.poll_ready(&mut cx), Polled::Ready(Err(SendError::Disconnected)));
    assert_eq!(storage.poll_flush(&mut cx), Polled::Ready(Ok(())));
}

fn drained(mut stream: TaskStream<String, u8>) -> Vec<String> {
    let waker = noop_waker();
    let mut cx = Context::from_waker(&waker);
    let mut args = vec![];
    loop {
        match stream.poll_next(&mut cx) {
            Polled::Ready(Some(Ok(Some(task)))) => args.push(task.args),
            Polled::Ready(Some(_)) => panic!("polling never fails or comes back empty-handed"),
            Polled::Ready(None) => return args,
            Polled::Pending => panic!("the stream ends behind its tasks"),
        }
    }
}

#[test]
fn the_stream_ends_behind_the_tasks_that_wait() {
    let mut storage = MemoryStorage::new();
    assert_eq!(storage.start_send(task("a", None)), Ok(()));
    assert_eq!(storage.start_send(task("b", None)), Ok(()));
    assert_eq!(drained(storage.poll()), vec!["a", "b"]);

    let mut storage = MemoryStorage::new();
    assert_eq!(storage.start_send(task("c", None)), Ok(()));
    assert_eq!(drained(storage.poll_compact()), vec!["c"]);
}

#[test]
fn a_storage_receives_what_its_sink_passed_on() {
    let mut sink = MemorySink::new(TaskChannel::new());
    assert_eq!(sink.start_send(task("a", Some("k"))), Ok(()));
    let mut storage = MemoryStorage::new_with(sink, OwnChannel);
    assert_eq!(storage.start_send(task("b", Some("k"))), Ok(()));
    assert_eq!(next_args(&mut storage), ready("a"));
    assert_eq!(next_args(&mut storage), Polled::Pending);
}

#[test]
fn a_sink_screens_for_any_inner_sink() {
    let mut sink = MemorySink::new(vec![1, 2]);
    sink.inner_mut().push(3);
    assert_eq!(*sink.inner_mut(), vec![1, 2, 3]);
    let passed = sink.screen(task("a", Some("k")), FRESH).unwrap();
    assert_eq!(passed.parts.task_id, Some(TaskId(FRESH)));
    assert!(sink.screen(task("b", Some("k")), FRESH).is_none());
    assert!(sink.screen(task("c", None), FRESH).is_some());
    assert!(sink.screen(task("c", None), FRESH).is_some());
}

#[test]
fn a_channel_hands_items_over_in_order() {
    let waker = noop_waker();
    let mut cx = Context::from_waker(&waker);
    let mut channel: TaskChannel<u32> = TaskChannel::new();
    assert_eq!(channel.poll_ready(&mut cx), Polled::Ready(Ok(())));
    assert_eq!(channel.poll_next(&mut cx), Polled::Pending);
    assert_eq!(channel.start_send(1), Ok(()));
    assert_eq!(channel.start_send(2), Ok(()));
    assert_eq!(channel.poll_flush(&mut cx), Polled::Ready(Ok(())));
    assert_eq!(channel.poll_next(&mut cx), Polled::Ready(Some(1)));
    assert_eq!(channel.poll_close(&mut cx), Polled::Ready(Ok(())));
    assert_eq!(channel.poll_ready(&mut cx), Polled::Ready(Err(SendError::Disconnected)));
    assert_eq!(channel.start_send(3), Err(SendError::Disconnected));
    assert_eq!(channel.poll_next(&mut cx), Polled::Ready(Some(2)));
    assert_eq!(channel.poll_next(&mut cx), Polled::Ready(None));
}

#[test]
fn a_closed_storage_stays_closed() {
    let waker = noop_waker();
    let mut storage = MemoryStorage::new();
    assert_eq!(storage.start_send(task("a", Some("k"))), Ok(()));
    close(&mut storage);
    assert_eq!(storage.start_send(task("b", Some("l"))), Err(SendError::Disconnected));
    assert_eq!(next_args(&mut storage), ready("a"));
    let polled = storage.poll_ready(&mut Context::from_waker(&waker));
    assert_eq!(polled, Polled::Ready(Err(SendError::Disconnected)));
    assert_eq!(storage.start_send(task("c", Some("k"))), Ok(()));
    assert_eq!(storage.start_send(task("d", None)), Err(SendError::Disconnected));
    assert_eq!(next_args(&mut storage), Polled::Ready(None));
}

#[test]
fn a_storage_is_made_of_any_sender_and_receiver() {
    let mut sender = MemorySink::new(vec![1]);
    assert!(sender.screen(task("a", Some("k")), FRESH).is_some());
    let storage = MemoryStorage::new_with(sender, "receiver");
    let (mut sender, receiver) = storage.into_parts();
    assert_eq!(receiver, "receiver");
    assert_eq!(*sender.inner_mut(), vec![1]);
    assert!(sender.screen(task("b", Some("k")), FRESH).is_none());
}

#[test]
fn clones_share_the_keys_they_have_seen() {
    let keys = SharedKeys::new();
    let other = keys.clone();
    let passed = keys.screen(task("a", Some("k")), FRESH).unwrap().unwrap();
    assert_eq!(passed.args, "a");
    assert_eq!(passed.parts.task_id, Some(TaskId(FRESH)));
    assert!(other.screen(task("b", Some("k")), FRESH).unwrap().is_none());
    assert!(other.screen(task("c", Some("l")), FRESH).unwrap().is_some());
    assert!(keys.screen(task("d", Some("l")), FRESH).unwrap().is_none());
    assert!(Arc::ptr_eq(keys.as_arc(), other.as_arc()));
    assert!(SharedKeys::default().screen(task("e", Some("k")), FRESH).unwrap().is_some());
}

#[test]
fn a_task_without_a_key_needs_no_lock_on_the_keys() {
    let keys = SharedKeys::new();
    let held = keys.clone();
    let guard = held.as_arc().try_lock();
    assert!(keys.screen(task("a", None), FRESH).unwrap().is_some());
    assert!(keys.screen(task("b", Some("k")), FRESH).is_none());
    drop(guard);
    assert!(keys.screen(task("c", Some("k")), FRESH).unwrap().is_some());
}

#[test]
fn a_key_passes_once_in_any_order_of_steps() {
    let mut storage = MemoryStorage::new();
    assert_eq!(storage.start_send(task("a", Some("k"))), Ok(()));
    assert_eq!(next_args(&mut storage), ready("a"));
    assert_eq!(storage.start_send(task("b", Some("l"))), Ok(()));
    assert_eq!(storage.start_send(task("c", Some("k"))), Ok(()));
    assert_eq!(next_args(&mut storage), ready("b"));
    assert_eq!(next_args(&mut storage), Polled::Pending);
    assert_eq!(storage.start_send(task("d", Some("m"))), Ok(()));
    close(&mut storage);
    assert_eq!(storage.start_send(task("e", Some("n"))), Err(SendError::Disconnected));
    assert_eq!(storage.start_send(task("f", Some("l"))), Ok(()));
    assert_eq!(next_args(&mut storage), ready("d"));
    assert_eq!(next_args(&mut storage), Polled::Ready(None));
}
