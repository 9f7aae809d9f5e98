//! The store of JSON tasks.
//!
//! Tasks are kept under their identifier, queue and status. A task that is sent is dropped without
//! an error if a stored task has the same idempotency key, whatever the queue and status of that
//! one. Tasks that were buffered are stored by the next flush, which does not look at keys.

use std::marker::PhantomData;

use serde_json::Value;
use vstd::prelude::*;

use crate::channel::{Polled, SendError};
use crate::task::{
    drawn, drawn_after, drawn_in_turn, is_key, key_text, Draws, RandomId, Task, TaskId,
};

verus! {

/// Any JSON value. It is carried and never looked into.
#[verifier::external_type_specification]
#[verifier::external_body]
pub struct ExValue(Value);

/// A JSON object. It is carried and never looked into.
#[verifier::external_type_specification]
#[verifier::external_body]
#[verifier::reject_recursive_types(K)]
#[verifier::reject_recursive_types(V)]
pub struct ExJsonObject<K, V>(serde_json::Map<K, V>);

/// What is known about a task beside its arguments.
pub type JsonMapMetadata = serde_json::Map<String, Value>;

/// A task with JSON arguments.
pub type JsonTask = Task<Value, JsonMapMetadata, RandomId>;

/// How far a task has come.
#[derive(Clone, Copy, Debug, PartialEq, Eq, Hash, Structural)]
pub enum Status {
    Pending,
    Queued,
    Running,
    Done,
    Failed,
    Killed,
}

/// What a stored task is found by.
#[derive(Clone, Debug, PartialEq, Eq, Hash)]
pub struct TaskKey {
    pub task_id: TaskId<RandomId>,
    pub queue: String,
    pub status: Status,
}

/// What a [`TaskKey`] says.
pub struct KeyText {
    pub id: RandomId,
    pub queue: Seq<char>,
    pub status: Status,
}

impl View for TaskKey {
    type V = KeyText;

    open spec fn view(&self) -> KeyText {
        KeyText { id: self.task_id.0, queue: self.queue@, status: self.status }
    }
}

impl TaskKey {
    /// Whether both say the same.
    pub fn same_as(&self, other: &TaskKey) -> (same: bool)
        ensures
            same == (self@ == other@),
    {
        self.task_id.0 == other.task_id.0 && self.queue == other.queue && self.status
            == other.status
    }
}

/// A stored task.
#[derive(Debug)]
pub struct TaskWithMeta {
    pub args: Value,
    pub ctx: JsonMapMetadata,
    /// What the task gave, once it was done.
    pub result: Option<Value>,
    pub idempotency_key: Option<String>,
}

/// Stored tasks by what they are found by.
pub type TaskMap = Map<KeyText, TaskWithMeta>;

/// What a new task is found by: its own identifier or, if it has none, `fresh`.
pub open spec fn pending_key(item: JsonTask, fresh: RandomId, queue: Seq<char>) -> KeyText {
    KeyText { id: item.id_or(fresh), queue, status: Status::Pending }
}

/// How a new task is stored.
pub open spec fn without_result(item: JsonTask) -> TaskWithMeta {
    TaskWithMeta {
        args: item.args,
        ctx: item.parts.ctx,
        result: None,
        idempotency_key: item.parts.idempotency_key,
    }
}

/// Whether a stored task has this idempotency key.
pub open spec fn knows(tasks: TaskMap, text: Seq<char>) -> bool {
    exists|key: KeyText| #[trigger]
        tasks.contains_key(key) && key_text(tasks[key].idempotency_key) == Some(text)
}

/// The stored tasks after `item` was stored.
pub open spec fn stored(
    tasks: TaskMap,
    item: JsonTask,
    fresh: RandomId,
    queue: Seq<char>,
) -> TaskMap {
    tasks.insert(pending_key(item, fresh, queue), without_result(item))
}

/// Whether sending `item` changes nothing, as a stored task has its idempotency key.
pub open spec fn is_repeat(tasks: TaskMap, item: JsonTask) -> bool {
    item.key() matches Some(text) && knows(tasks, text)
}

/// The stored tasks after `item` was sent.
pub open spec fn sent(
    tasks: TaskMap,
    item: JsonTask,
    fresh: RandomId,
    queue: Seq<char>,
) -> TaskMap {
    if is_repeat(tasks, item) {
        tasks
    } else {
        stored(tasks, item, fresh, queue)
    }
}

/// The stored tasks after `items` were flushed in their order, the one at `i` with the identifier
/// `fresh[i]` if it has none of its own.
pub open spec fn flushed(
    tasks: TaskMap,
    items: Seq<JsonTask>,
    fresh: Seq<RandomId>,
    queue: Seq<char>,
) -> TaskMap
    decreases items.len(),
{
    if items.len() == 0 {
        tasks
    } else {
        stored(
            flushed(tasks, items.drop_last(), fresh, queue),
            items.last(),
            fresh[items.len() - 1],
            queue,
        )
    }
}

/// Whether each of the identifiers was drawn.
pub open spec fn all_drawn(fresh: Seq<RandomId>) -> bool {
    forall|i: int| 0 <= i < fresh.len() ==> drawn(#[trigger] fresh[i])
}

/// Tasks with JSON arguments for workers that take `Args`.
pub struct JsonStorage<Args> {
    entries: Vec<(TaskKey, TaskWithMeta)>,
    buffer: Vec<JsonTask>,
    queue: String,
    args: PhantomData<Args>,
}

/// The index of the entry with this key.
spec fn is_at(entries: Seq<(TaskKey, TaskWithMeta)>, key: KeyText, i: int) -> bool {
    0 <= i < entries.len() && entries[i].0@ == key
}

/// What the entries hold.
spec fn as_map(entries: Seq<(TaskKey, TaskWithMeta)>) -> TaskMap {
    Map::new(
        |key: KeyText| exists|i: int| is_at(entries, key, i),
        |key: KeyText| entries[choose|i: int| is_at(entries, key, i)].1,
    )
}

/// No two entries have the same key.
spec fn keys_unique(entries: Seq<(TaskKey, TaskWithMeta)>) -> bool {
    forall|i: int, j: int|
        0 <= i < j < entries.len() ==> (#[trigger] entries[i]).0@ != (#[trigger] entries[j]).0@
}

/// Each entry is found by its key.
proof fn lemma_found(entries: Seq<(TaskKey, TaskWithMeta)>, i: int)
    requires
        keys_unique(entries),
        0 <= i < entries.len(),
    ensures
        as_map(entries).contains_key(entries[i].0@),
        as_map(entries)[entries[i].0@] == entries[i].1,
{
    let key = entries[i].0@;
    assert(is_at(entries, key, i));
    let j = choose|j: int| is_at(entries, key, j);
    assert(is_at(entries, key, j));
    assert(entries[j].0@ == entries[i].0@);
    assert(i == j);
}

impl<Args> JsonStorage<Args> {
    /// What is stored.
    pub closed spec fn tasks(&self) -> TaskMap {
        as_map(self.entries@)
    }

    /// What waits to be stored by the next flush, in this order.
    pub closed spec fn buffer(&self) -> Seq<JsonTask> {
        self.buffer@
    }

    /// The name of the queue that new tasks belong to.
    pub closed spec fn queue(&self) -> Seq<char> {
        self.queue@
    }

    /// No two entries have the same key.
    pub closed spec fn wf(&self) -> bool {
        keys_unique(self.entries@)
    }

    /// Creates an empty store whose new tasks belong to `queue`.
    pub fn new(queue: String) -> (storage: Self)
        ensures
            storage.wf(),
            storage.tasks() == Map::<KeyText, TaskWithMeta>::empty(),
            storage.buffer() == Seq::<JsonTask>::empty(),
            storage.queue() == queue@,
    {
        let storage = JsonStorage {
            entries: Vec::new(),
            buffer: Vec::new(),
            queue,
            args: PhantomData,
        };
        assert(storage.tasks() =~= Map::<KeyText, TaskWithMeta>::empty());
        storage
    }

    /// Where the task with this key is.
    fn position(&self, key: &TaskKey) -> (found: Option<usize>)
        ensures
            match found {
                Some(i) => is_at(self.entries@, key@, i as int),
                None => forall|i: int| !is_at(self.entries@, key@, i),
            },
    {
        let mut i: usize = 0;
        while i < self.entries.len()
            invariant
                i <= self.entries@.len(),
                forall|j: int| 0 <= j < i ==> !is_at(self.entries@, key@, j),
            decreases self.entries@.len() - i,
        {
            if self.entries[i].0.same_as(key) {
                return Some(i);
            }
            i += 1;
        }
        None
    }

    /// The task with this key.
    pub fn get(&self, key: &TaskKey) -> (task: Option<&TaskWithMeta>)
        requires
            self.wf(),
        ensures
            match task {
                Some(task) => self.tasks().contains_key(key@) && *task == self.tasks()[key@],
                None => !self.tasks().contains_key(key@),
            },
    {
        match self.position(key) {
            Some(i) => {
                proof {
                    lemma_found(self.entries@, i as int);
                }
                Some(&self.entries[i].1)
            },
            None => None,
        }
    }

    /// Stores `task` under `key`, in place of the task that was there.
    pub fn insert(&mut self, key: TaskKey, task: TaskWithMeta)
        requires
            old(self).wf(),
        ensures
            final(self).wf(),
            final(self).tasks() == old(self).tasks().insert(key@, task),
            final(self).buffer() == old(self).buffer(),
            final(self).queue() == old(self).queue(),
    {
        let ghost before = self.entries@;
        let ghost text = key@;
        let ghost at: int;
        match self.position(&key) {
            Some(i) => {
                self.entries.set(i, (key, task));
                proof {
                    at = i as int;
                }
            },
            None => {
                self.entries.push((key, task));
                proof {
                    at = before.len() as int;
                }
            },
        }
        proof {
            let after = self.entries@;
            assert forall|i: int, j: int| 0 <= i < j < after.len() implies (
            #[trigger] after[i]).0@ != (#[trigger] after[j]).0@ by {
                assert(at < before.len() ==> is_at(before, text, at));
                if i < before.len() && j < before.len() {
                    assert(after[i].0@ == before[i].0@);
                    assert(after[j].0@ == before[j].0@);
                    assert(before[i].0@ != before[j].0@);
                } else {
                    assert(!is_at(before, text, i));
                }
            }
            let expected = as_map(before).insert(text, task);
            assert forall|other: KeyText| #[trigger]
                as_map(after).contains_key(other) == expected.contains_key(other) by {
                if as_map(after).contains_key(other) {
                    let i = choose|i: int| is_at(after, other, i);
                    if other != text {
                        assert(is_at(before, other, i));
                    }
                }
                if expected.contains_key(other) {
                    if other == text {
                        assert(is_at(after, other, at));
                    } else {
                        let i = choose|i: int| is_at(before, other, i);
                        assert(is_at(after, other, i));
                    }
                }
            }
            assert forall|other: KeyText| as_map(after).contains_key(other) implies #[trigger] as_map(
                after,
            )[other] == expected[other] by {
                let i = choose|i: int| is_at(after, other, i);
                lemma_found(after, i);
                if other == text {
                    lemma_found(after, at);
                } else {
                    lemma_found(before, i);
                }
            }
            assert(as_map(after) =~= expected);
        }
    }

    /// Whether a stored task has this idempotency key.
    fn knows_key(&self, key: &String) -> (found: bool)
        requires
            self.wf(),
        ensures
            found == knows(self.tasks(), key@),
    {
        let mut i: usize = 0;
        while i < self.entries.len()
            invariant
                self.wf(),
                i <= self.entries@.len(),
                forall|j: int|
                    0 <= j < i ==> key_text((#[trigger] self.entries@[j]).1.idempotency_key)
                        != Some(key@),
            decreases self.entries@.len() - i,
        {
            if is_key(&self.entries[i].1.idempotency_key, key) {
                proof {
                    lemma_found(self.entries@, i as int);
                }
                return true;
            }
            i += 1;
        }
        proof {
            if knows(self.tasks(), key@) {
                let at = choose|at: KeyText| #[trigger]
                    self.tasks().contains_key(at) && key_text(self.tasks()[at].idempotency_key)
                        == Some(key@);
                let j = choose|j: int| is_at(self.entries@, at, j);
                lemma_found(self.entries@, j);
            }
        }
        false
    }

    /// Stores a new task.
    fn store(&mut self, item: JsonTask, fresh: RandomId)
        requires
            old(self).wf(),
        ensures
            final(self).wf(),
            final(self).tasks() == stored(old(self).tasks(), item, fresh, old(self).queue()),
            final(self).buffer() == old(self).buffer(),
            final(self).queue() == old(self).queue(),
    {
        let id: RandomId = match &item.parts.task_id {
            Some(task_id) => task_id.0,
            None => fresh,
        };
        let key = TaskKey {
            task_id: TaskId::new(id),
            queue: self.queue.clone(),
            status: Status::Pending,
        };
        self.insert(
            key,
            TaskWithMeta {
                args: item.args,
                ctx: item.parts.ctx,
                result: None,
                idempotency_key: item.parts.idempotency_key,
            },
        )
    }

    /// The store always takes tasks.
    pub fn poll_ready(&self) -> (polled: Polled<Result<(), SendError>>)
        ensures
            polled == Polled::Ready(Ok::<(), SendError>(())),
    {
        Polled::Ready(Ok(()))
    }

    /// Sends `item`, with `fresh` for its identifier if it came without one.
    pub fn start_send_as(&mut self, item: JsonTask, fresh: RandomId) -> (result: Result<
        (),
        SendError,
    >)
        requires
            old(self).wf(),
        ensures
            result == Ok::<(), SendError>(()),
            final(self).wf(),
            final(self).tasks() == sent(old(self).tasks(), item, fresh, old(self).queue()),
            final(self).buffer() == old(self).buffer(),
            final(self).queue() == old(self).queue(),
    {
        if let Some(key) = &item.parts.idempotency_key {
            if self.knows_key(key) {
                return Ok(());
            }
        }
        self.store(item, fresh);
        Ok(())
    }

    /// Sends `item`, with an identifier drawn at random if it came without one.
    pub fn start_send(&mut self, item: JsonTask) -> (result: Result<(), SendError>)
        requires
            old(self).wf(),
        ensures
            result == Ok::<(), SendError>(()),
            final(self).wf(),
            exists|fresh: RandomId|
                final(self).tasks() == #[trigger] sent(
                    old(self).tasks(),
                    item,
                    fresh,
                    old(self).queue(),
                ) && drawn(fresh),
            final(self).buffer() == old(self).buffer(),
            final(self).queue() == old(self).queue(),
    {
        self.start_send_as(item, RandomId::default())
    }

    /// Keeps `item` for the next flush.
    pub fn buffer_task(&mut self, item: JsonTask)
        requires
            old(self).wf(),
        ensures
            final(self).wf(),
            final(self).tasks() == old(self).tasks(),
            final(self).buffer() == old(self).buffer().push(item),
            final(self).queue() == old(self).queue(),
    {
        self.buffer.push(item);
    }

    /// How many tasks wait to be stored by the next flush.
    pub fn buffered(&self) -> (n: usize)
        ensures
            n == self.buffer().len(),
    {
        self.buffer.len()
    }

    /// Stores what was buffered, the task at `i` with `fresh[i]` for its identifier if it came
    /// without one.
    pub fn poll_flush_as(&mut self, fresh: Vec<RandomId>) -> (polled: Polled<Result<(), SendError>>)
        requires
            old(self).wf(),
            fresh@.len() == old(self).buffer().len(),
        ensures
            polled == Polled::Ready(Ok::<(), SendError>(())),
            final(self).wf(),
            final(self).tasks() == flushed(
                old(self).tasks(),
                old(self).buffer(),
                fresh@,
                old(self).queue(),
            ),
            final(self).buffer() == Seq::<JsonTask>::empty(),
            final(self).queue() == old(self).queue(),
    {
        let ghost items = self.buffer@;
        let mut tasks: Vec<JsonTask> = Vec::new();
        std::mem::swap(&mut tasks, &mut self.buffer);
        let mut i: usize = 0;
        for task in it: tasks
            invariant
                self.wf(),
                it.seq() == items,
                i == it.index(),
                fresh@.len() == items.len(),
                self.tasks() == flushed(
                    old(self).tasks(),
                    items.take(i as int),
                    fresh@,
                    old(self).queue(),
                ),
                self.buffer() == Seq::<JsonTask>::empty(),
                self.queue() == old(self).queue(),
        {
            let id: RandomId = fresh[i];
            self.store(task, id);
            assert(items.take(i + 1).drop_last() =~= items.take(i as int));
            assert(i < fresh.len());
            i += 1;
        }
        assert(items.take(i as int) =~= items);
        Polled::Ready(Ok(()))
    }

    /// Stores what was buffered, with identifiers drawn at random for the tasks that came without
    /// one.
    pub fn poll_flush(&mut self) -> (polled: Polled<Result<(), SendError>>)
        requires
            old(self).wf(),
        ensures
            polled == Polled::Ready(Ok::<(), SendError>(())),
            final(self).wf(),
            exists|fresh: Seq<RandomId>|
                fresh.len() == old(self).buffer().len() && all_drawn(fresh) && drawn_in_turn(fresh)
                    && final(self).tasks() == #[trigger] flushed(
                    old(self).tasks(),
                    old(self).buffer(),
                    fresh,
                    old(self).queue(),
                ),
            final(self).buffer() == Seq::<JsonTask>::empty(),
            final(self).queue() == old(self).queue(),
    {
        let mut draws = Draws::new();
        let mut fresh: Vec<RandomId> = Vec::new();
        while fresh.len() < self.buffer.len()
            invariant
                *self == *old(self),
                fresh@.len() <= self.buffer@.len(),
                draws.made() == fresh@,
                all_drawn(fresh@),
                drawn_in_turn(fresh@),
            decreases self.buffer@.len() - fresh@.len(),
        {
            let ghost before = fresh@;
            let id = draws.draw();
            assert(drawn_after(before, id));
            fresh.push(id);
            assert(fresh@.take(before.len() as int) =~= before);
            assert(forall|i: int|
                0 <= i < before.len() ==> #[trigger] fresh@.take(i) =~= before.take(i));
        }
        self.poll_flush_as(fresh)
    }

    /// Closing is flushing.
    pub fn poll_close(&mut self) -> (polled: Polled<Result<(), SendError>>)
        requires
            old(self).wf(),
        ensures
            polled == Polled::Ready(Ok::<(), SendError>(())),
            final(self).wf(),
            exists|fresh: Seq<RandomId>|
                fresh.len() == old(self).buffer().len() && all_drawn(fresh) && drawn_in_turn(fresh)
                    && final(self).tasks() == #[trigger] flushed(
                    old(self).tasks(),
                    old(self).buffer(),
                    fresh,
                    old(self).queue(),
                ),
            final(self).buffer() == Seq::<JsonTask>::empty(),
            final(self).queue() == old(self).queue(),
    {
        self.poll_flush()
    }
}

/// No two stored tasks have the same idempotency key.
pub open spec fn idempotency_keys_distinct(tasks: TaskMap) -> bool {
    forall|a: KeyText, b: KeyText| #[trigger]
        tasks.contains_key(a) && #[trigger] tasks.contains_key(b) && a != b && key_text(
            tasks[a].idempotency_key,
        ) is Some ==> key_text(tasks[a].idempotency_key) != key_text(tasks[b].idempotency_key)
}

/// The stored tasks after `items` were sent one by one, each with the identifier drawn for it.
pub open spec fn sent_all(
    tasks: TaskMap,
    items: Seq<(JsonTask, RandomId)>,
    queue: Seq<char>,
) -> TaskMap
    decreases items.len(),
{
    if items.len() == 0 {
        tasks
    } else {
        sent(
            sent_all(tasks, items.drop_last(), queue),
            items.last().0,
            items.last().1,
            queue,
        )
    }
}

/// Sending a task changes nothing if one with the same idempotency key was sent before: not right
/// after it, nor after others were sent of which none took the place of `holder`, the stored task
/// that has the key. One that is itself dropped takes no place.
pub proof fn law_repeat_is_dropped(
    tasks: TaskMap,
    first: JsonTask,
    fresh: RandomId,
    holder: KeyText,
    between: Seq<(JsonTask, RandomId)>,
    second: JsonTask,
    other_fresh: RandomId,
    queue: Seq<char>,
)
    requires
        first.key() is Some,
        second.key() == first.key(),
        sent(tasks, first, fresh, queue).contains_key(holder),
        key_text(sent(tasks, first, fresh, queue)[holder].idempotency_key) == first.key(),
        forall|i: int|
            0 <= i < between.len() && pending_key(
                (#[trigger] between[i]).0,
                between[i].1,
                queue,
            ) == holder ==> is_repeat(
                sent_all(sent(tasks, first, fresh, queue), between.take(i), queue),
                between[i].0,
            ),
    ensures
        ({
            let after = sent_all(sent(tasks, first, fresh, queue), between, queue);
            sent(after, second, other_fresh, queue) == after
        }),
{
    let known = sent(tasks, first, fresh, queue);
    lemma_sent_all_keeps(known, holder, between, queue);
    assert(knows(sent_all(known, between, queue), first.key().unwrap()));
}

/// After a task with an idempotency key was sent, a stored task has the key.
pub proof fn law_sent_key_is_known(
    tasks: TaskMap,
    item: JsonTask,
    fresh: RandomId,
    queue: Seq<char>,
)
    requires
        item.key() is Some,
    ensures
        knows(sent(tasks, item, fresh, queue), item.key().unwrap()),
{
    if !is_repeat(tasks, item) {
        assert(sent(tasks, item, fresh, queue).contains_key(pending_key(item, fresh, queue)));
    }
}

/// Sending leaves a stored task alone whose place is not taken.
proof fn lemma_sent_all_keeps(
    tasks: TaskMap,
    holder: KeyText,
    items: Seq<(JsonTask, RandomId)>,
    queue: Seq<char>,
)
    requires
        tasks.contains_key(holder),
        forall|i: int|
            0 <= i < items.len() && pending_key((#[trigger] items[i]).0, items[i].1, queue)
                == holder ==> is_repeat(sent_all(tasks, items.take(i), queue), items[i].0),
    ensures
        sent_all(tasks, items, queue).contains_key(holder),
        sent_all(tasks, items, queue)[holder] == tasks[holder],
    decreases items.len(),
{
    if items.len() > 0 {
        let before = items.drop_last();
        assert forall|i: int|
            0 <= i < before.len() && pending_key((#[trigger] before[i]).0, before[i].1, queue)
                == holder implies is_repeat(
            sent_all(tasks, before.take(i), queue),
            before[i].0,
        ) by {
            assert(before[i] == items[i]);
            assert(before.take(i) =~= items.take(i));
        }
        lemma_sent_all_keeps(tasks, holder, before, queue);
        assert(items[items.len() - 1] == items.last());
        assert(items.take(items.len() - 1) =~= before);
    }
}

/// A task whose idempotency key no stored task has, or that has none, is found after it was sent:
/// pending, with its arguments and without a result. Every other task is as it was.
pub proof fn law_sent_is_found(tasks: TaskMap, item: JsonTask, fresh: RandomId, queue: Seq<char>)
    requires
        !is_repeat(tasks, item),
    ensures
        ({
            let after = sent(tasks, item, fresh, queue);
            let at = pending_key(item, fresh, queue);
            &&& after.contains_key(at)
            &&& after[at] == without_result(item)
            &&& forall|other: KeyText|
                other != at ==> #[trigger] after.contains_key(other) == tasks.contains_key(other)
            &&& forall|other: KeyText|
                other != at && tasks.contains_key(other) ==> #[trigger] after[other] == tasks[other]
        }),
{
}

/// Two keys of stored tasks say the same exactly if identifier, queue and status are the same.
pub proof fn law_same_place_is_same_fields(a: TaskKey, b: TaskKey)
    ensures
        a@ == b@ <==> a.task_id == b.task_id && a.queue@ == b.queue@ && a.status == b.status,
{
}

/// A task that is sent is dropped if a stored task has exactly its idempotency key. In all other
/// cases, and always if it has none, it is put under its own identifier, or the fresh one if it
/// has none, pending in the queue, as it came and without a result.
pub proof fn law_only_the_same_key_is_dropped(
    tasks: TaskMap,
    item: JsonTask,
    fresh: RandomId,
    queue: Seq<char>,
)
    ensures
        (exists|at: KeyText|
            #[trigger] tasks.contains_key(at) && match (
                tasks[at].idempotency_key,
                item.parts.idempotency_key,
            ) {
                (Some(known), Some(own)) => known@ == own@,
                _ => false,
            }) ==> sent(tasks, item, fresh, queue) == tasks,
        (forall|at: KeyText| #[trigger]
            tasks.contains_key(at) ==> match (
                tasks[at].idempotency_key,
                item.parts.idempotency_key,
            ) {
                (Some(known), Some(own)) => known@ != own@,
                _ => true,
            }) ==> sent(tasks, item, fresh, queue) == tasks.insert(
            (KeyText {
                id: match item.parts.task_id {
                    Some(own) => own.0,
                    None => fresh,
                },
                queue,
                status: Status::Pending,
            }),
            (TaskWithMeta {
                args: item.args,
                ctx: item.parts.ctx,
                result: None,
                idempotency_key: item.parts.idempotency_key,
            }),
        ),
{
}

/// Tasks that differ pairwise in identifier and idempotency key are all found after they were sent
/// to a store in which no task has one of their keys. Nothing else has come into the store.
pub proof fn law_different_tasks_are_all_found(
    tasks: TaskMap,
    items: Seq<(JsonTask, RandomId)>,
    queue: Seq<char>,
)
    requires
        forall|i: int, j: int|
            0 <= i < j < items.len() ==> (#[trigger] items[i]).0.id_or(items[i].1) != (
            #[trigger] items[j]).0.id_or(items[j].1),
        forall|i: int, j: int|
            0 <= i < j < items.len() ==> match (
                (#[trigger] items[i]).0.parts.idempotency_key,
                (#[trigger] items[j]).0.parts.idempotency_key,
            ) {
                (Some(one), Some(other)) => one@ != other@,
                _ => true,
            },
        forall|i: int, at: KeyText|
            0 <= i < items.len() && #[trigger] tasks.contains_key(at) ==> match (
                tasks[at].idempotency_key,
                (#[trigger] items[i]).0.parts.idempotency_key,
            ) {
                (Some(known), Some(own)) => known@ != own@,
                _ => true,
            },
    ensures
        forall|i: int|
            0 <= i < items.len() ==> {
                let at = KeyText {
                    id: (#[trigger] items[i]).0.id_or(items[i].1),
                    queue,
                    status: Status::Pending,
                };
                &&& sent_all(tasks, items, queue).contains_key(at)
                &&& sent_all(tasks, items, queue)[at].args == items[i].0.args
                &&& sent_all(tasks, items, queue)[at].idempotency_key
                    == items[i].0.parts.idempotency_key
            },
        forall|at: KeyText| #[trigger]
            sent_all(tasks, items, queue).contains_key(at) ==> (tasks.contains_key(at) && sent_all(
                tasks,
                items,
                queue,
            )[at] == tasks[at]) || exists|i: int|
                0 <= i < items.len() && (#[trigger] items[i]).0.id_or(items[i].1) == at.id
                    && sent_all(tasks, items, queue)[at].idempotency_key
                    == items[i].0.parts.idempotency_key,
    decreases items.len(),
{
    if items.len() > 0 {
        let before = items.drop_last();
        let n = before.len() as int;
        assert(forall|i: int| 0 <= i < n ==> #[trigger] before[i] == items[i]);
        law_different_tasks_are_all_found(tasks, before, queue);
        let earlier = sent_all(tasks, before, queue);
        let last = items[n].0;
        assert forall|at: KeyText| #[trigger] earlier.contains_key(at) implies match (
            earlier[at].idempotency_key,
            last.parts.idempotency_key,
        ) {
            (Some(known), Some(own)) => known@ != own@,
            _ => true,
        } by {
            if !(tasks.contains_key(at) && earlier[at] == tasks[at]) {
                let i = choose|i: int|
                    0 <= i < before.len() && (#[trigger] before[i]).0.id_or(before[i].1) == at.id
                        && earlier[at].idempotency_key == before[i].0.parts.idempotency_key;
                assert(items[i] == before[i]);
            }
        }
        law_only_the_same_key_is_dropped(earlier, last, items[n].1, queue);
        let after = sent_all(tasks, items, queue);
        assert(after == sent(earlier, last, items[n].1, queue));
        assert forall|i: int| 0 <= i < items.len() implies {
            let at = KeyText {
                id: (#[trigger] items[i]).0.id_or(items[i].1),
                queue,
                status: Status::Pending,
            };
            &&& after.contains_key(at)
            &&& after[at].args == items[i].0.args
            &&& after[at].idempotency_key == items[i].0.parts.idempotency_key
        } by {
            if i < n {
                assert(before[i] == items[i]);
                assert(items[i].0.id_or(items[i].1) != items[n].0.id_or(items[n].1));
            }
        }
        assert forall|at: KeyText| #[trigger] after.contains_key(at) implies (tasks.contains_key(
            at,
        ) && after[at] == tasks[at]) || exists|i: int|
            0 <= i < items.len() && (#[trigger] items[i]).0.id_or(items[i].1) == at.id
                && after[at].idempotency_key == items[i].0.parts.idempotency_key by {
            if at == pending_key(last, items[n].1, queue) {
                assert(items[n].0.id_or(items[n].1) == at.id);
            } else {
                assert(earlier.contains_key(at));
                assert(after[at] == earlier[at]);
                if !(tasks.contains_key(at) && earlier[at] == tasks[at]) {
                    let i = choose|i: int|
                        0 <= i < before.len() && (#[trigger] before[i]).0.id_or(before[i].1)
                            == at.id && earlier[at].idempotency_key
                            == before[i].0.parts.idempotency_key;
                    assert(items[i].0.id_or(items[i].1) == at.id);
                }
            }
        }
    }
}

/// Sending never makes two stored tasks share an idempotency key: so it is in an empty store, and
/// every send keeps it so.
pub proof fn law_sending_keeps_keys_distinct(
    tasks: TaskMap,
    item: JsonTask,
    fresh: RandomId,
    queue: Seq<char>,
)
    ensures
        idempotency_keys_distinct(Map::<KeyText, TaskWithMeta>::empty()),
        idempotency_keys_distinct(tasks) ==> idempotency_keys_distinct(
            sent(tasks, item, fresh, queue),
        ),
{
    let after = sent(tasks, item, fresh, queue);
    assert forall|a: KeyText, b: KeyText|
        idempotency_keys_distinct(tasks) && #[trigger] after.contains_key(a)
            && #[trigger] after.contains_key(b) && a != b && key_text(
            after[a].idempotency_key,
        ) is Some implies key_text(after[a].idempotency_key) != key_text(
        after[b].idempotency_key,
    ) by {
        let at = pending_key(item, fresh, queue);
        if a != at {
            assert(tasks.contains_key(a));
        }
        if b != at {
            assert(tasks.contains_key(b));
        }
    }
}

/// Flushing stores every buffered task, whatever its idempotency key: each is found, unless a
/// later one took its place, and what no buffered task took the place of is as it was.
pub proof fn law_flushed_are_found(
    tasks: TaskMap,
    items: Seq<JsonTask>,
    fresh: Seq<RandomId>,
    queue: Seq<char>,
)
    ensures
        forall|i: int|
            0 <= i < items.len() && (forall|j: int|
                i < j < items.len() ==> (#[trigger] items[j]).id_or(fresh[j]) != items[i].id_or(
                    fresh[i],
                )) ==> {
                let at = #[trigger] pending_key(items[i], fresh[i], queue);
                &&& flushed(tasks, items, fresh, queue).contains_key(at)
                &&& flushed(tasks, items, fresh, queue)[at] == without_result(items[i])
            },
        forall|key: KeyText|
            (forall|i: int|
                0 <= i < items.len() ==> pending_key(#[trigger] items[i], fresh[i], queue) != key)
                ==> #[trigger] flushed(tasks, items, fresh, queue).contains_key(key)
                == tasks.contains_key(key) && flushed(tasks, items, fresh, queue)[key] == tasks[key],
    decreases items.len(),
{
    if items.len() > 0 {
        let before = items.drop_last();
        law_flushed_are_found(tasks, before, fresh, queue);
        let n = before.len() as int;
        assert(forall|i: int| 0 <= i < n ==> #[trigger] before[i] == items[i]);
        let last_key = pending_key(items[n], fresh[n], queue);
        assert forall|i: int|
            0 <= i < items.len() && (forall|j: int|
                i < j < items.len() ==> (#[trigger] items[j]).id_or(fresh[j]) != items[i].id_or(
                    fresh[i],
                )) implies {
            let at = #[trigger] pending_key(items[i], fresh[i], queue);
            &&& flushed(tasks, items, fresh, queue).contains_key(at)
            &&& flushed(tasks, items, fresh, queue)[at] == without_result(items[i])
        } by {
            if i < n {
                assert(items[n].id_or(fresh[n]) != items[i].id_or(fresh[i]));
                assert(before[i] == items[i]);
                assert(forall|j: int|
                    i < j < n ==> (#[trigger] before[j]).id_or(fresh[j]) != before[i].id_or(
                        fresh[i],
                    ));
                assert(pending_key(before[i], fresh[i], queue) != last_key);
            }
        }
        assert forall|key: KeyText|
            (forall|i: int|
                0 <= i < items.len() ==> pending_key(#[trigger] items[i], fresh[i], queue) != key)
            implies #[trigger] flushed(tasks, items, fresh, queue).contains_key(key)
            == tasks.contains_key(key) && flushed(tasks, items, fresh, queue)[key]
            == tasks[key] by {
            assert(items[n] == items.last());
            assert(key != last_key);
            assert(forall|i: int|
                0 <= i < n ==> pending_key(#[trigger] before[i], fresh[i], queue) != key) by {
                assert(forall|i: int|
                    0 <= i < n ==> pending_key(#[trigger] items[i], fresh[i], queue) != key);
            }
            assert(flushed(tasks, before, fresh, queue).contains_key(key) == tasks.contains_key(
                key,
            ));
        }
    }
}

/// A storage holds finitely many tasks.
pub proof fn law_stored_tasks_are_finite<Args>(storage: JsonStorage<Args>)
    requires
        storage.wf(),
    ensures
        storage.tasks().dom().finite(),
{
    let entries = storage.entries@;
    let keys = entries.map_values(|entry: (TaskKey, TaskWithMeta)| entry.0@);
    vstd::seq_lib::seq_to_set_is_finite(keys);
    assert forall|key: KeyText| storage.tasks().dom().contains(key) implies keys.to_set().contains(
        key,
    ) by {
        let i = choose|i: int| is_at(entries, key, i);
        assert(keys[i] == key);
    }
    vstd::set_lib::lemma_set_subset_finite(keys.to_set(), storage.tasks().dom());
}

/// Sending adds at most one stored task: none where the task is dropped or takes the place of
/// another, else one.
pub proof fn law_sending_adds_at_most_one(
    tasks: TaskMap,
    item: JsonTask,
    fresh: RandomId,
    queue: Seq<char>,
)
    requires
        tasks.dom().finite(),
    ensures
        sent(tasks, item, fresh, queue).dom().finite(),
        sent(tasks, item, fresh, queue).dom().len() == (if is_repeat(tasks, item)
            || tasks.contains_key(pending_key(item, fresh, queue)) {
            tasks.dom().len()
        } else {
            tasks.dom().len() + 1
        }),
{
    if tasks.contains_key(pending_key(item, fresh, queue)) {
        assert(stored(tasks, item, fresh, queue).dom() =~= tasks.dom());
    }
}

/// Flushing adds at most as many stored tasks as were buffered, and takes none away.
pub proof fn law_flushing_adds_at_most_what_was_buffered(
    tasks: TaskMap,
    items: Seq<JsonTask>,
    fresh: Seq<RandomId>,
    queue: Seq<char>,
)
    requires
        tasks.dom().finite(),
    ensures
        flushed(tasks, items, fresh, queue).dom().finite(),
        tasks.dom().len() <= flushed(tasks, items, fresh, queue).dom().len() <= tasks.dom().len()
            + items.len(),
    decreases items.len(),
{
    if items.len() > 0 {
        law_flushing_adds_at_most_what_was_buffered(tasks, items.drop_last(), fresh, queue);
    }
}

/// Flushing tasks whose identifiers differ pairwise, and of which none is pending in the queue,
/// stores each of them: there are as many more as were buffered, each with what it was buffered
/// with, and those that were stored before are as they were.
pub proof fn law_flushing_different_tasks_stores_each(
    tasks: TaskMap,
    items: Seq<JsonTask>,
    fresh: Seq<RandomId>,
    queue: Seq<char>,
)
    requires
        tasks.dom().finite(),
        forall|i: int, j: int|
            0 <= i < j < items.len() ==> (#[trigger] items[i]).id_or(fresh[i]) != (
            #[trigger] items[j]).id_or(fresh[j]),
        forall|i: int|
            0 <= i < items.len() ==> !tasks.contains_key(
                (KeyText {
                    id: (#[trigger] items[i]).id_or(fresh[i]),
                    queue,
                    status: Status::Pending,
                }),
            ),
    ensures
        flushed(tasks, items, fresh, queue).dom().finite(),
        flushed(tasks, items, fresh, queue).dom().len() == tasks.dom().len() + items.len(),
        forall|i: int|
            0 <= i < items.len() ==> {
                let at = KeyText {
                    id: (#[trigger] items[i]).id_or(fresh[i]),
                    queue,
                    status: Status::Pending,
                };
                &&& flushed(tasks, items, fresh, queue).contains_key(at)
                &&& flushed(tasks, items, fresh, queue)[at] == (TaskWithMeta {
                    args: items[i].args,
                    ctx: items[i].parts.ctx,
                    result: None,
                    idempotency_key: items[i].parts.idempotency_key,
                })
            },
        forall|at: KeyText| #[trigger]
            tasks.contains_key(at) ==> flushed(tasks, items, fresh, queue).contains_key(at)
                && flushed(tasks, items, fresh, queue)[at] == tasks[at],
    decreases items.len(),
{
    law_flushed_are_found(tasks, items, fresh, queue);
    let after = flushed(tasks, items, fresh, queue);
    assert forall|i: int| 0 <= i < items.len() implies {
        let at = KeyText {
            id: (#[trigger] items[i]).id_or(fresh[i]),
            queue,
            status: Status::Pending,
        };
        &&& after.contains_key(at)
        &&& after[at] == (TaskWithMeta {
            args: items[i].args,
            ctx: items[i].parts.ctx,
            result: None,
            idempotency_key: items[i].parts.idempotency_key,
        })
    } by {
        assert(after.contains_key(pending_key(items[i], fresh[i], queue)));
    }
    assert forall|at: KeyText| #[trigger] tasks.contains_key(at) implies after.contains_key(at)
        && after[at] == tasks[at] by {
        assert(forall|i: int|
            0 <= i < items.len() ==> pending_key(#[trigger] items[i], fresh[i], queue) != at);
        assert(after.contains_key(at) == tasks.contains_key(at));
    }
    if items.len() > 0 {
        let before = items.drop_last();
        let n = before.len() as int;
        assert(forall|i: int| 0 <= i < n ==> #[trigger] before[i] == items[i]);
        law_flushing_different_tasks_stores_each(tasks, before, fresh, queue);
        law_flushed_are_found(tasks, before, fresh, queue);
        let at = pending_key(items[n], fresh[n], queue);
        assert(forall|i: int|
            0 <= i < n ==> pending_key(#[trigger] before[i], fresh[i], queue) != at) by {
            assert(forall|i: int|
                0 <= i < n ==> (#[trigger] items[i]).id_or(fresh[i]) != items[n].id_or(fresh[n]));
        }
        assert(flushed(tasks, before, fresh, queue).contains_key(at) == tasks.contains_key(at));
    }
}

} // verus!
