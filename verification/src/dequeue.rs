//! The in-memory backend that keeps its tasks in a `VecDeque` behind a lock.
//!
//! Tasks are fetched in the order in which they were stored. A task is dropped without an error
//! if one with the same idempotency key is in the queue; once that one was fetched, the key is
//! free again. Whoever finds the queue locked by another gets an error, and the queue is as it was.

use std::collections::VecDeque;
use std::sync::atomic::{AtomicUsize, Ordering};
use std::sync::Arc;
use std::time::Duration;

use futures_util::lock::{Mutex, MutexGuard};
use vstd::prelude::*;

use crate::lock::{all_taken, held_in_turn, lent, made_with, released, tried, Guarded};
use crate::select::{lemma_selected_grows, selected};
use crate::task::{is_key, RandomId, Task};

mod fetch;
mod store;

verus! {

/// Errors of the `VecDeque` backend, each with the text of its cause.
#[derive(Clone, Debug)]
pub enum VecDequeError {
    /// Polling failed.
    PollError(String),
    /// Sending failed.
    SendError(String),
}

/// What an error says.
pub enum ErrorText {
    PollError(Seq<char>),
    SendError(Seq<char>),
}

impl ErrorText {
    /// The error in words.
    pub open spec fn in_words(self) -> Seq<char> {
        match self {
            ErrorText::PollError(cause) => "Polling error: "@ + cause,
            ErrorText::SendError(cause) => "Sending error: "@ + cause,
        }
    }
}

impl View for VecDequeError {
    type V = ErrorText;

    open spec fn view(&self) -> ErrorText {
        match self {
            VecDequeError::PollError(cause) => ErrorText::PollError(cause@),
            VecDequeError::SendError(cause) => ErrorText::SendError(cause@),
        }
    }
}

/// A result with the text of its error.
pub open spec fn with_text<V>(result: Result<V, VecDequeError>) -> Result<V, ErrorText> {
    match result {
        Ok(value) => Ok(value),
        Err(error) => Err(error@),
    }
}

/// What whoever finds the queue locked is told.
pub open spec fn lock_refused() -> ErrorText {
    ErrorText::PollError("Failed to acquire lock"@)
}

impl VecDequeError {
    /// The error in words.
    pub fn to_string(&self) -> (text: String)
        ensures
            text@ == self@.in_words(),
    {
        match self {
            VecDequeError::PollError(cause) => "Polling error: ".to_owned().concat(cause.as_str()),
            VecDequeError::SendError(cause) => "Sending error: ".to_owned().concat(cause.as_str()),
        }
    }

    /// The error of whoever finds the queue locked.
    pub fn lock_refused() -> (error: Self)
        ensures
            error@ == lock_refused(),
    {
        VecDequeError::PollError("Failed to acquire lock".to_owned())
    }
}

/// Reports an error as one of polling, with the error itself as the cause.
pub fn as_poll_error<V>(result: Result<V, VecDequeError>) -> (reported: Result<V, VecDequeError>)
    ensures
        with_text(reported) == poll_reported(with_text(result)),
{
    match result {
        Ok(value) => Ok(value),
        Err(error) => Err(VecDequeError::PollError(error.to_string())),
    }
}

/// What [`as_poll_error`] makes of a result.
pub open spec fn poll_reported<V>(result: Result<V, ErrorText>) -> Result<V, ErrorText> {
    match result {
        Ok(value) => Ok(value),
        Err(error) => Err(ErrorText::PollError(error.in_words())),
    }
}

/// Reports an error as one of sending, with the error itself as the cause.
pub fn as_send_error<V>(result: Result<V, VecDequeError>) -> (reported: Result<V, VecDequeError>)
    ensures
        with_text(reported) == send_reported(with_text(result)),
{
    match result {
        Ok(value) => Ok(value),
        Err(error) => Err(VecDequeError::SendError(error.to_string())),
    }
}

/// What [`as_send_error`] makes of a result.
pub open spec fn send_reported<V>(result: Result<V, ErrorText>) -> Result<V, ErrorText> {
    match result {
        Ok(value) => Ok(value),
        Err(error) => Err(ErrorText::SendError(error.in_words())),
    }
}

/// Polls at a fixed interval.
#[derive(Clone, Copy, Debug)]
pub struct IntervalStrategy {
    pub poll_interval: Duration,
}

/// Configuration of the `VecDeque` backend. Clones share the count.
#[derive(Debug)]
pub struct Config {
    /// When to poll.
    pub strategy: IntervalStrategy,
    /// How many tasks the last poll that got at the queue brought: one or none.
    pub prev_count: Arc<AtomicUsize>,
}

impl Clone for Config {
    /// Shares the count.
    fn clone(&self) -> (config: Self)
        ensures
            config == *self,
    {
        Config { strategy: self.strategy, prev_count: self.prev_count.clone() }
    }
}

/// Whether `counter` came of `AtomicUsize::new` with `count`. It says what was there at first.
pub open spec fn counts_from(counter: AtomicUsize, count: usize) -> bool {
    call_ensures(AtomicUsize::new, (count,), counter)
}

/// Whether `count` was put in `counter` with `AtomicUsize::store`. Others may have put another
/// there since.
pub open spec fn published(counter: AtomicUsize, count: usize) -> bool {
    call_ensures(AtomicUsize::store, (&counter, count, Ordering::Relaxed), ())
}

/// A queue of tasks.
pub type TaskQueue<T> = VecDeque<Task<T, (), RandomId>>;

/// The tasks in a queue, the oldest first.
pub type TaskSeq<T> = Seq<Task<T, (), RandomId>>;

/// Whether a task with this key is in the queue.
pub open spec fn has_key<T>(queue: TaskSeq<T>, key: Seq<char>) -> bool {
    exists|i: int| 0 <= i < queue.len() && (#[trigger] queue[i]).key() == Some(key)
}

/// The queue after storing `item`: unless its key is there already, `item` is last.
pub open spec fn stored<T>(queue: TaskSeq<T>, item: Task<T, (), RandomId>) -> TaskSeq<T> {
    if item.key() matches Some(key) && has_key(queue, key) {
        queue
    } else {
        queue.push(item)
    }
}

/// The task that is fetched: the oldest.
pub open spec fn oldest<T>(queue: TaskSeq<T>) -> Option<Task<T, (), RandomId>> {
    if queue.len() > 0 {
        Some(queue[0])
    } else {
        None
    }
}

/// The queue after fetching.
pub open spec fn remaining<T>(queue: TaskSeq<T>) -> TaskSeq<T> {
    if queue.len() > 0 {
        queue.drop_first()
    } else {
        queue
    }
}

/// What fetching returns, given the queue or, where the lock was refused, none.
pub open spec fn fetch_answer<T>(queue: Option<TaskSeq<T>>) -> Result<
    Option<Task<T, (), RandomId>>,
    ErrorText,
> {
    match queue {
        Some(queue) => Ok(oldest(queue)),
        None => Err(lock_refused()),
    }
}

/// The count to publish after fetching from a queue: one task or none.
pub open spec fn fetch_count<T>(queue: TaskSeq<T>) -> usize {
    if queue.len() > 0 {
        1
    } else {
        0
    }
}

/// What storing returns, given the queue or, where the lock was refused, none.
pub open spec fn store_answer<T>(queue: Option<TaskSeq<T>>) -> Result<(), ErrorText> {
    match queue {
        Some(_) => Ok(()),
        None => Err(lock_refused()),
    }
}

/// The queue that was found behind the lock, unless the lock was refused.
pub open spec fn found<T>(queue: Option<&mut TaskQueue<T>>) -> Option<TaskSeq<T>> {
    match queue {
        Some(queue) => Some(queue@),
        None => None,
    }
}

/// Whether a task with this key is in the queue.
fn contains_key<T>(queue: &TaskQueue<T>, key: &String) -> (found: bool)
    ensures
        found == has_key(queue@, key@),
{
    let mut i: usize = 0;
    while i < queue.len()
        invariant
            i <= queue@.len(),
            forall|j: int| 0 <= j < i ==> (#[trigger] queue@[j]).key() != Some(key@),
        decreases queue@.len() - i,
    {
        if is_key(&queue[i].parts.idempotency_key, key) {
            assert(queue@[i as int].key() == Some(key@));
            return true;
        }
        i += 1;
    }
    false
}

/// What came of a fetch.
#[derive(Debug)]
pub struct Fetched<T> {
    /// The oldest task, none, or that the lock was refused.
    pub task: Result<Option<Task<T, (), RandomId>>, VecDequeError>,
    /// The count to publish. Where the lock was refused there is none, and the last one stands.
    pub count: Option<usize>,
}

/// Fetches the oldest task of a queue that was locked for it, or reports that the lock was
/// refused.
pub fn fetch_from<T>(queue: Option<&mut TaskQueue<T>>) -> (fetched: Fetched<T>)
    ensures
        with_text(fetched.task) == fetch_answer(found(queue)),
        fetched.count == (match found(queue) {
            Some(tasks) => Some(fetch_count(tasks)),
            None => None,
        }),
        queue matches Some(queue) ==> final(queue)@ == remaining(queue@),
{
    match queue {
        Some(queue) => {
            let item = queue.pop_front();
            let count: usize = if item.is_some() {
                1
            } else {
                0
            };
            Fetched { task: Ok(item), count: Some(count) }
        },
        None => Fetched { task: Err(VecDequeError::lock_refused()), count: None },
    }
}

/// Stores a task in a queue that was locked for it, or reports that the lock was refused.
pub fn store_in<T>(
    queue: Option<&mut TaskQueue<T>>,
    item: Task<T, (), RandomId>,
) -> (sent: Result<(), VecDequeError>)
    ensures
        with_text(sent) == store_answer(found(queue)),
        queue matches Some(queue) ==> final(queue)@ == stored(queue@, item),
{
    match queue {
        Some(queue) => {
            if let Some(key) = &item.parts.idempotency_key {
                if contains_key(queue, key) {
                    return Ok(());
                }
            }
            queue.push_back(item);
            Ok(())
        },
        None => Err(VecDequeError::lock_refused()),
    }
}

impl<T> Guarded for VecDeque<Task<T, (), RandomId>> {
    type Item = Task<T, (), RandomId>;

    /// Each holder takes away the oldest task, puts one task last whose key is not there, or leaves
    /// all as it is.
    open spec fn may_become(self, left: Self) -> bool {
        ||| left@ == self@
        ||| self@.len() > 0 && left@ == self@.drop_first()
        ||| left@.len() > 0 && left@.drop_last() == self@ && (left@.last().key() matches Some(key)
            ==> !has_key(self@, key))
    }

    /// As many of the oldest tasks as there are fewer now.
    open spec fn taken(self, left: Self) -> Seq<Task<T, (), RandomId>> {
        if left@.len() < self@.len() {
            self@.take(self@.len() - left@.len())
        } else {
            Seq::empty()
        }
    }
}

/// Whether `lock` came of putting an empty queue behind a lock with `Mutex::new`. It says what was
/// there at first: whoever shares the lock may have stored tasks since.
pub open spec fn made_empty<T>(lock: Mutex<TaskQueue<T>>) -> bool {
    exists|queue: TaskQueue<T>| queue@.len() == 0 && #[trigger] made_with(lock, queue)
}

/// A queue behind a lock. Clones share the queue.
#[derive(Debug)]
#[verifier::reject_recursive_types(T)]
pub struct InMemoryDb<T> {
    inner: Arc<Mutex<TaskQueue<T>>>,
}

impl<T> Clone for InMemoryDb<T> {
    /// Shares the queue.
    fn clone(&self) -> (db: Self)
        ensures
            db.shared() == self.shared(),
    {
        InMemoryDb { inner: self.inner.clone() }
    }
}

impl<T> Default for InMemoryDb<T> {
    fn default() -> (db: Self)
        ensures
            made_empty(*db.shared()),
    {
        Self::new()
    }
}

impl<T> InMemoryDb<T> {
    /// The queue and its lock, as clones share them.
    pub closed spec fn shared(&self) -> Arc<Mutex<TaskQueue<T>>> {
        self.inner
    }

    /// Creates an empty queue.
    pub fn new() -> (db: Self)
        ensures
            made_empty(*db.shared()),
    {
        InMemoryDb { inner: Arc::new(Mutex::new(VecDeque::new())) }
    }

    /// Gives up this handle for what it shares with its clones.
    pub fn into_inner(self) -> (inner: Arc<Mutex<TaskQueue<T>>>)
        ensures
            inner == self.shared(),
    {
        self.inner
    }

    /// Lends out what this handle shares with its clones.
    pub fn as_arc(&self) -> (inner: &Arc<Mutex<TaskQueue<T>>>)
        ensures
            *inner == self.shared(),
    {
        &self.inner
    }
}

/// The backend: a queue, and how it is polled.
#[verifier::reject_recursive_types(T)]
pub struct VecDequeBackend<T> {
    db: InMemoryDb<T>,
    config: Config,
}

impl<T> Clone for VecDequeBackend<T> {
    /// Shares the queue and the count.
    fn clone(&self) -> (backend: Self)
        ensures
            backend.shared() == self.shared(),
            backend.config() == self.config(),
    {
        VecDequeBackend { db: self.db.clone(), config: self.config.clone() }
    }
}

impl<T> VecDequeBackend<T> {
    /// The queue and its lock, as clones share them.
    pub closed spec fn shared(&self) -> Arc<Mutex<TaskQueue<T>>> {
        self.db.shared()
    }

    /// How the queue is polled.
    pub closed spec fn config(&self) -> Config {
        self.config
    }

    /// Takes the backend apart.
    pub fn into_parts(self) -> (parts: (InMemoryDb<T>, Config))
        ensures
            parts.0.shared() == self.shared(),
            parts.1 == self.config(),
    {
        (self.db, self.config)
    }

    /// Fetches as a worker does that polls the backend: errors are reported as errors of polling.
    pub fn poll_once(&self) -> (fetched: Result<Option<Task<T, (), RandomId>>, VecDequeError>)
        ensures
            exists|locked: Option<MutexGuard<'_, TaskQueue<T>>>| #[trigger]
                tried(*self.shared(), locked) && match locked {
                    Some(held) => exists|
                        guard: &mut MutexGuard<'_, TaskQueue<T>>,
                        queue: &mut TaskQueue<T>,
                    | #[trigger]
                        lent(guard, queue) && *guard == held && released(*final(guard))
                            && with_text(fetched) == poll_reported(
                            fetch_answer(Some(queue@)),
                        ) && final(queue)@ == remaining(queue@)
                            && published(*self.config().prev_count, fetch_count(queue@)),
                    None => with_text(fetched) == poll_reported(fetch_answer::<T>(None)),
                },
    {
        assert(self.shared() == self.db.shared());
        as_poll_error(self.db.fetch_next(&self.config))
    }

    /// Stores as a sender does: errors are reported as errors of sending.
    pub fn send_once(&self, item: Task<T, (), RandomId>) -> (sent: Result<(), VecDequeError>)
        ensures
            exists|locked: Option<MutexGuard<'_, TaskQueue<T>>>| #[trigger]
                tried(*self.shared(), locked) && match locked {
                    Some(held) => exists|
                        guard: &mut MutexGuard<'_, TaskQueue<T>>,
                        queue: &mut TaskQueue<T>,
                    | #[trigger]
                        lent(guard, queue) && *guard == held && released(*final(guard))
                            && with_text(sent) == send_reported(
                            store_answer(Some(queue@)),
                        ) && final(queue)@ == stored(queue@, item),
                    None => with_text(sent) == send_reported(store_answer::<T>(None)),
                },
    {
        assert(self.shared() == self.db.shared());
        as_send_error(self.db.store(item))
    }
}

/// Creates a backend with an empty queue that is polled every `poll_interval`. It starts as if a
/// task had just been fetched.
pub fn backend<T>(poll_interval: Duration) -> (made: VecDequeBackend<T>)
    ensures
        made_empty(*made.shared()),
        made.config().strategy == (IntervalStrategy { poll_interval }),
        counts_from(*made.config().prev_count, 1),
{
    VecDequeBackend {
        db: InMemoryDb::new(),
        config: Config {
            strategy: IntervalStrategy { poll_interval },
            prev_count: Arc::new(AtomicUsize::new(1)),
        },
    }
}

/// The queue after storing `items` one by one.
pub open spec fn stored_all<T>(queue: TaskSeq<T>, items: TaskSeq<T>) -> TaskSeq<T>
    decreases items.len(),
{
    if items.len() == 0 {
        queue
    } else {
        stored(stored_all(queue, items.drop_last()), items.last())
    }
}

/// No two tasks in the queue have the same key.
pub open spec fn keys_distinct<T>(queue: TaskSeq<T>) -> bool {
    forall|i: int, j: int|
        0 <= i < j < queue.len() ==> (#[trigger] queue[i]).key() is None || queue[i].key() != (
        #[trigger] queue[j]).key()
}

/// No two tasks in the queue ever have the same key: so it is when the queue is empty, and
/// storing and fetching keep it so.
pub proof fn law_queued_keys_are_distinct<T>(queue: TaskSeq<T>, item: Task<T, (), RandomId>)
    ensures
        keys_distinct(Seq::<Task<T, (), RandomId>>::empty()),
        keys_distinct(queue) ==> keys_distinct(stored(queue, item)),
        keys_distinct(queue) ==> keys_distinct(remaining(queue)),
{
    if keys_distinct(queue) {
        let after = stored(queue, item);
        assert forall|i: int, j: int| 0 <= i < j < after.len() implies (#[trigger] after[i]).key() is None
            || after[i].key() != (#[trigger] after[j]).key() by {
            assert(after[i] == queue[i]);
            if j < queue.len() {
                assert(after[j] == queue[j]);
            }
        }
        if queue.len() > 0 {
            assert(forall|i: int|
                0 <= i < queue.len() - 1 ==> #[trigger] queue.drop_first()[i] == queue[i + 1]);
        }
    }
}

/// Storing a task whose key is in the queue changes nothing: not right after one with that key
/// was stored, nor after others were stored behind it.
pub proof fn law_repeat_is_dropped<T>(
    queue: TaskSeq<T>,
    first: Task<T, (), RandomId>,
    between: TaskSeq<T>,
    second: Task<T, (), RandomId>,
)
    requires
        first.key() is Some,
        second.key() == first.key(),
    ensures
        stored(stored_all(stored(queue, first), between), second) == stored_all(
            stored(queue, first),
            between,
        ),
{
    let key = first.key().unwrap();
    let after = stored(queue, first);
    if !has_key(queue, key) {
        assert(after[queue.len() as int].key() == Some(key));
    }
    assert(has_key(after, key));
    lemma_stored_all_keeps(after, between);
    let i = choose|i: int| 0 <= i < after.len() && (#[trigger] after[i]).key() == Some(key);
    assert(stored_all(after, between)[i].key() == Some(key));
}

/// Storing leaves what is in the queue where it is.
proof fn lemma_stored_all_keeps<T>(queue: TaskSeq<T>, items: TaskSeq<T>)
    ensures
        queue.len() <= stored_all(queue, items).len(),
        forall|i: int|
            0 <= i < queue.len() ==> #[trigger] stored_all(queue, items)[i] == queue[i],
    decreases items.len(),
{
    if items.len() > 0 {
        lemma_stored_all_keeps(queue, items.drop_last());
    }
}

/// Whether the item at `i` has no key, or a key that neither a task in the queue nor an earlier
/// item has.
pub open spec fn is_first<T>(queue: TaskSeq<T>, items: TaskSeq<T>, i: int) -> bool {
    items[i].key() matches Some(key) ==> {
        &&& !has_key(queue, key)
        &&& forall|j: int| 0 <= j < i ==> (#[trigger] items[j]).key() != Some(key)
    }
}

/// Storing tasks one by one puts behind the queue, in their order, every task without a key, and
/// of the tasks that share a key only the first, unless the key was in the queue already.
pub proof fn law_each_key_is_stored_once<T>(queue: TaskSeq<T>, items: TaskSeq<T>)
    ensures
        stored_all(queue, items) == queue + selected(
            items,
            |i: int| is_first(queue, items, i),
        ),
        forall|key: Seq<char>| #[trigger]
            has_key(stored_all(queue, items), key) <==> has_key(queue, key) || has_key(items, key),
    decreases items.len(),
{
    let after = stored_all(queue, items);
    let keep = |i: int| is_first(queue, items, i);
    if items.len() == 0 {
        reveal(Seq::filter);
        assert(after =~= queue + selected(items, keep));
    } else {
        let before = items.drop_last();
        let last = items.last();
        law_each_key_is_stored_once(queue, before);
        let keep_before = |i: int| is_first(queue, before, i);
        assert(forall|j: int| 0 <= j < before.len() ==> #[trigger] items[j] == before[j]);
        assert forall|i: int| 0 <= i < before.len() implies #[trigger] keep(i) == keep_before(
            i,
        ) by {
            assert(items[i] == before[i]);
        }
        lemma_selected_grows(items, keep, keep_before);
        let earlier = stored_all(queue, before);
        assert(items[items.len() - 1] == last);
        if let Some(key) = last.key() {
            assert(has_key(earlier, key) <==> !keep(items.len() - 1));
        }
        assert(after =~= queue + selected(items, keep));
        assert forall|key: Seq<char>| #[trigger] has_key(after, key) <==> has_key(queue, key)
            || has_key(items, key) by {
            lemma_has_key_after_push(before, last, key);
            assert(before.push(last) =~= items);
            lemma_has_key_after_push(earlier, last, key);
            assert(has_key(earlier, key) <==> has_key(queue, key) || has_key(before, key));
        }
    }
}

/// A task that is put last brings its own key and no other.
proof fn lemma_has_key_after_push<T>(
    queue: TaskSeq<T>,
    item: Task<T, (), RandomId>,
    key: Seq<char>,
)
    ensures
        has_key(queue.push(item), key) <==> has_key(queue, key) || item.key() == Some(key),
{
    let after = queue.push(item);
    if has_key(queue, key) {
        let i = choose|i: int| 0 <= i < queue.len() && (#[trigger] queue[i]).key() == Some(key);
        assert(after[i] == queue[i]);
    }
    assert(after[queue.len() as int] == item);
    if has_key(after, key) {
        let i = choose|i: int| 0 <= i < after.len() && (#[trigger] after[i]).key() == Some(key);
        if i < queue.len() {
            assert(after[i] == queue[i]);
        }
    }
}

/// Once the task with a key was fetched from a queue whose keys are distinct, the key is free: a
/// task with that key is stored again, behind the others.
pub proof fn law_fetched_key_is_free<T>(queue: TaskSeq<T>, item: Task<T, (), RandomId>)
    requires
        keys_distinct(queue),
        queue.len() > 0,
        item.key() == queue[0].key(),
    ensures
        stored(remaining(queue), item) == remaining(queue).push(item),
{
    let rest = remaining(queue);
    if let Some(key) = item.key() {
        if has_key(rest, key) {
            let i = choose|i: int| 0 <= i < rest.len() && (#[trigger] rest[i]).key() == Some(key);
            assert(queue[i + 1].key() == queue[0].key());
        }
    }
}

/// A task that has no key is always stored, and is last.
pub proof fn law_keyless_is_stored<T>(queue: TaskSeq<T>, item: Task<T, (), RandomId>)
    requires
        item.key() is None,
    ensures
        stored(queue, item) == queue.push(item),
{
}

/// The queue after fetching `n` times.
pub open spec fn remaining_after<T>(queue: TaskSeq<T>, n: nat) -> TaskSeq<T>
    decreases n,
{
    if n == 0 {
        queue
    } else {
        remaining(remaining_after(queue, (n - 1) as nat))
    }
}

/// Tasks are fetched in their order: of all fetches, the one after `n` others gives the task that
/// had `n` before it, as long as there is one, and from then on nothing.
pub proof fn law_fetched_in_order<T>(queue: TaskSeq<T>, n: nat)
    ensures
        n < queue.len() ==> oldest(remaining_after(queue, n)) == Some(queue[n as int]),
        n >= queue.len() ==> oldest(remaining_after(queue, n)) is None,
        remaining_after(queue, n) == (if n <= queue.len() {
            queue.skip(n as int)
        } else {
            Seq::empty()
        }),
    decreases n,
{
    if n > 0 {
        law_fetched_in_order(queue, (n - 1) as nat);
        if n <= queue.len() {
            assert(queue.skip(n - 1).drop_first() =~= queue.skip(n as int));
        }
    }
    assert(n == queue.len() ==> queue.skip(n as int) =~= Seq::empty());
}

/// What is stored in an empty queue is what is fetched next, and leaves the queue empty.
pub proof fn law_stored_is_fetched<T>(item: Task<T, (), RandomId>)
    ensures
        oldest(stored(Seq::empty(), item)) == Some(item),
        remaining(stored(Seq::empty(), item)) == Seq::<Task<T, (), RandomId>>::empty(),
{
    assert(remaining(stored(Seq::empty(), item)) =~= Seq::<Task<T, (), RandomId>>::empty());
}

/// What is done to a queue.
pub enum Step<T> {
    /// A task is stored.
    Store(Task<T, (), RandomId>),
    /// The oldest task is fetched.
    Fetch,
}

/// A queue, with what went in and what came out while steps were taken.
pub struct History<T> {
    /// The tasks that were stored and not dropped, in their order.
    pub accepted: TaskSeq<T>,
    /// The tasks that were fetched, in their order.
    pub fetched: TaskSeq<T>,
    /// The queue as it is now.
    pub queue: TaskSeq<T>,
}

impl<T> History<T> {
    /// The history of a queue to which nothing was done yet.
    pub open spec fn of(queue: TaskSeq<T>) -> Self {
        History { accepted: Seq::empty(), fetched: Seq::empty(), queue }
    }

    /// The history with one step more.
    pub open spec fn after(self, step: Step<T>) -> Self {
        match step {
            Step::Store(item) => History {
                accepted: if item.key() matches Some(key) && has_key(self.queue, key) {
                    self.accepted
                } else {
                    self.accepted.push(item)
                },
                queue: stored(self.queue, item),
                ..self
            },
            Step::Fetch => History {
                fetched: match oldest(self.queue) {
                    Some(task) => self.fetched.push(task),
                    None => self.fetched,
                },
                queue: remaining(self.queue),
                ..self
            },
        }
    }

    /// The history with these steps more.
    pub open spec fn after_all(self, steps: Seq<Step<T>>) -> Self
        decreases steps.len(),
    {
        if steps.len() == 0 {
            self
        } else {
            self.after_all(steps.drop_last()).after(steps.last())
        }
    }
}

/// However stores and fetches follow one another, no accepted task is lost, doubled or moved: the
/// fetched tasks, followed by the queue, are what was in the queue at first, followed by the
/// accepted tasks.
pub proof fn law_accepted_are_fetched_in_order<T>(queue: TaskSeq<T>, steps: Seq<Step<T>>)
    ensures
        ({
            let history = History::of(queue).after_all(steps);
            history.fetched + history.queue == queue + history.accepted
        }),
    decreases steps.len(),
{
    let history = History::of(queue).after_all(steps);
    if steps.len() > 0 {
        law_accepted_are_fetched_in_order(queue, steps.drop_last());
        let before = History::of(queue).after_all(steps.drop_last());
        match steps.last() {
            Step::Store(item) => {
                assert((before.fetched + before.queue).push(item) =~= before.fetched
                    + before.queue.push(item));
                assert((queue + before.accepted).push(item) =~= queue + before.accepted.push(item));
            },
            Step::Fetch => {
                assert(history.fetched + history.queue =~= before.fetched + before.queue);
            },
        }
    } else {
        assert(history.fetched + history.queue =~= queue + history.accepted);
    }
}

/// However many hold the lock one after another, tasks leave the queue at its front only and come
/// in at its back only, one at most for each holder: what is still there is in the order in which
/// it was.
pub proof fn law_holders_keep_the_order<T>(queues: Seq<TaskQueue<T>>, i: int, j: int)
    requires
        held_in_turn(queues),
        0 <= i <= j < queues.len(),
    ensures
        exists|added: TaskSeq<T>, gone: int|
            0 <= gone <= queues[i]@.len() + added.len() && gone + added.len() <= j - i
                && queues[j]@ == #[trigger] (queues[i]@ + added).skip(gone),
    decreases j - i,
{
    let first = queues[i]@;
    if i == j {
        assert(first =~= (first + Seq::empty()).skip(0));
    } else {
        law_holders_keep_the_order(queues, i, j - 1);
        let found = queues[j - 1]@;
        let left = queues[j]@;
        let (added, gone) = choose|added: TaskSeq<T>, gone: int|
            0 <= gone <= first.len() + added.len() && gone + added.len() <= j - 1 - i && found
                == #[trigger] (first + added).skip(gone);
        assert(queues[j - 1].may_become(queues[j]));
        if left == found {
            assert(left == (first + added).skip(gone));
        } else if found.len() > 0 && left == found.drop_first() {
            assert(left =~= (first + added).skip(gone + 1));
        } else {
            assert(left =~= (first + added.push(left.last())).skip(gone)) by {
                assert(left =~= found.push(left.last()));
            }
        }
    }
}

/// However many hold the lock one after another, no task is lost, doubled or moved: what they took
/// away between them, followed by what is in the queue now, is what was in the queue at first,
/// followed by what they put there.
pub proof fn law_holders_lose_no_task<T>(queues: Seq<TaskQueue<T>>)
    requires
        held_in_turn(queues),
        queues.len() > 0,
    ensures
        exists|added: TaskSeq<T>|
            added.len() < queues.len() && all_taken(queues) + queues.last()@ == #[trigger] (
            queues[0]@ + added),
    decreases queues.len(),
{
    let first = queues[0]@;
    let left = queues.last()@;
    if queues.len() == 1 {
        assert(all_taken(queues) + left =~= first + Seq::empty());
    } else {
        let before = queues.drop_last();
        assert(forall|i: int| 0 <= i < before.len() ==> #[trigger] before[i] == queues[i]);
        assert(held_in_turn(before));
        law_holders_lose_no_task(before);
        let found = before.last();
        let added = choose|added: TaskSeq<T>|
            added.len() < before.len() && all_taken(before) + found@ == #[trigger] (first + added);
        assert(queues[queues.len() - 2] == found);
        assert(found.may_become(queues.last()));
        let taken = found.taken(queues.last());
        if left.len() > found@.len() {
            let item = left.last();
            assert(left =~= found@.push(item));
            assert(all_taken(queues) + left =~= (all_taken(before) + found@).push(item));
            assert((first + added).push(item) =~= first + added.push(item));
            assert(all_taken(queues) + left == first + added.push(item));
        } else {
            assert(taken + left =~= found@);
            assert(all_taken(queues) + left =~= all_taken(before) + found@);
            assert(all_taken(queues) + left == first + added);
        }
    }
}

/// However many hold the lock one after another, no two tasks in the queue have the same key if
/// that was so at first.
pub proof fn law_holders_keep_keys_distinct<T>(queues: Seq<TaskQueue<T>>, i: int, j: int)
    requires
        held_in_turn(queues),
        0 <= i <= j < queues.len(),
        keys_distinct(queues[i]@),
    ensures
        keys_distinct(queues[j]@),
    decreases j - i,
{
    if i < j {
        law_holders_keep_keys_distinct(queues, i, j - 1);
        let found = queues[j - 1]@;
        let left = queues[j]@;
        assert(queues[j - 1].may_become(queues[j]));
        if left != found {
            law_queued_keys_are_distinct(found, left.last());
            if !(found.len() > 0 && left == found.drop_first()) {
                assert(left =~= found.push(left.last()));
            }
        }
    }
}

/// A task that is stored is dropped if a queued task has exactly its key. In all other cases, and
/// always if it has none, it is put last, and the others stay where they are.
pub proof fn law_only_the_same_key_is_dropped<T>(queue: TaskSeq<T>, item: Task<T, (), RandomId>)
    ensures
        (exists|i: int|
            0 <= i < queue.len() && match (
                (#[trigger] queue[i]).parts.idempotency_key,
                item.parts.idempotency_key,
            ) {
                (Some(known), Some(own)) => known@ == own@,
                _ => false,
            }) ==> stored(queue, item) == queue,
        (forall|i: int|
            0 <= i < queue.len() ==> match (
                (#[trigger] queue[i]).parts.idempotency_key,
                item.parts.idempotency_key,
            ) {
                (Some(known), Some(own)) => known@ != own@,
                _ => true,
            }) ==> stored(queue, item).len() == queue.len() + 1 && stored(queue, item).last()
            == item && stored(queue, item).drop_last() == queue,
{
    assert(queue.push(item).drop_last() =~= queue);
    if exists|i: int|
        0 <= i < queue.len() && match (
            (#[trigger] queue[i]).parts.idempotency_key,
            item.parts.idempotency_key,
        ) {
            (Some(known), Some(own)) => known@ == own@,
            _ => false,
        } {
        let i = choose|i: int|
            0 <= i < queue.len() && match (
                (#[trigger] queue[i]).parts.idempotency_key,
                item.parts.idempotency_key,
            ) {
                (Some(known), Some(own)) => known@ == own@,
                _ => false,
            };
        assert(queue[i].key() == item.key());
    }
}

/// Tasks without a key that are stored in an empty queue are fetched in the order in which they
/// were stored, each once: the fetch after `n` others gives the one stored after `n` others. When
/// all were fetched the queue is empty.
pub proof fn law_keyless_come_back_in_order<T>(items: TaskSeq<T>, n: nat)
    requires
        forall|i: int| 0 <= i < items.len() ==> (#[trigger] items[i]).parts.idempotency_key is None,
    ensures
        n < items.len() ==> oldest(remaining_after(stored_all(Seq::empty(), items), n)) == Some(
            items[n as int],
        ),
        n >= items.len() ==> oldest(remaining_after(stored_all(Seq::empty(), items), n)) is None,
        remaining_after(stored_all(Seq::empty(), items), items.len()).len() == 0,
{
    lemma_keyless_are_all_stored(items);
    law_fetched_in_order(items, n);
    law_fetched_in_order(items, items.len());
}

/// Tasks without a key that are stored in an empty queue are the queue.
proof fn lemma_keyless_are_all_stored<T>(items: TaskSeq<T>)
    requires
        forall|i: int| 0 <= i < items.len() ==> (#[trigger] items[i]).parts.idempotency_key is None,
    ensures
        stored_all(Seq::empty(), items) == items,
    decreases items.len(),
{
    if items.len() > 0 {
        let before = items.drop_last();
        assert(forall|i: int| 0 <= i < before.len() ==> #[trigger] before[i] == items[i]);
        lemma_keyless_are_all_stored(before);
        assert(items[items.len() - 1] == items.last());
        assert(before.push(items.last()) =~= items);
    } else {
        assert(items =~= Seq::empty());
    }
}

/// What a fetch answers and what it publishes: the oldest task and one, or nothing and zero; and
/// what is left is the rest.
pub proof fn law_fetching_splits_the_queue<T>(queue: TaskSeq<T>)
    ensures
        queue.len() > 0 ==> fetch_answer(Some(queue)) == Ok::<_, ErrorText>(Some(queue[0]))
            && fetch_count(queue) == 1 && seq![queue[0]] + remaining(queue) == queue,
        queue.len() == 0 ==> fetch_answer(Some(queue)) == Ok::<_, ErrorText>(
            None::<Task<T, (), RandomId>>,
        ) && fetch_count(queue) == 0 && remaining(queue) == queue,
{
    if queue.len() > 0 {
        assert(seq![queue[0]] + remaining(queue) =~= queue);
    }
}

/// Reporting changes no value, and of an error only the kind: its words are the cause.
pub proof fn law_reported_errors_keep_their_words<V>(result: Result<V, ErrorText>)
    ensures
        match result {
            Ok(value) => poll_reported(result) == Ok::<V, ErrorText>(value) && send_reported(result)
                == Ok::<V, ErrorText>(value),
            Err(error) => {
                &&& poll_reported(result) matches Err(ErrorText::PollError(cause)) && cause
                    == error.in_words()
                &&& send_reported(result) matches Err(ErrorText::SendError(cause)) && cause
                    == error.in_words()
            },
        },
        forall|cause: Seq<char>| #[trigger]
            ErrorText::PollError(cause).in_words() == "Polling error: "@ + cause,
        forall|cause: Seq<char>| #[trigger]
            ErrorText::SendError(cause).in_words() == "Sending error: "@ + cause,
{
}

} // verus!
