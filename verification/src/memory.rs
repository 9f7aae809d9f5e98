//! The in-memory backend over a channel.
//!
//! Tasks are received in the order in which they were sent. A task whose idempotency key was seen
//! before is dropped without an error, whether or not the earlier task was received meanwhile.
//! Nothing is persistent.

use std::sync::Arc;
use std::task::Context;

use futures_util::lock::{Mutex, MutexGuard};
use vstd::hash_set::StringHashSet;
use vstd::prelude::*;

use crate::channel::{ChannelState, Polled, SendError, TaskChannel};
use crate::lock::{held_in_turn, hold, lent, made_with, released, tried, Guarded, Turn};
use crate::select::{lemma_selected_grows, selected};
use crate::task::{drawn, RandomId, Task};

verus! {

/// Whether a task with this key is dropped by a sink that has seen `keys`.
pub open spec fn is_repeat(keys: Set<Seq<char>>, key: Option<Seq<char>>) -> bool {
    key matches Some(text) && keys.contains(text)
}

/// The keys that a sink has seen, once it has seen `key` too.
pub open spec fn noted(keys: Set<Seq<char>>, key: Option<Seq<char>>) -> Set<Seq<char>> {
    match key {
        Some(text) => keys.insert(text),
        None => keys,
    }
}

/// A sink that lets each idempotency key through once. What is let through is for `inner`.
pub struct MemorySink<S> {
    inner: S,
    idempotency_keys: StringHashSet,
}

impl<S> MemorySink<S> {
    /// Where tasks go that are let through.
    pub closed spec fn inner(&self) -> S {
        self.inner
    }

    /// The idempotency keys that were let through.
    pub closed spec fn keys(&self) -> Set<Seq<char>> {
        self.idempotency_keys@
    }

    /// Builds a sink in front of `sink` that has seen no key.
    pub fn new(sink: S) -> (made: Self)
        ensures
            made.inner() == sink,
            made.keys() == Set::<Seq<char>>::empty(),
    {
        MemorySink { inner: sink, idempotency_keys: StringHashSet::new() }
    }

    /// Lends out the sink behind this one.
    pub fn inner_mut(&mut self) -> (inner: &mut S)
        ensures
            *inner == old(self).inner(),
            final(self).inner() == *final(inner),
            final(self).keys() == old(self).keys(),
    {
        &mut self.inner
    }

    /// Decides on a task: `None` if its key was seen before, else the task to pass on, which has
    /// `fresh` for its identifier if it came without one. Its key counts as seen from here on.
    pub fn screen<Args, Ctx>(&mut self, item: Task<Args, Ctx, RandomId>, fresh: RandomId) -> (passed:
        Option<Task<Args, Ctx, RandomId>>)
        ensures
            passed == (if is_repeat(old(self).keys(), item.key()) {
                None
            } else {
                Some(item.identified(fresh))
            }),
            final(self).keys() == noted(old(self).keys(), item.key()),
            final(self).inner() == old(self).inner(),
    {
        let item = item.identify(fresh);
        if let Some(key) = &item.parts.idempotency_key {
            if self.idempotency_keys.contains(key.as_str()) {
                assert(self.keys() =~= self.keys().insert(key@));
                return None;
            }
            self.idempotency_keys.insert(key.clone());
        }
        Some(item)
    }
}

impl Guarded for MemorySink<()> {
    type Item = ();

    /// No holder forgets a key, and each adds one key at most.
    open spec fn may_become(self, left: Self) -> bool {
        ||| left.keys() == self.keys()
        ||| exists|text: Seq<char>| left.keys() == #[trigger] self.keys().insert(text)
    }

    /// There is nothing to take away.
    open spec fn taken(self, left: Self) -> Seq<()> {
        Seq::empty()
    }
}

/// Deciding on a task.
pub struct ScreenTurn<Args, Ctx> {
    pub item: Task<Args, Ctx, RandomId>,
    /// The identifier for the task if it came without one.
    pub fresh: RandomId,
}

impl<Args, Ctx> Turn<MemorySink<()>> for ScreenTurn<Args, Ctx> {
    type Outcome = Option<Option<Task<Args, Ctx, RandomId>>>;

    open spec fn leaves(
        self,
        found: MemorySink<()>,
        left: MemorySink<()>,
        outcome: Option<Option<Task<Args, Ctx, RandomId>>>,
    ) -> bool {
        &&& outcome == Some(
            if is_repeat(found.keys(), self.item.key()) {
                None
            } else {
                Some(self.item.identified(self.fresh))
            },
        )
        &&& left.keys() == noted(found.keys(), self.item.key())
    }

    open spec fn refused(self, outcome: Option<Option<Task<Args, Ctx, RandomId>>>) -> bool {
        outcome is None
    }

    open spec fn handed_out(outcome: Option<Option<Task<Args, Ctx, RandomId>>>) -> Seq<()> {
        Seq::empty()
    }

    fn take(self, found: Option<&mut MemorySink<()>>) -> (outcome: Option<
        Option<Task<Args, Ctx, RandomId>>,
    >) {
        match found {
            Some(sink) => Some(sink.screen(self.item, self.fresh)),
            None => None,
        }
    }
}

/// Whether `lock` came of putting a sink that has seen no key behind a lock. It says what was
/// there at first: whoever shares the lock may have seen keys since.
pub open spec fn made_unseen(lock: Mutex<MemorySink<()>>) -> bool {
    exists|sink: MemorySink<()>|
        sink.keys() == Set::<Seq<char>>::empty() && #[trigger] made_with(lock, sink)
}

/// The idempotency keys that a sink and its clones have let through between them.
#[derive(Debug)]
pub struct SharedKeys {
    seen: Arc<Mutex<MemorySink<()>>>,
}

impl Clone for SharedKeys {
    /// Shares the keys.
    fn clone(&self) -> (keys: Self)
        ensures
            keys.shared() == self.shared(),
    {
        SharedKeys { seen: self.seen.clone() }
    }
}

impl Default for SharedKeys {
    fn default() -> (keys: Self)
        ensures
            made_unseen(*keys.shared()),
    {
        Self::new()
    }
}

impl SharedKeys {
    /// The keys and their lock, as clones share them.
    pub closed spec fn shared(&self) -> Arc<Mutex<MemorySink<()>>> {
        self.seen
    }

    /// No key was let through.
    pub fn new() -> (keys: Self)
        ensures
            made_unseen(*keys.shared()),
    {
        SharedKeys { seen: Arc::new(Mutex::new(MemorySink::new(()))) }
    }

    /// Lends out what this handle shares with its clones.
    pub fn as_arc(&self) -> (seen: &Arc<Mutex<MemorySink<()>>>)
        ensures
            *seen == self.shared(),
    {
        &self.seen
    }

    /// Decides on a task as [`MemorySink::screen`] does, over the keys that clones share. A task
    /// without a key passes and needs no lock. For one with a key the lock is tried, and `None`
    /// comes back if it is refused.
    pub fn screen<Args, Ctx>(&self, item: Task<Args, Ctx, RandomId>, fresh: RandomId) -> (passed:
        Option<Option<Task<Args, Ctx, RandomId>>>)
        ensures
            item.key() is None ==> passed == Some(Some(item.identified(fresh))),
            item.key() is Some ==> exists|locked: Option<MutexGuard<'_, MemorySink<()>>>| #[trigger]
                tried(*self.shared(), locked) && match locked {
                    Some(held) => exists|
                        guard: &mut MutexGuard<'_, MemorySink<()>>,
                        sink: &mut MemorySink<()>,
                    | #[trigger]
                        lent(guard, sink) && *guard == held && released(*final(guard)) && passed
                            == Some(
                            if is_repeat(sink.keys(), item.key()) {
                                None
                            } else {
                                Some(item.identified(fresh))
                            },
                        ) && final(sink).keys() == noted(sink.keys(), item.key()),
                    None => passed is None,
                },
    {
        if item.parts.idempotency_key.is_none() {
            return Some(Some(item.identify(fresh)));
        }
        assert(self.shared() == self.seen);
        hold(&self.seen, ScreenTurn { item, fresh })
    }
}

/// What an in-memory storage holds.
#[verifier::reject_recursive_types(Args)]
#[verifier::reject_recursive_types(Ctx)]
pub struct StorageState<Args, Ctx> {
    /// The idempotency keys that were let through.
    pub keys: Set<Seq<char>>,
    /// The tasks that wait to be received.
    pub channel: ChannelState<Task<Args, Ctx, RandomId>>,
}

impl<Args, Ctx> StorageState<Args, Ctx> {
    /// A storage as it is made.
    pub open spec fn fresh() -> Self {
        StorageState { keys: Set::empty(), channel: ChannelState::fresh() }
    }

    /// Whether the channel can count `item`, if `item` reaches it.
    pub open spec fn has_room_for(self, item: Task<Args, Ctx, RandomId>) -> bool {
        !is_repeat(self.keys, item.key()) && self.channel.open ==> self.channel.has_room()
    }

    /// The state after sending `item`, for which the identifier `fresh` was drawn.
    pub open spec fn sent(self, item: Task<Args, Ctx, RandomId>, fresh: RandomId) -> Self {
        if is_repeat(self.keys, item.key()) {
            self
        } else {
            StorageState {
                keys: noted(self.keys, item.key()),
                channel: self.channel.offered(item.identified(fresh)),
            }
        }
    }

    /// What sending `item` returns: a task that is dropped counts as sent.
    pub open spec fn answer(self, item: Task<Args, Ctx, RandomId>) -> Result<(), SendError> {
        if is_repeat(self.keys, item.key()) {
            Ok(())
        } else {
            self.channel.answer()
        }
    }

    /// The state after polling for the next task.
    pub open spec fn received(self) -> Self {
        StorageState { channel: self.channel.advanced(), ..self }
    }

    /// The state after closing. Keys are not forgotten.
    pub open spec fn closed(self) -> Self {
        StorageState { channel: self.channel.closed(), ..self }
    }
}

impl<Args, Ctx> View for MemorySink<TaskChannel<Task<Args, Ctx, RandomId>>> {
    type V = StorageState<Args, Ctx>;

    open spec fn view(&self) -> StorageState<Args, Ctx> {
        StorageState { keys: self.keys(), channel: self.inner()@ }
    }
}

impl<Args, Ctx> MemorySink<TaskChannel<Task<Args, Ctx, RandomId>>> {
    /// Whether the channel takes tasks.
    pub fn poll_ready(&mut self, cx: &mut Context<'_>) -> (polled: Polled<Result<(), SendError>>)
        ensures
            polled == Polled::Ready(old(self)@.channel.answer()),
            final(self)@ == old(self)@,
    {
        self.inner.poll_ready(cx)
    }

    /// Sends `item`, with `fresh` for its identifier if it came without one.
    pub fn start_send_as(&mut self, item: Task<Args, Ctx, RandomId>, fresh: RandomId) -> (sent:
        Result<(), SendError>)
        requires
            old(self)@.has_room_for(item),
        ensures
            sent == old(self)@.answer(item),
            final(self)@ == old(self)@.sent(item, fresh),
    {
        match self.screen(item, fresh) {
            Some(task) => self.inner.start_send(task),
            None => {
                assert(self@.keys =~= old(self)@.keys);
                Ok(())
            },
        }
    }

    /// Sends `item`, with an identifier drawn at random if it came without one.
    pub fn start_send(&mut self, item: Task<Args, Ctx, RandomId>) -> (sent: Result<(), SendError>)
        requires
            old(self)@.has_room_for(item),
        ensures
            sent == old(self)@.answer(item),
            exists|fresh: RandomId|
                final(self)@ == #[trigger] old(self)@.sent(item, fresh) && (
                item.parts.task_id is None ==> drawn(fresh)),
    {
        let fresh = item.own_or_random_id();
        self.start_send_as(item, fresh)
    }

    /// Waits for what was sent to be passed on: it always was.
    pub fn poll_flush(&mut self, cx: &mut Context<'_>) -> (polled: Polled<Result<(), SendError>>)
        ensures
            polled == Polled::Ready(Ok::<(), SendError>(())),
            final(self)@ == old(self)@,
    {
        self.inner.poll_flush(cx)
    }

    /// Closes the channel.
    pub fn poll_close(&mut self, cx: &mut Context<'_>) -> (polled: Polled<Result<(), SendError>>)
        ensures
            polled == Polled::Ready(Ok::<(), SendError>(())),
            final(self)@ == old(self)@.closed(),
    {
        self.inner.poll_close(cx)
    }
}

/// An in-memory storage: a sink, and where what the sink passed on is received.
pub struct MemoryStorage<S, R> {
    sender: MemorySink<S>,
    receiver: R,
}

impl<S, R> MemoryStorage<S, R> {
    /// The sink.
    pub closed spec fn sender(&self) -> MemorySink<S> {
        self.sender
    }

    /// Where what the sink passed on is received.
    pub closed spec fn receiver(&self) -> R {
        self.receiver
    }

    /// Creates a storage given a sender and receiver.
    pub fn new_with(sender: MemorySink<S>, receiver: R) -> (storage: Self)
        ensures
            storage.sender() == sender,
            storage.receiver() == receiver,
    {
        MemoryStorage { sender, receiver }
    }

    /// Takes the storage apart.
    pub fn into_parts(self) -> (parts: (MemorySink<S>, R))
        ensures
            parts.0 == self.sender(),
            parts.1 == self.receiver(),
    {
        (self.sender, self.receiver)
    }
}

/// Stands for a receiver that is the other end of the sender's own channel.
#[derive(Clone, Copy, Debug, PartialEq, Eq, Structural)]
pub struct OwnChannel;

/// A storage over one channel.
pub type ChannelStorage<Args, Ctx> = MemoryStorage<
    TaskChannel<Task<Args, Ctx, RandomId>>,
    OwnChannel,
>;

impl<Args, Ctx> View for ChannelStorage<Args, Ctx> {
    type V = StorageState<Args, Ctx>;

    open spec fn view(&self) -> StorageState<Args, Ctx> {
        self.sender()@
    }
}

impl<Args, Ctx> Default for ChannelStorage<Args, Ctx> {
    fn default() -> (storage: Self)
        ensures
            storage@ == StorageState::<Args, Ctx>::fresh(),
    {
        Self::new()
    }
}

impl<Args, Ctx> ChannelStorage<Args, Ctx> {
    /// Creates a storage that holds nothing.
    pub fn new() -> (storage: Self)
        ensures
            storage@ == StorageState::<Args, Ctx>::fresh(),
    {
        Self::new_with(MemorySink::new(TaskChannel::new()), OwnChannel)
    }

    /// Whether the storage takes tasks.
    pub fn poll_ready(&mut self, cx: &mut Context<'_>) -> (polled: Polled<Result<(), SendError>>)
        ensures
            polled == Polled::Ready(old(self)@.channel.answer()),
            final(self)@ == old(self)@,
    {
        self.sender.poll_ready(cx)
    }

    /// Sends `item`, with `fresh` for its identifier if it came without one.
    pub fn start_send_as(&mut self, item: Task<Args, Ctx, RandomId>, fresh: RandomId) -> (sent:
        Result<(), SendError>)
        requires
            old(self)@.has_room_for(item),
        ensures
            sent == old(self)@.answer(item),
            final(self)@ == old(self)@.sent(item, fresh),
    {
        self.sender.start_send_as(item, fresh)
    }

    /// Sends `item`, with an identifier drawn at random if it came without one.
    pub fn start_send(&mut self, item: Task<Args, Ctx, RandomId>) -> (sent: Result<(), SendError>)
        requires
            old(self)@.has_room_for(item),
        ensures
            sent == old(self)@.answer(item),
            exists|fresh: RandomId|
                final(self)@ == #[trigger] old(self)@.sent(item, fresh) && (
                item.parts.task_id is None ==> drawn(fresh)),
    {
        self.sender.start_send(item)
    }

    /// Waits for what was sent to be passed on: it always was.
    pub fn poll_flush(&mut self, cx: &mut Context<'_>) -> (polled: Polled<Result<(), SendError>>)
        ensures
            polled == Polled::Ready(Ok::<(), SendError>(())),
            final(self)@ == old(self)@,
    {
        self.sender.poll_flush(cx)
    }

    /// Closes the storage to further tasks. Those that wait can still be received.
    pub fn poll_close(&mut self, cx: &mut Context<'_>) -> (polled: Polled<Result<(), SendError>>)
        ensures
            polled == Polled::Ready(Ok::<(), SendError>(())),
            final(self)@ == old(self)@.closed(),
    {
        self.sender.poll_close(cx)
    }

    /// Receives the oldest task that waits.
    pub fn poll_next(&mut self, cx: &mut Context<'_>) -> (polled: Polled<
        Option<Task<Args, Ctx, RandomId>>,
    >)
        ensures
            polled == old(self)@.channel.next(),
            final(self)@ == old(self)@.received(),
    {
        self.sender.inner.poll_next(cx)
    }

    /// Turns the storage into the stream that a worker reads. The sending side is gone then: the
    /// stream ends behind the tasks that wait.
    pub fn poll(self) -> (stream: TaskStream<Args, Ctx>)
        ensures
            stream@ == self@.channel.closed(),
    {
        let (sender, _) = self.into_parts();
        let MemorySink { inner, idempotency_keys: _ } = sender;
        let mut channel = inner;
        channel.disconnect();
        TaskStream { channel }
    }

    /// As [`poll`](Self::poll): tasks are kept as they are, so their compact form is the same.
    pub fn poll_compact(self) -> (stream: TaskStream<Args, Ctx>)
        ensures
            stream@ == self@.channel.closed(),
    {
        self.poll()
    }
}

/// The tasks of a storage, as a worker reads them.
#[verifier::reject_recursive_types(Args)]
#[verifier::reject_recursive_types(Ctx)]
pub struct TaskStream<Args, Ctx> {
    channel: TaskChannel<Task<Args, Ctx, RandomId>>,
}

impl<Args, Ctx> View for TaskStream<Args, Ctx> {
    type V = ChannelState<Task<Args, Ctx, RandomId>>;

    closed spec fn view(&self) -> ChannelState<Task<Args, Ctx, RandomId>> {
        self.channel@
    }
}

/// How a worker sees a received task: polling never fails and never comes back empty-handed.
pub open spec fn as_polled_by_worker<T>(polled: Polled<Option<T>>) -> Polled<
    Option<Result<Option<T>, SendError>>,
> {
    match polled {
        Polled::Ready(Some(task)) => Polled::Ready(Some(Ok(Some(task)))),
        Polled::Ready(None) => Polled::Ready(None),
        Polled::Pending => Polled::Pending,
    }
}

impl<Args, Ctx> TaskStream<Args, Ctx> {
    /// Receives the oldest task that waits.
    pub fn poll_next(&mut self, cx: &mut Context<'_>) -> (polled: Polled<
        Option<Result<Option<Task<Args, Ctx, RandomId>>, SendError>>,
    >)
        ensures
            polled == as_polled_by_worker(old(self)@.next()),
            final(self)@ == old(self)@.advanced(),
    {
        match self.channel.poll_next(cx) {
            Polled::Ready(Some(task)) => Polled::Ready(Some(Ok(Some(task)))),
            Polled::Ready(None) => Polled::Ready(None),
            Polled::Pending => Polled::Pending,
        }
    }
}

impl<Args, Ctx> StorageState<Args, Ctx> {
    /// The state after sending `items` one by one, each with the identifier drawn for it.
    pub open spec fn sent_all(self, items: Seq<(Task<Args, Ctx, RandomId>, RandomId)>) -> Self
        decreases items.len(),
    {
        if items.len() == 0 {
            self
        } else {
            self.sent_all(items.drop_last()).sent(items.last().0, items.last().1)
        }
    }

    /// The tasks that wait have keys that count as seen, and no two of them have the same.
    pub open spec fn well_keyed(self) -> bool {
        let waiting = self.channel.waiting;
        &&& forall|i: int|
            0 <= i < waiting.len() ==> ((#[trigger] waiting[i]).key() matches Some(text)
                ==> self.keys.contains(text))
        &&& forall|i: int, j: int|
            0 <= i < j < waiting.len() ==> (#[trigger] waiting[i]).key() is None || waiting[i].key()
                != (#[trigger] waiting[j]).key()
    }
}

/// Whether the item at `i` has no key, or a key that is neither among `keys` nor that of an
/// earlier item.
pub open spec fn is_first<Args, Ctx>(
    keys: Set<Seq<char>>,
    items: Seq<(Task<Args, Ctx, RandomId>, RandomId)>,
    i: int,
) -> bool {
    &&& 0 <= i < items.len()
    &&& items[i].0.key() matches Some(text) ==> {
        &&& !keys.contains(text)
        &&& forall|j: int| 0 <= j < i ==> (#[trigger] items[j]).0.key() != Some(text)
    }
}

/// The items without a key and, of those that share a key which is not among `keys`, the first:
/// in their order, each with an identifier.
pub open spec fn firsts<Args, Ctx>(
    keys: Set<Seq<char>>,
    items: Seq<(Task<Args, Ctx, RandomId>, RandomId)>,
) -> Seq<Task<Args, Ctx, RandomId>> {
    selected(identified_all(items), |i: int| is_first(keys, items, i))
}

/// The items, each with an identifier.
pub open spec fn identified_all<Args, Ctx>(
    items: Seq<(Task<Args, Ctx, RandomId>, RandomId)>,
) -> Seq<Task<Args, Ctx, RandomId>> {
    Seq::new(items.len(), |i: int| items[i].0.identified(items[i].1))
}

/// What is sent to an open storage waits behind what waited already, in the order of sending:
/// every task without a key, and of the tasks that share a key only the first, unless the key was
/// seen before. A closed storage holds no more than it did. Either way the keys count as seen, and
/// the storage stays open or closed.
pub proof fn law_each_key_passes_once<Args, Ctx>(
    state: StorageState<Args, Ctx>,
    items: Seq<(Task<Args, Ctx, RandomId>, RandomId)>,
)
    ensures
        state.sent_all(items).channel.open == state.channel.open,
        state.channel.open ==> state.sent_all(items).channel.waiting == state.channel.waiting
            + firsts(state.keys, items),
        !state.channel.open ==> state.sent_all(items).channel.waiting == state.channel.waiting,
        forall|text: Seq<char>| #[trigger]
            state.sent_all(items).keys.contains(text) <==> state.keys.contains(text) || exists|i: int|
                0 <= i < items.len() && (#[trigger] items[i]).0.key() == Some(text),
    decreases items.len(),
{
    let after = state.sent_all(items);
    if items.len() == 0 {
        reveal(Seq::filter);
        assert(after.channel.waiting =~= state.channel.waiting + firsts(state.keys, items));
    } else {
        let before = items.drop_last();
        let last = items.last().0;
        law_each_key_passes_once(state, before);
        let keep = |i: int| is_first(state.keys, items, i);
        let keep_before = |i: int| is_first(state.keys, before, i);
        assert(forall|j: int| 0 <= j < before.len() ==> #[trigger] items[j] == before[j]);
        assert forall|i: int| 0 <= i < before.len() implies #[trigger] keep(i) == keep_before(
            i,
        ) by {
            assert(items[i] == before[i]);
        }
        assert(identified_all(items).drop_last() =~= identified_all(before));
        lemma_selected_grows(identified_all(items), keep, keep_before);
        let keys = state.sent_all(before).keys;
        assert(items[items.len() - 1].0 == last);
        assert(is_repeat(keys, last.key()) <==> !is_first(state.keys, items, items.len() - 1));
        if state.channel.open {
            assert(after.channel.waiting =~= state.channel.waiting + firsts(state.keys, items));
        }
    }
}

/// What is sent to an open storage in which nothing waits, under a key that was not seen, is what
/// is received next, with the identifier that was drawn if it came without one.
pub proof fn law_sent_is_received<Args, Ctx>(
    state: StorageState<Args, Ctx>,
    item: Task<Args, Ctx, RandomId>,
    fresh: RandomId,
)
    requires
        state.channel.open,
        state.channel.waiting.len() == 0,
        !is_repeat(state.keys, item.key()),
    ensures
        state.answer(item) == Ok::<(), SendError>(()),
        state.sent(item, fresh).channel.next() == Polled::Ready(Some(item.identified(fresh))),
        state.sent(item, fresh).received().channel.waiting == state.channel.waiting,
{
    assert(state.sent(item, fresh).received().channel.waiting =~= state.channel.waiting);
}

/// While tasks wait, it makes no difference whether one is received before or after another is
/// sent: what was received, what waits and what sending returned are the same.
pub proof fn law_sending_and_receiving_commute<Args, Ctx>(
    state: StorageState<Args, Ctx>,
    item: Task<Args, Ctx, RandomId>,
    fresh: RandomId,
)
    requires
        state.channel.waiting.len() > 0,
    ensures
        state.sent(item, fresh).channel.next() == state.channel.next(),
        state.received().answer(item) == state.answer(item),
        state.received().sent(item, fresh) == state.sent(item, fresh).received(),
{
    assert(state.received().sent(item, fresh).channel.waiting =~= state.sent(
        item,
        fresh,
    ).received().channel.waiting);
}

/// The tasks that wait never share a key: so it is in a storage that holds nothing, and sending,
/// receiving and closing keep it so.
pub proof fn law_waiting_keys_are_distinct<Args, Ctx>(
    state: StorageState<Args, Ctx>,
    item: Task<Args, Ctx, RandomId>,
    fresh: RandomId,
)
    ensures
        StorageState::<Args, Ctx>::fresh().well_keyed(),
        state.well_keyed() ==> state.sent(item, fresh).well_keyed(),
        state.well_keyed() ==> state.received().well_keyed(),
        state.well_keyed() ==> state.closed().well_keyed(),
{
    if state.well_keyed() {
        let waiting = state.channel.waiting;
        let after = state.sent(item, fresh);
        assert forall|i: int, j: int|
            0 <= i < j < after.channel.waiting.len() implies (
        #[trigger] after.channel.waiting[i]).key() is None || after.channel.waiting[i].key() != (
        #[trigger] after.channel.waiting[j]).key() by {
            assert(after.channel.waiting[i] == waiting[i]);
            if j < waiting.len() {
                assert(after.channel.waiting[j] == waiting[j]);
            }
        }
        if waiting.len() > 0 {
            assert(forall|i: int|
                0 <= i < waiting.len() - 1 ==> #[trigger] waiting.drop_first()[i] == waiting[i
                    + 1]);
        }
    }
}

/// A closed storage refuses a task whose key it has not seen, and remembers the key all the same:
/// the task counts as sent when it comes again, and is never received.
pub proof fn law_refused_key_is_remembered<Args, Ctx>(
    state: StorageState<Args, Ctx>,
    item: Task<Args, Ctx, RandomId>,
    fresh: RandomId,
)
    requires
        !state.channel.open,
        item.key() is Some,
        !is_repeat(state.keys, item.key()),
    ensures
        state.answer(item) == Err::<(), SendError>(SendError::Disconnected),
        state.sent(item, fresh).answer(item) == Ok::<(), SendError>(()),
        state.sent(item, fresh).channel == state.channel,
        state.sent(item, fresh).sent(item, fresh) == state.sent(item, fresh),
{
}

/// What is done to a storage.
pub enum Step<Args, Ctx> {
    /// A task is sent, with the identifier drawn for it.
    Send(Task<Args, Ctx, RandomId>, RandomId),
    /// The next task is polled for.
    Receive,
    /// The storage is closed.
    Close,
}

impl<Args, Ctx> Step<Args, Ctx> {
    /// Whether the step sends a task with this key.
    pub open spec fn sends(self, text: Seq<char>) -> bool {
        self matches Step::Send(item, _) && item.key() == Some(text)
    }

    /// Whether the step sends the task that is `task` once it has an identifier.
    pub open spec fn offers(self, task: Task<Args, Ctx, RandomId>) -> bool {
        self matches Step::Send(item, fresh) && task == item.identified(fresh)
    }
}

/// Whether the step at `i` is the first that sends a task with this key.
pub open spec fn sends_first<Args, Ctx>(
    steps: Seq<Step<Args, Ctx>>,
    i: int,
    text: Seq<char>,
) -> bool {
    &&& 0 <= i < steps.len()
    &&& steps[i].sends(text)
    &&& forall|j: int| 0 <= j < i ==> !(#[trigger] steps[j]).sends(text)
}

impl<Args, Ctx> StorageState<Args, Ctx> {
    /// Whether `item` is put behind those that wait when it is sent.
    pub open spec fn passes(self, item: Task<Args, Ctx, RandomId>) -> bool {
        self.channel.open && !is_repeat(self.keys, item.key())
    }

    /// The state after one step.
    pub open spec fn after(self, step: Step<Args, Ctx>) -> Self {
        match step {
            Step::Send(item, fresh) => self.sent(item, fresh),
            Step::Receive => self.received(),
            Step::Close => self.closed(),
        }
    }

    /// The state after these steps.
    pub open spec fn after_all(self, steps: Seq<Step<Args, Ctx>>) -> Self
        decreases steps.len(),
    {
        if steps.len() == 0 {
            self
        } else {
            self.after_all(steps.drop_last()).after(steps.last())
        }
    }
}

/// A storage, with what went in and what came out while steps were taken.
#[verifier::reject_recursive_types(Args)]
#[verifier::reject_recursive_types(Ctx)]
pub struct History<Args, Ctx> {
    /// The tasks that were sent and neither dropped nor refused, in their order.
    pub accepted: Seq<Task<Args, Ctx, RandomId>>,
    /// The tasks that were received, in their order.
    pub received: Seq<Task<Args, Ctx, RandomId>>,
    /// The storage as it is now.
    pub state: StorageState<Args, Ctx>,
}

impl<Args, Ctx> History<Args, Ctx> {
    /// The history of a storage to which nothing was done yet.
    pub open spec fn of(state: StorageState<Args, Ctx>) -> Self {
        History { accepted: Seq::empty(), received: Seq::empty(), state }
    }

    /// The history with one step more.
    pub open spec fn after(self, step: Step<Args, Ctx>) -> Self {
        History {
            accepted: match step {
                Step::Send(item, fresh) => if self.state.passes(item) {
                    self.accepted.push(item.identified(fresh))
                } else {
                    self.accepted
                },
                _ => self.accepted,
            },
            received: match (step, self.state.channel.next()) {
                (Step::Receive, Polled::Ready(Some(task))) => self.received.push(task),
                _ => self.received,
            },
            state: self.state.after(step),
        }
    }

    /// The history with these steps more.
    pub open spec fn after_all(self, steps: Seq<Step<Args, Ctx>>) -> Self
        decreases steps.len(),
    {
        if steps.len() == 0 {
            self
        } else {
            self.after_all(steps.drop_last()).after(steps.last())
        }
    }
}

/// However sends, receives and closes follow one another, no accepted task is lost, doubled or
/// moved: the received tasks, followed by those that wait, are those that waited at first,
/// followed by the accepted ones.
pub proof fn law_accepted_are_received_in_order<Args, Ctx>(
    state: StorageState<Args, Ctx>,
    steps: Seq<Step<Args, Ctx>>,
)
    ensures
        ({
            let history = History::of(state).after_all(steps);
            &&& history.state == state.after_all(steps)
            &&& history.received + history.state.channel.waiting == state.channel.waiting
                + history.accepted
        }),
    decreases steps.len(),
{
    let history = History::of(state).after_all(steps);
    if steps.len() == 0 {
        assert(history.received + state.channel.waiting =~= state.channel.waiting
            + history.accepted);
    } else {
        law_accepted_are_received_in_order(state, steps.drop_last());
        let before = History::of(state).after_all(steps.drop_last());
        let waiting = before.state.channel.waiting;
        match steps.last() {
            Step::Send(item, fresh) => {
                let task = item.identified(fresh);
                assert((before.received + waiting).push(task) =~= before.received + waiting.push(
                    task,
                ));
                assert((state.channel.waiting + before.accepted).push(task)
                    =~= state.channel.waiting + before.accepted.push(task));
            },
            Step::Receive => {
                assert(history.received + history.state.channel.waiting =~= before.received
                    + waiting);
            },
            Step::Close => {},
        }
    }
}

/// The keys that count as seen are those that counted as seen at first and those of all tasks
/// that were sent since: receiving and closing free none. The storage is open as long as it was
/// open at first and was not closed.
pub proof fn law_keys_only_grow<Args, Ctx>(
    state: StorageState<Args, Ctx>,
    steps: Seq<Step<Args, Ctx>>,
)
    ensures
        forall|text: Seq<char>| #[trigger]
            state.after_all(steps).keys.contains(text) <==> state.keys.contains(text) || exists|
                i: int,
            |
                0 <= i < steps.len() && (#[trigger] steps[i]).sends(text),
        state.after_all(steps).channel.open <==> state.channel.open && forall|i: int|
            0 <= i < steps.len() ==> (#[trigger] steps[i]) !is Close,
    decreases steps.len(),
{
    if steps.len() > 0 {
        let before = steps.drop_last();
        law_keys_only_grow(state, before);
        assert(forall|j: int| 0 <= j < before.len() ==> #[trigger] steps[j] == before[j]);
        let n = before.len() as int;
        assert(steps[n] == steps.last());
        assert forall|text: Seq<char>| #[trigger]
            state.after_all(steps).keys.contains(text) <==> state.keys.contains(text) || exists|
                i: int,
            |
                0 <= i < steps.len() && (#[trigger] steps[i]).sends(text) by {
            let known = state.after_all(before).keys;
            assert(state.after_all(steps).keys.contains(text) <==> known.contains(text)
                || steps[n].sends(text));
            if exists|i: int| 0 <= i < before.len() && (#[trigger] before[i]).sends(text) {
                let i = choose|i: int| 0 <= i < before.len() && (#[trigger] before[i]).sends(text);
                assert(steps[i].sends(text));
            }
            if exists|i: int| 0 <= i < steps.len() && (#[trigger] steps[i]).sends(text) {
                let i = choose|i: int| 0 <= i < steps.len() && (#[trigger] steps[i]).sends(text);
                if i < n {
                    assert(before[i].sends(text));
                }
            }
        }
    }
}

/// After any steps a task passes exactly if the storage is open and the task has no key, or a key
/// that was not seen at first and with which none was sent before.
pub proof fn law_first_of_key_passes<Args, Ctx>(
    state: StorageState<Args, Ctx>,
    steps: Seq<Step<Args, Ctx>>,
    item: Task<Args, Ctx, RandomId>,
)
    ensures
        state.after_all(steps).passes(item) <==> state.after_all(steps).channel.open && (
        item.key() matches Some(text) ==> !state.keys.contains(text) && forall|i: int|
            0 <= i < steps.len() ==> !(#[trigger] steps[i]).sends(text)),
{
    law_keys_only_grow(state, steps);
}

/// However sends, receives and closes follow one another, a key is accepted at most once, and
/// with the first task that was sent with it; a key that was seen at first is not accepted at all.
pub proof fn law_key_is_accepted_once<Args, Ctx>(
    state: StorageState<Args, Ctx>,
    steps: Seq<Step<Args, Ctx>>,
)
    ensures
        ({
            let accepted = History::of(state).after_all(steps).accepted;
            &&& forall|a: int, b: int|
                0 <= a < b < accepted.len() ==> (#[trigger] accepted[a]).key() is None
                    || accepted[a].key() != (#[trigger] accepted[b]).key()
            &&& forall|a: int|
                0 <= a < accepted.len() ==> ((#[trigger] accepted[a]).key() matches Some(text)
                    ==> !state.keys.contains(text) && exists|i: int| #[trigger]
                    sends_first(steps, i, text) && steps[i].offers(accepted[a]))
        }),
    decreases steps.len(),
{
    let history = History::of(state).after_all(steps);
    if steps.len() > 0 {
        let before_steps = steps.drop_last();
        let before = History::of(state).after_all(before_steps);
        law_key_is_accepted_once(state, before_steps);
        law_accepted_are_received_in_order(state, before_steps);
        law_keys_only_grow(state, before_steps);
        let n = before_steps.len() as int;
        assert(forall|j: int| 0 <= j < n ==> #[trigger] steps[j] == before_steps[j]);
        assert(steps[n] == steps.last());
        let accepted = history.accepted;
        let earlier = before.accepted;
        assert forall|a: int| 0 <= a < accepted.len() implies ((#[trigger] accepted[a]).key() matches Some(
            text,
        ) ==> !state.keys.contains(text) && exists|i: int| #[trigger]
            sends_first(steps, i, text) && steps[i].offers(accepted[a])) by {
            if let Some(text) = accepted[a].key() {
                if a < earlier.len() {
                    assert(accepted[a] == earlier[a]);
                    let i = choose|i: int| #[trigger]
                        sends_first(before_steps, i, text) && before_steps[i].offers(earlier[a]);
                    assert(steps[i] == before_steps[i]);
                    assert(sends_first(steps, i, text));
                } else {
                    law_first_of_key_passes(state, before_steps, steps[n]->Send_0);
                    assert(sends_first(steps, n, text));
                }
            }
        }
        assert forall|a: int, b: int| 0 <= a < b < accepted.len() implies (
        #[trigger] accepted[a]).key() is None || accepted[a].key() != (
        #[trigger] accepted[b]).key() by {
            assert(accepted[a] == earlier[a]);
            if b < earlier.len() {
                assert(accepted[b] == earlier[b]);
            } else if let Some(text) = accepted[a].key() {
                let i = choose|i: int| #[trigger]
                    sends_first(before_steps, i, text) && before_steps[i].offers(earlier[a]);
                assert(before_steps[i].sends(text));
                assert(before.state.keys.contains(text));
            }
        }
    }
}

/// A task is dropped, and counted as sent, if one with the same key was sent before, whatever was
/// sent, received and closed in between, and in whatever order.
pub proof fn law_repeat_is_dropped<Args, Ctx>(
    state: StorageState<Args, Ctx>,
    first: Task<Args, Ctx, RandomId>,
    fresh: RandomId,
    between: Seq<Step<Args, Ctx>>,
    second: Task<Args, Ctx, RandomId>,
    other_fresh: RandomId,
)
    requires
        first.key() is Some,
        second.key() == first.key(),
    ensures
        ({
            let later = state.sent(first, fresh).after_all(between);
            &&& later.sent(second, other_fresh) == later
            &&& later.answer(second) == Ok::<(), SendError>(())
        }),
{
    law_keys_only_grow(state.sent(first, fresh), between);
}

/// Closing changes no key, and holds for whoever sends to the storage from then on, whatever was
/// sent and received since: it is not ready, a task without a key or with a key that was not seen
/// is refused, a task whose key was seen counts as sent, and no further task waits.
pub proof fn law_closed_refuses<Args, Ctx>(
    state: StorageState<Args, Ctx>,
    steps: Seq<Step<Args, Ctx>>,
    item: Task<Args, Ctx, RandomId>,
    fresh: RandomId,
)
    ensures
        state.closed().keys == state.keys,
        ({
            let later = state.closed().after_all(steps);
            &&& later.channel.answer() == Err::<(), SendError>(SendError::Disconnected)
            &&& state.keys.subset_of(later.keys)
            &&& later.answer(item) == (if is_repeat(later.keys, item.key()) {
                Ok::<(), SendError>(())
            } else {
                Err::<(), SendError>(SendError::Disconnected)
            })
            &&& later.sent(item, fresh).channel == later.channel
            &&& History::of(state.closed()).after_all(steps).accepted == Seq::<
                Task<Args, Ctx, RandomId>,
            >::empty()
        }),
    decreases steps.len(),
{
    law_keys_only_grow(state.closed(), steps);
    if steps.len() > 0 {
        let before = steps.drop_last();
        law_closed_refuses(state, before, item, fresh);
        law_accepted_are_received_in_order(state.closed(), before);
    }
}

/// However many hold the lock on the keys one after another, no key is forgotten, and each holder
/// adds one at most.
pub proof fn law_holders_forget_no_key(sinks: Seq<MemorySink<()>>, i: int, j: int)
    requires
        held_in_turn(sinks),
        0 <= i <= j < sinks.len(),
    ensures
        forall|text: Seq<char>|
            sinks[i].keys().contains(text) ==> #[trigger] sinks[j].keys().contains(text),
        sinks[i].keys().finite() ==> sinks[j].keys().finite() && sinks[j].keys().len()
            <= sinks[i].keys().len() + (j - i),
    decreases j - i,
{
    if i < j {
        law_holders_forget_no_key(sinks, i, j - 1);
        assert(sinks[j - 1].may_become(sinks[j]));
    }
}

/// A key that a sink or one of its clones let through is never let through again, by whichever of
/// them, whoever held the lock in between: the later task is dropped.
pub proof fn law_key_passes_once_among_clones<Args, Ctx>(
    sinks: Seq<MemorySink<()>>,
    i: int,
    j: int,
    first: ScreenTurn<Args, Ctx>,
    first_outcome: Option<Option<Task<Args, Ctx, RandomId>>>,
    second: ScreenTurn<Args, Ctx>,
    second_left: MemorySink<()>,
    second_outcome: Option<Option<Task<Args, Ctx, RandomId>>>,
)
    requires
        held_in_turn(sinks),
        0 <= i < j < sinks.len(),
        first.leaves(sinks[i], sinks[i + 1], first_outcome),
        second.leaves(sinks[j], second_left, second_outcome),
        match (first.item.parts.idempotency_key, second.item.parts.idempotency_key) {
            (Some(one), Some(other)) => one@ == other@,
            _ => false,
        },
    ensures
        second_outcome == Some(None::<Task<Args, Ctx, RandomId>>),
        second_left.keys() == sinks[j].keys(),
{
    law_holders_forget_no_key(sinks, i + 1, j);
    assert(second_left.keys() =~= sinks[j].keys());
}

/// A task passes, with all it came with, if no key was noted that is exactly its own, and always
/// if it has none. Only its own key is noted.
pub proof fn law_new_key_passes<Args, Ctx>(
    turn: ScreenTurn<Args, Ctx>,
    found: MemorySink<()>,
    left: MemorySink<()>,
    outcome: Option<Option<Task<Args, Ctx, RandomId>>>,
)
    requires
        turn.leaves(found, left, outcome),
    ensures
        (turn.item.parts.idempotency_key matches Some(own) ==> !found.keys().contains(own@))
            ==> outcome == Some(Some(turn.item.identified(turn.fresh))),
        forall|text: Seq<char>| #[trigger]
            left.keys().contains(text) <==> found.keys().contains(text) || (
            turn.item.parts.idempotency_key matches Some(own) && own@ == text),
{
}

/// A storage is made open and without tasks or keys. What sending answers depends on nothing but
/// whether the storage is open and whether the key was seen.
pub proof fn law_answer_says_what_happens<Args, Ctx>(
    state: StorageState<Args, Ctx>,
    item: Task<Args, Ctx, RandomId>,
)
    ensures
        StorageState::<Args, Ctx>::fresh().channel.open,
        StorageState::<Args, Ctx>::fresh().channel.waiting.len() == 0,
        forall|text: Seq<char>| !(#[trigger]
        StorageState::<Args, Ctx>::fresh().keys.contains(text)),
        state.answer(item) is Ok <==> state.channel.open || (
        item.parts.idempotency_key matches Some(own) && state.keys.contains(own@)),
{
}

} // verus!
