//! Tasks and their identifiers.

use std::collections::hash_map::{DefaultHasher, RandomState};
use std::hash::{BuildHasher, Hasher};

use vstd::prelude::*;

verus! {

/// `RandomState::new` of std gives a hash builder whose keys are drawn at random. Nothing is
/// claimed of the keys.
pub assume_specification[ RandomState::new ]() -> RandomState;

/// `RandomState::build_hasher` of std gives a hasher seeded with the builder's keys. Nothing is
/// claimed of the state that the hasher starts in.
pub assume_specification[ <RandomState as BuildHasher>::build_hasher ](
    state: &RandomState,
) -> DefaultHasher;

/// The kind of identifier that is drawn for a task which arrives without one.
#[derive(Clone, Copy, Debug, PartialEq, Eq, Hash, Structural)]
pub struct RandomId {
    pub high: u64,
    pub low: u64,
}

/// Whether `id` was drawn by `RandomId::default`.
#[verifier::inline]
pub open spec fn drawn(id: RandomId) -> bool {
    call_ensures(<RandomId as Default>::default, (), id)
}

impl Default for RandomId {
    /// Draws an identifier at random: any value may come out.
    fn default() -> RandomId {
        let high: u64 = RandomState::new().build_hasher().finish();
        let low: u64 = RandomState::new().build_hasher().finish();
        RandomId { high, low }
    }
}

/// Identifiers that are drawn one after another.
pub struct Draws {
    made: Ghost<Seq<RandomId>>,
}

impl Draws {
    /// What was drawn so far.
    pub closed spec fn made(&self) -> Seq<RandomId> {
        self.made@
    }

    /// Nothing was drawn.
    pub fn new() -> (draws: Self)
        ensures
            draws.made() == Seq::<RandomId>::empty(),
    {
        Draws { made: Ghost(Seq::empty()) }
    }

    /// Draws the next identifier.
    pub fn draw(&mut self) -> (id: RandomId)
        ensures
            drawn(id),
            final(self).made() == old(self).made().push(id),
    {
        let id = RandomId::default();
        self.made = Ghost(self.made@.push(id));
        id
    }
}

/// Whether `id` came of a draw that was made when those in `made` had been drawn.
pub open spec fn drawn_after(made: Seq<RandomId>, id: RandomId) -> bool {
    exists|draws: &mut Draws|
        draws.made() == made && #[trigger] call_ensures(Draws::draw, (draws,), id)
}

/// Whether each of the identifiers came of a draw of its own, made when those before it had been
/// drawn.
pub open spec fn drawn_in_turn(ids: Seq<RandomId>) -> bool {
    forall|i: int| 0 <= i < ids.len() ==> drawn_after(ids.take(i), #[trigger] ids[i])
}

/// The identifier of a task.
#[derive(Clone, Copy, Debug, PartialEq, Eq, Hash)]
pub struct TaskId<IdType>(pub IdType);

impl<IdType> TaskId<IdType> {
    /// Makes `id` the identifier of a task.
    pub fn new(id: IdType) -> (task_id: Self)
        ensures
            task_id == TaskId(id),
    {
        TaskId(id)
    }
}

/// What a task carries beside its arguments.
#[derive(Clone, Debug)]
pub struct Parts<Ctx, IdType> {
    /// The identifier, if one was assigned.
    pub task_id: Option<TaskId<IdType>>,
    /// Tasks with equal keys are one and the same piece of work.
    pub idempotency_key: Option<String>,
    /// What the backend keeps about the task.
    pub ctx: Ctx,
}

/// A unit of work.
#[derive(Clone, Debug)]
pub struct Task<Args, Ctx, IdType> {
    pub args: Args,
    pub parts: Parts<Ctx, IdType>,
}

/// The text of an optional idempotency key.
pub open spec fn key_text(key: Option<String>) -> Option<Seq<char>> {
    match key {
        Some(key) => Some(key@),
        None => None,
    }
}

impl<Args, Ctx, IdType> Task<Args, Ctx, IdType> {
    /// The text of the task's idempotency key, if it has one.
    pub open spec fn key(self) -> Option<Seq<char>> {
        key_text(self.parts.idempotency_key)
    }
}

impl<Args, Ctx> Task<Args, Ctx, RandomId> {
    /// The identifier under which the task goes on when `fresh` was drawn for it: its own, if it
    /// has one.
    pub open spec fn id_or(self, fresh: RandomId) -> RandomId {
        match self.parts.task_id {
            Some(task_id) => task_id.0,
            None => fresh,
        }
    }

    /// The same task, with `fresh` for its identifier if it has none of its own.
    pub open spec fn identified(self, fresh: RandomId) -> Self {
        Task {
            parts: Parts { task_id: Some(TaskId(self.id_or(fresh))), ..self.parts },
            ..self
        }
    }

    /// Gives the task the identifier `fresh`, unless it has one.
    pub fn identify(self, fresh: RandomId) -> (task: Self)
        ensures
            task == self.identified(fresh),
    {
        let Task { args, parts: Parts { task_id, idempotency_key, ctx } } = self;
        let id: RandomId = match task_id {
            Some(task_id) => task_id.0,
            None => fresh,
        };
        Task { args, parts: Parts { task_id: Some(TaskId::new(id)), idempotency_key, ctx } }
    }

    /// The task's own identifier or, if it has none, one that is drawn at random.
    pub fn own_or_random_id(&self) -> (id: RandomId)
        ensures
            match self.parts.task_id {
                Some(task_id) => id == task_id.0,
                None => drawn(id),
            },
    {
        match &self.parts.task_id {
            Some(task_id) => task_id.0,
            None => RandomId::default(),
        }
    }
}

/// Whether `key` is there and its text is that of `wanted`.
pub fn is_key(key: &Option<String>, wanted: &String) -> (found: bool)
    ensures
        found == (key_text(*key) == Some(wanted@)),
{
    match key {
        Some(key) => *key == *wanted,
        None => false,
    }
}

/// Two tasks have the same key exactly if both have a key and the texts are equal, from the first
/// character to the last, or if neither has one.
pub proof fn law_same_key_is_same_text<Args, Ctx, IdType>(
    a: Task<Args, Ctx, IdType>,
    b: Task<Args, Ctx, IdType>,
)
    ensures
        a.key() == b.key() <==> match (a.parts.idempotency_key, b.parts.idempotency_key) {
            (Some(a), Some(b)) => a@.len() == b@.len() && forall|i: int|
                0 <= i < a@.len() ==> #[trigger] a@[i] == b@[i],
            (None, None) => true,
            _ => false,
        },
{
    if let (Some(a), Some(b)) = (a.parts.idempotency_key, b.parts.idempotency_key) {
        if a@.len() == b@.len() && forall|i: int| 0 <= i < a@.len() ==> #[trigger] a@[i] == b@[i] {
            assert(a@ =~= b@);
        }
    }
}

/// A task that is given an identifier keeps its own if it has one, and keeps all else either way.
/// A second identifier changes nothing.
pub proof fn law_identified_keeps_the_task<Args, Ctx>(
    task: Task<Args, Ctx, RandomId>,
    fresh: RandomId,
    other: RandomId,
)
    ensures
        task.identified(fresh).args == task.args,
        task.identified(fresh).parts.ctx == task.parts.ctx,
        task.identified(fresh).parts.idempotency_key == task.parts.idempotency_key,
        task.parts.task_id is Some ==> task.identified(fresh) == task,
        task.parts.task_id is None ==> task.identified(fresh).parts.task_id == Some(TaskId(fresh)),
        task.identified(fresh).identified(other) == task.identified(fresh),
{
}

/// Every identifier of those that were drawn in turn came of a draw, and of one that was made
/// after all those before it had been drawn. So no two of them share a draw.
pub proof fn law_each_has_a_draw_of_its_own(ids: Seq<RandomId>, i: int, j: int)
    requires
        drawn_in_turn(ids),
        0 <= i < j < ids.len(),
    ensures
        call_ensures(<RandomId as Default>::default, (), ids[i]),
        call_ensures(<RandomId as Default>::default, (), ids[j]),
        exists|first: &mut Draws, second: &mut Draws|
            first.made().len() == i && second.made().len() == j && second.made()[i] == ids[i]
                && #[trigger] call_ensures(Draws::draw, (first,), ids[i])
                && #[trigger] call_ensures(Draws::draw, (second,), ids[j]),
{
    assert(drawn_after(ids.take(i), ids[i]));
    assert(drawn_after(ids.take(j), ids[j]));
    let first = choose|draws: &mut Draws|
        draws.made() == ids.take(i) && #[trigger] call_ensures(Draws::draw, (draws,), ids[i]);
    let second = choose|draws: &mut Draws|
        draws.made() == ids.take(j) && #[trigger] call_ensures(Draws::draw, (draws,), ids[j]);
    assert(second.made()[i] == ids[i]);
}

} // verus!
