//! Fetching from the queue behind its lock.

use std::collections::VecDeque;
use std::sync::atomic::Ordering;

use futures_util::lock::MutexGuard;
use vstd::prelude::*;

use super::{
    fetch_answer, fetch_count, fetch_from, published, remaining, with_text, Config, Fetched,
    InMemoryDb, TaskQueue, TaskSeq, VecDequeError,
};
use crate::lock::{hold, lent, released, tried, Turn};
use crate::task::{RandomId, Task};

verus! {

/// Fetching the oldest task.
struct FetchTurn;

impl<T> Turn<VecDeque<Task<T, (), RandomId>>> for FetchTurn {
    type Outcome = Fetched<T>;

    closed spec fn leaves(
        self,
        found: TaskQueue<T>,
        left: TaskQueue<T>,
        outcome: Fetched<T>,
    ) -> bool {
        &&& with_text(outcome.task) == fetch_answer(Some(found@))
        &&& outcome.count == Some(fetch_count(found@))
        &&& left@ == remaining(found@)
    }

    closed spec fn refused(self, outcome: Fetched<T>) -> bool {
        &&& with_text(outcome.task) == fetch_answer::<T>(None)
        &&& outcome.count is None
    }

    closed spec fn handed_out(outcome: Fetched<T>) -> Seq<Task<T, (), RandomId>> {
        match outcome.task {
            Ok(Some(task)) => seq![task],
            _ => Seq::empty(),
        }
    }

    fn take(self, found: Option<&mut TaskQueue<T>>) -> (outcome: Fetched<T>) {
        assert(forall|queue: TaskSeq<T>|
            queue.len() > 0 ==> queue.take(queue.len() - (#[trigger] queue.drop_first()).len())
                =~= seq![queue[0]]);
        fetch_from(found)
    }
}

impl<T> InMemoryDb<T> {
    /// Tries the shared lock. If it is granted, the oldest task of the queue behind it is fetched,
    /// and how many that brought is published. If it is refused, that is reported.
    pub fn fetch_next(&self, config: &Config) -> (fetched: Result<
        Option<Task<T, (), RandomId>>,
        VecDequeError,
    >)
        ensures
            exists|locked: Option<MutexGuard<'_, TaskQueue<T>>>| #[trigger]
                tried(*self.shared(), locked) && match locked {
                    Some(held) => exists|
                        guard: &mut MutexGuard<'_, TaskQueue<T>>,
                        queue: &mut TaskQueue<T>,
                    | #[trigger]
                        lent(guard, queue) && *guard == held && released(*final(guard))
                            && with_text(fetched) == fetch_answer(Some(queue@))
                            && final(queue)@ == remaining(queue@)
                            && published(*config.prev_count, fetch_count(queue@)),
                    None => with_text(fetched) == fetch_answer::<T>(None),
                },
    {
        assert(self.shared() == self.inner);
        let fetched = hold(&self.inner, FetchTurn);
        if let Some(count) = fetched.count {
            config.prev_count.store(count, Ordering::Relaxed);
        }
        fetched.task
    }
}

} // verus!
