//! Storing in the queue behind its lock.

use std::collections::VecDeque;

use futures_util::lock::MutexGuard;
use vstd::prelude::*;

use super::{
    store_answer, store_in, stored, with_text, InMemoryDb, TaskQueue, TaskSeq, VecDequeError,
};
use crate::lock::{hold, lent, released, tried, Turn};
use crate::task::{RandomId, Task};

verus! {

/// Storing a task.
struct StoreTurn<T> {
    item: Task<T, (), RandomId>,
}

impl<T> Turn<VecDeque<Task<T, (), RandomId>>> for StoreTurn<T> {
    type Outcome = Result<(), VecDequeError>;

    closed spec fn leaves(
        self,
        found: TaskQueue<T>,
        left: TaskQueue<T>,
        outcome: Result<(), VecDequeError>,
    ) -> bool {
        &&& with_text(outcome) == store_answer(Some(found@))
        &&& left@ == stored(found@, self.item)
    }

    closed spec fn refused(self, outcome: Result<(), VecDequeError>) -> bool {
        with_text(outcome) == store_answer::<T>(None)
    }

    closed spec fn handed_out(outcome: Result<(), VecDequeError>) -> Seq<Task<T, (), RandomId>> {
        Seq::empty()
    }

    fn take(self, found: Option<&mut TaskQueue<T>>) -> (outcome: Result<(), VecDequeError>) {
        assert(forall|queue: TaskSeq<T>| (#[trigger] queue.push(self.item)).drop_last() =~= queue);
        store_in(found, self.item)
    }
}

impl<T> InMemoryDb<T> {
    /// Tries the shared lock. If it is granted, `item` is stored in the queue behind it. If it is
    /// refused, that is reported.
    pub fn store(&self, item: Task<T, (), RandomId>) -> (sent: Result<(), VecDequeError>)
        ensures
            exists|locked: Option<MutexGuard<'_, TaskQueue<T>>>| #[trigger]
                tried(*self.shared(), locked) && match locked {
                    Some(held) => exists|
                        guard: &mut MutexGuard<'_, TaskQueue<T>>,
                        queue: &mut TaskQueue<T>,
                    | #[trigger]
                        lent(guard, queue) && *guard == held && released(*final(guard))
                            && with_text(sent) == store_answer(Some(queue@))
                            && final(queue)@ == stored(queue@, item),
                    None => with_text(sent) == store_answer::<T>(None),
                },
    {
        assert(self.shared() == self.inner);
        hold(&self.inner, StoreTurn { item })
    }
}

} // verus!
