//! The asynchronous lock of `futures_util`.
//!
//! What is behind a lock changes while the lock itself does not. So what is said of it is said of
//! one tenure: what a holder was lent, what it left there and that it gave the lock back. Each of
//! the predicates below says that a call was made, and with which values.
//!
//! What holds from one tenure to the next is what every holder keeps to. A [`Guarded`] type says
//! which changes those are, a [`Turn`] is shown to make no other, and a lock is tried in [`hold`]
//! alone, which takes one turn in one tenure and knows no other way to change what it finds.

use std::ops::DerefMut;

use futures_util::lock::{Mutex, MutexGuard};
use vstd::prelude::*;

verus! {

/// A lock around a value.
#[verifier::external_type_specification]
#[verifier::external_body]
#[verifier::reject_recursive_types(T)]
pub struct ExMutex<T: ?Sized>(Mutex<T>);

/// The right to use what is behind the lock, until it is dropped.
#[verifier::external_type_specification]
#[verifier::external_body]
#[verifier::reject_recursive_types(T)]
pub struct ExMutexGuard<'a, T: ?Sized>(MutexGuard<'a, T>);

/// `Mutex::new` of `futures_util` puts a value behind a lock. Nothing is claimed of what is there
/// later.
pub assume_specification<T>[ Mutex::<T>::new ](t: T) -> Mutex<T>;

/// `Mutex::try_lock` of `futures_util` gives the right to use what is behind the lock, unless
/// somebody has it. Whether somebody does cannot be known here, so nothing is claimed. It is for
/// this module only: see [`taken_in_turns`].
pub assume_specification<T: ?Sized>[ Mutex::<T>::try_lock ](mutex: &Mutex<T>) -> Option<
    MutexGuard<'_, T>,
>
    requires
        taken_in_turns(mutex),
;

/// `MutexGuard::deref_mut` of `futures_util` lends out what is behind the lock. Others may have
/// changed it while they held the lock, so nothing is claimed of what is found there.
pub assume_specification<'a, 'b, T: ?Sized>[ <MutexGuard<'a, T> as DerefMut>::deref_mut ](
    guard: &'b mut MutexGuard<'a, T>,
) -> &'b mut T;

/// `drop` of std disposes of a value; a guard gives its lock back. Nothing is claimed.
pub assume_specification<T>[ core::mem::drop::<T> ](value: T);

/// Whether a lock is tried for one turn and no more. That is so in this module, and nobody else
/// can show it, so nobody else tries a lock.
pub closed spec fn taken_in_turns<T: ?Sized>(lock: &Mutex<T>) -> bool {
    true
}

/// Whether `lock` came of `Mutex::new` with `value`. It says what was there at first.
#[verifier::inline]
pub open spec fn made_with<T>(lock: Mutex<T>, value: T) -> bool {
    call_ensures(Mutex::<T>::new, (value,), lock)
}

/// Whether `locked` came of `Mutex::try_lock` on `lock`.
#[verifier::inline]
pub open spec fn tried<T>(lock: Mutex<T>, locked: Option<MutexGuard<'_, T>>) -> bool {
    call_ensures(Mutex::<T>::try_lock, (&lock,), locked)
}

/// Whether `value` was lent through `guard` by `MutexGuard::deref_mut`.
#[verifier::inline]
pub open spec fn lent<T>(guard: &mut MutexGuard<'_, T>, value: &mut T) -> bool {
    call_ensures(<MutexGuard<'_, T> as DerefMut>::deref_mut, (guard,), value)
}

/// Whether the lock was given back by dropping `guard` as it was when the loan ended.
#[verifier::inline]
pub open spec fn released<T>(guard: MutexGuard<'_, T>) -> bool {
    call_ensures(core::mem::drop::<MutexGuard<'_, T>>, (guard,), ())
}

/// What can be behind a lock.
pub trait Guarded: Sized {
    /// What a holder can take away.
    type Item;

    /// Whether a holder that finds `self` may leave `left`.
    spec fn may_become(self, left: Self) -> bool;

    /// What a holder took away that found `self` and left `left`.
    spec fn taken(self, left: Self) -> Seq<Self::Item>;
}

/// Whether these can be what successive holders found, each what the one before it left.
pub open spec fn held_in_turn<C: Guarded>(contents: Seq<C>) -> bool {
    forall|i: int, j: int|
        0 <= i && j == i + 1 && j < contents.len() ==> (#[trigger] contents[i]).may_become(
            #[trigger] contents[j],
        )
}

/// What successive holders took away between them, in this order.
pub open spec fn all_taken<C: Guarded>(contents: Seq<C>) -> Seq<C::Item>
    decreases contents.len(),
{
    if contents.len() < 2 {
        Seq::empty()
    } else {
        all_taken(contents.drop_last()) + contents[contents.len() - 2].taken(contents.last())
    }
}

/// What a holder does with what is behind a lock.
pub trait Turn<C: Guarded>: Sized {
    /// What comes of it.
    type Outcome;

    /// Whether the turn leaves `left` where it finds `found`, and `outcome` comes of it.
    spec fn leaves(self, found: C, left: C, outcome: Self::Outcome) -> bool;

    /// Whether `outcome` comes of it if the lock is refused.
    spec fn refused(self, outcome: Self::Outcome) -> bool;

    /// What was taken away, as it is found in what came of the turn.
    spec fn handed_out(outcome: Self::Outcome) -> Seq<C::Item>;

    /// Takes the turn, with what was found behind the lock, unless the lock was refused.
    fn take(self, found: Option<&mut C>) -> (outcome: Self::Outcome)
        ensures
            match found {
                Some(content) => self.leaves(*content, *final(content), outcome)
                    && content.may_become(*final(content)) && Self::handed_out(outcome)
                    == content.taken(*final(content)),
                None => self.refused(outcome),
            },
    ;
}

/// Tries the lock and takes the turn. Where the lock is granted, it is given back after the turn.
pub fn hold<C: Guarded, A: Turn<C>>(lock: &Mutex<C>, turn: A) -> (outcome: A::Outcome)
    ensures
        exists|locked: Option<MutexGuard<'_, C>>| #[trigger]
            tried(*lock, locked) && match locked {
                Some(held) => exists|guard: &mut MutexGuard<'_, C>, content: &mut C| #[trigger]
                    lent(guard, content) && *guard == held && released(*final(guard))
                        && turn.leaves(*content, *final(content), outcome) && content.may_become(
                        *final(content),
                    ) && A::handed_out(outcome) == content.taken(*final(content)),
                None => turn.refused(outcome),
            },
{
    let locked = lock.try_lock();
    assert(tried(*lock, locked));
    match locked {
        Some(held) => {
            let mut guard = held;
            let outcome = turn.take(Some(guard.deref_mut()));
            drop(guard);
            outcome
        },
        None => turn.take(None),
    }
}

} // verus!
