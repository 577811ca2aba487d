use vstd::prelude::*;

use crate::task::Task;

verus! {

/// A calendar that can look for room for a task and then book it.
pub trait ConstraintManager: Sized {
    /// The search for `task` from `starting_interval` stays within what the
    /// calendar and the interval arithmetic allow.
    spec fn can_search(&self, task: Task, starting_interval: u32) -> bool;

    /// `r` is the first slot, from where the search begins, at which this
    /// calendar can take `task`, or `None` if there is none.
    spec fn is_first_fit(&self, task: Task, starting_interval: u32, r: Option<u32>) -> bool;

    /// Booking `task` at `interval` stays within what the calendar and the
    /// interval arithmetic allow.
    spec fn can_schedule(&self, task: Task, interval: u32) -> bool;

    /// `self` is `before` with `task` booked at `interval`.
    spec fn is_scheduled_from(&self, before: Self, task: Task, interval: u32) -> bool;

    /// Books `task` on this calendar from `interval` on.
    fn schedule(&mut self, task: &Task, interval: u32)
        requires
            old(self).can_schedule(*task, interval),
        ensures
            final(self).is_scheduled_from(*old(self), *task, interval),
    ;

    /// The first slot, no earlier than `starting_interval` and the task's
    /// earliest start, at which this calendar can take `task`.
    fn get_first_fit(&self, task: &Task, starting_interval: u32) -> (r: Option<u32>)
        requires
            self.can_search(*task, starting_interval),
        ensures
            self.is_first_fit(*task, starting_interval, r),
    ;
}

} // verus!
