//! Task identifiers, and the slots of the executor.

use crate::config::Config;
use crate::task::Task;
use vstd::prelude::*;

verus! {

/// Unique identifier of a task in the graph: a nonzero 16-bit number, so that a
/// graph has at most 65535 tasks.
#[derive(Clone, Copy, Debug, PartialEq, Eq, Structural, PartialOrd, Ord, Hash)]
pub struct TaskId {
    number: u16,
}

impl TaskId {
    /// The number of the task.
    pub closed spec fn view(&self) -> u16 {
        self.number
    }

    #[verifier::type_invariant]
    pub(crate) closed spec fn nonzero(self) -> bool {
        self.number != 0
    }

    /// The identifier with the given number, if that number is not zero.
    pub fn new(number: u16) -> (id: Option<TaskId>)
        ensures
            id is Some <==> number != 0,
            id matches Some(id) ==> id@ == number,
    {
        if number == 0 {
            None
        } else {
            Some(TaskId { number })
        }
    }

    /// The number of the task.
    pub fn get(self) -> (number: u16)
        ensures
            number == self@,
            number != 0,
    {
        proof {
            use_type_invariant(self);
        }
        self.number
    }
}

/// User-provided configuration type for a task bound to a specific `Config`.
pub type TaskConfig<C> = <<C as Config>::Task as Task<C>>::Config;

/// Output type produced by a task after successful execution.
pub type TaskOutput<C> = <<C as Config>::Task as Task<C>>::Output;

/// The slot of a task's output. It is empty until the task has run.
pub type OutputSlot<C> = SyncUnsafeCell<Option<TaskOutput<C>>>;

/// A slot of the executor: it holds one value for the task with the same index.
///
/// A slot is written only through an exclusive borrow and read through shared
/// ones, so no reader ever sees a value while it is being replaced.
#[derive(Debug)]
pub struct SyncUnsafeCell<T> {
    value: T,
}

impl<T> SyncUnsafeCell<T> {
    /// The value in the slot.
    pub closed spec fn view(&self) -> T {
        self.value
    }

    /// A slot that holds `val`.
    pub fn new(val: T) -> (slot: Self)
        ensures
            slot@ == val,
    {
        SyncUnsafeCell { value: val }
    }

    /// The value in the slot.
    pub fn get(&self) -> (value: &T)
        ensures
            *value == self@,
    {
        &self.value
    }

    /// Puts `val` into the slot and hands back the value that it held.
    pub fn replace(&mut self, val: T) -> (previous: T)
        ensures
            previous == old(self)@,
            final(self)@ == val,
    {
        let mut previous = val;
        std::mem::swap(&mut self.value, &mut previous);
        previous
    }
}

} // verus!
