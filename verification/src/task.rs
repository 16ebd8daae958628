//! Task definitions and the setup/exec APIs exposed to tasks.

use crate::executor::session::{ExecTurn, SetupTurn};
use crate::graph::{Subscription, subscribe, subscribe_all};
use crate::types::TaskId;
use core::fmt::Debug;
use vstd::prelude::*;

verus! {

/// Whether a task may subscribe to each of the given parents: they are known.
pub open spec fn may_subscribe(known: Set<u16>, parents: Seq<u16>) -> bool {
    forall|i: int| 0 <= i < parents.len() ==> known.contains(#[trigger] parents[i])
}

/// A single unit of computation in the graph.
///
/// Tasks are constructed once during `Executor::setup` via `Task::setup`, where
/// they may declare dependencies on other tasks using the provided `SetupApi`.
/// At runtime, `exec` is invoked when all parents have completed, and the task
/// may read parents' outputs via the `ExecApi`.
///
/// The specification functions let an implementation say what it does. Left as
/// they are, they describe a task that subscribes to nothing, reads nothing, and
/// may compute anything.
pub trait Task<C>: Debug + Send + Sync + Sized {
    /// Task configuration type.
    type Config;

    /// Task output type.
    type Output: Send + Sync;

    /// Whether `setup` may, on `config`, subscribe to `parents`, in this order.
    open spec fn subscribes(config: Self::Config, parents: Seq<u16>) -> bool {
        parents.len() == 0
    }

    /// Whether `setup` may, on `config` and after subscribing to `parents`,
    /// construct `task`.
    open spec fn sets_up(config: Self::Config, parents: Seq<u16>, task: Self) -> bool {
        true
    }

    /// The parents whose outputs `exec` may read.
    open spec fn reads(&self) -> Set<u16> {
        Set::empty()
    }

    /// Whether `exec` may, where `data` are the outputs of the parents, turn the
    /// task `before` into the task `after` and return `output`.
    open spec fn runs(
        before: Self,
        data: Map<u16, Self::Output>,
        after: Self,
        output: Self::Output,
    ) -> bool {
        true
    }

    /// Construct the task from a user-provided config, optionally subscribing
    /// to parents via `api.subscribe(parent_id)`.
    fn setup<A: SetupApi>(api: &mut A, config: &Self::Config) -> (task: Self)
        requires
            old(api).wf(),
            forall|parents: Seq<u16>| #[trigger]
                Self::subscribes(*config, parents) ==> may_subscribe(old(api).known(), parents),
        ensures
            final(api).wf(),
            final(api).current() == old(api).current(),
            final(api).known() == old(api).known(),
            exists|parents: Seq<u16>|
                {
                    &&& #[trigger] Self::subscribes(*config, parents)
                    &&& Self::sets_up(*config, parents, task)
                    &&& final(api).subscriptions() == subscribe_all(
                        old(api).subscriptions(),
                        old(api).current(),
                        parents,
                    )
                    &&& task.reads().subset_of(parents.to_set())
                },
    ;

    /// Execute the task and return its output.
    ///
    /// The task may call `data.read(subscription_id)` to access the output
    /// of a previously subscribed parent.
    fn exec<A: ExecApi<Self::Output>>(&mut self, data: &A) -> (output: Self::Output)
        requires
            old(self).reads().subset_of(data.published().dom()),
        ensures
            Self::runs(*old(self), data.published(), *final(self), output),
            final(self).reads().subset_of(old(self).reads()),
    ;
}

/// API available to tasks during construction to declare dependencies
/// (subscriptions).
pub trait SetupApi {
    /// Whether the bookkeeping is in order.
    spec fn wf(&self) -> bool;

    /// The task that is being constructed.
    spec fn current(&self) -> u16;

    /// The tasks that have a config.
    spec fn known(&self) -> Set<u16>;

    /// The subscriptions that have been made so far, by any task.
    spec fn subscriptions(&self) -> Seq<Subscription>;

    /// The leave to construct the task.
    fn turn(&self) -> (turn: &SetupTurn)
        ensures
            turn.task() == self.current(),
    ;

    /// Subscribe to a parent task by its `TaskId` and receive a stable
    /// subscription token that can later be used to read the parent's
    /// output during `exec`.
    ///
    /// The parent must have a config. A task that subscribes to itself makes a
    /// cycle, which the setup of the executor reports.
    fn subscribe(&mut self, parent_task_id: TaskId) -> (subscription_id: TaskSubscriptionId)
        requires
            old(self).wf(),
            old(self).known().contains(parent_task_id@),
        ensures
            final(self).wf(),
            final(self).current() == old(self).current(),
            final(self).known() == old(self).known(),
            final(self).subscriptions() == subscribe(
                old(self).subscriptions(),
                old(self).current(),
                parent_task_id@,
            ),
            subscription_id.parent() == parent_task_id@,
    ;
}

/// API available to tasks at execution time for reading parents' outputs.
pub trait ExecApi<Output> {
    /// The outputs that can be read, by the task that computed them.
    spec fn published(&self) -> Map<u16, Output>;

    /// The index of the task that runs.
    spec fn index(&self) -> u16;

    /// The leave to run the task.
    fn turn(&self) -> (turn: &ExecTurn)
        ensures
            turn.index() == self.index(),
    ;

    /// Read the output of a parent previously subscribed to via `SetupApi`.
    ///
    /// The executor hands out outputs only of parents that have completed.
    fn read(&self, subscription_id: TaskSubscriptionId) -> (output: &Output)
        requires
            self.published().dom().contains(subscription_id.parent()),
        ensures
            *output == self.published()[subscription_id.parent()],
    ;
}

/// Opaque handle representing a subscription to a parent task's output.
#[derive(Debug, Copy, Clone, PartialEq, Eq, Hash)]
pub struct TaskSubscriptionId(TaskId);

impl TaskSubscriptionId {
    /// The number of the parent.
    pub closed spec fn parent(&self) -> u16 {
        self.0@
    }

    /// The handle of a subscription to `parent`.
    pub(crate) fn new(parent: TaskId) -> (subscription_id: Self)
        ensures
            subscription_id.parent() == parent@,
    {
        TaskSubscriptionId(parent)
    }

    /// The parent.
    pub(crate) fn task_id(self) -> (parent: TaskId)
        ensures
            parent@ == self.parent(),
    {
        self.0
    }
}

} // verus!
