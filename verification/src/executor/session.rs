//! The account of an executor: which tasks it has constructed, and which it has run.
//!
//! A task is constructed with a `SetupTurn` and run with an `ExecTurn`. A turn is used
//! up by that, nobody can copy it, and only a session hands turns out; so the session of
//! an executor accounts for all tasks that are constructed and run for it.

use crate::config::Config;
use crate::executor::setup::ExecutorSetupError;
use crate::executor::{Executor, runs_into_cycle, set_up, subscribes_to_configured};
use crate::task_map::TaskMap;
use crate::types::{TaskConfig, TaskId};
use vstd::prelude::*;

verus! {

/// Leave to construct one task.
pub struct SetupTurn {
    task_id: TaskId,
}

impl SetupTurn {
    /// The number of the task.
    pub closed spec fn task(&self) -> u16 {
        self.task_id@
    }

    /// The task that may be constructed.
    pub fn task_id(&self) -> (task_id: TaskId)
        ensures
            task_id@ == self.task(),
    {
        self.task_id
    }
}

/// Leave to run one task once.
pub struct ExecTurn {
    index: Ghost<u16>,
}

impl ExecTurn {
    /// The index of the task.
    pub closed spec fn index(&self) -> u16 {
        self.index@
    }
}

/// The account of an executor.
pub struct Session {
    constructed: Ghost<Seq<u16>>,
    run: Ghost<Seq<u16>>,
}

impl Session {
    /// The numbers of the tasks that have been constructed, in this order.
    pub closed spec fn constructed(&self) -> Seq<u16> {
        self.constructed@
    }

    /// The indexes of the tasks that have been run, each as often as it has been run.
    pub closed spec fn run(&self) -> Seq<u16> {
        self.run@
    }

    /// The account of an executor for which nothing has been done.
    fn new() -> (session: Session)
        ensures
            session.constructed() == Seq::<u16>::empty(),
            session.run() == Seq::<u16>::empty(),
    {
        Session { constructed: Ghost(Seq::empty()), run: Ghost(Seq::empty()) }
    }

    /// Gives leave to construct a task.
    pub(crate) fn construct(&mut self, task_id: TaskId) -> (turn: SetupTurn)
        ensures
            turn.task() == task_id@,
            final(self).constructed() == old(self).constructed().push(task_id@),
            final(self).run() == old(self).run(),
    {
        self.constructed = Ghost(self.constructed@.push(task_id@));
        SetupTurn { task_id }
    }

    /// Gives leave to run a task.
    pub(crate) fn exec(&mut self, index: u16) -> (turn: ExecTurn)
        ensures
            turn.index() == index,
            final(self).constructed() == old(self).constructed(),
            final(self).run() == old(self).run().push(index),
    {
        self.run = Ghost(self.run@.push(index));
        ExecTurn { index: Ghost(index) }
    }
}

impl<C: Config> Executor<C> {
    /// Construct an executor by
    /// - building the dependency graph via `Task::setup` subscriptions,
    /// - ordering the tasks topologically, or finding that they make a cycle,
    /// - materializing per-task scheduling metadata and indices.
    ///
    /// Each task is constructed once, in the order of the configs, and none is run.
    ///
    /// # Errors
    /// In case the graph contains cycle(s).
    pub fn setup(task_configs: &TaskMap<TaskConfig<C>>) -> (executor: Result<
        Self,
        ExecutorSetupError,
    >)
        requires
            task_configs.wf(),
            subscribes_to_configured::<C>(*task_configs),
        ensures
            match executor {
                Ok(executor) => {
                    &&& executor.wf()
                    &&& executor.at_rest()
                    &&& !executor.graph().has_cycle()
                    &&& exists|parents: Seq<Seq<u16>>, made: Seq<C::Task>| #[trigger]
                        set_up(*task_configs, parents, made, executor)
                    &&& executor.constructed() == task_configs.keys()
                    &&& executor.run() == Seq::<u16>::empty()
                },
                Err(error) => {
                    &&& error == ExecutorSetupError::Cycle
                    &&& exists|parents: Seq<Seq<u16>>, made: Seq<C::Task>| #[trigger]
                        runs_into_cycle::<C>(*task_configs, parents, made)
                },
            },
    {
        match Executor::setup_in(Session::new(), task_configs) {
            Ok(executor) => {
                assert(executor.constructed() =~= task_configs.keys());
                Ok(executor)
            },
            Err((error, _session)) => Err(error),
        }
    }
}

} // verus!
