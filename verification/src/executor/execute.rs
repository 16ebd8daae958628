//! Running the tasks of a plan.
//!
//! A job is a task together with the tasks in the tree of owned children below it,
//! each of them borrowed from the executor while the job runs. Jobs run in parallel
//! and share only the slots of outputs, which nobody writes meanwhile. Within a job
//! a task starts its owned children by itself, on its own output. When the jobs of
//! a round have returned, their outputs are published, and the children that a task
//! shares with other parents are counted down; those that wait for nobody any more
//! are the heads of the jobs of the next round.

use crate::config::Config;
use crate::executor::countdown::{count_down, law_one_parent_is_last};
use crate::executor::is_deterministic;
use crate::executor::order::lemma_filter;
use crate::executor::plan::{Plan, law_independent_tasks_first, lemma_roots_first};
use crate::executor::session::{ExecTurn, Session};
use crate::task::{ExecApi, Task, TaskSubscriptionId};
use crate::task_map::lemma_numbers_below;
use crate::types::{OutputSlot, SyncUnsafeCell, TaskOutput};
use crate::utils::{RangeSplitAtHalf, vec_with_room};
use core::ops::Range;
use vstd::prelude::*;

verus! {

/// The outputs of the parents of a task, as they lie in the slots.
pub open spec fn outputs_of_parents<C: Config>(
    plan: &Plan,
    outputs: Seq<OutputSlot<C>>,
    index: u16,
) -> Map<u16, TaskOutput<C>> {
    Map::new(
        |parent: u16| plan.parents(index as int).contains(parent),
        |parent: u16| outputs[plan.index(parent) as int]@->0,
    )
}

/// The output of the only parent of a task.
pub open spec fn output_of_owner<C: Config>(
    plan: &Plan,
    output: TaskOutput<C>,
    index: u16,
) -> Map<u16, TaskOutput<C>> {
    Map::new(
        |parent: u16| plan.parents(index as int).contains(parent),
        |parent: u16| output,
    )
}

/// The outputs that a task is handed: those of its parents. An owned task is
/// handed the output of its owner, every other task finds the outputs in their
/// slots.
pub open spec fn handed<C: Config>(
    plan: &Plan,
    outputs: Seq<OutputSlot<C>>,
    owner: Option<&TaskOutput<C>>,
    index: u16,
) -> Map<u16, TaskOutput<C>> {
    match owner {
        Some(output) => output_of_owner::<C>(plan, *output, index),
        None => outputs_of_parents::<C>(plan, outputs, index),
    }
}

/// Whether all outputs that a task is to be handed are there.
pub open spec fn can_hand<C: Config>(
    plan: &Plan,
    outputs: Seq<OutputSlot<C>>,
    owner: Option<&TaskOutput<C>>,
    index: u16,
) -> bool {
    &&& index < plan.len()
    &&& outputs.len() == plan.len()
    &&& match owner {
        Some(output) => plan.parents_total(index as int) == 1,
        None => forall|parent: u16| #[trigger]
            plan.parents(index as int).contains(parent) ==> outputs[plan.index(
                parent,
            ) as int]@ is Some,
    }
}

/// Reads the outputs that a task is handed.
pub struct TaskExecApiImpl<'a, C: Config> {
    plan: &'a Plan,
    outputs: &'a Vec<OutputSlot<C>>,
    owner: Option<&'a TaskOutput<C>>,
    turn: ExecTurn,
}

impl<'a, C: Config> TaskExecApiImpl<'a, C> {
    #[verifier::type_invariant]
    spec fn inv(&self) -> bool {
        &&& self.plan.wf()
        &&& can_hand::<C>(self.plan, self.outputs@, self.owner, self.turn.index())
    }
}

impl<'a, C: Config> ExecApi<TaskOutput<C>> for TaskExecApiImpl<'a, C> {
    closed spec fn published(&self) -> Map<u16, TaskOutput<C>> {
        handed::<C>(self.plan, self.outputs@, self.owner, self.turn.index())
    }

    closed spec fn index(&self) -> u16 {
        self.turn.index()
    }

    fn turn(&self) -> (turn: &ExecTurn) {
        &self.turn
    }

    fn read(&self, subscription_id: TaskSubscriptionId) -> (output: &TaskOutput<C>) {
        proof {
            use_type_invariant(self);
        }
        let parent: u16 = subscription_id.task_id().get();
        proof {
            self.plan.lemma_parent(self.turn.index(), parent);
        }
        match self.owner {
            Some(output) => output,
            None => {
                let index: u16 = self.plan.find(parent).unwrap();
                self.outputs[index as usize].get().as_ref().unwrap()
            },
        }
    }
}

/// A task that is borrowed in order to be run once.
pub struct Borrow<'a, C: Config> {
    task: &'a mut C::Task,
    turn: ExecTurn,
}

/// Whether a task, with its turn, can be had.
spec fn lends<'a, C: Config>(
    borrow: Option<Borrow<'a, C>>,
    task: &'a mut C::Task,
    index: u16,
) -> bool {
    borrow is Some && borrow->0.task == task && borrow->0.turn.index() == index
}

/// A task that is to run, with the tasks that it owns.
pub struct Job<'a, C: Config> {
    index: u16,
    borrow: Borrow<'a, C>,
    owned: Vec<Job<'a, C>>,
}

/// What has come of a job.
pub struct DoneJob<C: Config> {
    index: u16,
    output: TaskOutput<C>,
    owned: Vec<DoneJob<C>>,
}

/// Whether a job holds a task of the plan and, below it, the tasks that it owns,
/// each of which reads its parents only.
pub closed spec fn is_job<'a, C: Config>(plan: &Plan, job: Job<'a, C>) -> bool
    decreases job,
{
    &&& job.index < plan.len()
    &&& job.borrow.turn.index() == job.index
    &&& forall|parent: u16| #[trigger]
        job.borrow.task.reads().contains(parent) ==> plan.parents(job.index as int).contains(parent)
    &&& job.owned@.len() == plan.owned_children(job.index as int).len()
    &&& forall|k: int|
        #![trigger job.owned@[k]]
        0 <= k < job.owned@.len() ==> job.owned@[k].index == plan.owned_children(
            job.index as int,
        )[k] && is_job(plan, job.owned@[k])
}

/// Whether a job and the jobs below it hold the given borrows of tasks.
pub closed spec fn holds<'a, C: Config>(lent: Seq<&'a mut C::Task>, job: Job<'a, C>) -> bool
    decreases job,
{
    &&& job.borrow.task == lent[job.index as int]
    &&& forall|k: int|
        #![trigger job.owned@[k]]
        0 <= k < job.owned@.len() ==> holds(lent, job.owned@[k])
}

/// Whether `done` is what comes of a job when its task is run once on `data` and
/// each task that it owns is run on its output. `after` are the tasks afterwards,
/// by index.
pub closed spec fn executed<'a, C: Config>(
    plan: &Plan,
    job: Job<'a, C>,
    done: DoneJob<C>,
    data: Map<u16, TaskOutput<C>>,
    after: spec_fn(u16) -> C::Task,
) -> bool
    decreases job,
{
    &&& done.index == job.index
    &&& C::Task::runs(*job.borrow.task, data, after(job.index), done.output)
    &&& after(job.index).reads().subset_of(job.borrow.task.reads())
    &&& done.owned@.len() == job.owned@.len()
    &&& forall|k: int|
        #![trigger done.owned@[k]]
        #![trigger job.owned@[k]]
        0 <= k < job.owned@.len() ==> executed(
            plan,
            job.owned@[k],
            done.owned@[k],
            output_of_owner::<C>(plan, done.output, job.owned@[k].index),
            after,
        )
}

/// Whether each element of `done` is what comes of the job at the same place.
pub closed spec fn all_executed<'a, C: Config>(
    plan: &Plan,
    outputs: Seq<OutputSlot<C>>,
    owner: Option<&TaskOutput<C>>,
    jobs: Seq<Job<'a, C>>,
    done: Seq<DoneJob<C>>,
    after: spec_fn(u16) -> C::Task,
) -> bool {
    &&& done.len() == jobs.len()
    &&& forall|k: int|
        #![trigger jobs[k]]
        #![trigger done[k]]
        0 <= k < jobs.len() ==> executed(
            plan,
            jobs[k],
            done[k],
            handed::<C>(plan, outputs, owner, jobs[k].index),
            after,
        )
}

/// Whether each job can be run and holds the given borrows.
pub closed spec fn all_ready<'a, C: Config>(
    plan: &Plan,
    outputs: Seq<OutputSlot<C>>,
    owner: Option<&TaskOutput<C>>,
    jobs: Seq<Job<'a, C>>,
    lent: Seq<&'a mut C::Task>,
) -> bool {
    forall|k: int|
        #![trigger jobs[k]]
        0 <= k < jobs.len() ==> is_job(plan, jobs[k]) && holds(lent, jobs[k]) && can_hand::<C>(
            plan,
            outputs,
            owner,
            jobs[k].index,
        )
}

impl<'a, C: Config> Job<'a, C> {
    /// Runs the task of this job and then, on its output, the tasks that it owns.
    fn exec(
        self,
        plan: &Plan,
        outputs: &Vec<OutputSlot<C>>,
        owner: Option<&TaskOutput<C>>,
        lent: Ghost<Seq<&'a mut C::Task>>,
    ) -> (done: DoneJob<C>)
        requires
            plan.wf(),
            is_job(plan, self),
            holds(lent@, self),
            can_hand::<C>(plan, outputs@, owner, self.index),
        ensures
            executed(
                plan,
                self,
                done,
                handed::<C>(plan, outputs@, owner, self.index),
                |i: u16| *final(lent@[i as int]),
            ),
        decreases self, 0int,
    {
        let Job { index, borrow, owned } = self;
        let Borrow { task, turn } = borrow;
        let api: TaskExecApiImpl<'_, C> = TaskExecApiImpl { plan, outputs, owner, turn };
        let output = task.exec(&api);
        proof {
            assert forall|k: int|
                #![trigger owned@[k]]
                0 <= k < owned@.len() implies is_job(plan, owned@[k]) && holds(lent@, owned@[k])
                && can_hand::<C>(plan, outputs@, Some(&output), owned@[k].index) by {
                let child = owned@[k].index;
                assert(plan.owned_children(index as int).contains(child));
                plan.lemma_owned(index, child);
            }
        }
        let owned_done = join_owned_tasks(plan, outputs, owned, Some(&output), lent);
        DoneJob { index, output, owned: owned_done }
    }
}

/// Runs jobs in parallel: those that a task owns, with the output of that task,
/// or those whose parents have all been completed before.
fn join_owned_tasks<'a, C: Config>(
    plan: &Plan,
    outputs: &Vec<OutputSlot<C>>,
    jobs: Vec<Job<'a, C>>,
    owner: Option<&TaskOutput<C>>,
    lent: Ghost<Seq<&'a mut C::Task>>,
) -> (done: Vec<DoneJob<C>>)
    requires
        plan.wf(),
        all_ready::<C>(plan, outputs@, owner, jobs@, lent@),
    ensures
        all_executed::<C>(
            plan,
            outputs@,
            owner,
            jobs@,
            done@,
            |i: u16| *final(lent@[i as int]),
        ),
    decreases jobs@, 1int,
{
    let mut jobs = jobs;
    let len: usize = jobs.len();
    if len == 0 {
        return Vec::new();
    }
    let ghost before = jobs@;
    if len == 1 {
        let job = jobs.pop().unwrap();
        assert(before[0] == job);
        let mut done: Vec<DoneJob<C>> = vec_with_room(1);
        done.push(job.exec(plan, outputs, owner, lent));
        return done;
    }
    let right = jobs.split_off(len / 2);
    let left = jobs;
    let ghost left_before = left@;
    let ghost right_before = right@;
    proof {
        assert(left@ =~= before.take((len / 2) as int));
        assert(right@ =~= before.skip((len / 2) as int));
    }
    let run_left = move || -> (done: Vec<DoneJob<C>>)
        ensures
            all_executed::<C>(
                plan,
                outputs@,
                owner,
                left_before,
                done@,
                |i: u16| *final(lent@[i as int]),
            ),
        {
            let done = join_owned_tasks(plan, outputs, left, owner, lent);
            done
        };
    let run_right = move || -> (done: Vec<DoneJob<C>>)
        ensures
            all_executed::<C>(
                plan,
                outputs@,
                owner,
                right_before,
                done@,
                |i: u16| *final(lent@[i as int]),
            ),
        {
            let done = join_owned_tasks(plan, outputs, right, owner, lent);
            done
        };
    let (mut left_done, mut right_done) = rayon::join(run_left, run_right);
    let ghost left_after = left_done@;
    let ghost right_after = right_done@;
    left_done.append(&mut right_done);
    proof {
        assert(left_done@.take((len / 2) as int) =~= left_after);
        assert(left_done@.skip((len / 2) as int) =~= right_after);
        law_jobs_can_be_cut::<C>(
            plan,
            outputs@,
            owner,
            before,
            left_done@,
            |i: u16| *final(lent@[i as int]),
            (len / 2) as int,
        );
    }
    left_done
}

/// Runs in parallel the jobs of the tasks whose indexes make up a range, none of
/// which has a parent. On a range that ends before it starts nothing is done.
fn join_independent_tasks<'a, C: Config>(
    plan: &Plan,
    outputs: &Vec<OutputSlot<C>>,
    range: Range<usize>,
    jobs: Vec<Job<'a, C>>,
    lent: Ghost<Seq<&'a mut C::Task>>,
) -> (done: Vec<DoneJob<C>>)
    requires
        plan.wf(),
        all_ready::<C>(plan, outputs@, None, jobs@, lent@),
        make_up_range(jobs@, range.start as int, range.end as int),
    ensures
        all_executed::<C>(
            plan,
            outputs@,
            None,
            jobs@,
            done@,
            |i: u16| *final(lent@[i as int]),
        ),
    decreases range.end - range.start,
{
    let mut jobs = jobs;
    if range.start >= range.end {
        return Vec::new();
    }
    let len: usize = range.end - range.start;
    let ghost before = jobs@;
    if len == 1 {
        let job = jobs.pop().unwrap();
        assert(before[0] == job);
        let mut done: Vec<DoneJob<C>> = vec_with_room(1);
        done.push(job.exec(plan, outputs, None, lent));
        return done;
    }
    let (left_range, right_range) = range.split_at_half();
    let mid: usize = left_range.end - left_range.start;
    let right = jobs.split_off(mid);
    let left = jobs;
    let ghost left_before = left@;
    let ghost right_before = right@;
    proof {
        assert(left@ =~= before.take(mid as int));
        assert(right@ =~= before.skip(mid as int));
        law_ranges_can_be_cut::<C>(
            before,
            range.start as int,
            left_range.end as int,
            range.end as int,
        );
    }
    let run_left = move || -> (done: Vec<DoneJob<C>>)
        ensures
            all_executed::<C>(
                plan,
                outputs@,
                None,
                left_before,
                done@,
                |i: u16| *final(lent@[i as int]),
            ),
        {
            let done = join_independent_tasks(plan, outputs, left_range, left, lent);
            done
        };
    let run_right = move || -> (done: Vec<DoneJob<C>>)
        ensures
            all_executed::<C>(
                plan,
                outputs@,
                None,
                right_before,
                done@,
                |i: u16| *final(lent@[i as int]),
            ),
        {
            let done = join_independent_tasks(plan, outputs, right_range, right, lent);
            done
        };
    let (mut left_done, mut right_done) = rayon::join(run_left, run_right);
    let ghost left_after = left_done@;
    let ghost right_after = right_done@;
    left_done.append(&mut right_done);
    proof {
        assert(left_done@.take(mid as int) =~= left_after);
        assert(left_done@.skip(mid as int) =~= right_after);
        law_jobs_can_be_cut::<C>(
            plan,
            outputs@,
            None,
            before,
            left_done@,
            |i: u16| *final(lent@[i as int]),
            mid as int,
        );
    }
    left_done
}

/// Whether the indexes of the jobs are the numbers from `start` up to, but not
/// including, `end`, in order.
pub closed spec fn make_up_range<'a, C: Config>(
    jobs: Seq<Job<'a, C>>,
    start: int,
    end: int,
) -> bool {
    &&& jobs.len() == (if start < end {
        end - start
    } else {
        0
    })
    &&& forall|k: int|
        #![trigger jobs[k]]
        0 <= k < jobs.len() ==> jobs[k].index == start + k
}

/// Running a list of jobs is running a first part of it and the rest.
pub proof fn law_jobs_can_be_cut<'a, C: Config>(
    plan: &Plan,
    outputs: Seq<OutputSlot<C>>,
    owner: Option<&TaskOutput<C>>,
    jobs: Seq<Job<'a, C>>,
    done: Seq<DoneJob<C>>,
    after: spec_fn(u16) -> C::Task,
    mid: int,
)
    requires
        0 <= mid <= jobs.len(),
        done.len() == jobs.len(),
    ensures
        all_executed::<C>(plan, outputs, owner, jobs, done, after) <==> all_executed::<C>(
            plan,
            outputs,
            owner,
            jobs.take(mid),
            done.take(mid),
            after,
        ) && all_executed::<C>(plan, outputs, owner, jobs.skip(mid), done.skip(mid), after),
{
    if all_executed::<C>(plan, outputs, owner, jobs.take(mid), done.take(mid), after)
        && all_executed::<C>(plan, outputs, owner, jobs.skip(mid), done.skip(mid), after) {
        assert forall|k: int|
            #![trigger jobs[k]]
            #![trigger done[k]]
            0 <= k < jobs.len() implies executed(
            plan,
            jobs[k],
            done[k],
            handed::<C>(plan, outputs, owner, jobs[k].index),
            after,
        ) by {
            if k < mid {
                assert(jobs.take(mid)[k] == jobs[k] && done.take(mid)[k] == done[k]);
            } else {
                assert(jobs.skip(mid)[k - mid] == jobs[k] && done.skip(mid)[k - mid] == done[k]);
            }
        }
    }
}

/// The jobs of a range are those of a range up to some place and those of the range
/// from there on.
pub proof fn law_ranges_can_be_cut<'a, C: Config>(
    jobs: Seq<Job<'a, C>>,
    start: int,
    mid: int,
    end: int,
)
    requires
        start <= mid <= end,
        make_up_range(jobs, start, end),
    ensures
        make_up_range(jobs.take(mid - start), start, mid),
        make_up_range(jobs.skip(mid - start), mid, end),
{
}

/// Whether two jobs start with the same tasks.
pub closed spec fn same_start<'a, 'b, C: Config>(one: Job<'a, C>, other: Job<'b, C>) -> bool
    decreases one,
{
    &&& one.index == other.index
    &&& *one.borrow.task == *other.borrow.task
    &&& one.owned@.len() == other.owned@.len()
    &&& forall|k: int|
        #![trigger one.owned@[k]]
        #![trigger other.owned@[k]]
        0 <= k < one.owned@.len() ==> same_start(one.owned@[k], other.owned@[k])
}

/// Whether two ways to run a job come to the same: the same outputs, and the same
/// tasks afterwards.
pub closed spec fn same_outcome<C: Config>(
    one: DoneJob<C>,
    one_after: spec_fn(u16) -> C::Task,
    other: DoneJob<C>,
    other_after: spec_fn(u16) -> C::Task,
) -> bool
    decreases one,
{
    &&& one.index == other.index
    &&& one.output == other.output
    &&& one_after(one.index) == other_after(one.index)
    &&& one.owned@.len() == other.owned@.len()
    &&& forall|k: int|
        #![trigger one.owned@[k]]
        #![trigger other.owned@[k]]
        0 <= k < one.owned@.len() ==> same_outcome(
            one.owned@[k],
            one_after,
            other.owned@[k],
            other_after,
        )
}

/// A job that starts with the same tasks on the same data comes to the same, where
/// tasks are deterministic.
proof fn lemma_same_job<'a, 'b, C: Config>(
    plan: &Plan,
    data: Map<u16, TaskOutput<C>>,
    one: Job<'a, C>,
    one_done: DoneJob<C>,
    one_after: spec_fn(u16) -> C::Task,
    other: Job<'b, C>,
    other_done: DoneJob<C>,
    other_after: spec_fn(u16) -> C::Task,
)
    requires
        is_deterministic::<C>(),
        same_start(one, other),
        executed(plan, one, one_done, data, one_after),
        executed(plan, other, other_done, data, other_after),
    ensures
        same_outcome(one_done, one_after, other_done, other_after),
    decreases one,
{
    assert forall|k: int|
        #![trigger one_done.owned@[k]]
        #![trigger other_done.owned@[k]]
        0 <= k < one_done.owned@.len() implies same_outcome(
        one_done.owned@[k],
        one_after,
        other_done.owned@[k],
        other_after,
    ) by {
        assert(same_start(one.owned@[k], other.owned@[k]));
        lemma_same_job(
            plan,
            output_of_owner::<C>(plan, one_done.output, one.owned@[k].index),
            one.owned@[k],
            one_done.owned@[k],
            one_after,
            other.owned@[k],
            other_done.owned@[k],
            other_after,
        );
    }
}

/// What comes of a job does not depend on the list that it runs in, nor on its place
/// there: where tasks are deterministic, a job that starts with the same tasks and is
/// handed the same outputs comes to the same in any two lists, be one a permutation or
/// a part of the other.
pub proof fn law_jobs_run_in_any_order<'a, 'b, C: Config>(
    plan: &Plan,
    outputs: Seq<OutputSlot<C>>,
    owner: Option<&TaskOutput<C>>,
    jobs: Seq<Job<'a, C>>,
    done: Seq<DoneJob<C>>,
    after: spec_fn(u16) -> C::Task,
    other_outputs: Seq<OutputSlot<C>>,
    other_jobs: Seq<Job<'b, C>>,
    other_done: Seq<DoneJob<C>>,
    other_after: spec_fn(u16) -> C::Task,
)
    requires
        is_deterministic::<C>(),
        all_executed::<C>(plan, outputs, owner, jobs, done, after),
        all_executed::<C>(plan, other_outputs, owner, other_jobs, other_done, other_after),
    ensures
        forall|i: int, j: int|
            0 <= i < jobs.len() && 0 <= j < other_jobs.len() && #[trigger] same_start(
                jobs[i],
                other_jobs[j],
            ) && job_data::<C>(plan, outputs, owner, jobs[i]) == job_data::<C>(
                plan,
                other_outputs,
                owner,
                other_jobs[j],
            ) ==> same_outcome(done[i], after, other_done[j], other_after),
{
    assert forall|i: int, j: int|
        0 <= i < jobs.len() && 0 <= j < other_jobs.len() && #[trigger] same_start(
            jobs[i],
            other_jobs[j],
        ) && job_data::<C>(plan, outputs, owner, jobs[i]) == job_data::<C>(
            plan,
            other_outputs,
            owner,
            other_jobs[j],
        ) implies same_outcome(done[i], after, other_done[j], other_after) by {
        lemma_same_job(
            plan,
            job_data::<C>(plan, outputs, owner, jobs[i]),
            jobs[i],
            done[i],
            after,
            other_jobs[j],
            other_done[j],
            other_after,
        );
    }
}

/// The outputs that the task of a job is handed.
pub closed spec fn job_data<'a, C: Config>(
    plan: &Plan,
    outputs: Seq<OutputSlot<C>>,
    owner: Option<&TaskOutput<C>>,
    job: Job<'a, C>,
) -> Map<u16, TaskOutput<C>> {
    handed::<C>(plan, outputs, owner, job.index)
}

/// Whether each of the given tasks reads its parents only.
pub open spec fn reads_parents<C: Config>(plan: &Plan, tasks: Seq<C::Task>) -> bool {
    forall|i: int, parent: u16|
        #![trigger tasks[i].reads().contains(parent)]
        0 <= i < tasks.len() && tasks[i].reads().contains(parent) ==> plan.parents(i).contains(
            parent,
        )
}

/// The tasks that are borrowed, as they are when the borrows are made.
spec fn lent_tasks<'a, C: Config>(lent: Seq<&'a mut C::Task>) -> Seq<C::Task> {
    Seq::new(lent.len(), |i: int| *lent[i])
}

/// Takes the borrow of a task, and those of the tasks in the tree below it.
fn take_job<'a, C: Config>(
    plan: &Plan,
    borrows: &mut Vec<Option<Borrow<'a, C>>>,
    index: u16,
    lent: Ghost<Seq<&'a mut C::Task>>,
) -> (job: Job<'a, C>)
    requires
        plan.wf(),
        index < plan.len(),
        old(borrows)@.len() == plan.len(),
        lent@.len() == plan.len(),
        reads_parents::<C>(plan, lent_tasks::<C>(lent@)),
        forall|j: u16| #[trigger]
            plan.under(j, index) && j < plan.len() ==> lends(
                old(borrows)@[j as int],
                lent@[j as int],
                j,
            ),
    ensures
        job.index == index,
        is_job(plan, job),
        holds(lent@, job),
        final(borrows)@.len() == plan.len(),
        forall|j: u16|
            #![trigger final(borrows)@[j as int]]
            j < plan.len() ==> final(borrows)@[j as int] == (if plan.under(j, index) {
                None
            } else {
                old(borrows)@[j as int]
            }),
    decreases plan.len() - index,
{
    assert(plan.under(index, index));
    let ghost before = borrows@;
    let borrow = borrows[index as usize].take();
    let children = plan.owned(index);
    proof {
        assert forall|k: int| 0 <= k < children@.len() implies (#[trigger] children@[k])
            < plan.len() by {
            assert(children@.contains(children@[k]));
            plan.lemma_owned(index, children@[k]);
        }
        assert forall|i: int, k: int|
            0 <= i < children@.len() && 0 <= k < children@.len() && i != k implies children@[i]
            != children@[k] by {
            if i < k {
                assert(children@[i] < children@[k]);
            } else {
                assert(children@[k] < children@[i]);
            }
        }
        lemma_numbers_below(children@, plan.len());
    }
    let mut owned: Vec<Job<'a, C>> = vec_with_room(children.len());
    for k in 0..children.len()
        invariant
            plan.wf(),
            index < plan.len(),
            children@ == plan.owned_children(index as int),
            lent@.len() == plan.len(),
            reads_parents::<C>(plan, lent_tasks::<C>(lent@)),
            before.len() == plan.len(),
            forall|j: u16| #[trigger]
                plan.under(j, index) && j < plan.len() ==> lends(
                    before[j as int],
                    lent@[j as int],
                    j,
                ),
            borrows@.len() == plan.len(),
            owned@.len() == k,
            forall|i: int|
                #![trigger owned@[i]]
                0 <= i < k ==> owned@[i].index == children@[i] && is_job(plan, owned@[i]) && holds(
                    lent@,
                    owned@[i],
                ),
            forall|j: u16|
                #![trigger borrows@[j as int]]
                j < plan.len() ==> borrows@[j as int] == (if j == index || under_any(
                    plan,
                    j,
                    children@.take(k as int),
                ) {
                    None
                } else {
                    before[j as int]
                }),
    {
        let child: u16 = children[k];
        proof {
            assert(children@.contains(child));
            plan.lemma_owned(index, child);
            assert forall|j: u16| #[trigger] plan.under(j, child) && j < plan.len() implies
                lends(borrows@[j as int], lent@[j as int], j) by {
                plan.lemma_under_owner(j, child, index);
                if under_any(plan, j, children@.take(k as int)) {
                    let i = choose|i: int|
                        0 <= i < k && plan.under(j, #[trigger] children@.take(k as int)[i]);
                    assert(children@.contains(children@[i]));
                    plan.lemma_siblings_disjoint(j, index, child, children@[i]);
                    assert(children@[i] < children@[k as int]);
                }
            }
            lemma_under_one_more(plan, children@, k as int);
        }
        owned.push(take_job::<C>(plan, borrows, child, lent));
    }
    proof {
        assert(children@.take(children@.len() as int) =~= children@);
        assert forall|j: u16| j < plan.len() implies plan.under(j, index) == (j == index
            || under_any(plan, j, children@)) by {
            lemma_under_any_child(plan, j, index);
        }
        assert forall|parent: u16| #[trigger] lent@[index as int].reads().contains(parent) implies
            plan.parents(index as int).contains(parent) by {
            assert(lent_tasks::<C>(lent@)[index as int].reads().contains(parent));
        }
    }
    Job { index, borrow: borrow.unwrap(), owned }
}

/// Whether a task lies in the tree below one of several heads.
pub open spec fn under_any(plan: &Plan, index: u16, heads: Seq<u16>) -> bool {
    exists|i: int| 0 <= i < heads.len() && plan.under(index, #[trigger] heads[i])
}

/// The trees below one more head.
proof fn lemma_under_one_more(plan: &Plan, heads: Seq<u16>, k: int)
    requires
        0 <= k < heads.len(),
    ensures
        forall|j: u16| #[trigger]
            under_any(plan, j, heads.take(k + 1)) <==> under_any(plan, j, heads.take(k))
                || plan.under(j, heads[k]),
{
    assert forall|j: u16| #[trigger] under_any(plan, j, heads.take(k + 1)) <==> under_any(
        plan,
        j,
        heads.take(k),
    ) || plan.under(j, heads[k]) by {
        if under_any(plan, j, heads.take(k + 1)) {
            let i = choose|i: int|
                0 <= i < k + 1 && plan.under(j, #[trigger] heads.take(k + 1)[i]);
            if i < k {
                assert(heads.take(k)[i] == heads.take(k + 1)[i]);
            }
        }
        if under_any(plan, j, heads.take(k)) {
            let i = choose|i: int| 0 <= i < k && plan.under(j, #[trigger] heads.take(k)[i]);
            assert(heads.take(k + 1)[i] == heads.take(k)[i]);
        }
        if plan.under(j, heads[k]) {
            assert(heads.take(k + 1)[k] == heads[k]);
        }
    }
}

/// The tree below a task is made of the task and of the trees below its owned
/// children.
proof fn lemma_under_any_child(plan: &Plan, index: u16, head: u16)
    requires
        plan.wf(),
        index < plan.len(),
        head < plan.len(),
    ensures
        plan.under(index, head) <==> index == head || under_any(
            plan,
            index,
            plan.owned_children(head as int),
        ),
{
    let children = plan.owned_children(head as int);
    if plan.under(index, head) && index != head {
        let child = plan.lemma_under_child(index, head);
        let i = choose|i: int| 0 <= i < children.len() && children[i] == child;
        assert(plan.under(index, children[i]));
    }
    if under_any(plan, index, children) {
        let i = choose|i: int| 0 <= i < children.len() && plan.under(index, #[trigger] children[i]);
        assert(children.contains(children[i]));
        plan.lemma_under_owner(index, children[i], head);
    }
}

/// Whether a task has run on the outputs that lie in the slots of its parents, and
/// its own slot holds its output.
spec fn ran<'a, C: Config>(
    plan: &Plan,
    outputs: Seq<OutputSlot<C>>,
    lent: Seq<&'a mut C::Task>,
    after: spec_fn(u16) -> C::Task,
    index: u16,
) -> bool {
    &&& outputs[index as int]@ is Some
    &&& C::Task::runs(
        *lent[index as int],
        outputs_of_parents::<C>(plan, outputs, index),
        after(index),
        outputs[index as int]@->0,
    )
    &&& after(index).reads().subset_of(lent[index as int].reads())
}

/// Whether the counters are what they have to be when the tasks in `done` have
/// finished: a shared task that has not finished waits for those of its parents that
/// have not, and every other task has a full counter.
pub open spec fn counters_fit(plan: &Plan, parents_left: Seq<u16>, done: Set<u16>) -> bool {
    &&& parents_left.len() == plan.len()
    &&& forall|j: u16|
        #![trigger parents_left[j as int]]
        j < plan.len() ==> parents_left[j as int] == (if plan.parents_total(j as int) > 1
            && !done.contains(j) {
            plan.missing(j, done)
        } else {
            plan.parents_total(j as int) as nat
        })
}

/// How far an execution has come that has borrowed the given tasks: those in `done`
/// have run, and `after` says what has become of them.
spec fn progress<'a, C: Config>(
    plan: &Plan,
    outputs: Seq<OutputSlot<C>>,
    parents_left: Seq<u16>,
    lent: Seq<&'a mut C::Task>,
    after: spec_fn(u16) -> C::Task,
    done: Set<u16>,
) -> bool {
    &&& lent.len() == plan.len()
    &&& reads_parents::<C>(plan, lent_tasks::<C>(lent))
    &&& outputs.len() == plan.len()
    &&& counters_fit(plan, parents_left, done)
    &&& forall|j: u16| #[trigger]
        done.contains(j) ==> j < plan.len() && ran::<C>(plan, outputs, lent, after, j)
            && plan.missing(j, done) == 0
}

/// Whether the promoted tasks are those shared tasks that are ready now and were
/// not yet in the current round.
pub open spec fn promotes(
    plan: &Plan,
    done: Set<u16>,
    round: Set<u16>,
    promoted: Seq<u16>,
) -> bool {
    &&& promoted.no_duplicates()
    &&& forall|j: u16| #[trigger]
        promoted.contains(j) <==> j < plan.len() && plan.parents_total(j as int) > 1
            && !done.contains(j) && !round.contains(j) && plan.missing(j, done) == 0
}

/// A shared task is promoted when the last of its parents finishes, in whatever
/// order they finish, and it is promoted once.
///
/// `finished` are the indexes of the tasks that finish in a round, in their order,
/// after those in `done` have; `promoted` are the tasks that are promoted after each
/// number of them.
pub proof fn law_last_parent_promotes(
    plan: Plan,
    child: u16,
    done: Seq<u16>,
    finished: Seq<u16>,
    round: Set<u16>,
    promoted: Seq<Seq<u16>>,
) -> (last: int)
    requires
        plan.wf(),
        child < plan.len(),
        plan.parents_total(child as int) > 1,
        (done + finished).no_duplicates(),
        forall|k: int|
            0 <= k < (done + finished).len() ==> (#[trigger] (done + finished)[k]) < plan.len(),
        forall|parent: u16| #[trigger]
            plan.parents(child as int).contains(parent) ==> (done + finished).contains(
                plan.index(parent),
            ),
        plan.missing(child, done.to_set()) > 0,
        !(done + finished).contains(child),
        !round.contains(child),
        promoted.len() == finished.len() + 1,
        forall|k: int|
            0 <= k <= finished.len() ==> promotes(
                &plan,
                (done + finished).take(done.len() + k).to_set(),
                round,
                #[trigger] promoted[k],
            ),
    ensures
        0 <= last < finished.len(),
        plan.parents(child as int).contains(plan.order()[finished[last] as int]),
        forall|parent: u16| #[trigger]
            plan.parents(child as int).contains(parent) ==> (done + finished.take(
                last + 1,
            )).contains(plan.index(parent)),
        forall|k: int|
            0 <= k <= finished.len() ==> (#[trigger] promoted[k].contains(child) <==> k > last),
        forall|k: int| 0 <= k <= finished.len() ==> (#[trigger] promoted[k]).no_duplicates(),
{
    let all = done + finished;
    assert(plan.parents_total(child as int) == plan.parents(child as int).len());
    let place = law_one_parent_is_last(plan, child, all);
    let last = place - done.len();
    assert(all.take(done.len() as int) =~= done);
    assert(finished[last] == all[place]);
    assert forall|k: int| 0 <= k <= finished.len() implies (#[trigger] promoted[k].contains(child)
        <==> k > last) by {
        let some = all.take(done.len() + k);
        if some.to_set().contains(child) {
            let i = choose|i: int| 0 <= i < some.len() && some[i] == child;
            assert(all[i] == child);
        }
        assert(plan.missing(child, all.take(done.len() + k).to_set()) == 0 <==> done.len() + k
            > place);
    }
    assert(all.take(place + 1) =~= done + finished.take(last + 1));
    plan.lemma_missing(child, all.take(place + 1).to_set());
    assert forall|parent: u16| #[trigger] plan.parents(child as int).contains(parent) implies (done
        + finished.take(last + 1)).contains(plan.index(parent)) by {
        assert(all.take(place + 1).to_set().contains(plan.index(parent)));
    }
    last
}

/// Publishes the output of a task that has run, and counts down the children that
/// it shares with other parents.
fn finish_task<'a, C: Config>(
    plan: &Plan,
    outputs: &mut Vec<OutputSlot<C>>,
    parents_left: &mut Vec<u16>,
    index: u16,
    output: TaskOutput<C>,
    promoted: &mut Vec<u16>,
    lent: Ghost<Seq<&'a mut C::Task>>,
    done: Ghost<Set<u16>>,
    round: Ghost<Set<u16>>,
)
    requires
        plan.wf(),
        index < plan.len(),
        progress::<C>(
            plan,
            old(outputs)@,
            old(parents_left)@,
            lent@,
            |i: u16| *final(lent@[i as int]),
            done@,
        ),
        !done@.contains(index),
        plan.missing(index, done@) == 0,
        C::Task::runs(
            *lent@[index as int],
            outputs_of_parents::<C>(plan, old(outputs)@, index),
            *final(lent@[index as int]),
            output,
        ),
        final(lent@[index as int]).reads().subset_of(lent@[index as int].reads()),
        promotes(plan, done@, round@, old(promoted)@),
        forall|j: u16| #[trigger] round@.contains(j) ==> plan.missing(j, done@) == 0,
        plan.parents_total(index as int) > 1 ==> round@.contains(index),
    ensures
        progress::<C>(
            plan,
            final(outputs)@,
            final(parents_left)@,
            lent@,
            |i: u16| *final(lent@[i as int]),
            done@.insert(index),
        ),
        promotes(plan, done@.insert(index), round@, final(promoted)@),
        forall|j: u16|
            #![trigger final(outputs)@[j as int]]
            j < plan.len() && j != index ==> final(outputs)@[j as int] == old(
                outputs,
            )@[j as int],
        final(outputs)@[index as int]@ == Some(output),
{
    let ghost done_now = done@.insert(index);
    let ghost outputs_before = outputs@;
    let children = plan.shared(index);
    proof {
        assert forall|j: u16| #[trigger] children@.contains(j) implies j < plan.len()
            && plan.parents_total(j as int) > 1 && !done@.contains(j) && plan.missing(j, done@)
            > 0 by {
            plan.lemma_shared(index, j);
            plan.lemma_one_more_done(j, done@, index);
        }
        assert forall|k: int| 0 <= k < children@.len() implies (#[trigger] children@[k])
            < plan.len() && parents_left@[children@[k] as int] > 0 by {
            assert(children@.contains(children@[k]));
        }
    }
    outputs[index as usize].replace(Some(output));
    let ghost left_before = parents_left@;
    count_down(parents_left, children, promoted);
    let total: u16 = plan.total(index);
    parents_left.set(index as usize, total);
    proof {
        assert forall|j: u16| #[trigger] done_now.contains(j) implies j < plan.len() && ran::<C>(
            plan,
            outputs@,
            lent@,
            |i: u16| *final(lent@[i as int]),
            j,
        ) && plan.missing(j, done_now) == 0 by {
            plan.lemma_missing(j, done@);
            plan.lemma_one_more_done(j, done@, index);
            assert forall|parent: u16| #[trigger] plan.parents(j as int).contains(
                parent,
            ) implies outputs@[plan.index(parent) as int] == outputs_before[plan.index(
                parent,
            ) as int] by {
                plan.lemma_parent(j, parent);
            }
            assert(outputs_of_parents::<C>(plan, outputs@, j) =~= outputs_of_parents::<C>(
                plan,
                outputs_before,
                j,
            ));
            if j != index {
                assert(ran::<C>(
                    plan,
                    outputs_before,
                    lent@,
                    |i: u16| *final(lent@[i as int]),
                    j,
                ));
            }
        }
        assert forall|j: u16|
            #![trigger parents_left@[j as int]]
            j < plan.len() implies parents_left@[j as int] == (if plan.parents_total(j as int) > 1
            && !done_now.contains(j) {
            plan.missing(j, done_now)
        } else {
            plan.parents_total(j as int) as nat
        }) by {
            plan.lemma_shared(index, j);
            plan.lemma_one_more_done(j, done@, index);
            if children@.contains(j) {
                assert(j != index) by {
                    if j == index {
                        plan.lemma_parent(j, plan.order()[index as int]);
                    }
                }
            }
        }
        let last_parent = |child: u16| left_before[child as int] == 1;
        lemma_filter(children@, last_parent);
        let gained = children@.filter(last_parent);
        assert forall|j: u16| #[trigger] promoted@.contains(j) <==> j < plan.len()
            && plan.parents_total(j as int) > 1 && !done_now.contains(j) && !round@.contains(j)
            && plan.missing(j, done_now) == 0 by {
            vstd::seq_lib::lemma_seq_concat_contains_all_elements(old(promoted)@, gained, j);
            if j < plan.len() {
                plan.lemma_shared(index, j);
                plan.lemma_one_more_done(j, done@, index);
            }
        }
        assert(promoted@.no_duplicates()) by {
            let earlier = old(promoted)@;
            assert forall|i: int, k: int|
                0 <= i < earlier.len() && 0 <= k < gained.len() implies earlier[i] != gained[k] by {
                assert(earlier.contains(earlier[i]));
                assert(gained.contains(gained[k]));
            }
            vstd::seq_lib::lemma_no_dup_in_concat(earlier, gained);
        }
    }
}

/// A set of tasks with the tree below a head added to it.
spec fn with_tree(plan: &Plan, set: Set<u16>, head: u16) -> Set<u16> {
    Set::new(|j: u16| set.contains(j) || (j < plan.len() && plan.under(j, head)))
}

/// A task that misses no parent misses none when more tasks are done.
proof fn lemma_missing_monotone(plan: &Plan, index: u16, done: Set<u16>, more: Set<u16>)
    requires
        plan.wf(),
        index < plan.len(),
        done.subset_of(more),
        plan.missing(index, done) == 0,
    ensures
        plan.missing(index, more) == 0,
{
    plan.lemma_missing(index, done);
    plan.lemma_missing(index, more);
}

/// Whether a job that has run carries an output for the task with the given index.
pub closed spec fn carries<C: Config>(job: DoneJob<C>, index: u16, output: TaskOutput<C>) -> bool
    decreases job,
{
    ||| job.index == index && job.output == output
    ||| exists|k: int|
        0 <= k < job.owned@.len() && carries(#[trigger] job.owned@[k], index, output)
}

/// Whether a job that has run carries outputs for the tasks in the tree below a head,
/// and for no others.
pub open spec fn carries_tree<C: Config>(plan: &Plan, job: DoneJob<C>, head: u16) -> bool {
    &&& forall|j: u16, output: TaskOutput<C>| #[trigger]
        carries(job, j, output) ==> j < plan.len() && plan.under(j, head)
    &&& forall|j: u16|
        j < plan.len() && #[trigger] plan.under(j, head) ==> exists|output: TaskOutput<C>|
            carries(job, j, output)
}

/// What comes of a job carries the outputs of the tasks in its tree.
proof fn lemma_carries<'a, C: Config>(
    plan: &Plan,
    job: Job<'a, C>,
    done: DoneJob<C>,
    data: Map<u16, TaskOutput<C>>,
    after: spec_fn(u16) -> C::Task,
)
    requires
        plan.wf(),
        is_job(plan, job),
        executed(plan, job, done, data, after),
    ensures
        carries_tree(plan, done, job.index),
    decreases job,
{
    let children = plan.owned_children(job.index as int);
    assert forall|k: int| 0 <= k < job.owned@.len() implies carries_tree(
        plan,
        #[trigger] done.owned@[k],
        children[k],
    ) by {
        assert(job.owned@[k].index == children[k]);
        lemma_carries(
            plan,
            job.owned@[k],
            done.owned@[k],
            output_of_owner::<C>(plan, done.output, job.owned@[k].index),
            after,
        );
    }
    assert forall|j: u16, output: TaskOutput<C>| #[trigger] carries(done, j, output) implies j
        < plan.len() && plan.under(j, job.index) by {
        if !(done.index == j && done.output == output) {
            let k = choose|k: int|
                0 <= k < done.owned@.len() && carries(#[trigger] done.owned@[k], j, output);
            assert(carries_tree(plan, done.owned@[k], children[k]));
            assert(children.contains(children[k]));
            plan.lemma_under_owner(j, children[k], job.index);
        }
    }
    assert forall|j: u16| j < plan.len() && #[trigger] plan.under(j, job.index) implies exists|
        output: TaskOutput<C>,
    |
        carries(done, j, output) by {
        if j == job.index {
            assert(carries(done, j, done.output));
        } else {
            let child = plan.lemma_under_child(j, job.index);
            let k = choose|k: int| 0 <= k < children.len() && children[k] == child;
            assert(carries_tree(plan, done.owned@[k], children[k]));
            let output = choose|output: TaskOutput<C>| carries(done.owned@[k], j, output);
            assert(carries(done, j, output));
        }
    }
}

/// Jobs that come to the same carry the same outputs.
proof fn lemma_same_outputs<C: Config>(
    one: DoneJob<C>,
    one_after: spec_fn(u16) -> C::Task,
    other: DoneJob<C>,
    other_after: spec_fn(u16) -> C::Task,
    index: u16,
    output: TaskOutput<C>,
)
    requires
        same_outcome(one, one_after, other, other_after),
        carries(one, index, output),
    ensures
        carries(other, index, output),
    decreases one,
{
    if !(one.index == index && one.output == output) {
        let k = choose|k: int|
            0 <= k < one.owned@.len() && carries(#[trigger] one.owned@[k], index, output);
        lemma_same_outputs(
            one.owned@[k],
            one_after,
            other.owned@[k],
            other_after,
            index,
            output,
        );
        assert(carries(other.owned@[k], index, output));
    }
}

/// Whether the slots `after` are the slots `before` with the outputs of the jobs with
/// these heads put into them.
pub open spec fn published<C: Config>(
    plan: &Plan,
    before: Seq<OutputSlot<C>>,
    heads: Seq<u16>,
    jobs: Seq<DoneJob<C>>,
    after: Seq<OutputSlot<C>>,
) -> bool {
    &&& before.len() == plan.len()
    &&& after.len() == plan.len()
    &&& jobs.len() == heads.len()
    &&& forall|i: int|
        #![trigger jobs[i]]
        0 <= i < jobs.len() ==> carries_tree(plan, jobs[i], heads[i])
    &&& forall|i: int, j: u16, output: TaskOutput<C>|
        0 <= i < jobs.len() && #[trigger] carries(jobs[i], j, output) ==> after[j as int]@ == Some(
            output,
        )
    &&& forall|j: u16|
        #![trigger after[j as int]]
        j < plan.len() && !under_any(plan, j, heads) ==> after[j as int] == before[j as int]
}

/// Whether finishing jobs with these heads, after the tasks in `done` have finished,
/// leaves the given slots and counters.
pub open spec fn round_finished<C: Config>(
    plan: &Plan,
    done: Set<u16>,
    before: Seq<OutputSlot<C>>,
    heads: Seq<u16>,
    jobs: Seq<DoneJob<C>>,
    after: Seq<OutputSlot<C>>,
    parents_left: Seq<u16>,
) -> bool {
    &&& published::<C>(plan, before, heads, jobs, after)
    &&& counters_fit(plan, parents_left, done.union(trees(plan, heads)))
}

/// Whether no parent owns any of the heads, and none occurs twice.
pub open spec fn are_heads(plan: &Plan, heads: Seq<u16>) -> bool {
    &&& heads.no_duplicates()
    &&& forall|i: int|
        #![trigger heads[i]]
        0 <= i < heads.len() ==> heads[i] < plan.len() && plan.parents_total(heads[i] as int) != 1
}

/// The trees below the heads of two lists are those below the heads of one list and
/// those below the heads of the other.
proof fn lemma_trees_of_two(plan: &Plan, heads: Seq<u16>, more: Seq<u16>)
    ensures
        forall|j: u16| #[trigger]
            under_any(plan, j, heads + more) <==> under_any(plan, j, heads) || under_any(
                plan,
                j,
                more,
            ),
        trees(plan, heads + more) == trees(plan, heads).union(trees(plan, more)),
{
    let all = heads + more;
    assert forall|j: u16| #[trigger] under_any(plan, j, all) <==> under_any(plan, j, heads)
        || under_any(plan, j, more) by {
        if under_any(plan, j, all) {
            let i = choose|i: int| 0 <= i < all.len() && plan.under(j, #[trigger] all[i]);
            if i < heads.len() {
                assert(plan.under(j, heads[i]));
            } else {
                assert(plan.under(j, more[i - heads.len()]));
            }
        }
        if under_any(plan, j, heads) {
            let i = choose|i: int| 0 <= i < heads.len() && plan.under(j, #[trigger] heads[i]);
            assert(plan.under(j, all[i]));
        }
        if under_any(plan, j, more) {
            let i = choose|i: int| 0 <= i < more.len() && plan.under(j, #[trigger] more[i]);
            assert(plan.under(j, all[heads.len() + i]));
        }
    }
    assert(trees(plan, all) =~= trees(plan, heads).union(trees(plan, more)));
}

/// Finishing a part of the jobs of a list, and then the others, leaves the slots and
/// the counters that finishing all of them at once leaves.
pub proof fn law_finishing_can_be_cut<C: Config>(
    plan: &Plan,
    done: Set<u16>,
    start: Seq<OutputSlot<C>>,
    heads: Seq<u16>,
    jobs: Seq<DoneJob<C>>,
    between: Seq<OutputSlot<C>>,
    more_heads: Seq<u16>,
    more_jobs: Seq<DoneJob<C>>,
    end: Seq<OutputSlot<C>>,
    parents_left: Seq<u16>,
)
    requires
        plan.wf(),
        are_heads(plan, heads + more_heads),
        published::<C>(plan, start, heads, jobs, between),
        round_finished::<C>(
            plan,
            done.union(trees(plan, heads)),
            between,
            more_heads,
            more_jobs,
            end,
            parents_left,
        ),
    ensures
        round_finished::<C>(
            plan,
            done,
            start,
            heads + more_heads,
            jobs + more_jobs,
            end,
            parents_left,
        ),
{
    let all = heads + more_heads;
    let all_jobs = jobs + more_jobs;
    lemma_trees_of_two(plan, heads, more_heads);
    assert(done.union(trees(plan, heads)).union(trees(plan, more_heads)) =~= done.union(
        trees(plan, all),
    ));
    assert forall|i: int|
        #![trigger all_jobs[i]]
        0 <= i < all_jobs.len() implies carries_tree(plan, all_jobs[i], all[i]) by {
        if i < jobs.len() {
            assert(carries_tree(plan, jobs[i], heads[i]));
        } else {
            assert(carries_tree(plan, more_jobs[i - jobs.len()], more_heads[i - jobs.len()]));
        }
    }
    assert forall|i: int, j: u16, output: TaskOutput<C>|
        0 <= i < all_jobs.len() && #[trigger] carries(
            all_jobs[i],
            j,
            output,
        ) implies end[j as int]@ == Some(output) by {
        assert(carries_tree(plan, all_jobs[i], all[i]));
        if i < jobs.len() {
            assert(carries(jobs[i], j, output));
            if under_any(plan, j, more_heads) {
                let k = choose|k: int|
                    0 <= k < more_heads.len() && plan.under(j, #[trigger] more_heads[k]);
                assert(all[heads.len() + k] == more_heads[k]);
                plan.lemma_heads_disjoint(j, all[i], all[heads.len() + k]);
            }
            assert(end[j as int] == between[j as int]);
        } else {
            assert(carries(more_jobs[i - jobs.len()], j, output));
        }
    }
    assert forall|j: u16|
        #![trigger end[j as int]]
        j < plan.len() && !under_any(plan, j, all) implies end[j as int] == start[j as int] by {
        assert(between[j as int] == start[j as int]);
    }
}

/// The slots and the counters after a round depend on which jobs ran and on what came
/// of them, not on their order.
pub proof fn law_finishing_in_any_order<C: Config>(
    plan: &Plan,
    done: Set<u16>,
    start: Seq<OutputSlot<C>>,
    heads: Seq<u16>,
    jobs: Seq<DoneJob<C>>,
    after: spec_fn(u16) -> C::Task,
    end: Seq<OutputSlot<C>>,
    parents_left: Seq<u16>,
    other_heads: Seq<u16>,
    other_jobs: Seq<DoneJob<C>>,
    other_after: spec_fn(u16) -> C::Task,
    other_end: Seq<OutputSlot<C>>,
    other_parents_left: Seq<u16>,
)
    requires
        plan.wf(),
        heads.to_set() == other_heads.to_set(),
        round_finished::<C>(plan, done, start, heads, jobs, end, parents_left),
        round_finished::<C>(
            plan,
            done,
            start,
            other_heads,
            other_jobs,
            other_end,
            other_parents_left,
        ),
        forall|i: int, k: int|
            #![trigger jobs[i], other_jobs[k]]
            0 <= i < jobs.len() && 0 <= k < other_jobs.len() && heads[i] == other_heads[k]
                ==> same_outcome(jobs[i], after, other_jobs[k], other_after),
    ensures
        forall|j: u16|
            #![trigger end[j as int]]
            #![trigger other_end[j as int]]
            j < plan.len() ==> other_end[j as int]@ == end[j as int]@,
        other_parents_left == parents_left,
{
    assert forall|j: u16| #[trigger] under_any(plan, j, heads) <==> under_any(
        plan,
        j,
        other_heads,
    ) by {
        if under_any(plan, j, heads) {
            let i = choose|i: int| 0 <= i < heads.len() && plan.under(j, #[trigger] heads[i]);
            let k = lemma_same_head(heads, other_heads, i);
            assert(plan.under(j, other_heads[k]));
        }
        if under_any(plan, j, other_heads) {
            let i = choose|i: int|
                0 <= i < other_heads.len() && plan.under(j, #[trigger] other_heads[i]);
            let k = lemma_same_head(other_heads, heads, i);
            assert(plan.under(j, heads[k]));
        }
    }
    assert(trees(plan, heads) =~= trees(plan, other_heads));
    assert forall|i: int| 0 <= i < plan.len() implies other_parents_left[i]
        == parents_left[i] by {
        assert(parents_left[(i as u16) as int] == parents_left[i]);
        assert(other_parents_left[(i as u16) as int] == other_parents_left[i]);
    }
    assert(other_parents_left =~= parents_left);
    assert forall|j: u16|
        #![trigger end[j as int]]
        #![trigger other_end[j as int]]
        j < plan.len() implies other_end[j as int]@ == end[j as int]@ by {
        if under_any(plan, j, heads) {
            let i = choose|i: int| 0 <= i < heads.len() && plan.under(j, #[trigger] heads[i]);
            let k = lemma_same_head(heads, other_heads, i);
            assert(carries_tree(plan, jobs[i], heads[i]));
            let output = choose|output: TaskOutput<C>| carries(jobs[i], j, output);
            assert(same_outcome(jobs[i], after, other_jobs[k], other_after));
            lemma_same_outputs(jobs[i], after, other_jobs[k], other_after, j, output);
        }
    }
}

/// A head of one list is a head of another with the same heads.
proof fn lemma_same_head(heads: Seq<u16>, other_heads: Seq<u16>, i: int) -> (k: int)
    requires
        heads.to_set() == other_heads.to_set(),
        0 <= i < heads.len(),
    ensures
        0 <= k < other_heads.len(),
        other_heads[k] == heads[i],
{
    assert(heads.to_set().contains(heads[i]));
    assert(other_heads.to_set().contains(heads[i]));
    choose|k: int| 0 <= k < other_heads.len() && other_heads[k] == heads[i]
}

/// Where tasks are deterministic, it comes to the same whether jobs run as one list, or
/// as two lists one after the other whose heads are together the same, in any order:
/// the same outputs in the slots, the same counters, and the same tasks afterwards.
///
/// All heads are ready when the first list starts. `whole` is run and finished on the
/// one hand, `part` and then `rest` on the other; each job of a part starts with the
/// tasks that the job of the whole with the same head starts with.
pub proof fn law_lists_of_jobs_leave_the_same<'a, 'b, C: Config>(
    plan: &Plan,
    done: Set<u16>,
    start: Seq<OutputSlot<C>>,
    whole_heads: Seq<u16>,
    whole: Seq<Job<'a, C>>,
    whole_done: Seq<DoneJob<C>>,
    whole_after: spec_fn(u16) -> C::Task,
    whole_end: Seq<OutputSlot<C>>,
    whole_left: Seq<u16>,
    part_heads: Seq<u16>,
    part: Seq<Job<'b, C>>,
    part_done: Seq<DoneJob<C>>,
    between: Seq<OutputSlot<C>>,
    rest_heads: Seq<u16>,
    rest: Seq<Job<'b, C>>,
    rest_done: Seq<DoneJob<C>>,
    parts_after: spec_fn(u16) -> C::Task,
    parts_end: Seq<OutputSlot<C>>,
    parts_left: Seq<u16>,
)
    requires
        plan.wf(),
        is_deterministic::<C>(),
        are_heads(plan, part_heads + rest_heads),
        whole_heads.to_set() == (part_heads + rest_heads).to_set(),
        forall|i: int|
            #![trigger (part_heads + rest_heads)[i]]
            0 <= i < (part_heads + rest_heads).len() ==> plan.missing(
                (part_heads + rest_heads)[i],
                done,
            ) == 0,
        forall|j: u16| #[trigger] done.contains(j) ==> !trees(plan, part_heads).contains(j),
        all_executed::<C>(plan, start, None, whole, whole_done, whole_after),
        round_finished::<C>(plan, done, start, whole_heads, whole_done, whole_end, whole_left),
        all_executed::<C>(plan, start, None, part, part_done, parts_after),
        published::<C>(plan, start, part_heads, part_done, between),
        all_executed::<C>(plan, between, None, rest, rest_done, parts_after),
        round_finished::<C>(
            plan,
            done.union(trees(plan, part_heads)),
            between,
            rest_heads,
            rest_done,
            parts_end,
            parts_left,
        ),
        jobs_start_the_same(whole_heads, whole, part_heads + rest_heads, part + rest),
    ensures
        forall|j: u16|
            #![trigger whole_end[j as int]]
            #![trigger parts_end[j as int]]
            j < plan.len() ==> parts_end[j as int]@ == whole_end[j as int]@,
        parts_left == whole_left,
        forall|i: int, k: int|
            #![trigger whole_done[i], (part_done + rest_done)[k]]
            0 <= i < whole_done.len() && 0 <= k < (part_done + rest_done).len()
                && whole_heads[i] == (part_heads + rest_heads)[k] ==> same_outcome(
                whole_done[i],
                whole_after,
                (part_done + rest_done)[k],
                parts_after,
            ),
{
    let heads = part_heads + rest_heads;
    let jobs = part + rest;
    let results = part_done + rest_done;
    law_finishing_can_be_cut::<C>(
        plan,
        done,
        start,
        part_heads,
        part_done,
        between,
        rest_heads,
        rest_done,
        parts_end,
        parts_left,
    );
    assert forall|i: int, k: int|
        #![trigger whole_done[i], results[k]]
        0 <= i < whole_done.len() && 0 <= k < results.len() && whole_heads[i]
            == heads[k] implies same_outcome(
        whole_done[i],
        whole_after,
        results[k],
        parts_after,
    ) by {
        let head = heads[k];
        assert(whole[i].index == head && jobs[k].index == head && same_start(whole[i], jobs[k]));
        let data = outputs_of_parents::<C>(plan, start, head);
        if k < part.len() {
            assert(part[k] == jobs[k] && part_done[k] == results[k]);
        } else {
            assert(rest[k - part.len()] == jobs[k] && rest_done[k - part.len()] == results[k]);
            plan.lemma_missing(head, done);
            assert forall|parent: u16| #[trigger] plan.parents(head as int).contains(
                parent,
            ) implies between[plan.index(parent) as int] == start[plan.index(parent) as int] by {
                plan.lemma_parent(head, parent);
                assert(done.contains(plan.index(parent)));
            }
            assert(outputs_of_parents::<C>(plan, between, head) =~= data);
        }
        assert(executed(plan, whole[i], whole_done[i], data, whole_after));
        lemma_same_job(
            plan,
            data,
            whole[i],
            whole_done[i],
            whole_after,
            jobs[k],
            results[k],
            parts_after,
        );
    }
    law_finishing_in_any_order::<C>(
        plan,
        done,
        start,
        whole_heads,
        whole_done,
        whole_after,
        whole_end,
        whole_left,
        heads,
        results,
        parts_after,
        parts_end,
        parts_left,
    );
}

/// The indexes from `start` up to, but not including, `end`.
pub open spec fn indexes_between(start: int, end: int) -> Seq<u16> {
    Seq::new((end - start) as nat, |i: int| (start + i) as u16)
}

/// Where tasks are deterministic, running the independent tasks of a range comes to the
/// same as running those up to some place and then those from there on: the same
/// outputs in the slots, the same counters, and the same tasks afterwards.
pub proof fn law_ranges_leave_the_same<'a, 'b, C: Config>(
    plan: Plan,
    start: int,
    mid: int,
    end: int,
    outputs: Seq<OutputSlot<C>>,
    whole: Seq<Job<'a, C>>,
    whole_done: Seq<DoneJob<C>>,
    whole_after: spec_fn(u16) -> C::Task,
    whole_end: Seq<OutputSlot<C>>,
    whole_left: Seq<u16>,
    part: Seq<Job<'b, C>>,
    part_done: Seq<DoneJob<C>>,
    between: Seq<OutputSlot<C>>,
    rest: Seq<Job<'b, C>>,
    rest_done: Seq<DoneJob<C>>,
    parts_after: spec_fn(u16) -> C::Task,
    parts_end: Seq<OutputSlot<C>>,
    parts_left: Seq<u16>,
)
    requires
        plan.wf(),
        is_deterministic::<C>(),
        0 <= start <= mid <= end <= plan.num_independent_tasks(),
        make_up_range(whole, start, end),
        make_up_range(part, start, mid),
        make_up_range(rest, mid, end),
        forall|i: int|
            #![trigger whole[i]]
            #![trigger (part + rest)[i]]
            0 <= i < whole.len() ==> same_start(whole[i], (part + rest)[i]),
        all_executed::<C>(&plan, outputs, None, whole, whole_done, whole_after),
        round_finished::<C>(
            &plan,
            Set::empty(),
            outputs,
            indexes_between(start, end),
            whole_done,
            whole_end,
            whole_left,
        ),
        all_executed::<C>(&plan, outputs, None, part, part_done, parts_after),
        published::<C>(&plan, outputs, indexes_between(start, mid), part_done, between),
        all_executed::<C>(&plan, between, None, rest, rest_done, parts_after),
        round_finished::<C>(
            &plan,
            trees(&plan, indexes_between(start, mid)),
            between,
            indexes_between(mid, end),
            rest_done,
            parts_end,
            parts_left,
        ),
    ensures
        forall|j: u16|
            #![trigger whole_end[j as int]]
            #![trigger parts_end[j as int]]
            j < plan.len() ==> parts_end[j as int]@ == whole_end[j as int]@,
        parts_left == whole_left,
        forall|i: int|
            #![trigger whole_done[i]]
            #![trigger (part_done + rest_done)[i]]
            0 <= i < whole_done.len() ==> same_outcome(
                whole_done[i],
                whole_after,
                (part_done + rest_done)[i],
                parts_after,
            ),
{
    let none: Set<u16> = Set::empty();
    let heads = indexes_between(start, end);
    let first = indexes_between(start, mid);
    let second = indexes_between(mid, end);
    assert(heads =~= first + second);
    law_independent_tasks_first(plan);
    assert forall|i: int|
        #![trigger heads[i]]
        0 <= i < heads.len() implies heads[i] == start + i && heads[i] < plan.len()
        && plan.parents_total(heads[i] as int) == 0 && plan.missing(heads[i], none) == 0 by {
        plan.lemma_missing(heads[i], none);
    }
    assert(none.union(trees(&plan, first)) =~= trees(&plan, first));
    law_lists_of_jobs_leave_the_same::<C>(
        &plan,
        none,
        outputs,
        heads,
        whole,
        whole_done,
        whole_after,
        whole_end,
        whole_left,
        first,
        part,
        part_done,
        between,
        second,
        rest,
        rest_done,
        parts_after,
        parts_end,
        parts_left,
    );
}

/// Whether jobs of two lists that have the same head start with the same tasks.
pub closed spec fn jobs_start_the_same<'a, 'b, C: Config>(
    heads: Seq<u16>,
    jobs: Seq<Job<'a, C>>,
    other_heads: Seq<u16>,
    other_jobs: Seq<Job<'b, C>>,
) -> bool {
    &&& jobs.len() == heads.len()
    &&& other_jobs.len() == other_heads.len()
    &&& forall|i: int| #![trigger jobs[i]] 0 <= i < jobs.len() ==> jobs[i].index == heads[i]
    &&& forall|k: int|
        #![trigger other_jobs[k]]
        0 <= k < other_jobs.len() ==> other_jobs[k].index == other_heads[k]
    &&& forall|i: int, k: int|
        #![trigger jobs[i], other_jobs[k]]
        0 <= i < jobs.len() && 0 <= k < other_jobs.len() && heads[i] == other_heads[k]
            ==> same_start(jobs[i], other_jobs[k])
}

/// Publishes the outputs of a job that has run, with those of all tasks in the tree
/// below it.
fn finish_job<'a, C: Config>(
    plan: &Plan,
    outputs: &mut Vec<OutputSlot<C>>,
    parents_left: &mut Vec<u16>,
    job: DoneJob<C>,
    promoted: &mut Vec<u16>,
    before: Ghost<Job<'a, C>>,
    lent: Ghost<Seq<&'a mut C::Task>>,
    done: Ghost<Set<u16>>,
    round: Ghost<Set<u16>>,
)
    requires
        plan.wf(),
        progress::<C>(
            plan,
            old(outputs)@,
            old(parents_left)@,
            lent@,
            |i: u16| *final(lent@[i as int]),
            done@,
        ),
        is_job(plan, before@),
        holds(lent@, before@),
        executed(
            plan,
            before@,
            job,
            outputs_of_parents::<C>(plan, old(outputs)@, job.index),
            |i: u16| *final(lent@[i as int]),
        ),
        forall|j: u16|
            j < plan.len() && #[trigger] plan.under(j, job.index) ==> !done@.contains(j),
        plan.missing(job.index, done@) == 0,
        promotes(plan, done@, round@, old(promoted)@),
        forall|j: u16| #[trigger]
            round@.contains(j) ==> j < plan.len() && plan.missing(j, done@) == 0,
        plan.parents_total(job.index as int) > 1 ==> round@.contains(job.index),
    ensures
        progress::<C>(
            plan,
            final(outputs)@,
            final(parents_left)@,
            lent@,
            |i: u16| *final(lent@[i as int]),
            with_tree(plan, done@, job.index),
        ),
        promotes(plan, with_tree(plan, done@, job.index), round@, final(promoted)@),
        forall|j: u16|
            #![trigger final(outputs)@[j as int]]
            j < plan.len() && !plan.under(j, job.index) ==> final(outputs)@[j as int] == old(
                outputs,
            )@[j as int],
        forall|j: u16, output: TaskOutput<C>| #[trigger]
            carries(job, j, output) ==> final(outputs)@[j as int]@ == Some(output),
    decreases job,
{
    let DoneJob { index, output, owned } = job;
    let ghost outputs_at_first = outputs@;
    let ghost children = plan.owned_children(index as int);
    let ghost after = owned@;
    let ghost published = output;
    assert(plan.under(index, index));
    finish_task::<C>(plan, outputs, parents_left, index, output, promoted, lent, done, round);
    let mut owned = owned;
    let ghost mut done_now = done@.insert(index);
    while owned.len() > 0
        invariant
            plan.wf(),
            index == job.index,
            published == job.output,
            after == job.owned@,
            index < plan.len(),
            is_job(plan, before@),
            holds(lent@, before@),
            before@.index == index,
            before@.owned@.len() == after.len(),
            children == plan.owned_children(index as int),
            children.len() == after.len(),
            forall|k: int|
                #![trigger before@.owned@[k]]
                0 <= k < after.len() ==> executed(
                    plan,
                    before@.owned@[k],
                    after[k],
                    output_of_owner::<C>(plan, published, before@.owned@[k].index),
                    |i: u16| *final(lent@[i as int]),
                ),
            owned@.len() <= after.len(),
            owned@ == after.take(owned@.len() as int),
            progress::<C>(
                plan,
                outputs@,
                parents_left@,
                lent@,
                |i: u16| *final(lent@[i as int]),
                done_now,
            ),
            promotes(plan, done_now, round@, promoted@),
            outputs@[index as int]@ == Some(published),
            forall|j: u16| #[trigger]
                done_now.contains(j) <==> done@.contains(j) || j == index || (j < plan.len()
                    && under_any(plan, j, children.skip(owned@.len() as int))),
            forall|j: u16|
                j < plan.len() && #[trigger] plan.under(j, index) ==> !done@.contains(j),
            forall|j: u16| #[trigger]
                round@.contains(j) ==> j < plan.len() && plan.missing(j, done@) == 0,
            forall|j: u16|
                #![trigger outputs@[j as int]]
                j < plan.len() && !plan.under(j, index) ==> outputs@[j as int]
                    == outputs_at_first[j as int],
            forall|i: int, j: u16, output: TaskOutput<C>|
                owned@.len() <= i < after.len() && #[trigger] carries(after[i], j, output)
                    ==> outputs@[j as int]@ == Some(output),
        decreases owned@.len(),
    {
        let ghost k = owned@.len() - 1;
        let child = owned.pop().unwrap();
        let ghost head = children[k];
        proof {
            assert(child == after[k]);
            assert(owned@ =~= after.take(k));
            assert(before@.owned@[k].index == head);
            assert(children.contains(head));
            plan.lemma_owned(index, head);
            lemma_under_one_less(plan, children, k);
            // The only parent has published its output.
            assert(plan.missing(head, done_now) == 0) by {
                plan.lemma_missing(head, done_now);
                assert forall|parent: u16| #[trigger] plan.parents(head as int).contains(
                    parent,
                ) implies done_now.contains(plan.index(parent)) by {
                    assert(parent == plan.order()[index as int]);
                }
            }
            assert forall|parent: u16| #[trigger] plan.parents(head as int).contains(
                parent,
            ) implies outputs@[plan.index(parent) as int]@->0 == published by {
                assert(parent == plan.order()[index as int]);
            }
            assert(outputs_of_parents::<C>(plan, outputs@, head) =~= output_of_owner::<C>(
                plan,
                published,
                head,
            ));
            assert forall|j: u16| j < plan.len() && #[trigger] plan.under(j, head) implies
                !done_now.contains(j) by {
                plan.lemma_under_owner(j, head, index);
                let later = children.skip(k + 1);
                if under_any(plan, j, later) {
                    let i = choose|i: int|
                        0 <= i < later.len() && plan.under(j, #[trigger] later[i]);
                    assert(later[i] == children[k + 1 + i]);
                    assert(children.contains(children[k + 1 + i]));
                    plan.lemma_siblings_disjoint(j, index, head, children[k + 1 + i]);
                    assert(children[k] < children[k + 1 + i]);
                }
            }
            assert forall|j: u16| #[trigger] round@.contains(j) implies j < plan.len()
                && plan.missing(j, done_now) == 0 by {
                lemma_missing_monotone(plan, j, done@, done_now);
            }
            assert(!plan.under(index, head)) by {
                if plan.under(index, head) {
                    plan.lemma_under_bounds(index, head);
                }
            }
        }
        let ghost outputs_before = outputs@;
        finish_job(
            plan,
            outputs,
            parents_left,
            child,
            promoted,
            Ghost(before@.owned@[k]),
            lent,
            Ghost(done_now),
            round,
        );
        proof {
            done_now = with_tree(plan, done_now, head);
            assert forall|j: u16|
                #![trigger outputs@[j as int]]
                j < plan.len() && !plan.under(j, index) implies outputs@[j as int]
                == outputs_at_first[j as int] by {
                if plan.under(j, head) {
                    plan.lemma_under_owner(j, head, index);
                }
                assert(outputs@[j as int] == outputs_before[j as int]);
            }
            assert forall|i: int, j: u16, output: TaskOutput<C>|
                k <= i < after.len() && #[trigger] carries(
                    after[i],
                    j,
                    output,
                ) implies outputs@[j as int]@ == Some(output) by {
                assert(before@.owned@[i].index == children[i]);
                lemma_carries(
                    plan,
                    before@.owned@[i],
                    after[i],
                    output_of_owner::<C>(plan, published, before@.owned@[i].index),
                    |i: u16| *final(lent@[i as int]),
                );
                if i > k {
                    if plan.under(j, head) {
                        assert(children.contains(children[i]));
                        plan.lemma_siblings_disjoint(j, index, head, children[i]);
                        assert(children[k] < children[i]);
                    }
                    assert(outputs@[j as int] == outputs_before[j as int]);
                }
            }
        }
    }
    proof {
        assert(children.skip(0) =~= children);
        assert forall|j: u16| j < plan.len() implies plan.under(j, index) == (j == index
            || under_any(plan, j, children)) by {
            lemma_under_any_child(plan, j, index);
        }
        assert(done_now =~= with_tree(plan, done@, index));
        assert forall|j: u16, output: TaskOutput<C>| #[trigger]
            carries(job, j, output) implies outputs@[j as int]@ == Some(output) by {
            if !(job.index == j && job.output == output) {
                let k = choose|k: int|
                    0 <= k < job.owned@.len() && carries(#[trigger] job.owned@[k], j, output);
                assert(carries(after[k], j, output));
            }
        }
    }
}

/// The trees below the last heads, with one head more.
proof fn lemma_under_one_less(plan: &Plan, heads: Seq<u16>, k: int)
    requires
        0 <= k < heads.len(),
    ensures
        forall|j: u16| #[trigger]
            under_any(plan, j, heads.skip(k)) <==> under_any(plan, j, heads.skip(k + 1))
                || plan.under(j, heads[k]),
{
    assert forall|j: u16| #[trigger] under_any(plan, j, heads.skip(k)) <==> under_any(
        plan,
        j,
        heads.skip(k + 1),
    ) || plan.under(j, heads[k]) by {
        let longer = heads.skip(k);
        let shorter = heads.skip(k + 1);
        if under_any(plan, j, longer) {
            let i = choose|i: int| 0 <= i < longer.len() && plan.under(j, #[trigger] longer[i]);
            if i > 0 {
                assert(shorter[i - 1] == longer[i]);
            }
        }
        if under_any(plan, j, shorter) {
            let i = choose|i: int| 0 <= i < shorter.len() && plan.under(j, #[trigger] shorter[i]);
            assert(longer[i + 1] == shorter[i]);
        }
        if plan.under(j, heads[k]) {
            assert(longer[0] == heads[k]);
        }
    }
}

/// Whether `heads` are the tasks that can be started next: they are not done, all
/// of their parents are, and no parent owns them.
pub open spec fn ready_heads(plan: &Plan, done: Set<u16>, heads: Seq<u16>) -> bool {
    &&& heads.no_duplicates()
    &&& forall|j: u16| #[trigger]
        heads.contains(j) <==> j < plan.len() && plan.parents_total(j as int) != 1
            && !done.contains(j) && plan.missing(j, done) == 0
}

/// Whether owned tasks are done exactly if their owners are.
pub open spec fn follows_owners(plan: &Plan, done: Set<u16>) -> bool {
    forall|j: u16|
        #![trigger done.contains(j)]
        #![trigger plan.owner(j)]
        j < plan.len() && plan.parents_total(j as int) == 1 ==> done.contains(j) == done.contains(
            plan.owner(j),
        )
}

/// The tasks in the trees below the given heads.
pub open spec fn trees(plan: &Plan, heads: Seq<u16>) -> Set<u16> {
    Set::new(|j: u16| j < plan.len() && under_any(plan, j, heads))
}

/// In a tree below a head that is not done, no task is done.
proof fn lemma_tree_not_done(plan: &Plan, done: Set<u16>, index: u16, head: u16)
    requires
        plan.wf(),
        index < plan.len(),
        follows_owners(plan, done),
        plan.under(index, head),
        !done.contains(head),
    ensures
        !done.contains(index),
    decreases index,
{
    if index != head {
        lemma_tree_not_done(plan, done, plan.owner(index), head);
    }
}

/// A task that is done is not in a tree below a task that can be started.
proof fn lemma_done_outside(plan: &Plan, done: Set<u16>, heads: Seq<u16>, index: u16)
    requires
        plan.wf(),
        ready_heads(plan, done, heads),
        follows_owners(plan, done),
        done.contains(index),
        index < plan.len(),
    ensures
        !under_any(plan, index, heads),
{
    if under_any(plan, index, heads) {
        let i = choose|i: int| 0 <= i < heads.len() && plan.under(index, #[trigger] heads[i]);
        assert(heads.contains(heads[i]));
        lemma_tree_not_done(plan, done, index, heads[i]);
    }
}

/// Whether exactly the tasks that are not done can still be borrowed.
spec fn left_to_lend<'a, C: Config>(
    plan: &Plan,
    borrows: Seq<Option<Borrow<'a, C>>>,
    lent: Seq<&'a mut C::Task>,
    done: Set<u16>,
) -> bool {
    &&& borrows.len() == plan.len()
    &&& forall|j: u16|
        #![trigger borrows[j as int]]
        j < plan.len() ==> if done.contains(j) {
            borrows[j as int] is None
        } else {
            lends(borrows[j as int], lent[j as int], j)
        }
}

/// Makes the jobs that are to run in one round.
fn lend<'a, C: Config>(
    plan: &Plan,
    borrows: &mut Vec<Option<Borrow<'a, C>>>,
    outputs: &Vec<OutputSlot<C>>,
    heads: &Vec<u16>,
    parents_left: Ghost<Seq<u16>>,
    lent: Ghost<Seq<&'a mut C::Task>>,
    done: Ghost<Set<u16>>,
) -> (jobs: Vec<Job<'a, C>>)
    requires
        plan.wf(),
        progress::<C>(
            plan,
            outputs@,
            parents_left@,
            lent@,
            |i: u16| *final(lent@[i as int]),
            done@,
        ),
        left_to_lend::<C>(plan, old(borrows)@, lent@, done@),
        ready_heads(plan, done@, heads@),
        follows_owners(plan, done@),
    ensures
        left_to_lend::<C>(plan, final(borrows)@, lent@, done@.union(trees(plan, heads@))),
        jobs@.len() == heads@.len(),
        forall|k: int|
            #![trigger jobs@[k]]
            0 <= k < jobs@.len() ==> jobs@[k].index == heads@[k],
        all_ready::<C>(plan, outputs@, None, jobs@, lent@),
{
    proof {
        assert forall|k: int| 0 <= k < heads@.len() implies (#[trigger] heads@[k]) < plan.len() by {
            assert(heads@.contains(heads@[k]));
        }
        lemma_numbers_below(heads@, plan.len());
    }
    let mut jobs: Vec<Job<'a, C>> = vec_with_room(heads.len());
    let ghost start = borrows@;
    for k in 0..heads.len()
        invariant
            plan.wf(),
            lent@.len() == plan.len(),
            reads_parents::<C>(plan, lent_tasks::<C>(lent@)),
            left_to_lend::<C>(plan, start, lent@, done@),
            ready_heads(plan, done@, heads@),
            follows_owners(plan, done@),
            borrows@.len() == plan.len(),
            forall|j: u16|
                #![trigger borrows@[j as int]]
                j < plan.len() ==> borrows@[j as int] == (if under_any(
                    plan,
                    j,
                    heads@.take(k as int),
                ) {
                    None
                } else {
                    start[j as int]
                }),
            jobs@.len() == k,
            forall|i: int|
                #![trigger jobs@[i]]
                0 <= i < k ==> jobs@[i].index == heads@[i] && holds(lent@, jobs@[i]) && is_job(
                    plan,
                    jobs@[i],
                ),
    {
        let head: u16 = heads[k];
        proof {
            assert(heads@.contains(head));
            lemma_under_one_more(plan, heads@, k as int);
            assert forall|j: u16| #[trigger] plan.under(j, head) && j < plan.len() implies
                lends(borrows@[j as int], lent@[j as int], j) by {
                lemma_tree_not_done(plan, done@, j, head);
                assert(lends(start[j as int], lent@[j as int], j));
                let earlier = heads@.take(k as int);
                if under_any(plan, j, earlier) {
                    let i = choose|i: int|
                        0 <= i < earlier.len() && plan.under(j, #[trigger] earlier[i]);
                    assert(earlier[i] == heads@[i]);
                    assert(heads@.contains(heads@[i]));
                    plan.lemma_heads_disjoint(j, head, heads@[i]);
                }
            }
        }
        jobs.push(take_job::<C>(plan, borrows, head, lent));
    }
    proof {
        assert(heads@.take(heads@.len() as int) =~= heads@);
        assert forall|k: int|
            #![trigger jobs@[k]]
            0 <= k < jobs@.len() implies is_job(plan, jobs@[k]) && holds(lent@, jobs@[k])
            && can_hand::<C>(plan, outputs@, None, jobs@[k].index) by {
            let head = heads@[k];
            assert(heads@.contains(head));
            plan.lemma_missing(head, done@);
            assert forall|parent: u16| #[trigger] plan.parents(head as int).contains(
                parent,
            ) implies outputs@[plan.index(parent) as int]@ is Some by {
                assert(done@.contains(plan.index(parent)));
            }
        }
    }
    jobs
}

/// Publishes the outputs of the jobs of one round and tells which tasks can be
/// started next.
fn finish_round<'a, C: Config>(
    plan: &Plan,
    outputs: &mut Vec<OutputSlot<C>>,
    parents_left: &mut Vec<u16>,
    jobs: Vec<DoneJob<C>>,
    heads: Ghost<Seq<u16>>,
    before: Ghost<Seq<Job<'a, C>>>,
    lent: Ghost<Seq<&'a mut C::Task>>,
    done: Ghost<Set<u16>>,
) -> (next: (Vec<u16>, Ghost<Set<u16>>))
    requires
        plan.wf(),
        progress::<C>(
            plan,
            old(outputs)@,
            old(parents_left)@,
            lent@,
            |i: u16| *final(lent@[i as int]),
            done@,
        ),
        ready_heads(plan, done@, heads@),
        follows_owners(plan, done@),
        before@.len() == heads@.len(),
        forall|k: int|
            #![trigger before@[k]]
            0 <= k < before@.len() ==> before@[k].index == heads@[k],
        all_ready::<C>(plan, old(outputs)@, None, before@, lent@),
        all_executed::<C>(
            plan,
            old(outputs)@,
            None,
            before@,
            jobs@,
            |i: u16| *final(lent@[i as int]),
        ),
    ensures
        progress::<C>(
            plan,
            final(outputs)@,
            final(parents_left)@,
            lent@,
            |i: u16| *final(lent@[i as int]),
            next.1@,
        ),
        ready_heads(plan, next.1@, next.0@),
        follows_owners(plan, next.1@),
        next.1@ == done@.union(trees(plan, heads@)),
        round_finished::<C>(
            plan,
            done@,
            old(outputs)@,
            heads@,
            jobs@,
            final(outputs)@,
            final(parents_left)@,
        ),
{
    let mut jobs = jobs;
    let mut promoted: Vec<u16> = Vec::new();
    let ghost after = jobs@;
    let ghost outputs_before = outputs@;
    let ghost round = heads@.to_set();
    let ghost mut done_now = done@;
    proof {
        assert(heads@.skip(heads@.len() as int) =~= Seq::empty());
        assert(promoted@ =~= Seq::empty());
    }
    while jobs.len() > 0
        invariant
            plan.wf(),
            ready_heads(plan, done@, heads@),
            follows_owners(plan, done@),
            round == heads@.to_set(),
            before@.len() == heads@.len(),
            forall|k: int|
                #![trigger before@[k]]
                0 <= k < before@.len() ==> before@[k].index == heads@[k],
            all_ready::<C>(plan, outputs_before, None, before@, lent@),
            all_executed::<C>(
                plan,
                outputs_before,
                None,
                before@,
                after,
                |i: u16| *final(lent@[i as int]),
            ),
            jobs@.len() <= after.len(),
            jobs@ == after.take(jobs@.len() as int),
            progress::<C>(
                plan,
                outputs@,
                parents_left@,
                lent@,
                |i: u16| *final(lent@[i as int]),
                done_now,
            ),
            promotes(plan, done_now, round, promoted@),
            forall|j: u16| #[trigger]
                done_now.contains(j) <==> done@.contains(j) || (j < plan.len() && under_any(
                    plan,
                    j,
                    heads@.skip(jobs@.len() as int),
                )),
            forall|j: u16|
                #![trigger outputs@[j as int]]
                j < plan.len() && !under_any(plan, j, heads@) ==> outputs@[j as int]
                    == outputs_before[j as int],
            forall|j: u16| #[trigger] done@.contains(j) ==> j < plan.len(),
            forall|i: int, j: u16, output: TaskOutput<C>|
                jobs@.len() <= i < after.len() && #[trigger] carries(after[i], j, output)
                    ==> outputs@[j as int]@ == Some(output),
        decreases jobs@.len(),
    {
        let ghost k = jobs@.len() - 1;
        let job = jobs.pop().unwrap();
        let ghost head = heads@[k];
        proof {
            assert(job == after[k]);
            assert(jobs@ =~= after.take(k));
            assert(before@[k].index == head);
            assert(heads@.contains(head));
            lemma_under_one_less(plan, heads@, k);
            plan.lemma_missing(head, done@);
            lemma_missing_monotone(plan, head, done@, done_now);
            // The outputs of the parents have not changed since the job ran.
            assert forall|parent: u16| #[trigger] plan.parents(head as int).contains(
                parent,
            ) implies outputs@[plan.index(parent) as int] == outputs_before[plan.index(
                parent,
            ) as int] by {
                assert(done@.contains(plan.index(parent)));
                lemma_done_outside(plan, done@, heads@, plan.index(parent));
            }
            assert(outputs_of_parents::<C>(plan, outputs@, head) =~= outputs_of_parents::<C>(
                plan,
                outputs_before,
                head,
            ));
            assert forall|j: u16| j < plan.len() && #[trigger] plan.under(j, head) implies
                !done_now.contains(j) by {
                lemma_tree_not_done(plan, done@, j, head);
                let later = heads@.skip(k + 1);
                if under_any(plan, j, later) {
                    let i = choose|i: int|
                        0 <= i < later.len() && plan.under(j, #[trigger] later[i]);
                    assert(later[i] == heads@[k + 1 + i]);
                    assert(heads@.contains(heads@[k + 1 + i]));
                    plan.lemma_heads_disjoint(j, head, heads@[k + 1 + i]);
                }
            }
            assert forall|j: u16| #[trigger] round.contains(j) implies j < plan.len()
                && plan.missing(j, done_now) == 0 by {
                assert(heads@.contains(j));
                lemma_missing_monotone(plan, j, done@, done_now);
            }
        }
        let ghost outputs_between = outputs@;
        finish_job(
            plan,
            outputs,
            parents_left,
            job,
            &mut promoted,
            Ghost(before@[k]),
            lent,
            Ghost(done_now),
            Ghost(round),
        );
        proof {
            done_now = with_tree(plan, done_now, head);
            assert forall|j: u16|
                #![trigger outputs@[j as int]]
                j < plan.len() && !under_any(plan, j, heads@) implies outputs@[j as int]
                == outputs_before[j as int] by {
                assert(!plan.under(j, heads@[k]));
                assert(outputs@[j as int] == outputs_between[j as int]);
            }
            assert forall|i: int, j: u16, output: TaskOutput<C>|
                k <= i < after.len() && #[trigger] carries(
                    after[i],
                    j,
                    output,
                ) implies outputs@[j as int]@ == Some(output) by {
                assert(before@[i].index == heads@[i]);
                lemma_carries(
                    plan,
                    before@[i],
                    after[i],
                    handed::<C>(plan, outputs_before, None, before@[i].index),
                    |i: u16| *final(lent@[i as int]),
                );
                if i > k {
                    if plan.under(j, head) {
                        assert(heads@.contains(heads@[i]));
                        plan.lemma_heads_disjoint(j, head, heads@[i]);
                    }
                    assert(outputs@[j as int] == outputs_between[j as int]);
                }
            }
        }
    }
    proof {
        assert(heads@.skip(0) =~= heads@);
        assert(done_now =~= done@.union(trees(plan, heads@)));
        lemma_next_heads(plan, done@, done_now, heads@, promoted@);
        assert(published::<C>(plan, outputs_before, heads@, after, outputs@)) by {
            assert forall|i: int| 0 <= i < heads@.len() implies (#[trigger] after[i]).index
                == heads@[i] && carries_tree(plan, after[i], heads@[i]) by {
                assert(before@[i].index == heads@[i]);
                lemma_carries(
                    plan,
                    before@[i],
                    after[i],
                    handed::<C>(plan, outputs_before, None, before@[i].index),
                    |i: u16| *final(lent@[i as int]),
                );
            }
        }
    }
    (promoted, Ghost(done_now))
}

/// After a round the promoted tasks are those that can be started next.
proof fn lemma_next_heads(
    plan: &Plan,
    done: Set<u16>,
    done_now: Set<u16>,
    heads: Seq<u16>,
    promoted: Seq<u16>,
)
    requires
        plan.wf(),
        ready_heads(plan, done, heads),
        follows_owners(plan, done),
        done_now == done.union(trees(plan, heads)),
        promotes(plan, done_now, heads.to_set(), promoted),
    ensures
        ready_heads(plan, done_now, promoted),
        follows_owners(plan, done_now),
{
    assert forall|j: u16| #[trigger] heads.contains(j) implies done_now.contains(j) by {
        let i = choose|i: int| 0 <= i < heads.len() && heads[i] == j;
        assert(plan.under(j, heads[i]));
    }
    assert forall|j: u16| #[trigger] promoted.contains(j) <==> j < plan.len()
        && plan.parents_total(j as int) != 1 && !done_now.contains(j) && plan.missing(j, done_now)
        == 0 by {
        if j < plan.len() && plan.parents_total(j as int) == 0 {
            plan.lemma_missing(j, done);
            assert(done.contains(j) || heads.contains(j));
        }
        if heads.to_set().contains(j) {
            assert(heads.contains(j));
        }
    }
    assert forall|j: u16|
        #![trigger done_now.contains(j)]
        #![trigger plan.owner(j)]
        j < plan.len() && plan.parents_total(j as int) == 1 implies done_now.contains(j)
        == done_now.contains(plan.owner(j)) by {
        plan.lemma_owner(j);
        let owner = plan.owner(j);
        assert(done.contains(j) == done.contains(owner));
        if under_any(plan, j, heads) {
            let i = choose|i: int| 0 <= i < heads.len() && plan.under(j, #[trigger] heads[i]);
            assert(heads.contains(heads[i]));
            assert(plan.under(owner, heads[i]));
        }
        if under_any(plan, owner, heads) {
            let i = choose|i: int| 0 <= i < heads.len() && plan.under(owner, #[trigger] heads[i]);
            assert(plan.under(j, heads[i]));
        }
    }
}

/// How many of the first `len` tasks are not done.
spec fn count_left(len: nat, done: Set<u16>) -> nat
    decreases len,
{
    if len == 0 {
        0
    } else {
        count_left((len - 1) as nat, done) + (if done.contains((len - 1) as u16) {
            0nat
        } else {
            1nat
        })
    }
}

/// Where one more task is done, fewer are left.
proof fn lemma_fewer_left(len: nat, done: Set<u16>, more: Set<u16>, gained: u16)
    requires
        len <= 0x1_0000,
        done.subset_of(more),
    ensures
        count_left(len, more) <= count_left(len, done),
        gained < len && !done.contains(gained) && more.contains(gained) ==> count_left(len, more)
            < count_left(len, done),
    decreases len,
{
    if len > 0 {
        lemma_fewer_left((len - 1) as nat, done, more, gained);
    }
}

/// Where no task can be started, all are done.
proof fn lemma_all_done(plan: &Plan, done: Set<u16>, index: u16)
    requires
        plan.wf(),
        index < plan.len(),
        ready_heads(plan, done, Seq::empty()),
        follows_owners(plan, done),
    ensures
        done.contains(index),
    decreases index,
{
    if plan.parents_total(index as int) == 1 {
        plan.lemma_owner(index);
        lemma_all_done(plan, done, plan.owner(index));
    } else {
        assert forall|parent: u16| #[trigger] plan.parents(index as int).contains(parent) implies
            done.contains(plan.index(parent)) by {
            plan.lemma_parent(index, parent);
            lemma_all_done(plan, done, plan.index(parent));
        }
        plan.lemma_missing(index, done);
        assert(!Seq::<u16>::empty().contains(index));
    }
}

/// Borrows each of the given tasks by itself.
fn borrow_each<'a, T>(tasks: &'a mut [T]) -> (borrows: Vec<Option<&'a mut T>>)
    ensures
        borrows@.len() == old(tasks)@.len(),
        final(tasks)@.len() == old(tasks)@.len(),
        forall|i: int|
            #![trigger borrows@[i]]
            0 <= i < borrows@.len() ==> borrows@[i] is Some && *borrows@[i]->0 == old(tasks)@[i]
                && *final(borrows@[i]->0) == final(tasks)@[i],
    decreases old(tasks)@.len(),
{
    let len: usize = tasks.len();
    if len == 0 {
        return Vec::new();
    }
    if len == 1 {
        let mut borrows: Vec<Option<&'a mut T>> = vec_with_room(1);
        borrows.push(Some(&mut tasks[0]));
        return borrows;
    }
    let (left, right) = tasks.split_at_mut(len / 2);
    let mut borrows = borrow_each(left);
    let mut more = borrow_each(right);
    borrows.append(&mut more);
    borrows
}

/// Gives each of the borrowed tasks its turn.
fn give_turns<'a, C: Config>(
    plan: &Plan,
    tasks: Vec<Option<&'a mut C::Task>>,
    session: &mut Session,
    lent: Ghost<Seq<&'a mut C::Task>>,
) -> (borrows: Vec<Option<Borrow<'a, C>>>)
    requires
        plan.wf(),
        tasks@.len() == plan.len(),
        lent@.len() == plan.len(),
        forall|i: int|
            #![trigger tasks@[i]]
            0 <= i < plan.len() ==> tasks@[i] == Some(lent@[i]),
    ensures
        left_to_lend::<C>(plan, borrows@, lent@, Set::empty()),
        final(session).constructed() == old(session).constructed(),
        final(session).run() == old(session).run() + indexes_between(0, plan.len() as int),
{
    let mut tasks = tasks;
    let len: usize = tasks.len();
    let mut borrows: Vec<Option<Borrow<'a, C>>> = vec_with_room(len);
    for i in 0..len
        invariant
            plan.wf(),
            len == plan.len(),
            tasks@.len() == len,
            lent@.len() == len,
            forall|j: int|
                #![trigger tasks@[j]]
                i <= j < len ==> tasks@[j] == Some(lent@[j]),
            borrows@.len() == i,
            forall|j: int|
                #![trigger borrows@[j]]
                0 <= j < i ==> lends(borrows@[j], lent@[j], j as u16),
            session.constructed() == old(session).constructed(),
            session.run() == old(session).run() + indexes_between(0, i as int),
    {
        let turn = session.exec(i as u16);
        borrows.push(Some(Borrow { task: tasks[i].take().unwrap(), turn }));
        assert(indexes_between(0, i + 1) =~= indexes_between(0, i as int).push(i as u16));
    }
    borrows
}

/// The tasks that have finished before the round with this number, where `rounds` are
/// the heads of the jobs of each round.
pub open spec fn finished_before(plan: &Plan, rounds: Seq<Seq<u16>>, number: int) -> Set<u16> {
    Set::new(
        |j: u16|
            exists|r: int|
                0 <= r < number && r < rounds.len() && (#[trigger] trees(
                    plan,
                    rounds[r],
                )).contains(j),
    )
}

/// Whether the rounds of an execution have the right heads: in each round all tasks
/// that can be started then, unless a parent owns them. After the last round all tasks
/// have finished.
pub open spec fn is_schedule(plan: &Plan, rounds: Seq<Seq<u16>>) -> bool {
    &&& forall|r: int|
        #![trigger rounds[r]]
        0 <= r < rounds.len() ==> ready_heads(plan, finished_before(plan, rounds, r), rounds[r])
    &&& forall|j: u16|
        j < plan.len() ==> #[trigger] finished_before(
            plan,
            rounds,
            rounds.len() as int,
        ).contains(j)
}

/// What has finished before one more round.
proof fn lemma_one_more_round(plan: &Plan, rounds: Seq<Seq<u16>>, heads: Seq<u16>)
    ensures
        forall|r: int|
            0 <= r <= rounds.len() ==> #[trigger] finished_before(plan, rounds.push(heads), r)
                == finished_before(plan, rounds, r),
        finished_before(plan, rounds.push(heads), rounds.len() as int + 1) == finished_before(
            plan,
            rounds,
            rounds.len() as int,
        ).union(trees(plan, heads)),
{
    let more = rounds.push(heads);
    assert forall|r: int| 0 <= r <= rounds.len() implies #[trigger] finished_before(plan, more, r)
        == finished_before(plan, rounds, r) by {
        assert forall|j: u16| finished_before(plan, more, r).contains(j) <==> finished_before(
            plan,
            rounds,
            r,
        ).contains(j) by {
            if finished_before(plan, more, r).contains(j) {
                let q = choose|q: int|
                    0 <= q < r && q < more.len() && (#[trigger] trees(plan, more[q])).contains(j);
                assert(trees(plan, rounds[q]).contains(j));
            }
            if finished_before(plan, rounds, r).contains(j) {
                let q = choose|q: int|
                    0 <= q < r && q < rounds.len() && (#[trigger] trees(
                        plan,
                        rounds[q],
                    )).contains(j);
                assert(trees(plan, more[q]).contains(j));
            }
        }
        assert(finished_before(plan, more, r) =~= finished_before(plan, rounds, r));
    }
    let before = finished_before(plan, more, rounds.len() as int);
    assert(finished_before(plan, more, rounds.len() as int + 1) =~= before.union(
        trees(plan, heads),
    )) by {
        assert forall|j: u16| finished_before(plan, more, rounds.len() as int + 1).contains(j) <==>
            before.contains(j) || trees(plan, heads).contains(j) by {
            if finished_before(plan, more, rounds.len() as int + 1).contains(j) {
                let q = choose|q: int|
                    0 <= q < rounds.len() + 1 && q < more.len() && (#[trigger] trees(
                        plan,
                        more[q],
                    )).contains(j);
            }
            if before.contains(j) {
                let q = choose|q: int|
                    0 <= q < rounds.len() && q < more.len() && (#[trigger] trees(
                        plan,
                        more[q],
                    )).contains(j);
                assert(q < rounds.len() + 1);
            }
            if trees(plan, heads).contains(j) {
                assert(trees(plan, more[rounds.len() as int]).contains(j));
            }
        }
    }
}

/// A task with several parents is the head of a job in exactly one round of an
/// execution: the one after the round in which the last of its parents finishes. Each
/// of its parents has finished before, and it lies in no other job.
pub proof fn law_shared_task_runs_after_its_last_parent(
    plan: Plan,
    rounds: Seq<Seq<u16>>,
    child: u16,
) -> (number: int)
    requires
        plan.wf(),
        child < plan.len(),
        plan.parents_total(child as int) > 1,
        is_schedule(&plan, rounds),
    ensures
        0 < number < rounds.len(),
        forall|r: int|
            #![trigger rounds[r]]
            0 <= r < rounds.len() ==> (rounds[r].contains(child) <==> r == number),
        forall|r: int|
            #![trigger trees(&plan, rounds[r])]
            0 <= r < rounds.len() ==> (trees(&plan, rounds[r]).contains(child) <==> r == number),
        rounds[number].no_duplicates(),
        forall|parent: u16| #[trigger]
            plan.parents(child as int).contains(parent) ==> finished_before(
                &plan,
                rounds,
                number,
            ).contains(plan.index(parent)),
        exists|parent: u16|
            #![trigger plan.parents(child as int).contains(parent)]
            plan.parents(child as int).contains(parent) && trees(
                &plan,
                rounds[number - 1],
            ).contains(plan.index(parent)) && !finished_before(
                &plan,
                rounds,
                number - 1,
            ).contains(plan.index(parent)),
{
    assert(finished_before(&plan, rounds, rounds.len() as int).contains(child));
    let number = choose|r: int|
        0 <= r < rounds.len() && (#[trigger] trees(&plan, rounds[r])).contains(child);
    assert forall|r: int| 0 <= r < rounds.len() implies ((#[trigger] trees(
        &plan,
        rounds[r],
    )).contains(child) <==> rounds[r].contains(child)) by {
        if trees(&plan, rounds[r]).contains(child) {
            let i = choose|i: int|
                0 <= i < rounds[r].len() && plan.under(child, #[trigger] rounds[r][i]);
            assert(rounds[r].contains(rounds[r][i]));
        }
        if rounds[r].contains(child) {
            let i = choose|i: int| 0 <= i < rounds[r].len() && rounds[r][i] == child;
            assert(plan.under(child, rounds[r][i]));
        }
    }
    assert forall|r: int|
        #![trigger rounds[r]]
        0 <= r < rounds.len() implies (rounds[r].contains(child) <==> r == number) by {
        assert(trees(&plan, rounds[r]).contains(child) <==> rounds[r].contains(child));
        if rounds[r].contains(child) {
            if r < number {
                assert(finished_before(&plan, rounds, number).contains(child));
            }
            if number < r {
                assert(finished_before(&plan, rounds, r).contains(child));
            }
        }
    }
    assert(rounds[number].contains(child));
    let before = finished_before(&plan, rounds, number);
    plan.lemma_missing(child, before);
    let parents = plan.parents(child as int);
    assert(plan.parents_total(child as int) == parents.len());
    assert(parents.contains(parents[0]));
    assert(before.contains(plan.index(parents[0])));
    let earlier = finished_before(&plan, rounds, number - 1);
    plan.lemma_missing(child, earlier);
    assert(!earlier.contains(child)) by {
        if earlier.contains(child) {
            let r = choose|r: int|
                0 <= r < number - 1 && r < rounds.len() && (#[trigger] trees(
                    &plan,
                    rounds[r],
                )).contains(child);
            assert(rounds[r].contains(child));
        }
    }
    assert(!rounds[number - 1].contains(child));
    let parent = choose|parent: u16| #[trigger]
        parents.contains(parent) && !earlier.contains(plan.index(parent));
    assert(before.contains(plan.index(parent)));
    let r = choose|r: int|
        0 <= r < number && r < rounds.len() && (#[trigger] trees(&plan, rounds[r])).contains(
            plan.index(parent),
        );
    if r < number - 1 {
        assert(earlier.contains(plan.index(parent)));
    }
    number
}

/// Runs the borrowed tasks, each of them once: first those without parents and the
/// tasks that they own, then, in rounds, the tasks of which the last parent has
/// finished in the round before, and the tasks that those own.
fn run_rounds<'a, C: Config>(
    plan: &Plan,
    borrows: Vec<Option<Borrow<'a, C>>>,
    outputs: &mut Vec<OutputSlot<C>>,
    parents_left: &mut Vec<u16>,
    lent: Ghost<Seq<&'a mut C::Task>>,
) -> (rounds: Ghost<Seq<Seq<u16>>>)
    requires
        plan.wf(),
        borrows@.len() == plan.len(),
        lent@.len() == plan.len(),
        left_to_lend::<C>(plan, borrows@, lent@, Set::empty()),
        reads_parents::<C>(plan, lent_tasks::<C>(lent@)),
        old(outputs)@.len() == plan.len(),
        old(parents_left)@.len() == plan.len(),
        forall|i: int|
            0 <= i < plan.len() ==> #[trigger] old(parents_left)@[i] == plan.parents_total(i),
    ensures
        final(outputs)@.len() == plan.len(),
        final(parents_left)@.len() == plan.len(),
        forall|i: int|
            0 <= i < plan.len() ==> #[trigger] final(parents_left)@[i] == plan.parents_total(i),
        forall|i: u16|
            #![trigger final(outputs)@[i as int]]
            i < plan.len() ==> ran::<C>(
                plan,
                final(outputs)@,
                lent@,
                |i: u16| *final(lent@[i as int]),
                i,
            ),
        is_schedule(plan, rounds@),
{
    let mut borrows = borrows;
    let ghost none: Set<u16> = Set::empty();
    let num: u16 = plan.num_independent();
    let mut heads: Vec<u16> = vec_with_room(num as usize);
    for index in 0..num
        invariant
            heads@.len() == index,
            forall|k: int| 0 <= k < index ==> #[trigger] heads@[k] == k,
    {
        heads.push(index);
    }
    proof {
        assert forall|j: u16|
            #![trigger parents_left@[j as int]]
            j < plan.len() implies parents_left@[j as int] == plan.missing(j, none) by {
            plan.lemma_nothing_done(plan.parents(j as int));
        }
        lemma_first_heads(plan, heads@);
    }
    let jobs = lend::<C>(
        plan,
        &mut borrows,
        outputs,
        &heads,
        Ghost(parents_left@),
        lent,
        Ghost(none),
    );
    let ghost before = jobs@;
    let done = join_independent_tasks(plan, outputs, 0..num as usize, jobs, lent);
    let (next, Ghost(finished)) = finish_round(
        plan,
        outputs,
        parents_left,
        done,
        Ghost(heads@),
        Ghost(before),
        lent,
        Ghost(none),
    );
    let ghost mut rounds: Seq<Seq<u16>> = seq![heads@];
    proof {
        lemma_one_more_round(plan, Seq::empty(), heads@);
        assert(finished_before(plan, Seq::empty(), 0) =~= none);
        assert(Seq::<Seq<u16>>::empty().push(heads@) =~= rounds);
        assert(finished =~= finished_before(plan, rounds, 1));
    }
    let mut heads = next;
    let ghost mut finished = finished;
    while heads.len() > 0
        invariant
            plan.wf(),
            progress::<C>(
                plan,
                outputs@,
                parents_left@,
                lent@,
                |i: u16| *final(lent@[i as int]),
                finished,
            ),
            left_to_lend::<C>(plan, borrows@, lent@, finished),
            ready_heads(plan, finished, heads@),
            follows_owners(plan, finished),
            finished == finished_before(plan, rounds, rounds.len() as int),
            forall|r: int|
                #![trigger rounds[r]]
                0 <= r < rounds.len() ==> ready_heads(
                    plan,
                    finished_before(plan, rounds, r),
                    rounds[r],
                ),
        decreases count_left(plan.len(), finished),
    {
        let jobs = lend::<C>(
            plan,
            &mut borrows,
            outputs,
            &heads,
            Ghost(parents_left@),
            lent,
            Ghost(finished),
        );
        let ghost before = jobs@;
        let done = join_owned_tasks(plan, outputs, jobs, None, lent);
        let (next, Ghost(finished_next)) = finish_round(
            plan,
            outputs,
            parents_left,
            done,
            Ghost(heads@),
            Ghost(before),
            lent,
            Ghost(finished),
        );
        proof {
            let gained = heads@[0];
            assert(heads@.contains(gained));
            assert(plan.under(gained, heads@[0]));
            assert(finished_next.contains(gained));
            lemma_fewer_left(plan.len(), finished, finished_next, gained);
            lemma_one_more_round(plan, rounds, heads@);
            let more = rounds.push(heads@);
            assert forall|r: int|
                #![trigger more[r]]
                0 <= r < more.len() implies ready_heads(
                plan,
                finished_before(plan, more, r),
                more[r],
            ) by {
                if r < rounds.len() {
                    assert(more[r] == rounds[r]);
                }
            }
            rounds = more;
            finished = finished_next;
        }
        heads = next;
    }
    proof {
        assert(heads@ =~= Seq::empty());
        assert forall|i: u16| i < plan.len() implies #[trigger] finished.contains(i) by {
            lemma_all_done(plan, finished, i);
        }
        assert forall|i: int| 0 <= i < plan.len() implies #[trigger] parents_left@[i]
            == plan.parents_total(i) by {
            assert(finished.contains(i as u16));
            assert(parents_left@[(i as u16) as int] == plan.parents_total(i));
        }
        assert forall|i: u16|
            #![trigger outputs@[i as int]]
            i < plan.len() implies ran::<C>(
            plan,
            outputs@,
            lent@,
            |i: u16| *final(lent@[i as int]),
            i,
        ) by {
            assert(finished.contains(i));
        }
    }
    Ghost(rounds)
}

/// What an executor keeps for its tasks, by index.
pub struct Slots<C: Config> {
    tasks: Vec<C::Task>,
    outputs: Vec<OutputSlot<C>>,
    /// For each task the number of its parents that haven't finished yet.
    parents_left: Vec<u16>,
}

impl<C: Config> Slots<C> {
    /// The task with this index.
    pub closed spec fn task(&self, index: int) -> C::Task {
        self.tasks@[index]
    }

    /// The outputs, by the indexes of the tasks that computed them.
    pub closed spec fn outputs(&self) -> Seq<OutputSlot<C>> {
        self.outputs@
    }

    /// The output of the task with this index, if it has run.
    pub open spec fn output(&self, index: int) -> Option<TaskOutput<C>> {
        self.outputs()[index]@
    }

    /// There are slots for all tasks of the plan, and each task reads its parents
    /// only.
    pub closed spec fn fits(&self, plan: &Plan) -> bool {
        &&& self.tasks@.len() == plan.len()
        &&& self.outputs@.len() == plan.len()
        &&& self.parents_left@.len() == plan.len()
        &&& reads_parents::<C>(plan, self.tasks@)
    }

    /// Every task waits for all of its parents.
    pub closed spec fn at_rest(&self, plan: &Plan) -> bool {
        forall|i: int|
            0 <= i < plan.len() ==> #[trigger] self.parents_left@[i] == plan.parents_total(i)
    }

    /// The slots for tasks that lie in the order of their indexes. Nothing has run
    /// yet.
    pub fn new(plan: &Plan, tasks: Vec<C::Task>) -> (slots: Self)
        requires
            plan.wf(),
            tasks@.len() == plan.len(),
            reads_parents::<C>(plan, tasks@),
        ensures
            slots.fits(plan),
            slots.at_rest(plan),
            forall|i: int|
                #![trigger slots.task(i)]
                #![trigger slots.output(i)]
                0 <= i < plan.len() ==> slots.task(i) == tasks@[i] && slots.output(i) is None,
    {
        let len: usize = tasks.len();
        let mut outputs: Vec<OutputSlot<C>> = vec_with_room(len);
        let mut parents_left: Vec<u16> = vec_with_room(len);
        for i in 0..len
            invariant
                plan.wf(),
                len == plan.len(),
                outputs@.len() == i,
                parents_left@.len() == i,
                forall|j: int| 0 <= j < i ==> (#[trigger] outputs@[j])@ is None,
                forall|j: int|
                    0 <= j < i ==> #[trigger] parents_left@[j] == plan.parents_total(j),
        {
            outputs.push(SyncUnsafeCell::new(None));
            parents_left.push(plan.total(i as u16));
        }
        Slots { tasks, outputs, parents_left }
    }

    /// Lets every task wait for all of its parents. An execution that was cut short
    /// by a panic leaves counters behind that are not full.
    fn reset(&mut self, plan: &Plan)
        requires
            plan.wf(),
            old(self).fits(plan),
        ensures
            final(self).fits(plan),
            final(self).at_rest(plan),
            final(self).tasks == old(self).tasks,
            final(self).outputs == old(self).outputs,
    {
        let len: usize = self.parents_left.len();
        for i in 0..len
            invariant
                plan.wf(),
                len == plan.len(),
                self.parents_left@.len() == len,
                self.tasks == old(self).tasks,
                self.outputs == old(self).outputs,
                forall|j: int|
                    0 <= j < i ==> #[trigger] self.parents_left@[j] == plan.parents_total(j),
        {
            self.parents_left.set(i, plan.total(i as u16));
        }
    }

    /// Runs every task once, after all of its parents.
    ///
    /// The tasks stay where they are: where one of them panics, none is lost, and
    /// the next run starts with the tasks as they are then.
    pub fn run(&mut self, plan: &Plan, session: &mut Session)
        requires
            plan.wf(),
            old(self).fits(plan),
        ensures
            final(session).constructed() == old(session).constructed(),
            final(session).run() == old(session).run() + indexes_between(0, plan.len() as int),
            final(self).fits(plan),
            final(self).at_rest(plan),
            forall|i: u16|
                #![trigger final(self).task(i as int)]
                #![trigger final(self).output(i as int)]
                i < plan.len() ==> {
                    &&& final(self).output(i as int) is Some
                    &&& C::Task::runs(
                        old(self).task(i as int),
                        outputs_of_parents::<C>(plan, final(self).outputs(), i),
                        final(self).task(i as int),
                        final(self).output(i as int)->0,
                    )
                },
    {
        self.reset(plan);
        let ghost tasks = self.tasks@;
        let tasks_alone = borrow_each(self.tasks.as_mut_slice());
        let ghost alone = tasks_alone@;
        let ghost lent = Seq::new(plan.len(), |i: int| alone[i]->0);
        proof {
            assert(lent_tasks::<C>(lent) =~= tasks);
        }
        let borrows = give_turns::<C>(plan, tasks_alone, session, Ghost(lent));
        let _rounds = run_rounds::<C>(
            plan,
            borrows,
            &mut self.outputs,
            &mut self.parents_left,
            Ghost(lent),
        );
        proof {
            assert forall|i: u16|
                #![trigger self.outputs@[i as int]]
                i < plan.len() implies *final(lent[i as int]) == self.tasks@[i as int] by {
                assert(lent[i as int] == alone[i as int]->0);
            }
            assert forall|i: int, parent: u16|
                #![trigger self.tasks@[i].reads().contains(parent)]
                0 <= i < self.tasks@.len() && self.tasks@[i].reads().contains(
                    parent,
                ) implies plan.parents(i).contains(parent) by {
                assert(self.outputs@[(i as u16) as int]@ is Some);
                assert(tasks[i].reads().contains(parent));
            }
            assert forall|i: u16|
                #![trigger self.task(i as int)]
                #![trigger self.output(i as int)]
                i < plan.len() implies {
                &&& self.output(i as int) is Some
                &&& C::Task::runs(
                    old(self).task(i as int),
                    outputs_of_parents::<C>(plan, self.outputs(), i),
                    self.task(i as int),
                    self.output(i as int)->0,
                )
            } by {
                assert(self.outputs@[i as int]@ is Some);
            }
        }
    }
}

/// At first the tasks can be started that have no parents.
proof fn lemma_first_heads(plan: &Plan, heads: Seq<u16>)
    requires
        plan.wf(),
        heads.len() == plan.num_independent_tasks(),
        forall|k: int| 0 <= k < heads.len() ==> #[trigger] heads[k] == k,
    ensures
        ready_heads(plan, Set::empty(), heads),
        follows_owners(plan, Set::empty()),
{
    assert forall|j: u16| #[trigger] heads.contains(j) <==> j < plan.len()
        && plan.parents_total(j as int) != 1 && plan.missing(j, Set::empty()) == 0 by {
        if j < plan.len() {
            plan.lemma_nothing_done(plan.parents(j as int));
            lemma_roots_first(plan.graph(), plan.order(), j as int);
            assert(plan.parents_total(j as int) == plan.parents(j as int).len());
            if j < heads.len() {
                assert(heads[j as int] == j);
            }
        }
    }
}

} // verus!
