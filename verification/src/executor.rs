//! The executor of task graphs.

pub mod countdown;
pub mod execute;
pub mod order;
pub mod plan;
pub mod session;
pub mod setup;

use crate::config::Config;
use crate::executor::execute::{Slots, indexes_between, outputs_of_parents};
use crate::executor::order::law_order_is_stable;
use crate::executor::plan::{Plan, law_indexes};
use crate::executor::session::Session;
use crate::executor::setup::{Subscriptions, TaskSetupApiImpl};
use crate::graph::{
    Graph, Subscription, law_children_keep_their_order, law_subscribers_are_children,
    lemma_neighbours, lemma_neighbours_distinct, lemma_parent_known, subscribe_all, subscribe_each,
};
use crate::task::{ExecApi, SetupApi, Task, TaskSubscriptionId, may_subscribe};
use crate::task_map::TaskMap;
use crate::types::{TaskConfig, TaskId, TaskOutput};
use crate::utils::vec_with_room;
use vstd::prelude::*;

pub use crate::executor::setup::ExecutorSetupError;

verus! {

/// Executor of a task graph.
///
/// Key responsibilities:
/// - Validates the dependency graph and detects cycles during `setup`.
/// - Computes a stable topological order and maps each task to an index.
/// - Splits children into `owned` (single parent) and `shared` (multiple
///   parents) to minimize synchronization during `execute`.
/// - Executes independent tasks in parallel and propagates readiness downstream
///   by counting down the parents that a shared child waits for.
#[must_use]
pub struct Executor<C: Config> {
    plan: Plan,
    slots: Slots<C>,
    session: Session,
}

/// Whether the tasks `made` may have been constructed from the given configs, and
/// have subscribed to the given parents.
pub open spec fn constructed<C: Config>(
    configs: Seq<TaskConfig<C>>,
    parents: Seq<Seq<u16>>,
    made: Seq<C::Task>,
) -> bool {
    &&& parents.len() == configs.len()
    &&& made.len() == configs.len()
    &&& forall|i: int|
        #![trigger parents[i]]
        #![trigger made[i]]
        0 <= i < configs.len() ==> C::Task::subscribes(configs[i], parents[i])
            && C::Task::sets_up(configs[i], parents[i], made[i])
}

/// The graph of tasks that have each subscribed to the given parents.
pub open spec fn subscribed_graph(tasks: Seq<u16>, parents: Seq<Seq<u16>>) -> Graph {
    Graph { tasks, subscriptions: subscribe_each(tasks, parents) }
}

/// Whether every task, constructed from its config, subscribes only to tasks that
/// have a config.
pub open spec fn subscribes_to_configured<C: Config>(configs: TaskMap<TaskConfig<C>>) -> bool {
    forall|i: int, parents: Seq<u16>|
        0 <= i < configs.keys().len() && #[trigger] C::Task::subscribes(
            configs.values()[i],
            parents,
        ) ==> may_subscribe(configs.keys().to_set(), parents)
}

/// Whether the executor is what `setup` makes of tasks that have been constructed
/// from the given configs: its graph has the subscriptions of the tasks, and each
/// task lies in its place, without an output.
pub open spec fn set_up<C: Config>(
    configs: TaskMap<TaskConfig<C>>,
    parents: Seq<Seq<u16>>,
    made: Seq<C::Task>,
    executor: Executor<C>,
) -> bool {
    &&& constructed::<C>(configs.values(), parents, made)
    &&& executor.graph() == subscribed_graph(configs.keys(), parents)
    &&& forall|i: int|
        #![trigger executor.task(i)]
        #![trigger executor.output(i)]
        0 <= i < executor.order().len() ==> executor.task(i) == made[configs.place(
            executor.order()[i],
        )] && executor.output(i) is None
}

/// Whether setting up tasks from the given configs runs into a cycle.
pub open spec fn runs_into_cycle<C: Config>(
    configs: TaskMap<TaskConfig<C>>,
    parents: Seq<Seq<u16>>,
    made: Seq<C::Task>,
) -> bool {
    &&& constructed::<C>(configs.values(), parents, made)
    &&& subscribed_graph(configs.keys(), parents).has_cycle()
}

/// Whether `after` is what an execution makes of `before`: every task has run once,
/// on the outputs that its parents have computed in the same execution.
pub open spec fn execution<C: Config>(before: Executor<C>, after: Executor<C>) -> bool {
    forall|i: int|
        #![trigger after.task(i)]
        #![trigger after.output(i)]
        0 <= i < before.order().len() ==> {
            &&& after.output(i) is Some
            &&& C::Task::runs(
                before.task(i),
                after.parents_outputs(i),
                after.task(i),
                after.output(i)->0,
            )
        }
}

/// Whether the output of a task, and what becomes of the task, depend only on the
/// task and on the outputs of its parents.
pub open spec fn is_deterministic<C: Config>() -> bool {
    forall|
        task: C::Task,
        data: Map<u16, TaskOutput<C>>,
        one: C::Task,
        other: C::Task,
        one_output: TaskOutput<C>,
        other_output: TaskOutput<C>,
    |
        #[trigger] C::Task::runs(task, data, one, one_output) && #[trigger] C::Task::runs(
            task,
            data,
            other,
            other_output,
        ) ==> one == other && one_output == other_output
}

/// Whether the config of a task determines the parents that the task subscribes to.
pub open spec fn configs_determine_parents<C: Config>() -> bool {
    forall|config: TaskConfig<C>, one: Seq<u16>, other: Seq<u16>|
        #[trigger] C::Task::subscribes(config, one) && #[trigger] C::Task::subscribes(
            config,
            other,
        ) ==> one == other
}

/// Where the config of a task determines its parents, the configs determine the
/// graph, and thereby whether the setup succeeds and which index each task gets.
pub proof fn law_configs_determine_graph<C: Config>(
    configs: TaskMap<TaskConfig<C>>,
    parents: Seq<Seq<u16>>,
    made: Seq<C::Task>,
    other_parents: Seq<Seq<u16>>,
    other_made: Seq<C::Task>,
)
    requires
        constructed::<C>(configs.values(), parents, made),
        constructed::<C>(configs.values(), other_parents, other_made),
        configs_determine_parents::<C>(),
    ensures
        subscribed_graph(configs.keys(), other_parents) == subscribed_graph(
            configs.keys(),
            parents,
        ),
{
    assert forall|i: int| 0 <= i < parents.len() implies other_parents[i] == parents[i] by {
        assert(C::Task::subscribes(configs.values()[i], parents[i]));
        assert(C::Task::subscribes(configs.values()[i], other_parents[i]));
    }
    assert(other_parents =~= parents);
}

/// Whether two graphs have the same tasks, and each task has the same parents in both,
/// in whatever order.
pub open spec fn same_graph(one: Graph, other: Graph) -> bool {
    &&& one.tasks.to_set() == other.tasks.to_set()
    &&& forall|parent: u16, child: u16| #[trigger]
        one.is_parent(parent, child) <==> #[trigger] other.is_parent(parent, child)
}

/// In the same graph, tasks have the same number of parents, and there is a cycle in one
/// exactly if there is one in the other.
proof fn lemma_same_graph(one: Graph, other: Graph)
    requires
        one.wf(),
        other.wf(),
        same_graph(one, other),
    ensures
        one.has_cycle() <==> other.has_cycle(),
        forall|task: u16| #[trigger]
            one.parents(task).len() == #[trigger] other.parents(task).len(),
{
    assert forall|walk: Seq<u16>| #[trigger] one.is_cycle(walk) <==> other.is_cycle(walk) by {
        assert forall|i: int| 0 < i < walk.len() implies one.is_parent(
            walk[i - 1],
            #[trigger] walk[i],
        ) == other.is_parent(walk[i - 1], walk[i]) by {}
    }
    if one.has_cycle() {
        let walk = choose|walk: Seq<u16>| one.is_cycle(walk);
        assert(other.is_cycle(walk));
    }
    if other.has_cycle() {
        let walk = choose|walk: Seq<u16>| other.is_cycle(walk);
        assert(one.is_cycle(walk));
    }
    assert forall|task: u16| #[trigger] one.parents(task).len() == #[trigger] other.parents(
        task,
    ).len() by {
        lemma_neighbours_distinct(one.subscriptions, task);
        lemma_neighbours_distinct(other.subscriptions, task);
        assert forall|parent: u16| one.parents(task).contains(parent) <==> other.parents(
            task,
        ).contains(parent) by {
            lemma_neighbours(one.subscriptions, task, parent);
            lemma_neighbours(other.subscriptions, task, parent);
            assert(one.is_parent(parent, task) <==> other.is_parent(parent, task));
        }
        assert(one.parents(task).to_set() =~= other.parents(task).to_set());
        one.parents(task).unique_seq_to_set();
        other.parents(task).unique_seq_to_set();
    }
}

/// The order in which configs are inserted matters neither for whether the setup
/// succeeds nor for how many parents each task waits for: where the config of a task
/// determines its parents, two maps with the same entries give the same graph.
///
/// `plan` and `other_plan` are the plans that are made of the graphs.
pub proof fn law_insertion_order_does_not_matter<C: Config>(
    configs: TaskMap<TaskConfig<C>>,
    parents: Seq<Seq<u16>>,
    made: Seq<C::Task>,
    plan: Plan,
    other_configs: TaskMap<TaskConfig<C>>,
    other_parents: Seq<Seq<u16>>,
    other_made: Seq<C::Task>,
    other_plan: Plan,
)
    requires
        configs.wf(),
        other_configs.wf(),
        other_configs.entries() == configs.entries(),
        subscribes_to_configured::<C>(configs),
        configs_determine_parents::<C>(),
        constructed::<C>(configs.values(), parents, made),
        constructed::<C>(other_configs.values(), other_parents, other_made),
    ensures
        ({
            let graph = subscribed_graph(configs.keys(), parents);
            let other_graph = subscribed_graph(other_configs.keys(), other_parents);
            &&& same_graph(graph, other_graph)
            &&& graph.has_cycle() <==> other_graph.has_cycle()
            &&& plan.wf() && plan.graph() == graph && other_plan.wf() && other_plan.graph()
                == other_graph ==> forall|task: u16|
                configs.keys().contains(task) ==> #[trigger] plan.parents_total(
                    plan.index(task) as int,
                ) == other_plan.parents_total(other_plan.index(task) as int)
        }),
{
    let keys = configs.keys();
    let other_keys = other_configs.keys();
    let graph = subscribed_graph(keys, parents);
    let other_graph = subscribed_graph(other_keys, other_parents);
    configs.lemma_len();
    other_configs.lemma_len();
    assert forall|task: u16| #[trigger] keys.contains(task) <==> other_keys.contains(task) by {
        assert(configs.entries().contains_key(task) <==> keys.contains(task));
        assert(other_configs.entries().contains_key(task) <==> other_keys.contains(task));
    }
    assert(keys.to_set() =~= other_keys.to_set());
    assert forall|i: int| 0 <= i < keys.len() implies ({
        let k = #[trigger] other_configs.place(keys[i]);
        &&& 0 <= k < other_keys.len()
        &&& other_keys[k] == keys[i]
        &&& other_parents[k] == parents[i]
    }) by {
        assert(keys.contains(keys[i]));
        let k = other_configs.place(keys[i]);
        assert(configs.place(keys[i]) == i);
        assert(configs.entries()[keys[i]] == configs.values()[i]);
        assert(other_configs.entries()[keys[i]] == other_configs.values()[k]);
        assert(C::Task::subscribes(configs.values()[i], parents[i]));
        assert(C::Task::subscribes(other_configs.values()[k], other_parents[k]));
    }
    law_subscribers_are_children(keys, parents);
    law_subscribers_are_children(other_keys, other_parents);
    assert forall|parent: u16, child: u16| #[trigger] graph.is_parent(parent, child)
        <==> #[trigger] other_graph.is_parent(parent, child) by {
        let made = Subscription { child, parent };
        if keys.contains(child) {
            let i = configs.place(child);
            let k = other_configs.place(keys[i]);
            assert(graph.subscriptions.contains(Subscription { child: keys[i], parent })
                <==> parents[i].contains(parent));
            assert(other_graph.subscriptions.contains(Subscription { child: other_keys[k], parent })
                <==> other_parents[k].contains(parent));
        }
    }
    assert forall|i: int| 0 <= i < keys.len() implies may_subscribe(
        keys.to_set(),
        #[trigger] parents[i],
    ) by {
        assert(C::Task::subscribes(configs.values()[i], parents[i]));
    }
    assert forall|k: int| 0 <= k < other_keys.len() implies may_subscribe(
        other_keys.to_set(),
        #[trigger] other_parents[k],
    ) by {
        assert(other_keys.contains(other_keys[k]));
        assert(keys.contains(other_keys[k]));
        let i = configs.place(other_keys[k]);
        assert(keys[i] == other_keys[k]);
        assert(other_configs.place(keys[i]) == k);
        assert(may_subscribe(keys.to_set(), parents[i]));
    }
    lemma_subscribed_graph(keys, parents);
    lemma_subscribed_graph(other_keys, other_parents);
    lemma_same_graph(graph, other_graph);
    if plan.wf() && plan.graph() == graph && other_plan.wf() && other_plan.graph() == other_graph {
        law_indexes(plan);
        law_indexes(other_plan);
        assert forall|task: u16| keys.contains(task) implies #[trigger] plan.parents_total(
            plan.index(task) as int,
        ) == other_plan.parents_total(other_plan.index(task) as int) by {
            let i = plan.index(task) as int;
            let k = other_plan.index(task) as int;
            assert(plan.parents_total(i) == plan.parents(i).len());
            assert(other_plan.parents_total(k) == other_plan.parents(k).len());
            assert(graph.parents(task).len() == other_graph.parents(task).len());
        }
    }
}

/// Each task is constructed once, and no task is constructed that does not lie in the
/// executor: the `k`-th task that has been constructed is the one that the executor
/// holds under the number of the `k`-th config.
pub proof fn law_tasks_are_constructed_once<C: Config>(
    configs: TaskMap<TaskConfig<C>>,
    parents: Seq<Seq<u16>>,
    made: Seq<C::Task>,
    executor: Executor<C>,
)
    requires
        configs.wf(),
        executor.wf(),
        set_up(configs, parents, made, executor),
        executor.constructed() == configs.keys(),
    ensures
        executor.constructed().no_duplicates(),
        executor.constructed().len() == executor.order().len(),
        executor.constructed().to_set() == executor.order().to_set(),
        forall|k: int|
            #![trigger executor.constructed()[k]]
            #![trigger made[k]]
            0 <= k < executor.constructed().len() ==> executor.state_of(executor.constructed()[k])
                == made[k] && C::Task::sets_up(configs.values()[k], parents[k], made[k]),
{
    let keys = configs.keys();
    let order = executor.order();
    let plan = executor.plan();
    configs.lemma_len();
    law_indexes(plan);
    assert forall|k: int|
        #![trigger executor.constructed()[k]]
        #![trigger made[k]]
        0 <= k < keys.len() implies executor.state_of(keys[k]) == made[k] && C::Task::sets_up(
        configs.values()[k],
        parents[k],
        made[k],
    ) by {
        assert(keys.contains(keys[k]));
        let i = plan.index(keys[k]) as int;
        assert(order[i] == keys[k]);
        assert(order.index_of(keys[k]) == i);
        assert(configs.place(keys[k]) == k);
        assert(executor.task(i) == made[configs.place(order[i])]);
    }
}

/// One execution runs each task of the graph once more than it has been run before, and
/// constructs none.
pub proof fn law_execution_runs_each_task_once<C: Config>(before: Executor<C>, after: Executor<C>)
    requires
        before.wf(),
        after.run() == before.run() + indexes_between(0, before.order().len() as int),
    ensures
        forall|index: u16| #[trigger]
            after.run().to_multiset().count(index) == before.run().to_multiset().count(index) + (
            if index < before.order().len() {
                1int
            } else {
                0int
            }),
{
    let once = indexes_between(0, before.order().len() as int);
    vstd::seq_lib::lemma_multiset_commutative(before.run(), once);
    assert(once.no_duplicates());
    once.lemma_multiset_has_no_duplicates();
    assert forall|index: u16| #[trigger] after.run().to_multiset().count(index)
        == before.run().to_multiset().count(index) + (if index < before.order().len() {
        1int
    } else {
        0int
    }) by {
        vstd::seq_lib::to_multiset_contains(once, index);
        if index < before.order().len() {
            assert(once[index as int] == index);
        }
    }
}

/// The indexes are stable: of two tasks that have subscribed to the same task and to no
/// other, the one that is configured first has the lower index.
pub proof fn law_siblings_keep_their_order<C: Config>(
    configs: TaskMap<TaskConfig<C>>,
    parents: Seq<Seq<u16>>,
    made: Seq<C::Task>,
    executor: Executor<C>,
    parent: u16,
    i: int,
    j: int,
)
    requires
        configs.wf(),
        executor.wf(),
        set_up(configs, parents, made, executor),
        0 <= i < j < configs.keys().len(),
        parents[i].len() > 0,
        parents[j].len() > 0,
        forall|k: int| 0 <= k < parents[i].len() ==> #[trigger] parents[i][k] == parent,
        forall|k: int| 0 <= k < parents[j].len() ==> #[trigger] parents[j][k] == parent,
    ensures
        executor.plan().index(configs.keys()[i]) < executor.plan().index(configs.keys()[j]),
{
    let keys = configs.keys();
    let plan = executor.plan();
    let graph = plan.graph();
    let one = keys[i];
    let other = keys[j];
    configs.lemma_len();
    assert(parents[i][0] == parent && parents[j][0] == parent);
    assert(parents[i].contains(parent) && parents[j].contains(parent));
    law_subscribers_are_children(keys, parents);
    law_children_keep_their_order(keys, parents, parent, i, j);
    assert forall|x: u16| #[trigger] graph.is_parent(x, one) implies x == parent by {
        assert(graph.subscriptions.contains(Subscription { child: keys[i], parent: x }));
        let k = choose|k: int| 0 <= k < parents[i].len() && parents[i][k] == x;
    }
    assert forall|y: u16| #[trigger] graph.is_parent(y, other) implies y == parent by {
        assert(graph.subscriptions.contains(Subscription { child: keys[j], parent: y }));
        let k = choose|k: int| 0 <= k < parents[j].len() && parents[j][k] == y;
    }
    assert(graph.subscriptions.contains(Subscription { child: keys[i], parent }));
    assert(graph.subscriptions.contains(Subscription { child: keys[j], parent }));
    lemma_neighbours(graph.subscriptions, one, parent);
    lemma_neighbours(graph.subscriptions, other, parent);
    assert(keys.contains(one) && keys.contains(other));
    law_order_is_stable(graph, one, other);
    law_indexes(plan);
    let order = plan.order();
    assert(order[plan.index(one) as int] == one && order[plan.index(other) as int] == other);
}

/// The outcome of an execution does not depend on which tasks happen to run in
/// parallel, which of them happens to finish first, or which indexes they have: where
/// each task is deterministic, any two executors of the same graph whose tasks are in
/// the same state end an execution with each task in the same state and with the same
/// output.
pub proof fn law_execution_is_deterministic<C: Config>(
    first: Executor<C>,
    first_after: Executor<C>,
    second: Executor<C>,
    second_after: Executor<C>,
)
    requires
        first.wf(),
        second.wf(),
        same_graph(first.graph(), second.graph()),
        first_after.plan() == first.plan(),
        second_after.plan() == second.plan(),
        forall|task: u16|
            first.graph().tasks.contains(task) ==> #[trigger] second.state_of(task)
                == first.state_of(task),
        execution(first, first_after),
        execution(second, second_after),
        is_deterministic::<C>(),
    ensures
        forall|task: u16|
            #![trigger second_after.state_of(task)]
            #![trigger second_after.output_of(task)]
            first.graph().tasks.contains(task) ==> second_after.state_of(task)
                == first_after.state_of(task) && second_after.output_of(task)
                == first_after.output_of(task) && first_after.output_of(task) is Some,
{
    assert forall|task: u16|
        #![trigger second_after.state_of(task)]
        #![trigger second_after.output_of(task)]
        first.graph().tasks.contains(task) implies second_after.state_of(task)
        == first_after.state_of(task) && second_after.output_of(task) == first_after.output_of(task)
        && first_after.output_of(task) is Some by {
        lemma_same_outcome(first, first_after, second, second_after, task);
    }
}

/// A token that a task got for a parent when it was set up can be used in each of its
/// executions, and what it reads is the output that the parent has returned in the
/// same execution.
///
/// `start` is the executor that `setup` has made, and `before` and `after` are that
/// executor before and after one of its executions. `api` is what the task of `child`
/// is handed then, and `output` what reading with the token gives.
pub proof fn law_tokens_read_parents_outputs<C: Config, A: ExecApi<TaskOutput<C>>>(
    configs: TaskMap<TaskConfig<C>>,
    parents: Seq<Seq<u16>>,
    made: Seq<C::Task>,
    start: Executor<C>,
    before: Executor<C>,
    after: Executor<C>,
    child: u16,
    token: TaskSubscriptionId,
    api: A,
    output: TaskOutput<C>,
)
    requires
        configs.wf(),
        set_up(configs, parents, made, start),
        before.wf(),
        before.plan() == start.plan(),
        after.plan() == before.plan(),
        execution(before, after),
        configs.keys().contains(child),
        parents[configs.place(child)].contains(token.parent()),
        api.published() == after.parents_outputs(before.order().index_of(child)),
        output == api.published()[token.parent()],
    ensures
        before.order().contains(child),
        before.order().contains(token.parent()),
        before.order().index_of(token.parent()) < before.order().index_of(child),
        api.published().dom().contains(token.parent()),
        after.output_of(token.parent()) == Some(output),
{
    let plan = before.plan();
    let keys = configs.keys();
    let order = plan.order();
    let place = configs.place(child);
    configs.lemma_len();
    law_subscribers_are_children(keys, parents);
    assert(keys[place] == child);
    assert(plan.graph().subscriptions.contains(
        Subscription { child: keys[place], parent: token.parent() },
    ));
    law_indexes(plan);
    assert(plan.graph().is_parent(token.parent(), child));
    lemma_parent_known(plan.graph(), token.parent(), child);
    let i = plan.index(child) as int;
    let j = plan.index(token.parent()) as int;
    assert(order[i] == child);
    assert(order[j] == token.parent());
    assert(after.output(j) is Some);
}

/// The outcomes of two executions agree on a task.
proof fn lemma_same_outcome<C: Config>(
    first: Executor<C>,
    first_after: Executor<C>,
    second: Executor<C>,
    second_after: Executor<C>,
    task: u16,
)
    requires
        first.wf(),
        second.wf(),
        same_graph(first.graph(), second.graph()),
        first_after.plan() == first.plan(),
        second_after.plan() == second.plan(),
        forall|task: u16|
            first.graph().tasks.contains(task) ==> #[trigger] second.state_of(task)
                == first.state_of(task),
        execution(first, first_after),
        execution(second, second_after),
        is_deterministic::<C>(),
        first.graph().tasks.contains(task),
    ensures
        second_after.state_of(task) == first_after.state_of(task),
        second_after.output_of(task) == first_after.output_of(task),
        first_after.output_of(task) is Some,
    decreases first.plan().index(task),
{
    let plan = first.plan();
    let other_plan = second.plan();
    let order = plan.order();
    let other_order = other_plan.order();
    law_indexes(plan);
    law_indexes(other_plan);
    assert(plan.graph().tasks.to_set().contains(task));
    assert(other_plan.graph().tasks.to_set().contains(task));
    let i = plan.index(task) as int;
    let k = other_plan.index(task) as int;
    assert(order[i] == task && order.index_of(task) == i);
    assert(other_order[k] == task && other_order.index_of(task) == k);
    let data = first_after.parents_outputs(i);
    let other_data = second_after.parents_outputs(k);
    assert forall|parent: u16| #[trigger] data.contains_key(parent) <==> other_data.contains_key(
        parent,
    ) by {
        assert(first.graph().is_parent(parent, task) <==> second.graph().is_parent(parent, task));
    }
    assert forall|parent: u16| #[trigger] data.contains_key(parent) implies data[parent]
        == other_data[parent] by {
        lemma_parent_known(plan.graph(), parent, task);
        lemma_same_outcome(first, first_after, second, second_after, parent);
    }
    assert(data =~= other_data);
    assert(first.state_of(task) == first.task(i) && second.state_of(task) == second.task(k));
    assert(C::Task::runs(first.task(i), data, first_after.task(i), first_after.output(i)->0));
    assert(second_after.output(k) is Some);
    assert(C::Task::runs(first.task(i), data, second_after.task(k), second_after.output(k)->0));
}

/// The graph of tasks that subscribe only to tasks among them is in order.
proof fn lemma_subscribed_graph(tasks: Seq<u16>, parents: Seq<Seq<u16>>)
    requires
        tasks.no_duplicates(),
        !tasks.contains(0),
        parents.len() == tasks.len(),
        forall|i: int|
            0 <= i < tasks.len() ==> may_subscribe(tasks.to_set(), #[trigger] parents[i]),
    ensures
        subscribed_graph(tasks, parents).wf(),
{
    law_subscribers_are_children(tasks, parents);
    let graph = subscribed_graph(tasks, parents);
    assert forall|k: int|
        #![trigger graph.subscriptions[k]]
        0 <= k < graph.subscriptions.len() implies {
        &&& graph.tasks.contains(graph.subscriptions[k].child)
        &&& graph.tasks.contains(graph.subscriptions[k].parent)
    } by {
        let made = graph.subscriptions[k];
        assert(graph.subscriptions.contains(made));
        let i = choose|i: int| 0 <= i < tasks.len() && tasks[i] == made.child;
        assert(graph.subscriptions.contains(Subscription { child: tasks[i], parent: made.parent }));
        assert(parents[i].contains(made.parent));
        let j = choose|j: int| 0 <= j < parents[i].len() && parents[i][j] == made.parent;
        assert(tasks.to_set().contains(parents[i][j]));
    }
}

/// Constructs the tasks, in the order of their configs, and collects their
/// subscriptions.
fn setup_tasks<C: Config>(
    session: &mut Session,
    task_configs: &TaskMap<TaskConfig<C>>,
) -> (made: (Vec<C::Task>, Subscriptions, Ghost<Seq<Seq<u16>>>))
    requires
        task_configs.wf(),
        subscribes_to_configured::<C>(*task_configs),
    ensures
        final(session).constructed() == old(session).constructed() + task_configs.keys(),
        final(session).run() == old(session).run(),
        made.1.wf(),
        made.1@ == subscribe_each(task_configs.keys(), made.2@),
        made.0@.len() == task_configs.keys().len(),
        constructed::<C>(task_configs.values(), made.2@, made.0@),
        forall|i: int|
            0 <= i < made.0@.len() ==> (#[trigger] made.0@[i]).reads().subset_of(
                made.2@[i].to_set(),
            ),
{
    let ghost keys = task_configs.keys();
    let ghost configs = task_configs.values();
    let ghost mut parents: Seq<Seq<u16>> = Seq::empty();
    let len: usize = task_configs.len();
    let mut tasks: Vec<C::Task> = vec_with_room(len);
    let capacity: usize = if len > 0 {
        len - 1
    } else {
        0
    };
    let mut subscriptions = Subscriptions::with_capacity(capacity);
    assert(keys.take(0) =~= Seq::empty());
    for i in 0..len
        invariant
            task_configs.wf(),
            subscribes_to_configured::<C>(*task_configs),
            keys == task_configs.keys(),
            configs == task_configs.values(),
            len == keys.len(),
            session.constructed() == old(session).constructed() + keys.take(i as int),
            session.run() == old(session).run(),
            subscriptions.wf(),
            parents.len() == i,
            subscriptions@ == subscribe_each(keys.take(i as int), parents),
            tasks@.len() == i,
            forall|j: int|
                #![trigger parents[j]]
                #![trigger tasks@[j]]
                0 <= j < i ==> C::Task::subscribes(configs[j], parents[j]) && C::Task::sets_up(
                    configs[j],
                    parents[j],
                    tasks@[j],
                ),
            forall|j: int|
                0 <= j < i ==> (#[trigger] tasks@[j]).reads().subset_of(parents[j].to_set()),
    {
        let current_task_id = TaskId::new(task_configs.key_at(i)).unwrap();
        let config = task_configs.value_at(i);
        let turn = session.construct(current_task_id);
        let mut api = TaskSetupApiImpl::new(turn, task_configs, subscriptions);
        let ghost before = api.subscriptions();
        let task = C::Task::setup(&mut api, config);
        proof {
            let subscribed = choose|subscribed: Seq<u16>|
                {
                    &&& #[trigger] C::Task::subscribes(*config, subscribed)
                    &&& C::Task::sets_up(*config, subscribed, task)
                    &&& api.subscriptions() == subscribe_all(before, keys[i as int], subscribed)
                    &&& task.reads().subset_of(subscribed.to_set())
                };
            let longer = parents.push(subscribed);
            assert(keys.take(i + 1) =~= keys.take(i as int).push(keys[i as int]));
            assert(keys.take(i + 1).drop_last() =~= keys.take(i as int));
            assert(longer.drop_last() =~= parents);
            parents = longer;
        }
        subscriptions = api.into_subscriptions();
        tasks.push(task);
    }
    proof {
        task_configs.lemma_len();
        assert(keys.take(len as int) =~= keys);
    }
    (tasks, subscriptions, Ghost(parents))
}

/// Moves the tasks from the order of their configs to the order of their indexes.
fn order_tasks<C: Config>(
    plan: &Plan,
    task_configs: &TaskMap<TaskConfig<C>>,
    tasks: Vec<C::Task>,
) -> (ordered: Vec<C::Task>)
    requires
        plan.wf(),
        task_configs.wf(),
        plan.graph().tasks == task_configs.keys(),
        tasks@.len() == task_configs.keys().len(),
    ensures
        ordered@.len() == plan.len(),
        forall|i: int|
            0 <= i < ordered@.len() ==> #[trigger] ordered@[i] == tasks@[task_configs.place(
                plan.order()[i],
            )],
{
    let ghost keys = task_configs.keys();
    let ghost order = plan.order();
    let ghost all = tasks@;
    let len: usize = plan.num_tasks();
    let mut tasks = tasks;
    // Here the last task comes first.
    proof {
        task_configs.lemma_len();
    }
    let mut left: Vec<Option<C::Task>> = vec_with_room(tasks.len());
    while tasks.len() > 0
        invariant
            tasks@.len() + left@.len() == all.len(),
            tasks@ == all.take(tasks@.len() as int),
            forall|k: int|
                0 <= k < left@.len() ==> #[trigger] left@[k] == Some(all[all.len() - 1 - k]),
        decreases tasks@.len(),
    {
        let task = tasks.pop().unwrap();
        left.push(Some(task));
    }
    let mut ordered: Vec<C::Task> = vec_with_room(len);
    for index in 0..len
        invariant
            plan.wf(),
            task_configs.wf(),
            plan.graph().tasks == keys,
            keys == task_configs.keys(),
            order == plan.order(),
            len == order.len(),
            len <= 0xffff,
            all.len() == keys.len(),
            left@.len() == all.len(),
            forall|k: int|
                #![trigger left@[k]]
                0 <= k < keys.len() && !order.take(index as int).contains(keys[keys.len() - 1 - k])
                    ==> left@[k] == Some(all[keys.len() - 1 - k]),
            ordered@.len() == index,
            forall|i: int|
                0 <= i < index ==> #[trigger] ordered@[i] == all[task_configs.place(order[i])],
    {
        let number: u16 = plan.task_at(index as u16);
        proof {
            assert(order.to_set().contains(number));
            assert(keys.to_set().contains(number));
            let earlier = order.take(index as int);
            assert(!earlier.contains(number)) by {
                if earlier.contains(number) {
                    let i = choose|i: int| 0 <= i < earlier.len() && earlier[i] == number;
                    assert(order[i] == order[index as int]);
                }
            }
            assert(order.take(index + 1) =~= earlier.push(number));
            assert forall|other: u16| earlier.contains(other) implies #[trigger] order.take(
                index + 1,
            ).contains(other) by {
                vstd::seq_lib::lemma_seq_contains_after_push(earlier, number, other);
            }
            vstd::seq_lib::lemma_seq_contains_after_push(earlier, number, number);
        }
        let position: usize = task_configs.position(number).unwrap();
        let from_last: usize = left.len() - 1 - position;
        assert(keys[keys.len() - 1 - from_last] == number);
        ordered.push(left[from_last].take().unwrap());
    }
    ordered
}

impl<C: Config> Executor<C> {
    /// The plan is in order, and the tasks fit it.
    pub open spec fn wf(&self) -> bool {
        &&& self.plan().wf()
        &&& self.fits()
    }

    /// There is a task for each index, and it reads its parents only.
    pub closed spec fn fits(&self) -> bool {
        self.slots.fits(&self.plan)
    }

    /// Every task waits for all of its parents.
    pub closed spec fn at_rest(&self) -> bool {
        self.slots.at_rest(&self.plan)
    }

    /// The numbers of all tasks that have been constructed for this executor, in this
    /// order.
    pub closed spec fn constructed(&self) -> Seq<u16> {
        self.session.constructed()
    }

    /// The indexes of all tasks that have been run for this executor, each as often as
    /// it has been run.
    pub closed spec fn run(&self) -> Seq<u16> {
        self.session.run()
    }

    /// The plan of the executor.
    pub closed spec fn plan(&self) -> Plan {
        self.plan
    }

    /// The task graph.
    pub open spec fn graph(&self) -> Graph {
        self.plan().graph()
    }

    /// The tasks in the order of their indexes.
    pub open spec fn order(&self) -> Seq<u16> {
        self.plan().order()
    }

    /// The task with this index.
    pub closed spec fn task(&self, index: int) -> C::Task {
        self.slots.task(index)
    }

    /// The output of the task with this index, if it has run.
    pub closed spec fn output(&self, index: int) -> Option<TaskOutput<C>> {
        self.slots.output(index)
    }

    /// The task with this number, in the state that it is in.
    pub open spec fn state_of(&self, task: u16) -> C::Task {
        self.task(self.order().index_of(task))
    }

    /// The output of the task with this number, if it has run.
    pub open spec fn output_of(&self, task: u16) -> Option<TaskOutput<C>> {
        self.output(self.order().index_of(task))
    }

    /// The outputs of the parents of the task with this index.
    pub open spec fn parents_outputs(&self, index: int) -> Map<u16, TaskOutput<C>> {
        Map::new(
            |parent: u16| self.graph().is_parent(parent, self.order()[index]),
            |parent: u16| self.output_of(parent)->0,
        )
    }

    /// `setup`, with an account of what is done for it. Where the graph contains
    /// cycle(s), the account is handed back.
    fn setup_in(session: Session, task_configs: &TaskMap<TaskConfig<C>>) -> (executor: Result<
        Self,
        (ExecutorSetupError, Session),
    >)
        requires
            task_configs.wf(),
            subscribes_to_configured::<C>(*task_configs),
        ensures
            match executor {
                Ok(executor) => {
                    &&& executor.wf()
                    &&& executor.at_rest()
                    &&& !executor.graph().has_cycle()
                    &&& exists|parents: Seq<Seq<u16>>, made: Seq<C::Task>| #[trigger]
                        set_up(*task_configs, parents, made, executor)
                    &&& executor.constructed() == session.constructed() + task_configs.keys()
                    &&& executor.run() == session.run()
                },
                Err((error, account)) => {
                    &&& error == ExecutorSetupError::Cycle
                    &&& exists|parents: Seq<Seq<u16>>, made: Seq<C::Task>| #[trigger]
                        runs_into_cycle::<C>(*task_configs, parents, made)
                    &&& account.constructed() == session.constructed() + task_configs.keys()
                    &&& account.run() == session.run()
                },
            },
    {
        let mut account = session;
        let (tasks, subscriptions, Ghost(parents)) = setup_tasks::<C>(&mut account, task_configs);
        let ghost keys = task_configs.keys();
        let ghost made = tasks@;
        proof {
            task_configs.lemma_len();
            assert forall|i: int| 0 <= i < keys.len() implies may_subscribe(
                keys.to_set(),
                #[trigger] parents[i],
            ) by {
                assert(C::Task::subscribes(task_configs.values()[i], parents[i]));
            }
            lemma_subscribed_graph(keys, parents);
        }
        let plan = match Plan::new(task_configs, &subscriptions) {
            Ok(plan) => plan,
            Err(error) => {
                assert(runs_into_cycle::<C>(*task_configs, parents, made));
                return Err((error, account));
            },
        };
        let ordered = order_tasks::<C>(&plan, task_configs, tasks);
        proof {
            let order = plan.order();
            let in_order = ordered@;
            assert forall|i: int| 0 <= i < order.len() implies {
                let place = #[trigger] task_configs.place(order[i]);
                &&& 0 <= place < keys.len()
                &&& keys[place] == order[i]
            } by {
                assert(order.to_set().contains(order[i]));
                assert(keys.to_set().contains(order[i]));
            }
            assert forall|i: int, parent: u16|
                #![trigger in_order[i].reads().contains(parent)]
                0 <= i < in_order.len() && in_order[i].reads().contains(parent) implies
                plan.parents(i).contains(parent) by {
                let place = task_configs.place(order[i]);
                assert(made[place].reads().subset_of(parents[place].to_set()));
                assert(parents[place].to_set().contains(parent));
                law_subscribers_are_children(keys, parents);
                assert(plan.graph().subscriptions.contains(
                    Subscription { child: keys[place], parent },
                ));
                lemma_neighbours(plan.graph().subscriptions, order[i], parent);
            }
        }
        let slots = Slots::new(&plan, ordered);
        let executor = Executor { plan, slots, session: account };
        assert(set_up(*task_configs, parents, made, executor));
        Ok(executor)
    }

    /// Execute the tasks in a parallel, dependency-respecting manner.
    ///
    /// Every task runs once, on the outputs that its parents have computed in this
    /// execution. The executor can be used again afterwards, also where a task has
    /// panicked.
    pub fn execute(&mut self)
        requires
            old(self).wf(),
        ensures
            final(self).wf(),
            final(self).at_rest(),
            final(self).plan() == old(self).plan(),
            execution(*old(self), *final(self)),
            final(self).constructed() == old(self).constructed(),
            final(self).run() == old(self).run() + indexes_between(
                0,
                old(self).order().len() as int,
            ),
    {
        let ghost before = *self;
        self.slots.run(&self.plan, &mut self.session);
        proof {
            let plan = self.plan;
            let order = plan.order();
            assert forall|i: int|
                #![trigger self.task(i)]
                #![trigger self.output(i)]
                0 <= i < order.len() implies {
                &&& self.output(i) is Some
                &&& C::Task::runs(
                    before.task(i),
                    self.parents_outputs(i),
                    self.task(i),
                    self.output(i)->0,
                )
            } by {
                let index = i as u16;
                assert(self.slots.output(index as int) is Some);
                let data = outputs_of_parents::<C>(&plan, self.slots.outputs(), index);
                assert forall|parent: u16| #[trigger] data.contains_key(parent) <==>
                    self.parents_outputs(i).contains_key(parent) by {
                    lemma_neighbours(plan.graph().subscriptions, order[i], parent);
                }
                assert forall|parent: u16| #[trigger] data.contains_key(parent) implies data[parent]
                    == self.parents_outputs(i)[parent] by {
                    plan.lemma_parent(index, parent);
                    assert(order[order.index_of(parent)] == parent);
                }
                assert(data =~= self.parents_outputs(i));
            }
        }
    }
}

} // verus!
