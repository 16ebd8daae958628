//! The plan of an execution: which tasks a finished task releases, and how many
//! parents each task waits for.

use crate::executor::order::{
    TaskSetupLayout, laid_out, lemma_filter, stable_order, topological_order,
};
use crate::executor::setup::{ExecutorSetupError, Subscriptions};
use crate::graph::{Graph, lemma_neighbours, lemma_neighbours_distinct, lemma_parent_known};
use crate::outside::{set_get_index, set_items, set_len, sort_indexes};
use crate::task_map::{TaskMap, lemma_nonzero_numbers};
use crate::utils::{map_with_room, vec_with_room};
use std::collections::HashMap;
use vstd::prelude::*;

verus! {

/// What the executor knows of a graph: the tasks go by their places in the
/// topological order, here called indexes.
pub struct Plan {
    tasks: Vec<u16>,
    owned_children: Vec<Vec<u16>>,
    shared_children: Vec<Vec<u16>>,
    parents_total: Vec<u16>,
    num_independent_tasks: u16,
    task_id_to_index: HashMap<u16, u16>,
    graph: Ghost<Graph>,
}

/// Whether `indexes` are, from the smallest to the largest, the places in `order`
/// of those tasks for which `keep` holds.
pub open spec fn are_indexes(
    order: Seq<u16>,
    keep: spec_fn(u16) -> bool,
    indexes: Seq<u16>,
) -> bool {
    &&& forall|i: int, j: int| 0 <= i < j < indexes.len() ==> indexes[i] < indexes[j]
    &&& forall|index: u16| #[trigger]
        indexes.contains(index) <==> index < order.len() && keep(order[index as int])
}

impl Plan {
    /// The graph that is planned.
    pub closed spec fn graph(&self) -> Graph {
        self.graph@
    }

    /// The tasks in the order of their indexes.
    pub open spec fn order(&self) -> Seq<u16> {
        stable_order(self.graph())
    }

    /// The number of tasks.
    pub open spec fn len(&self) -> nat {
        self.order().len()
    }

    /// The indexes of the children that have the task with this index as their
    /// only parent. They can be started as soon as that task is completed.
    pub closed spec fn owned_children(&self, index: int) -> Seq<u16> {
        self.owned_children@[index]@
    }

    /// The indexes of the children that have other parents besides the task with
    /// this index.
    pub closed spec fn shared_children(&self, index: int) -> Seq<u16> {
        self.shared_children@[index]@
    }

    /// The number of parents of the task with this index.
    pub closed spec fn parents_total(&self, index: int) -> u16 {
        self.parents_total@[index]
    }

    /// The number of tasks without parents. They have the lowest indexes.
    pub closed spec fn num_independent_tasks(&self) -> u16 {
        self.num_independent_tasks
    }

    /// The index of a task.
    pub closed spec fn index(&self, task: u16) -> u16 {
        self.task_id_to_index@[task]
    }

    /// The parents of the task with this index.
    pub open spec fn parents(&self, index: int) -> Seq<u16> {
        self.graph().parents(self.order()[index])
    }

    /// The tables of the plan have an entry for every task, and no others.
    pub closed spec fn right_sizes(&self) -> bool {
        &&& self.tasks@ == self.order()
        &&& self.owned_children@.len() == self.len()
        &&& self.shared_children@.len() == self.len()
        &&& self.parents_total@.len() == self.len()
        &&& forall|task: u16| #[trigger]
            self.task_id_to_index@.contains_key(task) <==> self.order().contains(task)
    }

    /// The plan fits its graph, and the graph has no cycle.
    pub open spec fn wf(&self) -> bool {
        &&& self.right_sizes()
        &&& self.fits()
    }

    /// What the parts of a plan are for its graph.
    pub open spec fn fits(&self) -> bool {
        let order = self.order();
        &&& self.graph().wf()
        &&& !self.graph().has_cycle()
        &&& self.graph().is_topological(order)
        &&& self.graph().roots().is_prefix_of(order)
        &&& self.num_independent_tasks() == self.graph().roots().len()
        &&& order.len() <= 0xffff
        &&& forall|i: int|
            0 <= i < order.len() ==> #[trigger] self.parents_total(i) == self.parents(i).len()
        &&& forall|i: int| 0 <= i < order.len() ==> self.index(#[trigger] order[i]) == i
        &&& forall|i: int|
            0 <= i < order.len() ==> are_indexes(
                order,
                |task: u16|
                    self.graph().is_parent(order[i], task) && self.graph().parents(task).len() == 1,
                #[trigger] self.owned_children(i),
            )
        &&& forall|i: int|
            0 <= i < order.len() ==> are_indexes(
                order,
                |task: u16|
                    self.graph().is_parent(order[i], task) && self.graph().parents(task).len() > 1,
                #[trigger] self.shared_children(i),
            )
    }
}

/// Whether `indexes` are, in any order, the places in `order` of those tasks for
/// which `keep` holds.
spec fn collects(order: Seq<u16>, keep: spec_fn(u16) -> bool, indexes: Seq<u16>) -> bool {
    &&& indexes.no_duplicates()
    &&& forall|index: u16| #[trigger]
        indexes.contains(index) <==> index < order.len() && keep(order[index as int])
}

/// Sorting indexes that are collected.
fn sort_collected(indexes: &mut Vec<u16>, order: Ghost<Seq<u16>>, keep: Ghost<spec_fn(u16) -> bool>)
    requires
        collects(order@, keep@, old(indexes)@),
    ensures
        are_indexes(order@, keep@, final(indexes)@),
{
    let ghost before = indexes@;
    sort_indexes(indexes);
    proof {
        let after = indexes@;
        before.lemma_multiset_has_no_duplicates();
        assert forall|x: u16| after.to_multiset().contains(x) implies after.to_multiset().count(x)
            == 1 by {}
        after.lemma_multiset_has_no_duplicates_conv();
        assert forall|index: u16| #[trigger] after.contains(index) <==> before.contains(index) by {
            vstd::seq_lib::to_multiset_contains(after, index);
            vstd::seq_lib::to_multiset_contains(before, index);
        }
        assert forall|i: int, j: int| 0 <= i < j < after.len() implies after[i] < after[j] by {
            assert(after[i] <= after[j]);
            assert(after[i] != after[j]);
        }
    }
}

/// The children of one task, by the number of parents that they have: first
/// those with one parent, then those with several.
fn split_children(
    order: &TaskMap<TaskSetupLayout>,
    subscriptions: &Subscriptions,
    parent: u16,
    graph: Ghost<Graph>,
) -> (children: (Vec<u16>, Vec<u16>))
    requires
        order.wf(),
        subscriptions.wf(),
        graph@.wf(),
        graph@.subscriptions == subscriptions@,
        graph@.is_topological(order.keys()),
        forall|i: int|
            0 <= i < order.values().len() ==> (#[trigger] order.values()[i]).task_idx == i,
    ensures
        are_indexes(
            order.keys(),
            |task: u16| graph@.is_parent(parent, task) && graph@.parents(task).len() == 1,
            children.0@,
        ),
        are_indexes(
            order.keys(),
            |task: u16| graph@.is_parent(parent, task) && graph@.parents(task).len() > 1,
            children.1@,
        ),
{
    let mut owned_children: Vec<u16> = Vec::new();
    let mut shared_children: Vec<u16> = Vec::new();
    let ghost keys = order.keys();
    let ghost children = graph@.children(parent);
    let ghost owned = |task: u16|
        graph@.is_parent(parent, task) && graph@.parents(task).len() == 1;
    let ghost shared = |task: u16|
        graph@.is_parent(parent, task) && graph@.parents(task).len() > 1;
    let row = subscriptions.children(parent);
    let len: usize = match row {
        Some(row) => set_len(row),
        None => 0,
    };
    for k in 0..len
        invariant
            order.wf(),
            keys == order.keys(),
            subscriptions.wf(),
            graph@.wf(),
            graph@.subscriptions == subscriptions@,
            graph@.is_topological(keys),
            forall|i: int|
                0 <= i < order.values().len() ==> (#[trigger] order.values()[i]).task_idx == i,
            children == graph@.children(parent),
            len == children.len(),
            len > 0 ==> row is Some && set_items(*row->0) == children,
            collects(
                keys,
                |task: u16|
                    children.take(k as int).contains(task) && graph@.parents(task).len() == 1,
                owned_children@,
            ),
            collects(
                keys,
                |task: u16| children.take(k as int).contains(task) && graph@.parents(task).len() > 1,
                shared_children@,
            ),
    {
        let child: u16 = set_get_index(row.unwrap(), k).unwrap();
        proof {
            order.lemma_len();
            assert(children[k as int] == child);
            lemma_neighbours(graph@.subscriptions, child, parent);
            lemma_parent_known(graph@, parent, child);
            assert(graph@.tasks.to_set().contains(child));
            assert(keys.to_set().contains(child));
            lemma_neighbours(graph@.subscriptions, child, parent);
            lemma_neighbours_distinct(graph@.subscriptions, parent);
            assert(children.take(k + 1) =~= children.take(k as int).push(child));
        }
        let position: usize = order.position(child).unwrap();
        let index: u16 = order.value_at(position).task_idx;
        let parents: usize = set_len(subscriptions.parents(child).unwrap());
        let ghost owned_before = owned_children@;
        let ghost shared_before = shared_children@;
        proof {
            assert forall|task: u16| #[trigger] children.take(k + 1).contains(task) <==>
                children.take(k as int).contains(task) || task == child by {
                vstd::seq_lib::lemma_seq_contains_after_push(children.take(k as int), child, task);
            }
            assert(!children.take(k as int).contains(child)) by {
                if children.take(k as int).contains(child) {
                    let j = choose|j: int|
                        0 <= j < k && children.take(k as int)[j] == child;
                    assert(children[j] == children[k as int]);
                }
            }
            assert(!owned_before.contains(index) && !shared_before.contains(index));
        }
        if parents == 1 {
            owned_children.push(index);
        } else {
            shared_children.push(index);
        }
        proof {
            lemma_collect(
                keys,
                |task: u16|
                    children.take(k as int).contains(task) && graph@.parents(task).len() == 1,
                |task: u16| children.take(k + 1).contains(task) && graph@.parents(task).len() == 1,
                owned_before,
                owned_children@,
                index,
                parents == 1,
            );
            lemma_collect(
                keys,
                |task: u16| children.take(k as int).contains(task) && graph@.parents(task).len() > 1,
                |task: u16| children.take(k + 1).contains(task) && graph@.parents(task).len() > 1,
                shared_before,
                shared_children@,
                index,
                parents != 1,
            );
        }
    }
    proof {
        assert(children.take(len as int) =~= children);
        assert forall|task: u16| children.contains(task) <==> #[trigger] graph@.is_parent(
            parent,
            task,
        ) by {
            lemma_neighbours(graph@.subscriptions, task, parent);
        }
    }
    // Sorted indexes give better cache locality.
    sort_collected(&mut owned_children, Ghost(keys), Ghost(owned));
    sort_collected(&mut shared_children, Ghost(keys), Ghost(shared));
    (owned_children, shared_children)
}

/// One more index is collected, if its task is to be kept.
proof fn lemma_collect(
    order: Seq<u16>,
    keep: spec_fn(u16) -> bool,
    keep_next: spec_fn(u16) -> bool,
    before: Seq<u16>,
    after: Seq<u16>,
    index: u16,
    kept: bool,
)
    requires
        order.no_duplicates(),
        index < order.len() <= 0xffff,
        collects(order, keep, before),
        !keep(order[index as int]),
        keep_next(order[index as int]) == kept,
        forall|task: u16| task != order[index as int] ==> #[trigger] keep_next(task) == keep(task),
        after == (if kept {
            before.push(index)
        } else {
            before
        }),
    ensures
        collects(order, keep_next, after),
{
    assert forall|other: u16| #[trigger] after.contains(other) <==> other < order.len()
        && keep_next(order[other as int]) by {
        vstd::seq_lib::lemma_seq_contains_after_push(before, index, other);
        if other != index && other < order.len() {
            assert(order[other as int] != order[index as int]);
            assert(keep_next(order[other as int]) == keep(order[other as int]));
        }
    }
    assert(!before.contains(index));
}

impl Plan {
    /// The plan for the graph that the tasks and their subscriptions make, unless
    /// that graph has a cycle.
    pub fn new<V>(tasks: &TaskMap<V>, subscriptions: &Subscriptions) -> (plan: Result<
        Plan,
        ExecutorSetupError,
    >)
        requires
            tasks.wf(),
            subscriptions.wf(),
            (Graph { tasks: tasks.keys(), subscriptions: subscriptions@ }).wf(),
        ensures
            ({
                let graph = Graph { tasks: tasks.keys(), subscriptions: subscriptions@ };
                match plan {
                    Ok(plan) => plan.wf() && plan.graph() == graph,
                    Err(error) => error == ExecutorSetupError::Cycle && graph.has_cycle(),
                }
            }),
    {
        let ghost graph = Graph { tasks: tasks.keys(), subscriptions: subscriptions@ };
        let order = match topological_order(tasks, subscriptions) {
            Ok(order) => order,
            Err(error) => {
                return Err(error);
            },
        };
        let ghost keys = order.keys();
        proof {
            order.lemma_len();
        }
        let len: usize = order.len();
        let mut num_independent_tasks: u16 = 0;
        let mut numbers: Vec<u16> = vec_with_room(len);
        let mut owned_children: Vec<Vec<u16>> = vec_with_room(len);
        let mut shared_children: Vec<Vec<u16>> = vec_with_room(len);
        let mut parents_total: Vec<u16> = vec_with_room(len);
        let mut task_id_to_index: HashMap<u16, u16> = map_with_room(len);
        for i in 0..len
            invariant
                order.wf(),
                keys == order.keys(),
                keys.no_duplicates(),
                len == keys.len(),
                len <= 0xffff,
                subscriptions.wf(),
                graph.wf(),
                graph == (Graph { tasks: tasks.keys(), subscriptions: subscriptions@ }),
                graph.is_topological(keys),
                graph.roots().is_prefix_of(keys),
                laid_out(graph, keys, order.values()),
                numbers@ == keys.take(i as int),
                owned_children@.len() == i,
                shared_children@.len() == i,
                parents_total@.len() == i,
                num_independent_tasks == (if i < graph.roots().len() {
                    i as int
                } else {
                    graph.roots().len() as int
                }),
                forall|j: int| 0 <= j < i ==> #[trigger] parents_total@[j] == graph.parents(
                    keys[j],
                ).len(),
                forall|task: u16| #[trigger]
                    task_id_to_index@.contains_key(task) <==> keys.take(i as int).contains(task),
                forall|j: int| 0 <= j < i ==> task_id_to_index@[#[trigger] keys[j]] == j,
                forall|j: int|
                    0 <= j < i ==> are_indexes(
                        keys,
                        |task: u16| graph.is_parent(keys[j], task) && graph.parents(task).len() == 1,
                        #[trigger] owned_children@[j]@,
                    ),
                forall|j: int|
                    0 <= j < i ==> are_indexes(
                        keys,
                        |task: u16| graph.is_parent(keys[j], task) && graph.parents(task).len() > 1,
                        #[trigger] shared_children@[j]@,
                    ),
        {
            broadcast use vstd::std_specs::hash::group_hash_axioms;

            let task: u16 = order.key_at(i);
            let total: u16 = match subscriptions.parents(task) {
                Some(parents) => {
                    proof {
                        lemma_few_parents(graph, task);
                    }
                    set_len(parents) as u16
                },
                None => 0,
            };
            proof {
                lemma_roots_first(graph, keys, i as int);
                assert(keys.take(i + 1) =~= keys.take(i as int).push(task));
                assert forall|other: u16| #[trigger] keys.take(i + 1).contains(other) <==>
                    keys.take(i as int).contains(other) || other == task by {
                    vstd::seq_lib::lemma_seq_contains_after_push(keys.take(i as int), task, other);
                }
            }
            if total == 0 {
                num_independent_tasks = num_independent_tasks + 1;
            }
            let (owned, shared) = split_children(&order, subscriptions, task, Ghost(graph));
            numbers.push(task);
            owned_children.push(owned);
            shared_children.push(shared);
            parents_total.push(total);
            task_id_to_index.insert(task, i as u16);
        }
        assert(keys.take(len as int) =~= keys);
        let plan = Plan {
            tasks: numbers,
            owned_children,
            shared_children,
            parents_total,
            num_independent_tasks,
            task_id_to_index,
            graph: Ghost(graph),
        };
        Ok(plan)
    }
}

/// A task has fewer parents than 65536.
proof fn lemma_few_parents(graph: Graph, task: u16)
    requires
        graph.wf(),
    ensures
        graph.parents(task).len() <= 0xffff,
{
    let parents = graph.parents(task);
    lemma_neighbours_distinct(graph.subscriptions, task);
    assert(!parents.contains(0)) by {
        lemma_neighbours(graph.subscriptions, task, 0);
        if parents.contains(0) {
            lemma_parent_known(graph, 0, task);
        }
    }
    lemma_nonzero_numbers(parents);
}

/// The first tasks in the order are those without parents.
pub proof fn lemma_roots_first(graph: Graph, order: Seq<u16>, i: int)
    requires
        graph.wf(),
        graph.is_topological(order),
        graph.roots().is_prefix_of(order),
        0 <= i < order.len(),
    ensures
        graph.is_root(order[i]) <==> i < graph.roots().len(),
{
    let is_root = |task: u16| graph.is_root(task);
    lemma_filter(graph.tasks, is_root);
    assert(order.to_set().contains(order[i]));
    assert(graph.tasks.to_set().contains(order[i]));
    if i < graph.roots().len() {
        assert(graph.roots()[i] == order[i]);
        assert(graph.roots().contains(order[i]));
    } else if graph.is_root(order[i]) {
        assert(graph.roots().contains(order[i]));
        let j = choose|j: int| 0 <= j < graph.roots().len() && graph.roots()[j] == order[i];
        assert(order[j] == order[i]);
    }
}

/// Exec access to the parts of a plan.
impl Plan {
    /// The number of tasks.
    pub fn num_tasks(&self) -> (len: usize)
        requires
            self.wf(),
        ensures
            len == self.len(),
    {
        self.parents_total.len()
    }

    /// The number of the task with this index.
    pub fn task_at(&self, index: u16) -> (task: u16)
        requires
            self.wf(),
            index < self.len(),
        ensures
            task == self.order()[index as int],
    {
        self.tasks[index as usize]
    }

    /// The number of tasks without parents.
    pub fn num_independent(&self) -> (num: u16)
        ensures
            num == self.num_independent_tasks(),
    {
        self.num_independent_tasks
    }

    /// The children that the task with this index starts by itself.
    pub fn owned(&self, index: u16) -> (children: &Vec<u16>)
        requires
            self.wf(),
            index < self.len(),
        ensures
            children@ == self.owned_children(index as int),
    {
        &self.owned_children[index as usize]
    }

    /// The children that the task with this index counts down.
    pub fn shared(&self, index: u16) -> (children: &Vec<u16>)
        requires
            self.wf(),
            index < self.len(),
        ensures
            children@ == self.shared_children(index as int),
    {
        &self.shared_children[index as usize]
    }

    /// The number of parents of the task with this index.
    pub fn total(&self, index: u16) -> (total: u16)
        requires
            self.wf(),
            index < self.len(),
        ensures
            total == self.parents_total(index as int),
    {
        self.parents_total[index as usize]
    }

    /// The index of a task.
    pub fn find(&self, task: u16) -> (index: Option<u16>)
        requires
            self.wf(),
        ensures
            match index {
                Some(index) => self.order().contains(task) && index == self.index(task),
                None => !self.order().contains(task),
            },
    {
        broadcast use vstd::std_specs::hash::group_hash_axioms;

        match self.task_id_to_index.get(&task) {
            Some(index) => Some(*index),
            None => None,
        }
    }
}

/// What a plan says about parents, by index.
impl Plan {
    /// The index of the only parent of a task that has one.
    pub open spec fn owner(&self, index: u16) -> u16 {
        self.index(self.parents(index as int)[0])
    }

    /// A parent of a task is in the order, before that task.
    pub proof fn lemma_parent(&self, index: u16, parent: u16)
        requires
            self.wf(),
            index < self.len(),
            self.parents(index as int).contains(parent),
        ensures
            self.order().contains(parent),
            self.index(parent) < index,
            self.order()[self.index(parent) as int] == parent,
            self.graph().is_parent(parent, self.order()[index as int]),
    {
        let order = self.order();
        let child = order[index as int];
        lemma_neighbours(self.graph().subscriptions, child, parent);
        lemma_parent_known(self.graph(), parent, child);
        assert(self.graph().tasks.to_set().contains(parent));
        assert(order.to_set().contains(parent));
        let i = order.index_of(parent);
        assert(order[i] == parent && self.index(order[i]) == i);
        assert(self.graph().is_parent(order[i], order[index as int]));
    }

    /// The parents of a task are distinct.
    pub proof fn lemma_parents_distinct(&self, index: u16)
        requires
            self.wf(),
        ensures
            self.parents(index as int).no_duplicates(),
    {
        lemma_neighbours_distinct(self.graph().subscriptions, self.order()[index as int]);
    }

    /// The owned children of a task are the tasks that have it as their owner.
    pub proof fn lemma_owned(&self, index: u16, child: u16)
        requires
            self.wf(),
            index < self.len(),
        ensures
            self.owned_children(index as int).contains(child) <==> child < self.len()
                && self.parents_total(child as int) == 1 && self.owner(child) == index,
            self.owned_children(index as int).contains(child) ==> index < child && self.parents(
                child as int,
            ) == seq![self.order()[index as int]],
    {
        let order = self.order();
        let owned = |task: u16|
            self.graph().is_parent(order[index as int], task) && self.graph().parents(task).len()
                == 1;
        assert(are_indexes(order, owned, self.owned_children(index as int)));
        if child < self.len() && self.parents_total(child as int) == 1 {
            let parents = self.parents(child as int);
            assert(parents.contains(parents[0]));
            self.lemma_parent(child, parents[0]);
            lemma_neighbours(
                self.graph().subscriptions,
                order[child as int],
                order[index as int],
            );
            if self.owned_children(index as int).contains(child) {
                assert(owned(order[child as int]));
                let k = choose|k: int| 0 <= k < parents.len() && parents[k] == order[index as int];
                assert(k == 0);
                assert(self.index(order[index as int]) == index);
                assert(parents =~= seq![order[index as int]]);
            }
        }
        if self.owned_children(index as int).contains(child) {
            assert(owned(order[child as int]));
            assert(self.parents_total(child as int) == self.parents(child as int).len());
        }
    }

    /// The owner of an owned task comes before it.
    pub proof fn lemma_owner(&self, index: u16)
        requires
            self.wf(),
            index < self.len(),
            self.parents_total(index as int) == 1,
        ensures
            self.owner(index) < index,
    {
        let parents = self.parents(index as int);
        assert(self.parents_total(index as int) == parents.len());
        assert(parents.contains(parents[0]));
        self.lemma_parent(index, parents[0]);
    }

    /// The shared children of a task are the tasks with several parents that have
    /// it as one of them.
    pub proof fn lemma_shared(&self, index: u16, child: u16)
        requires
            self.wf(),
            index < self.len(),
        ensures
            self.shared_children(index as int).contains(child) <==> child < self.len()
                && self.parents_total(child as int) > 1 && self.parents(child as int).contains(
                self.order()[index as int],
            ),
    {
        let order = self.order();
        let shared = |task: u16|
            self.graph().is_parent(order[index as int], task) && self.graph().parents(task).len()
                > 1;
        assert(are_indexes(order, shared, self.shared_children(index as int)));
        if child < self.len() {
            lemma_neighbours(
                self.graph().subscriptions,
                order[child as int],
                order[index as int],
            );
            assert(self.parents_total(child as int) == self.parents(child as int).len());
            assert(shared(order[child as int]) <==> self.parents_total(child as int) > 1
                && self.parents(child as int).contains(order[index as int]));
        }
    }

    /// Whether a task lies in the tree of owned children below another one (or is
    /// that one).
    pub open spec fn under(&self, index: u16, head: u16) -> bool
        decreases index,
    {
        index == head || (self.parents_total(index as int) == 1 && self.owner(index) < index
            && self.under(self.owner(index), head))
    }

    /// A tree lies at and behind its head.
    pub proof fn lemma_under_bounds(&self, index: u16, head: u16)
        requires
            self.under(index, head),
        ensures
            head <= index,
        decreases index,
    {
        if index != head {
            self.lemma_under_bounds(self.owner(index), head);
        }
    }

    /// What lies in a tree below its head lies in the tree of one of the head's
    /// owned children.
    pub proof fn lemma_under_child(&self, index: u16, head: u16) -> (child: u16)
        requires
            self.wf(),
            index < self.len(),
            head < self.len(),
            self.under(index, head),
            index != head,
        ensures
            self.owned_children(head as int).contains(child),
            self.under(index, child),
        decreases index,
    {
        if self.owner(index) == head {
            self.lemma_owned(head, index);
            index
        } else {
            self.lemma_under_child(self.owner(index), head)
        }
    }

    /// The tree of an owned child is a part of the tree of its owner.
    pub proof fn lemma_under_owner(&self, index: u16, child: u16, head: u16)
        requires
            self.wf(),
            head < self.len(),
            self.owned_children(head as int).contains(child),
            self.under(index, child),
        ensures
            self.under(index, head),
            index != head,
        decreases index,
    {
        self.lemma_owned(head, child);
        self.lemma_under_bounds(index, child);
        assert(self.under(head, head));
        if index != child {
            self.lemma_under_owner(self.owner(index), child, head);
        }
    }

    /// Of two trees with a common task, one is a part of the other.
    pub proof fn lemma_under_nested(&self, index: u16, a: u16, b: u16)
        requires
            self.under(index, a),
            self.under(index, b),
        ensures
            self.under(a, b) || self.under(b, a),
        decreases index,
    {
        if index != a && index != b {
            self.lemma_under_nested(self.owner(index), a, b);
        }
    }

    /// The trees of different children of one owner have no task in common.
    pub proof fn lemma_siblings_disjoint(&self, index: u16, head: u16, a: u16, b: u16)
        requires
            self.wf(),
            head < self.len(),
            self.owned_children(head as int).contains(a),
            self.owned_children(head as int).contains(b),
            self.under(index, a),
            self.under(index, b),
        ensures
            a == b,
    {
        self.lemma_owned(head, a);
        self.lemma_owned(head, b);
        self.lemma_under_nested(index, a, b);
        if a != b {
            if self.under(a, b) {
                self.lemma_under_bounds(self.owner(a), b);
            } else {
                self.lemma_under_bounds(self.owner(b), a);
            }
        }
    }

    /// The trees of different tasks that have no owner have no task in common.
    pub proof fn lemma_heads_disjoint(&self, index: u16, a: u16, b: u16)
        requires
            self.under(index, a),
            self.under(index, b),
            self.parents_total(a as int) != 1,
            self.parents_total(b as int) != 1,
        ensures
            a == b,
    {
        self.lemma_under_nested(index, a, b);
    }
}

/// Every child of a task is either owned by it or shared: owned if the task is its
/// only parent, shared if it has other parents too. The task has no other owned or
/// shared children.
pub proof fn law_children_are_owned_or_shared(plan: Plan, index: u16, child: u16)
    requires
        plan.wf(),
        index < plan.len(),
        child < plan.len(),
    ensures
        ({
            let order = plan.order();
            let is_child = plan.graph().is_parent(order[index as int], order[child as int]);
            let parents = plan.graph().parents(order[child as int]);
            &&& plan.owned_children(index as int).contains(child) <==> is_child && parents.len()
                == 1
            &&& plan.shared_children(index as int).contains(child) <==> is_child && parents.len()
                > 1
            &&& is_child ==> parents.len() > 0
        }),
{
    let order = plan.order();
    lemma_neighbours(plan.graph().subscriptions, order[child as int], order[index as int]);
    let owned = |task: u16|
        plan.graph().is_parent(order[index as int], task) && plan.graph().parents(task).len() == 1;
    assert(are_indexes(order, owned, plan.owned_children(index as int)));
    let shared = |task: u16|
        plan.graph().is_parent(order[index as int], task) && plan.graph().parents(task).len() > 1;
    assert(are_indexes(order, shared, plan.shared_children(index as int)));
}

/// The owned and the shared children of a task come from the lowest index to the
/// highest.
pub proof fn law_children_are_sorted(plan: Plan, index: u16, i: int, j: int)
    requires
        plan.wf(),
        index < plan.len(),
        0 <= i < j,
    ensures
        j < plan.owned_children(index as int).len() ==> plan.owned_children(index as int)[i]
            < plan.owned_children(index as int)[j],
        j < plan.shared_children(index as int).len() ==> plan.shared_children(index as int)[i]
            < plan.shared_children(index as int)[j],
{
    let order = plan.order();
    let owned = |task: u16|
        plan.graph().is_parent(order[index as int], task) && plan.graph().parents(task).len() == 1;
    assert(are_indexes(order, owned, plan.owned_children(index as int)));
    let shared = |task: u16|
        plan.graph().is_parent(order[index as int], task) && plan.graph().parents(task).len() > 1;
    assert(are_indexes(order, shared, plan.shared_children(index as int)));
}

/// Each task of the graph has an index of its own, and a task has a higher index
/// than each of its parents.
pub proof fn law_indexes(plan: Plan)
    requires
        plan.wf(),
    ensures
        plan.len() == plan.graph().tasks.len(),
        forall|task: u16|
            plan.graph().tasks.contains(task) ==> #[trigger] plan.index(task) < plan.len()
                && plan.order()[plan.index(task) as int] == task,
        forall|index: u16|
            index < plan.len() ==> plan.graph().tasks.contains(
                #[trigger] plan.order()[index as int],
            ) && plan.index(plan.order()[index as int]) == index,
        forall|parent: u16, child: u16| #[trigger]
            plan.graph().is_parent(parent, child) ==> plan.index(parent) < plan.index(child),
{
    let order = plan.order();
    let tasks = plan.graph().tasks;
    order.unique_seq_to_set();
    tasks.unique_seq_to_set();
    assert forall|task: u16| tasks.contains(task) implies #[trigger] plan.index(task) < plan.len()
        && order[plan.index(task) as int] == task by {
        assert(tasks.to_set().contains(task));
        assert(order.to_set().contains(task));
        let i = order.index_of(task);
        assert(plan.index(order[i]) == i);
    }
    assert forall|index: u16| index < plan.len() implies tasks.contains(
        #[trigger] order[index as int],
    ) && plan.index(order[index as int]) == index by {
        assert(order.to_set().contains(order[index as int]));
        assert(tasks.to_set().contains(order[index as int]));
    }
    assert forall|parent: u16, child: u16| #[trigger]
        plan.graph().is_parent(parent, child) implies plan.index(parent) < plan.index(child) by {
        lemma_parent_known(plan.graph(), parent, child);
        assert(plan.graph().is_parent(
            order[plan.index(parent) as int],
            order[plan.index(child) as int],
        ));
    }
}

/// The tasks without parents are those with the lowest indexes, and there is one
/// unless there are no tasks at all.
pub proof fn law_independent_tasks_first(plan: Plan)
    requires
        plan.wf(),
    ensures
        forall|index: u16|
            index < plan.len() ==> (index < plan.num_independent_tasks() <==> #[trigger]
            plan.parents_total(index as int) == 0),
        plan.num_independent_tasks() <= plan.len(),
        plan.len() > 0 ==> plan.num_independent_tasks() > 0,
{
    assert forall|index: u16| index < plan.len() implies (index < plan.num_independent_tasks()
        <==> #[trigger] plan.parents_total(index as int) == 0) by {
        lemma_roots_first(plan.graph(), plan.order(), index as int);
        assert(plan.parents_total(index as int) == plan.parents(index as int).len());
    }
    if plan.len() > 0 {
        let parents = plan.parents(0);
        assert(plan.parents_total(0) == parents.len());
        if parents.len() > 0 {
            assert(parents.contains(parents[0]));
            plan.lemma_parent(0, parents[0]);
        }
        lemma_roots_first(plan.graph(), plan.order(), 0);
    }
}

} // verus!
