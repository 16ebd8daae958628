//! Errors of the setup, and the bookkeeping of subscriptions.

use crate::executor::session::SetupTurn;
use crate::graph::{
    Subscription, children_of, lemma_neighbours, parents_of, subscribe,
};
use crate::outside::{NumberSet, set_insert, set_items, set_new};
use crate::task::{SetupApi, TaskSubscriptionId};
use crate::task_map::TaskMap;
use crate::types::TaskId;
use vstd::prelude::*;

verus! {

/// Error kind for executor setup failures.
///
/// Currently indicates that the provided dependency graph contains cycle(s),
/// making it impossible to derive a valid topological ordering.
#[derive(Debug, Clone, Copy, PartialEq, Eq, Structural)]
#[non_exhaustive]
pub enum ExecutorSetupError {
    /// The provided dependency graph contains cycle(s).
    Cycle,
}

impl ExecutorSetupError {
    /// What went wrong, in words.
    pub fn message(&self) -> (message: &'static str)
        ensures
            message@ == "graph contains cycle(s)"@,
    {
        match self {
            ExecutorSetupError::Cycle => "graph contains cycle(s)",
        }
    }
}

/// The items that a map holds for a task.
spec fn row(map: TaskMap<NumberSet>, number: u16) -> Seq<u16> {
    if map.entries().contains_key(number) {
        set_items(map.entries()[number])
    } else {
        Seq::empty()
    }
}

/// Whether a map has entries only for tasks that it holds items for.
spec fn no_empty_rows(map: TaskMap<NumberSet>) -> bool {
    forall|number: u16| #[trigger]
        map.entries().contains_key(number) ==> row(map, number).len() > 0
}

/// Adds `item` to the set that belongs to `number`, making that set if there is
/// none.
fn add_to_row(map: &mut TaskMap<NumberSet>, number: u16, item: u16)
    requires
        old(map).wf(),
        no_empty_rows(*old(map)),
        number != 0,
    ensures
        final(map).wf(),
        no_empty_rows(*final(map)),
        forall|other: u16| #[trigger]
            row(*final(map), other) == (if other != number || row(*old(map), number).contains(
                item,
            ) {
                row(*old(map), other)
            } else {
                row(*old(map), other).push(item)
            }),
{
    let position: usize = match map.position(number) {
        Some(position) => {
            assert(map.keys()[position as int] == number);
            position
        },
        None => {
            let position: usize = map.len();
            map.insert_number(number, set_new());
            position
        },
    };
    let ghost before = row(*map, number);
    let row_of_number = map.value_at_mut(position);
    set_insert(row_of_number, item);
    assert(row(*map, number) == (if before.contains(item) {
        before
    } else {
        before.push(item)
    }));
}

/// The subscriptions that tasks have made: for each child the set of its parents
/// and for each parent the set of its children.
pub struct Subscriptions {
    child_to_parents: TaskMap<NumberSet>,
    parent_to_children: TaskMap<NumberSet>,
    made: Ghost<Seq<Subscription>>,
}

impl Subscriptions {
    /// The subscriptions, in the order in which they were made.
    pub closed spec fn view(&self) -> Seq<Subscription> {
        self.made@
    }

    /// Both maps hold what the subscriptions say, and nothing else.
    pub closed spec fn wf(&self) -> bool {
        &&& self@.no_duplicates()
        &&& self.child_to_parents.wf()
        &&& self.parent_to_children.wf()
        &&& no_empty_rows(self.child_to_parents)
        &&& no_empty_rows(self.parent_to_children)
        &&& forall|child: u16| #[trigger]
            row(self.child_to_parents, child) == parents_of(self@, child)
        &&& forall|parent: u16| #[trigger]
            row(self.parent_to_children, parent) == children_of(self@, parent)
    }

    /// No subscriptions yet, with room for those of `capacity` tasks.
    pub fn with_capacity(capacity: usize) -> (subscriptions: Self)
        requires
            capacity <= 0xffff,
        ensures
            subscriptions.wf(),
            subscriptions@ == Seq::<Subscription>::empty(),
    {
        Subscriptions {
            child_to_parents: TaskMap::with_capacity(capacity),
            parent_to_children: TaskMap::with_capacity(capacity),
            made: Ghost(Seq::empty()),
        }
    }

    /// Records that `child` subscribes to `parent`.
    pub fn add(&mut self, child: TaskId, parent: TaskId)
        requires
            old(self).wf(),
        ensures
            final(self).wf(),
            final(self)@ == subscribe(old(self)@, child@, parent@),
    {
        let child: u16 = child.get();
        let parent: u16 = parent.get();
        proof {
            lemma_neighbours(self@, child, parent);
            lemma_add(self@, child, parent);
        }
        add_to_row(&mut self.child_to_parents, child, parent);
        add_to_row(&mut self.parent_to_children, parent, child);
        self.made = Ghost(subscribe(self.made@, child, parent));
    }

    /// The parents of a task; nothing for a task without parents.
    pub fn parents(&self, child: u16) -> (parents: Option<&NumberSet>)
        requires
            self.wf(),
        ensures
            match parents {
                Some(parents) => set_items(*parents) == parents_of(self@, child) && set_items(
                    *parents,
                ).len() > 0,
                None => parents_of(self@, child).len() == 0,
            },
    {
        let parents = self.child_to_parents.get(child);
        assert(row(self.child_to_parents, child) == parents_of(self@, child));
        parents
    }

    /// The children of a task; nothing for a task without children.
    pub fn children(&self, parent: u16) -> (children: Option<&NumberSet>)
        requires
            self.wf(),
        ensures
            match children {
                Some(children) => set_items(*children) == children_of(self@, parent) && set_items(
                    *children,
                ).len() > 0,
                None => children_of(self@, parent).len() == 0,
            },
    {
        let children = self.parent_to_children.get(parent);
        assert(row(self.parent_to_children, parent) == children_of(self@, parent));
        children
    }
}

/// What one more subscription does to the parents of each task and to the
/// children of each task.
proof fn lemma_add(subscriptions: Seq<Subscription>, child: u16, parent: u16)
    requires
        subscriptions.no_duplicates(),
    ensures
        subscribe(subscriptions, child, parent).no_duplicates(),
        ({
            let made = subscribe(subscriptions, child, parent);
            let known = subscriptions.contains(Subscription { child, parent });
            &&& forall|task: u16| #[trigger]
                parents_of(made, task) == (if known || task != child {
                    parents_of(subscriptions, task)
                } else {
                    parents_of(subscriptions, task).push(parent)
                })
            &&& forall|task: u16| #[trigger]
                children_of(made, task) == (if known || task != parent {
                    children_of(subscriptions, task)
                } else {
                    children_of(subscriptions, task).push(child)
                })
        }),
{
    let made = subscribe(subscriptions, child, parent);
    if !subscriptions.contains(Subscription { child, parent }) {
        assert(made.drop_last() =~= subscriptions);
    }
}

/// Hands the subscriptions of one task to the bookkeeping.
pub struct TaskSetupApiImpl<'a, V> {
    turn: SetupTurn,
    task_configs: &'a TaskMap<V>,
    made: Subscriptions,
}

impl<'a, V> TaskSetupApiImpl<'a, V> {
    /// Lets the task whose turn it is add to the subscriptions.
    pub fn new(
        turn: SetupTurn,
        task_configs: &'a TaskMap<V>,
        subscriptions: Subscriptions,
    ) -> (api: Self)
        requires
            subscriptions.wf(),
        ensures
            api.wf(),
            api.current() == turn.task(),
            api.known() == task_configs.keys().to_set(),
            api.subscriptions() == subscriptions@,
    {
        TaskSetupApiImpl { turn, task_configs, made: subscriptions }
    }

    /// Hands back the subscriptions.
    pub fn into_subscriptions(self) -> (subscriptions: Subscriptions)
        requires
            self.wf(),
        ensures
            subscriptions.wf(),
            subscriptions@ == self.subscriptions(),
    {
        self.made
    }
}

impl<'a, V> SetupApi for TaskSetupApiImpl<'a, V> {
    closed spec fn wf(&self) -> bool {
        self.made.wf()
    }

    closed spec fn current(&self) -> u16 {
        self.turn.task()
    }

    closed spec fn known(&self) -> Set<u16> {
        self.task_configs.keys().to_set()
    }

    closed spec fn subscriptions(&self) -> Seq<Subscription> {
        self.made@
    }

    fn turn(&self) -> (turn: &SetupTurn) {
        &self.turn
    }

    fn subscribe(&mut self, parent_task_id: TaskId) -> (subscription_id: TaskSubscriptionId) {
        self.made.add(self.turn.task_id(), parent_task_id);
        TaskSubscriptionId::new(parent_task_id)
    }
}

} // verus!
