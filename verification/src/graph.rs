//! The mathematical model of a task graph.
//!
//! Tasks are given by their numbers. A graph is the sequence of its tasks, in the
//! order in which they were configured, and the sequence of its subscriptions,
//! in the order in which they were made.

use vstd::prelude::*;

verus! {

/// A subscription of a child to the output of a parent.
pub struct Subscription {
    pub child: u16,
    pub parent: u16,
}

/// A task graph.
#[verifier::ext_equal]
pub struct Graph {
    pub tasks: Seq<u16>,
    pub subscriptions: Seq<Subscription>,
}

/// The parents of a task, in the order in which it subscribed to them.
pub open spec fn parents_of(subscriptions: Seq<Subscription>, child: u16) -> Seq<u16>
    decreases subscriptions.len(),
{
    if subscriptions.len() == 0 {
        Seq::empty()
    } else {
        let earlier = parents_of(subscriptions.drop_last(), child);
        if subscriptions.last().child == child {
            earlier.push(subscriptions.last().parent)
        } else {
            earlier
        }
    }
}

/// The children of a task, in the order in which they subscribed to it.
pub open spec fn children_of(subscriptions: Seq<Subscription>, parent: u16) -> Seq<u16>
    decreases subscriptions.len(),
{
    if subscriptions.len() == 0 {
        Seq::empty()
    } else {
        let earlier = children_of(subscriptions.drop_last(), parent);
        if subscriptions.last().parent == parent {
            earlier.push(subscriptions.last().child)
        } else {
            earlier
        }
    }
}

/// One more subscription; a subscription that was made before changes nothing.
pub open spec fn subscribe(
    subscriptions: Seq<Subscription>,
    child: u16,
    parent: u16,
) -> Seq<Subscription> {
    let subscription = Subscription { child, parent };
    if subscriptions.contains(subscription) {
        subscriptions
    } else {
        subscriptions.push(subscription)
    }
}

/// The subscriptions after one child has subscribed to several parents in turn.
pub open spec fn subscribe_all(
    subscriptions: Seq<Subscription>,
    child: u16,
    parents: Seq<u16>,
) -> Seq<Subscription>
    decreases parents.len(),
{
    if parents.len() == 0 {
        subscriptions
    } else {
        subscribe(
            subscribe_all(subscriptions, child, parents.drop_last()),
            child,
            parents.last(),
        )
    }
}

/// The subscriptions after each of several children has subscribed to its own
/// parents, one child after the other.
pub open spec fn subscribe_each(children: Seq<u16>, parents: Seq<Seq<u16>>) -> Seq<Subscription>
    decreases children.len(),
{
    if children.len() == 0 {
        Seq::empty()
    } else {
        subscribe_all(
            subscribe_each(children.drop_last(), parents.drop_last()),
            children.last(),
            parents.last(),
        )
    }
}

impl Graph {
    /// No task and no subscription occurs twice, and subscriptions join tasks of the
    /// graph.
    pub open spec fn wf(self) -> bool {
        &&& self.tasks.no_duplicates()
        &&& !self.tasks.contains(0)
        &&& self.subscriptions.no_duplicates()
        &&& forall|i: int|
            #![trigger self.subscriptions[i]]
            0 <= i < self.subscriptions.len() ==> {
                &&& self.tasks.contains(self.subscriptions[i].child)
                &&& self.tasks.contains(self.subscriptions[i].parent)
            }
    }

    /// The parents of a task.
    pub open spec fn parents(self, child: u16) -> Seq<u16> {
        parents_of(self.subscriptions, child)
    }

    /// The children of a task.
    pub open spec fn children(self, parent: u16) -> Seq<u16> {
        children_of(self.subscriptions, parent)
    }

    /// Whether one task is a parent of another.
    pub open spec fn is_parent(self, parent: u16, child: u16) -> bool {
        self.subscriptions.contains(Subscription { child, parent })
    }

    /// A walk along the subscriptions: every task on it but the first is a child
    /// of the one before.
    pub open spec fn is_walk(self, walk: Seq<u16>) -> bool {
        &&& walk.len() > 0
        &&& forall|i: int| 0 < i < walk.len() ==> self.is_parent(walk[i - 1], #[trigger] walk[i])
    }

    /// A walk of at least one step that comes back to where it started.
    pub open spec fn is_cycle(self, walk: Seq<u16>) -> bool {
        &&& self.is_walk(walk)
        &&& walk.len() > 1
        &&& walk.first() == walk.last()
    }

    /// Whether there is a cycle in the graph.
    pub open spec fn has_cycle(self) -> bool {
        exists|walk: Seq<u16>| self.is_cycle(walk)
    }

    /// All tasks of the graph, each of them once, and no task before one of its
    /// parents.
    pub open spec fn is_topological(self, order: Seq<u16>) -> bool {
        &&& order.no_duplicates()
        &&& order.to_set() == self.tasks.to_set()
        &&& forall|i: int, j: int|
            0 <= i < order.len() && 0 <= j < order.len() && self.is_parent(
                #[trigger] order[i],
                #[trigger] order[j],
            ) ==> i < j
    }

    /// Whether some parent of a task is not in a sequence.
    pub open spec fn has_parent_outside(self, task: u16, placed: Seq<u16>) -> bool {
        exists|parent: u16| self.is_parent(parent, task) && !placed.contains(parent)
    }

    /// Whether a task has no parents.
    pub open spec fn is_root(self, task: u16) -> bool {
        self.parents(task).len() == 0
    }

    /// The tasks without parents, in the order of the tasks.
    pub open spec fn roots(self) -> Seq<u16> {
        self.tasks.filter(|task: u16| self.is_root(task))
    }

    /// The number of steps on the longest walk to a task. Such a walk starts at a
    /// root.
    pub open spec fn is_degree(self, task: u16, degree: int) -> bool {
        &&& exists|walk: Seq<u16>|
            {
                &&& self.is_walk(walk)
                &&& walk.last() == task
                &&& walk.len() - 1 == degree
                &&& self.is_root(walk.first())
            }
        &&& forall|walk: Seq<u16>|
            self.is_walk(walk) && walk.last() == task ==> walk.len() - 1 <= degree
    }
}

/// A parent is in the sequence of parents, and a child in that of children,
/// exactly if the subscription was made.
pub proof fn lemma_neighbours(subscriptions: Seq<Subscription>, child: u16, parent: u16)
    ensures
        parents_of(subscriptions, child).contains(parent) <==> subscriptions.contains(
            Subscription { child, parent },
        ),
        children_of(subscriptions, parent).contains(child) <==> subscriptions.contains(
            Subscription { child, parent },
        ),
    decreases subscriptions.len(),
{
    let subscription = Subscription { child, parent };
    if subscriptions.len() > 0 {
        let earlier = subscriptions.drop_last();
        let last = subscriptions.last();
        lemma_neighbours(earlier, child, parent);
        assert(subscriptions =~= earlier.push(last));
        vstd::seq_lib::lemma_seq_contains_after_push(earlier, last, subscription);
        vstd::seq_lib::lemma_seq_contains_after_push(
            parents_of(earlier, child),
            last.parent,
            parent,
        );
        vstd::seq_lib::lemma_seq_contains_after_push(
            children_of(earlier, parent),
            last.child,
            child,
        );
    }
}

/// Where no subscription is made twice, no parent and no child occurs twice.
pub proof fn lemma_neighbours_distinct(subscriptions: Seq<Subscription>, task: u16)
    requires
        subscriptions.no_duplicates(),
    ensures
        parents_of(subscriptions, task).no_duplicates(),
        children_of(subscriptions, task).no_duplicates(),
    decreases subscriptions.len(),
{
    if subscriptions.len() > 0 {
        let earlier = subscriptions.drop_last();
        let last = subscriptions.last();
        lemma_neighbours_distinct(earlier, task);
        assert(!earlier.contains(last)) by {
            if earlier.contains(last) {
                let i = choose|i: int| 0 <= i < earlier.len() && earlier[i] == last;
                assert(subscriptions[i] == subscriptions[subscriptions.len() - 1]);
            }
        }
        lemma_neighbours(earlier, task, last.parent);
        lemma_neighbours(earlier, last.child, task);
    }
}

/// A parent and its child are tasks of the graph.
pub proof fn lemma_parent_known(graph: Graph, parent: u16, child: u16)
    requires
        graph.wf(),
        graph.is_parent(parent, child),
    ensures
        graph.tasks.contains(parent),
        graph.tasks.contains(child),
{
    let k = choose|k: int|
        0 <= k < graph.subscriptions.len() && graph.subscriptions[k] == (Subscription {
            child,
            parent,
        });
    assert(graph.tasks.contains(graph.subscriptions[k].child));
}

/// Along a walk the places in a topological order increase.
proof fn lemma_walk_ascends(graph: Graph, order: Seq<u16>, walk: Seq<u16>)
    requires
        graph.wf(),
        graph.is_topological(order),
        graph.is_walk(walk),
        walk.len() > 1,
    ensures
        order.contains(walk.first()),
        order.contains(walk.last()),
        order.index_of(walk.first()) < order.index_of(walk.last()),
    decreases walk.len(),
{
    let before = walk[walk.len() - 2];
    let last = walk.last();
    assert(graph.is_parent(before, walk[walk.len() - 1]));
    lemma_parent_known(graph, before, last);
    assert(graph.tasks.to_set().contains(before) && graph.tasks.to_set().contains(last));
    assert(order.to_set().contains(before) && order.to_set().contains(last));
    assert(graph.is_parent(order[order.index_of(before)], order[order.index_of(last)]));
    if walk.len() > 2 {
        let shorter = walk.drop_last();
        assert(graph.is_walk(shorter)) by {
            assert forall|i: int| 0 < i < shorter.len() implies graph.is_parent(
                shorter[i - 1],
                #[trigger] shorter[i],
            ) by {
                assert(shorter[i] == walk[i]);
            }
        }
        lemma_walk_ascends(graph, order, shorter);
    }
}

/// A graph that has a topological order has no cycle.
pub proof fn law_topological_order_excludes_cycles(graph: Graph, order: Seq<u16>)
    requires
        graph.wf(),
        graph.is_topological(order),
    ensures
        !graph.has_cycle(),
{
    if graph.has_cycle() {
        let walk = choose|walk: Seq<u16>| graph.is_cycle(walk);
        lemma_walk_ascends(graph, order, walk);
    }
}

/// Where every task outside `placed` has a parent outside `placed`, walks of any
/// length lead to a task outside `placed`.
proof fn lemma_walk_back(graph: Graph, placed: Seq<u16>, start: u16, len: nat) -> (walk: Seq<u16>)
    requires
        graph.wf(),
        len > 0,
        graph.tasks.contains(start),
        !placed.contains(start),
        forall|task: u16|
            graph.tasks.contains(task) && !placed.contains(task)
                ==> #[trigger] graph.has_parent_outside(task, placed),
    ensures
        graph.is_walk(walk),
        walk.len() == len,
        forall|i: int|
            0 <= i < walk.len() ==> graph.tasks.contains(#[trigger] walk[i]) && !placed.contains(
                walk[i],
            ),
    decreases len,
{
    if len == 1 {
        seq![start]
    } else {
        let shorter = lemma_walk_back(graph, placed, start, (len - 1) as nat);
        let first = shorter[0];
        assert(graph.has_parent_outside(first, placed));
        let parent = choose|parent: u16|
            graph.is_parent(parent, first) && !placed.contains(parent);
        lemma_parent_known(graph, parent, first);
        let walk = seq![parent] + shorter;
        assert forall|i: int| 0 < i < walk.len() implies graph.is_parent(
            walk[i - 1],
            #[trigger] walk[i],
        ) by {
            if i > 1 {
                assert(walk[i] == shorter[i - 1]);
                assert(graph.is_parent(shorter[i - 2], shorter[i - 1]));
            }
        }
        walk
    }
}

/// A sequence that is longer than a sequence which has all of its elements has
/// an element twice.
proof fn lemma_pigeonhole(long: Seq<u16>, short: Seq<u16>) -> (pair: (int, int))
    requires
        long.len() > short.len(),
        forall|i: int| 0 <= i < long.len() ==> short.contains(#[trigger] long[i]),
    ensures
        0 <= pair.0 < pair.1 < long.len(),
        long[pair.0] == long[pair.1],
{
    if long.no_duplicates() {
        long.unique_seq_to_set();
        short.lemma_cardinality_of_set();
        assert(long.to_set().subset_of(short.to_set()));
        vstd::set_lib::lemma_len_subset(long.to_set(), short.to_set());
    }
    let (i, j) = choose|i: int, j: int|
        0 <= i < long.len() && 0 <= j < long.len() && i != j && long[i] == long[j];
    if i < j {
        (i, j)
    } else {
        (j, i)
    }
}

/// Where some task is outside `placed`, and every task outside `placed` has a
/// parent outside `placed`, there is a cycle.
pub proof fn lemma_stuck(graph: Graph, placed: Seq<u16>, start: u16)
    requires
        graph.wf(),
        graph.tasks.contains(start),
        !placed.contains(start),
        forall|task: u16|
            graph.tasks.contains(task) && !placed.contains(task)
                ==> #[trigger] graph.has_parent_outside(task, placed),
    ensures
        graph.has_cycle(),
{
    let walk = lemma_walk_back(graph, placed, start, graph.tasks.len() + 1);
    let (i, j) = lemma_pigeonhole(walk, graph.tasks);
    let cycle = walk.subrange(i, j + 1);
    assert forall|k: int| 0 < k < cycle.len() implies graph.is_parent(
        cycle[k - 1],
        #[trigger] cycle[k],
    ) by {
        assert(cycle[k] == walk[i + k]);
        assert(graph.is_parent(walk[i + k - 1], walk[i + k]));
    }
    assert(graph.is_cycle(cycle));
}

/// The subscriptions after one child has subscribed to several parents are those
/// that were there before and those of the child to these parents.
pub proof fn lemma_subscribe_all(
    subscriptions: Seq<Subscription>,
    child: u16,
    parents: Seq<u16>,
)
    ensures
        forall|made: Subscription| #[trigger]
            subscribe_all(subscriptions, child, parents).contains(made) <==> subscriptions.contains(
                made,
            ) || (made.child == child && parents.contains(made.parent)),
        subscriptions.no_duplicates() ==> subscribe_all(
            subscriptions,
            child,
            parents,
        ).no_duplicates(),
    decreases parents.len(),
{
    if parents.len() > 0 {
        let earlier = subscribe_all(subscriptions, child, parents.drop_last());
        let last = Subscription { child, parent: parents.last() };
        lemma_subscribe_all(subscriptions, child, parents.drop_last());
        assert(parents =~= parents.drop_last().push(parents.last()));
        assert forall|made: Subscription| #[trigger]
            subscribe_all(subscriptions, child, parents).contains(made) <==> subscriptions.contains(
                made,
            ) || (made.child == child && parents.contains(made.parent)) by {
            vstd::seq_lib::lemma_seq_contains_after_push(earlier, last, made);
            vstd::seq_lib::lemma_seq_contains_after_push(
                parents.drop_last(),
                parents.last(),
                made.parent,
            );
        }
    }
}

/// After several children have subscribed to their parents, a task is a parent of
/// one of them exactly if that child has subscribed to it.
pub proof fn law_subscribers_are_children(children: Seq<u16>, parents: Seq<Seq<u16>>)
    requires
        children.len() == parents.len(),
        children.no_duplicates(),
    ensures
        subscribe_each(children, parents).no_duplicates(),
        forall|i: int, parent: u16|
            0 <= i < children.len() ==> (#[trigger] subscribe_each(children, parents).contains(
                Subscription { child: children[i], parent },
            ) <==> parents[i].contains(parent)),
        forall|made: Subscription| #[trigger]
            subscribe_each(children, parents).contains(made) ==> children.contains(made.child),
    decreases children.len(),
{
    if children.len() > 0 {
        let fewer = children.drop_last();
        let last = children.last();
        let earlier = subscribe_each(fewer, parents.drop_last());
        law_subscribers_are_children(fewer, parents.drop_last());
        lemma_subscribe_all(earlier, last, parents.last());
        assert(!fewer.contains(last)) by {
            if fewer.contains(last) {
                let i = choose|i: int| 0 <= i < fewer.len() && fewer[i] == last;
                assert(children[i] == children[children.len() - 1]);
            }
        }
        assert forall|i: int, parent: u16| 0 <= i < children.len() implies (
        #[trigger] subscribe_each(children, parents).contains(
            Subscription { child: children[i], parent },
        ) <==> parents[i].contains(parent)) by {
            let made = Subscription { child: children[i], parent };
            if i < fewer.len() {
                assert(fewer[i] == children[i]);
                assert(fewer.contains(fewer[i]));
                assert(parents.drop_last()[i] == parents[i]);
                assert(earlier.contains(Subscription { child: fewer[i], parent })
                    <==> parents[i].contains(parent));
            } else {
                assert(!earlier.contains(made));
            }
        }
        assert forall|made: Subscription| #[trigger]
            subscribe_each(children, parents).contains(made) implies children.contains(
            made.child,
        ) by {
            if earlier.contains(made) {
                let i = choose|i: int| 0 <= i < fewer.len() && fewer[i] == made.child;
                assert(children[i] == made.child);
            } else {
                assert(children[children.len() - 1] == made.child);
            }
        }
    }
}

/// What the subscriptions of one child do to the children of a parent: the child comes
/// last among them, if it was not among them before.
proof fn lemma_children_after(
    subscriptions: Seq<Subscription>,
    child: u16,
    parents: Seq<u16>,
    parent: u16,
)
    ensures
        children_of(subscribe_all(subscriptions, child, parents), parent) == (
        if parents.contains(parent) && !children_of(subscriptions, parent).contains(child) {
            children_of(subscriptions, parent).push(child)
        } else {
            children_of(subscriptions, parent)
        }),
    decreases parents.len(),
{
    if parents.len() > 0 {
        let fewer = parents.drop_last();
        let last = parents.last();
        let earlier = subscribe_all(subscriptions, child, fewer);
        lemma_children_after(subscriptions, child, fewer, parent);
        lemma_neighbours(earlier, child, last);
        assert(parents =~= fewer.push(last));
        vstd::seq_lib::lemma_seq_contains_after_push(fewer, last, parent);
        let children = children_of(subscriptions, parent);
        vstd::seq_lib::lemma_seq_contains_after_push(children, child, child);
        if !earlier.contains(Subscription { child, parent: last }) {
            assert(earlier.push(Subscription { child, parent: last }).drop_last() =~= earlier);
        }
    }
}

/// The children of a task come in the order in which they are configured.
pub proof fn law_children_keep_their_order(
    children: Seq<u16>,
    parents: Seq<Seq<u16>>,
    parent: u16,
    i: int,
    j: int,
)
    requires
        children.len() == parents.len(),
        children.no_duplicates(),
        0 <= i < j < children.len(),
        parents[i].contains(parent),
        parents[j].contains(parent),
    ensures
        ({
            let row = children_of(subscribe_each(children, parents), parent);
            &&& row.contains(children[i])
            &&& row.contains(children[j])
            &&& row.index_of(children[i]) < row.index_of(children[j])
        }),
    decreases children.len(),
{
    let fewer = children.drop_last();
    let last = children.last();
    let earlier = subscribe_each(fewer, parents.drop_last());
    let made = subscribe_each(children, parents);
    let row = children_of(made, parent);
    let shorter = children_of(earlier, parent);
    lemma_children_after(earlier, last, parents.last(), parent);
    law_subscribers_are_children(children, parents);
    law_subscribers_are_children(fewer, parents.drop_last());
    lemma_neighbours_distinct(made, parent);
    lemma_neighbours(made, children[i], parent);
    lemma_neighbours(made, children[j], parent);
    assert(made.contains(Subscription { child: children[i], parent }));
    assert(made.contains(Subscription { child: children[j], parent }));
    assert(fewer[i] == children[i] && parents.drop_last()[i] == parents[i]);
    lemma_neighbours(earlier, fewer[i], parent);
    assert(earlier.contains(Subscription { child: fewer[i], parent }));
    assert(row[shorter.index_of(children[i])] == children[i]);
    if j < fewer.len() {
        assert(fewer[j] == children[j] && parents.drop_last()[j] == parents[j]);
        law_children_keep_their_order(fewer, parents.drop_last(), parent, i, j);
        assert(row[shorter.index_of(children[j])] == children[j]);
    } else {
        lemma_neighbours(earlier, last, parent);
        if shorter.contains(last) {
            assert(earlier.contains(Subscription { child: last, parent }));
            assert(fewer.contains(last));
            let k = choose|k: int| 0 <= k < fewer.len() && fewer[k] == last;
            assert(children[k] == children[children.len() - 1]);
        }
        assert(row[shorter.len() as int] == last);
    }
}

} // verus!
