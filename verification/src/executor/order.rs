//! The stable topological order of a task graph.

use crate::executor::setup::{ExecutorSetupError, Subscriptions};
use crate::graph::{
    Graph, law_topological_order_excludes_cycles, lemma_neighbours, lemma_neighbours_distinct,
    lemma_parent_known, lemma_stuck,
};
use crate::outside::{NumberSet, set_get_index, set_items, set_len};
use crate::task_map::TaskMap;
use crate::utils::{queue_with_room, set_with_room};
use std::collections::{HashSet, VecDeque};
use vstd::prelude::*;

verus! {

/// A queue after the given tasks have been appended, without those that were in
/// the queue already.
pub open spec fn enqueue(queue: Seq<u16>, tasks: Seq<u16>) -> Seq<u16>
    decreases tasks.len(),
{
    if tasks.len() == 0 {
        queue
    } else {
        let earlier = enqueue(queue, tasks.drop_last());
        if earlier.contains(tasks.last()) {
            earlier
        } else {
            earlier.push(tasks.last())
        }
    }
}

/// A queue after the children of each of the given tasks have been appended.
pub open spec fn enqueue_children(graph: Graph, queue: Seq<u16>, tasks: Seq<u16>) -> Seq<u16>
    decreases tasks.len(),
{
    if tasks.len() == 0 {
        queue
    } else {
        enqueue(
            enqueue_children(graph, queue, tasks.drop_last()),
            graph.children(tasks.last()),
        )
    }
}

/// The tasks that are placed once the queue has run empty.
///
/// The first task in the queue leaves it. If all of its parents are placed, the
/// task is placed next and its children join the queue; otherwise nothing is
/// done, for the last of its parents will put it into the queue again.
pub open spec fn place_all(graph: Graph, queue: Seq<u16>, placed: Seq<u16>) -> Seq<u16>
    decreases graph.tasks.len() - placed.len(), queue.len(),
{
    if queue.len() == 0 {
        placed
    } else if graph.has_parent_outside(queue.first(), placed) || placed.len()
        >= graph.tasks.len() {
        place_all(graph, queue.drop_first(), placed)
    } else {
        place_all(
            graph,
            enqueue(queue.drop_first(), graph.children(queue.first())),
            placed.push(queue.first()),
        )
    }
}

/// The order in which the tasks are placed: the roots first, in the order of
/// their configuration, and every other task as soon as its turn comes after its
/// last parent.
pub open spec fn stable_order(graph: Graph) -> Seq<u16> {
    place_all(graph, enqueue_children(graph, Seq::empty(), graph.roots()), graph.roots())
}

/// What holds of the queue and of the placed tasks all along.
pub open spec fn on_track(graph: Graph, queue: Seq<u16>, placed: Seq<u16>) -> bool {
    &&& graph.wf()
    &&& placed.no_duplicates()
    &&& queue.no_duplicates()
    &&& graph.roots().is_prefix_of(placed)
    &&& forall|task: u16| #[trigger] placed.contains(task) ==> graph.tasks.contains(task)
    &&& forall|task: u16| #[trigger]
        queue.contains(task) ==> graph.tasks.contains(task) && !placed.contains(task)
            && !graph.is_root(task)
    &&& forall|i: int|
        0 <= i < placed.len() ==> !graph.has_parent_outside(#[trigger] placed[i], placed.take(i))
    &&& forall|task: u16|
        graph.tasks.contains(task) && !placed.contains(task) && !queue.contains(task)
            ==> #[trigger] graph.has_parent_outside(task, placed)
}

proof fn lemma_enqueue(queue: Seq<u16>, tasks: Seq<u16>)
    ensures
        queue.no_duplicates() ==> enqueue(queue, tasks).no_duplicates(),
        forall|task: u16| #[trigger]
            enqueue(queue, tasks).contains(task) <==> queue.contains(task) || tasks.contains(task),
    decreases tasks.len(),
{
    if tasks.len() > 0 {
        let earlier = enqueue(queue, tasks.drop_last());
        lemma_enqueue(queue, tasks.drop_last());
        assert(tasks =~= tasks.drop_last().push(tasks.last()));
        assert forall|task: u16| #[trigger]
            enqueue(queue, tasks).contains(task) <==> queue.contains(task) || tasks.contains(
                task,
            ) by {
            vstd::seq_lib::lemma_seq_contains_after_push(tasks.drop_last(), tasks.last(), task);
            vstd::seq_lib::lemma_seq_contains_after_push(earlier, tasks.last(), task);
        }
    }
}

proof fn lemma_enqueue_children(graph: Graph, queue: Seq<u16>, tasks: Seq<u16>)
    ensures
        queue.no_duplicates() ==> enqueue_children(graph, queue, tasks).no_duplicates(),
        forall|task: u16|
            #![trigger enqueue_children(graph, queue, tasks).contains(task)]
            enqueue_children(graph, queue, tasks).contains(task) <==> queue.contains(task) || exists|
                i: int,
            |
                0 <= i < tasks.len() && graph.is_parent(#[trigger] tasks[i], task),
    decreases tasks.len(),
{
    if tasks.len() > 0 {
        let earlier = enqueue_children(graph, queue, tasks.drop_last());
        let last = tasks.last();
        lemma_enqueue_children(graph, queue, tasks.drop_last());
        lemma_enqueue(earlier, graph.children(last));
        assert forall|task: u16| enqueue_children(graph, queue, tasks).contains(task) <==> (
        queue.contains(task) || exists|i: int|
            0 <= i < tasks.len() && graph.is_parent(#[trigger] tasks[i], task)) by {
            lemma_neighbours(graph.subscriptions, task, last);
            if exists|i: int| 0 <= i < tasks.len() && graph.is_parent(#[trigger] tasks[i], task) {
                let i = choose|i: int|
                    0 <= i < tasks.len() && graph.is_parent(#[trigger] tasks[i], task);
                if i < tasks.len() - 1 {
                    assert(graph.is_parent(tasks.drop_last()[i], task));
                }
            }
            if earlier.contains(task) && !queue.contains(task) {
                let i = choose|i: int|
                    0 <= i < tasks.drop_last().len() && graph.is_parent(
                        #[trigger] tasks.drop_last()[i],
                        task,
                    );
                assert(graph.is_parent(tasks[i], task));
            }
            if graph.is_parent(last, task) {
                assert(graph.is_parent(tasks[tasks.len() - 1], task));
            }
        }
    }
}

/// The start: the roots are placed and their children wait.
proof fn lemma_start(graph: Graph)
    requires
        graph.wf(),
    ensures
        on_track(
            graph,
            enqueue_children(graph, Seq::empty(), graph.roots()),
            graph.roots(),
        ),
{
    let is_root = |task: u16| graph.is_root(task);
    let roots = graph.roots();
    let queue = enqueue_children(graph, Seq::empty(), roots);
    lemma_enqueue_children(graph, Seq::empty(), roots);
    lemma_filter(graph.tasks, is_root);
    assert forall|task: u16| #[trigger] roots.contains(task) <==> graph.tasks.contains(task)
        && graph.is_root(task) by {}
    assert forall|task: u16| #[trigger] queue.contains(task) implies graph.tasks.contains(task)
        && !roots.contains(task) && !graph.is_root(task) by {
        let i = choose|i: int| 0 <= i < roots.len() && graph.is_parent(#[trigger] roots[i], task);
        lemma_neighbours(graph.subscriptions, task, roots[i]);
        lemma_parent_known(graph, roots[i], task);
    }
    assert forall|i: int| 0 <= i < roots.len() implies !graph.has_parent_outside(
        #[trigger] roots[i],
        roots.take(i),
    ) by {
        assert(roots.contains(roots[i]));
        if graph.has_parent_outside(roots[i], roots.take(i)) {
            let parent = choose|parent: u16|
                graph.is_parent(parent, roots[i]) && !roots.take(i).contains(parent);
            lemma_neighbours(graph.subscriptions, roots[i], parent);
        }
    }
    assert forall|task: u16|
        graph.tasks.contains(task) && !roots.contains(task) && !queue.contains(
            task,
        ) implies #[trigger] graph.has_parent_outside(task, roots) by {
        let parent = graph.parents(task)[0];
        lemma_neighbours(graph.subscriptions, task, parent);
        if roots.contains(parent) {
            let i = choose|i: int| 0 <= i < roots.len() && roots[i] == parent;
            assert(graph.is_parent(roots[i], task));
        }
    }
}

/// Filtering keeps the elements of a sequence distinct, and keeps those that it
/// is meant to keep.
pub proof fn lemma_filter(tasks: Seq<u16>, keep: spec_fn(u16) -> bool)
    requires
        tasks.no_duplicates(),
    ensures
        tasks.filter(keep).no_duplicates(),
        forall|task: u16| #[trigger]
            tasks.filter(keep).contains(task) <==> tasks.contains(task) && keep(task),
    decreases tasks.len(),
{
    reveal(Seq::filter);
    if tasks.len() > 0 {
        let earlier = tasks.drop_last();
        let last = tasks.last();
        lemma_filter(earlier, keep);
        assert(tasks =~= earlier.push(last));
        assert(!earlier.contains(last)) by {
            if earlier.contains(last) {
                let i = choose|i: int| 0 <= i < earlier.len() && earlier[i] == last;
                assert(tasks[i] == tasks[tasks.len() - 1]);
            }
        }
        assert(!earlier.filter(keep).contains(last));
        assert forall|task: u16| #[trigger] tasks.filter(keep).contains(task) <==> tasks.contains(
            task,
        ) && keep(task) by {
            vstd::seq_lib::lemma_seq_contains_after_push(earlier, last, task);
            vstd::seq_lib::lemma_seq_contains_after_push(earlier.filter(keep), last, task);
        }
    }
}

/// A task that waits for a parent leaves the queue.
proof fn lemma_skip(graph: Graph, queue: Seq<u16>, placed: Seq<u16>)
    requires
        on_track(graph, queue, placed),
        queue.len() > 0,
        graph.has_parent_outside(queue.first(), placed),
    ensures
        on_track(graph, queue.drop_first(), placed),
{
    let rest = queue.drop_first();
    assert(queue =~= seq![queue.first()] + rest);
    assert forall|task: u16| #[trigger] queue.contains(task) implies task == queue.first()
        || rest.contains(task) by {
        let i = choose|i: int| 0 <= i < queue.len() && queue[i] == task;
        if i > 0 {
            assert(rest[i - 1] == task);
        }
    }
    assert forall|task: u16| #[trigger] rest.contains(task) implies queue.contains(task) by {
        let i = choose|i: int| 0 <= i < rest.len() && rest[i] == task;
        assert(queue[i + 1] == task);
    }
}

/// A task whose parents are all placed is placed, and its children join the
/// queue.
proof fn lemma_place(graph: Graph, queue: Seq<u16>, placed: Seq<u16>)
    requires
        on_track(graph, queue, placed),
        queue.len() > 0,
        !graph.has_parent_outside(queue.first(), placed),
    ensures
        placed.len() < graph.tasks.len(),
        on_track(
            graph,
            enqueue(queue.drop_first(), graph.children(queue.first())),
            placed.push(queue.first()),
        ),
{
    let task = queue.first();
    let rest = queue.drop_first();
    let children = graph.children(task);
    let next = enqueue(rest, children);
    let longer = placed.push(task);
    lemma_enqueue(rest, children);
    assert(queue.contains(task)) by {
        assert(queue[0] == task);
    }
    assert forall|other: u16| #[trigger] longer.contains(other) <==> placed.contains(other)
        || other == task by {
        vstd::seq_lib::lemma_seq_contains_after_push(placed, task, other);
    }
    assert forall|other: u16| #[trigger] queue.contains(other) implies other == task
        || rest.contains(other) by {
        let i = choose|i: int| 0 <= i < queue.len() && queue[i] == other;
        if i > 0 {
            assert(rest[i - 1] == other);
        }
    }
    assert forall|other: u16| #[trigger] rest.contains(other) implies queue.contains(other)
        && other != task by {
        let i = choose|i: int| 0 <= i < rest.len() && rest[i] == other;
        assert(queue[i + 1] == other);
    }
    assert(placed.len() < graph.tasks.len()) by {
        longer.unique_seq_to_set();
        graph.tasks.lemma_cardinality_of_set();
        assert(longer.to_set().subset_of(graph.tasks.to_set()));
        vstd::set_lib::lemma_len_subset(longer.to_set(), graph.tasks.to_set());
    }
    assert forall|i: int| 0 <= i < longer.len() implies !graph.has_parent_outside(
        #[trigger] longer[i],
        longer.take(i),
    ) by {
        if i < placed.len() {
            assert(longer.take(i) =~= placed.take(i));
            assert(longer[i] == placed[i]);
        } else {
            assert(longer.take(i) =~= placed);
        }
    }
    assert forall|other: u16| #[trigger] next.contains(other) implies graph.tasks.contains(other)
        && !longer.contains(other) && !graph.is_root(other) by {
        if !rest.contains(other) {
            lemma_neighbours(graph.subscriptions, other, task);
            lemma_parent_known(graph, task, other);
            if placed.contains(other) {
                let i = choose|i: int| 0 <= i < placed.len() && placed[i] == other;
                assert(!graph.has_parent_outside(placed[i], placed.take(i)));
                assert(placed.take(i).contains(task));
                let j = choose|j: int| 0 <= j < i && placed.take(i)[j] == task;
                assert(placed[j] == task);
            }
        }
    }
    assert forall|other: u16|
        graph.tasks.contains(other) && !longer.contains(other) && !next.contains(
            other,
        ) implies #[trigger] graph.has_parent_outside(other, longer) by {
        lemma_neighbours(graph.subscriptions, other, task);
        assert(!queue.contains(other));
        assert(graph.has_parent_outside(other, placed));
        let parent = choose|parent: u16|
            graph.is_parent(parent, other) && !placed.contains(parent);
        assert(parent != task);
        assert(graph.is_parent(parent, other) && !longer.contains(parent));
    }
    assert(graph.roots().is_prefix_of(longer));
}

/// Once the queue has run empty, the tasks are in a topological order, unless
/// some of them are not placed; those lie behind a cycle.
proof fn lemma_place_all(graph: Graph, queue: Seq<u16>, placed: Seq<u16>)
    requires
        on_track(graph, queue, placed),
    ensures
        on_track(graph, Seq::empty(), place_all(graph, queue, placed)),
    decreases graph.tasks.len() - placed.len(), queue.len(),
{
    if queue.len() == 0 {
        assert(queue =~= Seq::empty());
    } else if graph.has_parent_outside(queue.first(), placed) {
        lemma_skip(graph, queue, placed);
        lemma_place_all(graph, queue.drop_first(), placed);
    } else {
        lemma_place(graph, queue, placed);
        lemma_place_all(
            graph,
            enqueue(queue.drop_first(), graph.children(queue.first())),
            placed.push(queue.first()),
        );
    }
}

/// Where every task is placed, they are in a topological order and there is no
/// cycle; where one is not, there is a cycle.
proof fn lemma_complete(graph: Graph, placed: Seq<u16>)
    requires
        on_track(graph, Seq::empty(), placed),
    ensures
        placed.len() <= graph.tasks.len(),
        placed.len() == graph.tasks.len() ==> graph.is_topological(placed) && !graph.has_cycle(),
        placed.len() < graph.tasks.len() ==> graph.has_cycle(),
{
    placed.unique_seq_to_set();
    graph.tasks.unique_seq_to_set();
    assert(placed.to_set().subset_of(graph.tasks.to_set()));
    vstd::set_lib::lemma_len_subset(placed.to_set(), graph.tasks.to_set());
    if placed.len() == graph.tasks.len() {
        vstd::set_lib::lemma_subset_equality(placed.to_set(), graph.tasks.to_set());
        assert forall|i: int, j: int|
            0 <= i < placed.len() && 0 <= j < placed.len() && graph.is_parent(
                #[trigger] placed[i],
                #[trigger] placed[j],
            ) implies i < j by {
            assert(!graph.has_parent_outside(placed[j], placed.take(j)));
            assert(placed.take(j).contains(placed[i]));
            let k = choose|k: int| 0 <= k < j && placed.take(j)[k] == placed[i];
            assert(placed[k] == placed[i]);
        }
        law_topological_order_excludes_cycles(graph, placed);
    } else {
        assert(exists|task: u16| graph.tasks.contains(task) && !placed.contains(task)) by {
            if forall|task: u16| graph.tasks.contains(task) ==> placed.contains(task) {
                assert(graph.tasks.to_set() =~= placed.to_set());
            }
        }
        let start = choose|task: u16| graph.tasks.contains(task) && !placed.contains(task);
        lemma_stuck(graph, placed, start);
    }
}

/// The stable order of a graph without cycles is a topological order, and it
/// starts with the roots. Of a graph with cycles it leaves tasks out.
pub proof fn law_stable_order(graph: Graph)
    requires
        graph.wf(),
    ensures
        graph.roots().is_prefix_of(stable_order(graph)),
        graph.has_cycle() <==> !graph.is_topological(stable_order(graph)),
        graph.has_cycle() <==> stable_order(graph).len() < graph.tasks.len(),
        stable_order(graph).len() <= graph.tasks.len(),
{
    lemma_start(graph);
    lemma_place_all(
        graph,
        enqueue_children(graph, Seq::empty(), graph.roots()),
        graph.roots(),
    );
    lemma_complete(graph, stable_order(graph));
    if graph.is_topological(stable_order(graph)) {
        law_topological_order_excludes_cycles(graph, stable_order(graph));
    }
}

/// Whether every parent of one task comes before every parent of another, where a
/// common parent counts as coming before if the one has subscribed to it before the
/// other.
pub open spec fn parents_come_before(graph: Graph, order: Seq<u16>, one: u16, other: u16) -> bool {
    forall|x: u16, y: u16| #[trigger]
        graph.is_parent(x, one) && #[trigger] graph.is_parent(y, other) ==> order.index_of(x)
            < order.index_of(y) || (x == y && graph.children(x).index_of(one) < graph.children(
            x,
        ).index_of(other))
}

/// The tasks that have been placed keep their places.
proof fn lemma_placed_stay(graph: Graph, queue: Seq<u16>, placed: Seq<u16>)
    ensures
        placed.is_prefix_of(place_all(graph, queue, placed)),
    decreases graph.tasks.len() - placed.len(), queue.len(),
{
    if queue.len() == 0 {
    } else if graph.has_parent_outside(queue.first(), placed) || placed.len()
        >= graph.tasks.len() {
        lemma_placed_stay(graph, queue.drop_first(), placed);
    } else {
        lemma_placed_stay(
            graph,
            enqueue(queue.drop_first(), graph.children(queue.first())),
            placed.push(queue.first()),
        );
    }
}

/// In a sequence without duplicates an element is found where it is.
proof fn lemma_index(seq: Seq<u16>, i: int)
    requires
        seq.no_duplicates(),
        0 <= i < seq.len(),
    ensures
        seq.contains(seq[i]),
        seq.index_of(seq[i]) == i,
{
}

/// Joining the queue keeps the places of those that are in it. Those that are new come
/// behind them, in their own order.
proof fn lemma_enqueue_places(queue: Seq<u16>, tasks: Seq<u16>)
    requires
        queue.no_duplicates(),
        tasks.no_duplicates(),
    ensures
        queue.is_prefix_of(enqueue(queue, tasks)),
        forall|one: u16, other: u16|
            #![trigger enqueue(queue, tasks).index_of(one), enqueue(queue, tasks).index_of(other)]
            queue.contains(one) && tasks.contains(other) && !queue.contains(other) ==> enqueue(
                queue,
                tasks,
            ).index_of(one) < enqueue(queue, tasks).index_of(other),
        forall|one: u16, other: u16|
            #![trigger enqueue(queue, tasks).index_of(one), enqueue(queue, tasks).index_of(other)]
            tasks.contains(one) && tasks.contains(other) && !queue.contains(one)
                && !queue.contains(other) && tasks.index_of(one) < tasks.index_of(other)
                ==> enqueue(queue, tasks).index_of(one) < enqueue(queue, tasks).index_of(other),
        forall|one: u16|
            #![trigger enqueue(queue, tasks).index_of(one)]
            queue.contains(one) ==> enqueue(queue, tasks).index_of(one) == queue.index_of(one),
    decreases tasks.len(),
{
    let next = enqueue(queue, tasks);
    lemma_enqueue(queue, tasks);
    if tasks.len() > 0 {
        let fewer = tasks.drop_last();
        let last = tasks.last();
        let earlier = enqueue(queue, fewer);
        lemma_enqueue(queue, fewer);
        lemma_enqueue_places(queue, fewer);
        assert(tasks =~= fewer.push(last));
        assert(!fewer.contains(last)) by {
            if fewer.contains(last) {
                let i = choose|i: int| 0 <= i < fewer.len() && fewer[i] == last;
                assert(tasks[i] == tasks[tasks.len() - 1]);
            }
        }
        assert forall|task: u16| #[trigger] fewer.contains(task) implies fewer.index_of(task)
            == tasks.index_of(task) by {
            let i = fewer.index_of(task);
            assert(tasks[i] == task);
            lemma_index(tasks, i);
        }
        assert(tasks[tasks.len() - 1] == last);
        lemma_index(tasks, tasks.len() - 1);
        assert forall|task: u16| #[trigger] earlier.contains(task) implies next.contains(task)
            && next.index_of(task) == earlier.index_of(task) by {
            let i = earlier.index_of(task);
            assert(next[i] == task);
            lemma_index(next, i);
        }
        if !earlier.contains(last) {
            assert(next[earlier.len() as int] == last);
            lemma_index(next, earlier.len() as int);
        }
        assert forall|task: u16| #[trigger] tasks.contains(task) <==> fewer.contains(task) || task
            == last by {
            vstd::seq_lib::lemma_seq_contains_after_push(fewer, last, task);
        }
        assert forall|one: u16, other: u16|
            #![trigger next.index_of(one), next.index_of(other)]
            queue.contains(one) && tasks.contains(other) && !queue.contains(
                other,
            ) implies next.index_of(one) < next.index_of(other) by {
            assert(earlier.contains(one));
            if fewer.contains(other) {
                assert(earlier.contains(other));
                assert(earlier.index_of(one) < earlier.index_of(other));
            }
        }
        assert forall|one: u16, other: u16|
            #![trigger next.index_of(one), next.index_of(other)]
            tasks.contains(one) && tasks.contains(other) && !queue.contains(one) && !queue.contains(
                other,
            ) && tasks.index_of(one) < tasks.index_of(other) implies next.index_of(one)
            < next.index_of(other) by {
            assert(fewer.contains(one));
            assert(earlier.contains(one));
            if fewer.contains(other) {
                assert(earlier.contains(other));
                assert(earlier.index_of(one) < earlier.index_of(other));
            }
        }
        assert forall|one: u16|
            #![trigger next.index_of(one)]
            queue.contains(one) implies next.index_of(one) == queue.index_of(one) by {
            assert(earlier.contains(one));
            assert(earlier.index_of(one) == queue.index_of(one));
        }
    }
}

/// Of two tasks, the second is not placed before the first, and does not stand before
/// it in the queue. Where the second stands in the queue, the first has been placed or
/// waits for no parent.
spec fn in_turn(graph: Graph, queue: Seq<u16>, placed: Seq<u16>, one: u16, other: u16) -> bool {
    &&& placed.contains(other) ==> placed.contains(one) && placed.index_of(one) < placed.index_of(
        other,
    )
    &&& queue.contains(other) && !placed.contains(one) ==> queue.contains(one) && queue.index_of(
        one,
    ) < queue.index_of(other) && !graph.has_parent_outside(one, placed)
}

/// A task joins the queue in its turn when a parent of it has been placed.
proof fn lemma_joins_in_turn(
    graph: Graph,
    order: Seq<u16>,
    queue: Seq<u16>,
    placed: Seq<u16>,
    parent: u16,
    one: u16,
    other: u16,
)
    requires
        graph.wf(),
        graph.is_topological(order),
        placed.is_prefix_of(order),
        placed.contains(parent),
        queue.no_duplicates(),
        parents_come_before(graph, order, one, other),
        in_turn(graph, queue, placed, one, other),
        (forall|x: u16| #[trigger]
            graph.is_parent(x, one) ==> order.index_of(x) <= order.index_of(parent))
            ==> placed.contains(one) || enqueue(queue, graph.children(parent)).contains(one),
    ensures
        in_turn(graph, enqueue(queue, graph.children(parent)), placed, one, other),
{
    let children = graph.children(parent);
    let next = enqueue(queue, children);
    lemma_neighbours_distinct(graph.subscriptions, parent);
    lemma_neighbours(graph.subscriptions, one, parent);
    lemma_neighbours(graph.subscriptions, other, parent);
    lemma_enqueue(queue, children);
    lemma_enqueue_places(queue, children);
    if next.contains(other) && !placed.contains(one) {
        if !queue.contains(other) {
            assert(graph.is_parent(parent, other));
            let k = placed.index_of(parent);
            assert(order[k] == parent);
            lemma_index(order, k);
            assert forall|x: u16| #[trigger] graph.is_parent(x, one) implies order.index_of(x) <= k
                && placed.contains(x) by {
                lemma_parent_known(graph, x, one);
                assert(graph.tasks.to_set().contains(x));
                assert(order.to_set().contains(x));
                assert(placed[order.index_of(x)] == x);
            }
            assert(!graph.has_parent_outside(one, placed));
            assert(next.contains(one));
            if !queue.contains(one) {
                assert(children.contains(one) && children.contains(other));
                assert(graph.is_parent(parent, one) && graph.is_parent(parent, other));
                assert(children.index_of(one) < children.index_of(other));
            }
            assert(next.index_of(one) < next.index_of(other));
        } else {
            assert(queue.contains(one));
            assert(next.index_of(one) == queue.index_of(one));
            assert(next.index_of(other) == queue.index_of(other));
        }
    }
}

/// Without its first element a sequence has the others one place earlier.
proof fn lemma_drop_first_places(queue: Seq<u16>)
    requires
        queue.len() > 0,
        queue.no_duplicates(),
    ensures
        forall|task: u16| #[trigger]
            queue.drop_first().contains(task) <==> queue.contains(task) && task != queue.first(),
        forall|task: u16| #[trigger]
            queue.drop_first().contains(task) ==> queue.drop_first().index_of(task)
                == queue.index_of(task) - 1,
        queue.index_of(queue.first()) == 0,
{
    let rest = queue.drop_first();
    lemma_index(queue, 0);
    assert forall|task: u16| #[trigger] rest.contains(task) <==> queue.contains(task) && task
        != queue.first() by {
        if queue.contains(task) && task != queue.first() {
            let i = queue.index_of(task);
            assert(rest[i - 1] == task);
        }
        if rest.contains(task) {
            let i = rest.index_of(task);
            assert(queue[i + 1] == task);
            assert(queue[0] != queue[i + 1]);
        }
    }
    assert forall|task: u16| #[trigger] rest.contains(task) implies rest.index_of(task)
        == queue.index_of(task) - 1 by {
        let i = rest.index_of(task);
        assert(queue[i + 1] == task);
        lemma_index(queue, i + 1);
    }
}

/// The tasks are placed in their turn.
proof fn lemma_placed_in_turn(
    graph: Graph,
    queue: Seq<u16>,
    placed: Seq<u16>,
    order: Seq<u16>,
    one: u16,
    other: u16,
)
    requires
        on_track(graph, queue, placed),
        order == place_all(graph, queue, placed),
        graph.is_topological(order),
        graph.tasks.contains(one),
        parents_come_before(graph, order, one, other),
        in_turn(graph, queue, placed, one, other),
    ensures
        in_turn(graph, Seq::empty(), order, one, other),
    decreases graph.tasks.len() - placed.len(), queue.len(),
{
    if queue.len() == 0 {
        assert(queue =~= Seq::empty());
    } else {
        let task = queue.first();
        let rest = queue.drop_first();
        lemma_drop_first_places(queue);
        assert(queue.contains(task)) by {
            assert(queue[0] == task);
        }
        if graph.has_parent_outside(task, placed) {
            lemma_skip(graph, queue, placed);
            lemma_placed_in_turn(graph, rest, placed, order, one, other);
        } else {
            let longer = placed.push(task);
            let next = enqueue(rest, graph.children(task));
            lemma_place(graph, queue, placed);
            lemma_placed_stay(graph, next, longer);
            assert forall|t: u16| #[trigger] longer.contains(t) <==> placed.contains(t) || t
                == task by {
                vstd::seq_lib::lemma_seq_contains_after_push(placed, task, t);
            }
            assert forall|t: u16| #[trigger] placed.contains(t) implies longer.index_of(t)
                == placed.index_of(t) by {
                let i = placed.index_of(t);
                assert(longer[i] == t);
                lemma_index(longer, i);
            }
            assert(longer[placed.len() as int] == task);
            lemma_index(longer, placed.len() as int);
            assert(in_turn(graph, rest, longer, one, other)) by {
                if !graph.has_parent_outside(one, placed) {
                    assert(!graph.has_parent_outside(one, longer)) by {
                        if graph.has_parent_outside(one, longer) {
                            let x = choose|x: u16|
                                graph.is_parent(x, one) && !longer.contains(x);
                            assert(graph.is_parent(x, one) && !placed.contains(x));
                        }
                    }
                }
            }
            assert((forall|x: u16| #[trigger]
                graph.is_parent(x, one) ==> order.index_of(x) <= order.index_of(task))
                ==> longer.contains(one) || next.contains(one)) by {
                if (forall|x: u16| #[trigger]
                    graph.is_parent(x, one) ==> order.index_of(x) <= order.index_of(task))
                    && !longer.contains(one) && !next.contains(one) {
                    assert(graph.has_parent_outside(one, longer));
                    let x = choose|x: u16| graph.is_parent(x, one) && !longer.contains(x);
                    assert(order[placed.len() as int] == task);
                    lemma_index(order, placed.len() as int);
                    lemma_parent_known(graph, x, one);
                    assert(graph.tasks.to_set().contains(x));
                    assert(order.to_set().contains(x));
                    assert(longer[order.index_of(x)] == x);
                }
            }
            lemma_joins_in_turn(graph, order, rest, longer, task, one, other);
            lemma_placed_in_turn(graph, next, longer, order, one, other);
        }
    }
}

/// The children of the first roots join the queue in their turn.
proof fn lemma_start_in_turn(graph: Graph, order: Seq<u16>, one: u16, other: u16, i: int)
    requires
        graph.wf(),
        graph.is_topological(order),
        graph.roots().is_prefix_of(order),
        parents_come_before(graph, order, one, other),
        !graph.is_root(one),
        !graph.is_root(other),
        0 <= i <= graph.roots().len(),
    ensures
        in_turn(
            graph,
            enqueue_children(graph, Seq::empty(), graph.roots().take(i)),
            graph.roots(),
            one,
            other,
        ),
    decreases i,
{
    let roots = graph.roots();
    let is_root = |task: u16| graph.is_root(task);
    lemma_filter(graph.tasks, is_root);
    assert(!roots.contains(one) && !roots.contains(other));
    if i == 0 {
        assert(roots.take(0) =~= Seq::empty());
    } else {
        let fewer = roots.take(i - 1);
        let queue = enqueue_children(graph, Seq::empty(), fewer);
        let root = roots[i - 1];
        lemma_start_in_turn(graph, order, one, other, i - 1);
        assert(roots.take(i).drop_last() =~= fewer);
        assert(roots.take(i).last() == root);
        lemma_enqueue_children(graph, Seq::empty(), fewer);
        lemma_enqueue_children(graph, Seq::empty(), roots.take(i));
        assert(roots.contains(root));
        assert((forall|x: u16| #[trigger]
            graph.is_parent(x, one) ==> order.index_of(x) <= order.index_of(root))
            ==> roots.contains(one) || enqueue(queue, graph.children(root)).contains(one)) by {
            if forall|x: u16| #[trigger]
                graph.is_parent(x, one) ==> order.index_of(x) <= order.index_of(root) {
                let x = graph.parents(one)[0];
                lemma_neighbours(graph.subscriptions, one, x);
                assert(graph.parents(one).contains(x));
                assert(graph.is_parent(x, one));
                assert(order[i - 1] == root);
                lemma_index(order, i - 1);
                lemma_parent_known(graph, x, one);
                assert(graph.tasks.to_set().contains(x));
                assert(order.to_set().contains(x));
                let k = order.index_of(x);
                assert(roots.take(i)[k] == x);
                assert(graph.is_parent(roots.take(i)[k], one));
            }
        }
        lemma_joins_in_turn(graph, order, queue, roots, root, one, other);
    }
}

/// The order is stable: where every parent of one task comes before every parent of
/// another, the one comes before the other. A common parent counts as coming before if
/// the one has subscribed to it before the other; so tasks that have the same task as
/// their only parent come in the order in which they have subscribed to it.
pub proof fn law_order_is_stable(graph: Graph, one: u16, other: u16)
    requires
        graph.wf(),
        !graph.has_cycle(),
        graph.tasks.contains(one),
        graph.tasks.contains(other),
        !graph.is_root(one),
        !graph.is_root(other),
        parents_come_before(graph, stable_order(graph), one, other),
    ensures
        stable_order(graph).index_of(one) < stable_order(graph).index_of(other),
{
    let order = stable_order(graph);
    let roots = graph.roots();
    law_stable_order(graph);
    lemma_start(graph);
    assert(roots.take(roots.len() as int) =~= roots);
    lemma_start_in_turn(graph, order, one, other, roots.len() as int);
    lemma_placed_in_turn(
        graph,
        enqueue_children(graph, Seq::empty(), roots),
        roots,
        order,
        one,
        other,
    );
    assert(graph.tasks.to_set().contains(other));
    assert(order.to_set().contains(other));
}

/// Tasks without parents come in the order of their configuration, before all others.
pub proof fn law_roots_keep_their_order(graph: Graph, one: u16, other: u16)
    requires
        graph.wf(),
        !graph.has_cycle(),
        graph.tasks.contains(one),
        graph.tasks.contains(other),
        graph.is_root(one),
        graph.is_root(other) ==> graph.tasks.index_of(one) < graph.tasks.index_of(other),
    ensures
        stable_order(graph).index_of(one) < stable_order(graph).index_of(other),
{
    let order = stable_order(graph);
    let roots = graph.roots();
    let is_root = |task: u16| graph.is_root(task);
    law_stable_order(graph);
    lemma_filter(graph.tasks, is_root);
    lemma_filter_keeps_order(graph.tasks, is_root);
    assert(roots.contains(one));
    let i = roots.index_of(one);
    assert(order[i] == one);
    lemma_index(order, i);
    assert(graph.tasks.to_set().contains(other));
    assert(order.to_set().contains(other));
    let k = order.index_of(other);
    if graph.is_root(other) {
        assert(roots.contains(other));
        let j = roots.index_of(other);
        assert(order[j] == other);
        lemma_index(order, j);
    } else if k < roots.len() {
        assert(roots[k] == other);
        assert(roots.contains(other));
    }
}

/// Filtering keeps the order of the elements.
proof fn lemma_filter_keeps_order(tasks: Seq<u16>, keep: spec_fn(u16) -> bool)
    requires
        tasks.no_duplicates(),
    ensures
        forall|one: u16, other: u16|
            #![trigger tasks.filter(keep).index_of(one), tasks.filter(keep).index_of(other)]
            tasks.contains(one) && tasks.contains(other) && keep(one) && keep(other)
                && tasks.index_of(one) < tasks.index_of(other) ==> tasks.filter(keep).index_of(one)
                < tasks.filter(keep).index_of(other),
    decreases tasks.len(),
{
    reveal(Seq::filter);
    if tasks.len() > 0 {
        let fewer = tasks.drop_last();
        let last = tasks.last();
        let kept = tasks.filter(keep);
        let earlier = fewer.filter(keep);
        lemma_filter_keeps_order(fewer, keep);
        lemma_filter(fewer, keep);
        lemma_filter(tasks, keep);
        lemma_index(tasks, tasks.len() - 1);
        assert(tasks =~= fewer.push(last));
        assert forall|one: u16, other: u16|
            #![trigger kept.index_of(one), kept.index_of(other)]
            tasks.contains(one) && tasks.contains(other) && keep(one) && keep(other)
                && tasks.index_of(one) < tasks.index_of(other) implies kept.index_of(one)
            < kept.index_of(other) by {
            vstd::seq_lib::lemma_seq_contains_after_push(fewer, last, one);
            vstd::seq_lib::lemma_seq_contains_after_push(fewer, last, other);
            assert(fewer[tasks.index_of(one)] == one);
            lemma_index(fewer, tasks.index_of(one));
            assert(earlier.contains(one));
            assert(kept[earlier.index_of(one)] == one);
            lemma_index(kept, earlier.index_of(one));
            if other == last {
                assert(kept[earlier.len() as int] == other);
                lemma_index(kept, earlier.len() as int);
            } else {
                assert(fewer[tasks.index_of(other)] == other);
                lemma_index(fewer, tasks.index_of(other));
                assert(earlier.contains(other));
                assert(kept[earlier.index_of(other)] == other);
                lemma_index(kept, earlier.index_of(other));
                assert(earlier.index_of(one) < earlier.index_of(other));
            }
        }
    }
}

/// What is known of a task once it is placed.
pub struct TaskSetupLayout {
    /// Its place in the order.
    pub task_idx: u16,
    /// The longest distance to it from any root, in steps.
    pub degree: u16,
}

/// Whether the placed tasks carry their places and their degrees.
pub open spec fn laid_out(graph: Graph, placed: Seq<u16>, layouts: Seq<TaskSetupLayout>) -> bool {
    &&& placed.len() == layouts.len()
    &&& forall|i: int|
        #![trigger layouts[i]]
        0 <= i < layouts.len() ==> {
            &&& layouts[i].task_idx == i
            &&& layouts[i].degree <= i
            &&& graph.is_degree(placed[i], layouts[i].degree as int)
        }
}

/// A root is zero steps away from the roots.
proof fn lemma_degree_of_root(graph: Graph, root: u16)
    requires
        graph.is_root(root),
    ensures
        graph.is_degree(root, 0),
{
    let short = seq![root];
    assert(graph.is_walk(short) && short.last() == root && short.len() - 1 == 0 && graph.is_root(
        short.first(),
    ));
    assert forall|walk: Seq<u16>|
        graph.is_walk(walk) && walk.last() == root implies walk.len() - 1 <= 0 by {
        if walk.len() > 1 {
            let before = walk[walk.len() - 2];
            assert(graph.is_parent(before, walk[walk.len() - 1]));
            lemma_neighbours(graph.subscriptions, root, before);
        }
    }
}

/// A task is one step further away from the roots than the furthest of its
/// parents.
proof fn lemma_degree_of_child(graph: Graph, task: u16, furthest: u16, degree: int)
    requires
        graph.is_parent(furthest, task),
        graph.is_degree(furthest, degree - 1),
        forall|parent: u16| #[trigger]
            graph.is_parent(parent, task) ==> exists|of_parent: int|
                of_parent <= degree - 1 && graph.is_degree(parent, of_parent),
    ensures
        graph.is_degree(task, degree),
{
    let to_furthest = choose|walk: Seq<u16>|
        {
            &&& graph.is_walk(walk)
            &&& walk.last() == furthest
            &&& walk.len() - 1 == degree - 1
            &&& graph.is_root(walk.first())
        };
    let longest = to_furthest.push(task);
    lemma_longer_walk(graph, to_furthest, task);
    assert(longest.last() == task && longest.len() - 1 == degree && graph.is_root(
        longest.first(),
    ));
    assert forall|walk: Seq<u16>| graph.is_walk(walk) && walk.last() == task implies walk.len() - 1
        <= degree by {
        if walk.len() > 1 {
            let shorter = walk.drop_last();
            let parent = shorter.last();
            lemma_shorter_walk(graph, walk);
            let of_parent = choose|of_parent: int|
                of_parent <= degree - 1 && graph.is_degree(parent, of_parent);
            assert(shorter.len() - 1 <= of_parent);
        } else {
            assert(longest.len() >= 1);
        }
    }
}

/// One more step at the end of a walk.
proof fn lemma_longer_walk(graph: Graph, walk: Seq<u16>, task: u16)
    requires
        graph.is_walk(walk),
        graph.is_parent(walk.last(), task),
    ensures
        graph.is_walk(walk.push(task)),
{
    let longer = walk.push(task);
    assert forall|i: int| 0 < i < longer.len() implies graph.is_parent(
        longer[i - 1],
        #[trigger] longer[i],
    ) by {
        if i < walk.len() {
            assert(longer[i] == walk[i]);
        }
    }
}

/// A walk without its last step.
proof fn lemma_shorter_walk(graph: Graph, walk: Seq<u16>)
    requires
        graph.is_walk(walk),
        walk.len() > 1,
    ensures
        graph.is_walk(walk.drop_last()),
        graph.is_parent(walk.drop_last().last(), walk.last()),
{
    let shorter = walk.drop_last();
    assert(graph.is_parent(walk[walk.len() - 2], walk[walk.len() - 1]));
    assert forall|i: int| 0 < i < shorter.len() implies graph.is_parent(
        shorter[i - 1],
        #[trigger] shorter[i],
    ) by {
        assert(shorter[i] == walk[i]);
    }
}

/// The degree of a root is zero. The degree of any other task is one more than the
/// largest degree among its parents.
pub proof fn law_degrees(graph: Graph, task: u16, degree: int)
    requires
        graph.is_degree(task, degree),
    ensures
        graph.is_root(task) ==> degree == 0,
        forall|parent: u16, of_parent: int|
            graph.is_parent(parent, task) && #[trigger] graph.is_degree(parent, of_parent)
                ==> of_parent + 1 <= degree,
        !graph.is_root(task) ==> exists|parent: u16|
            graph.is_parent(parent, task) && #[trigger] graph.is_degree(parent, degree - 1),
{
    let longest = choose|walk: Seq<u16>|
        {
            &&& graph.is_walk(walk)
            &&& walk.last() == task
            &&& walk.len() - 1 == degree
            &&& graph.is_root(walk.first())
        };
    assert forall|parent: u16, of_parent: int|
        graph.is_parent(parent, task) && #[trigger] graph.is_degree(
            parent,
            of_parent,
        ) implies of_parent + 1 <= degree by {
        let walk = choose|walk: Seq<u16>|
            {
                &&& graph.is_walk(walk)
                &&& walk.last() == parent
                &&& walk.len() - 1 == of_parent
                &&& graph.is_root(walk.first())
            };
        lemma_longer_walk(graph, walk, task);
        assert(walk.push(task).last() == task);
    }
    if longest.len() > 1 {
        let shorter = longest.drop_last();
        let parent = shorter.last();
        lemma_shorter_walk(graph, longest);
        lemma_neighbours(graph.subscriptions, task, parent);
        assert forall|walk: Seq<u16>|
            graph.is_walk(walk) && walk.last() == parent implies walk.len() - 1 <= degree - 1 by {
            lemma_longer_walk(graph, walk, task);
            assert(walk.push(task).last() == task);
        }
        assert(shorter.first() == longest.first());
        assert(graph.is_degree(parent, degree - 1));
    }
}

/// Appends to the queue those of the given tasks that are not in it yet. The set
/// of pending tasks holds what the queue holds.
fn enqueue_tasks(
    queue: &mut VecDeque<u16>,
    pending: &mut HashSet<u16>,
    tasks: Option<&NumberSet>,
)
    requires
        old(pending)@ == old(queue)@.to_set(),
    ensures
        final(pending)@ == final(queue)@.to_set(),
        final(queue)@ == enqueue(
            old(queue)@,
            match tasks {
                Some(tasks) => set_items(*tasks),
                None => Seq::empty(),
            },
        ),
{
    broadcast use vstd::std_specs::hash::group_hash_axioms;

    if let Some(tasks) = tasks {
        let len: usize = set_len(tasks);
        let ghost items = set_items(*tasks);
        for i in 0..len
            invariant
                items == set_items(*tasks),
                len == items.len(),
                pending@ == queue@.to_set(),
                queue@ == enqueue(old(queue)@, items.take(i as int)),
        {
            broadcast use vstd::std_specs::hash::group_hash_axioms;

            let task: u16 = set_get_index(tasks, i).unwrap();
            let ghost before = queue@;
            proof {
                assert(items.take(i + 1).drop_last() =~= items.take(i as int));
                assert(items.take(i + 1).last() == task);
                before.lemma_push_to_set_commute(task);
            }
            if pending.insert(task) {
                queue.push_back(task);
            } else {
                assert(before.to_set().contains(task));
                assert(pending@ =~= before.to_set());
            }
        }
        assert(items.take(len as int) =~= items);
    }
}

/// One more than the largest degree among the given tasks, if all of them are
/// placed.
fn degree_after(placed: &TaskMap<TaskSetupLayout>, parents: &NumberSet) -> (degree: Option<u16>)
    requires
        placed.wf(),
        set_items(*parents).len() > 0,
        forall|i: int|
            0 <= i < placed.values().len() ==> (#[trigger] placed.values()[i]).degree <= i,
    ensures
        match degree {
            Some(degree) => {
                &&& degree <= placed.keys().len()
                &&& forall|k: int|
                    0 <= k < set_items(*parents).len() ==> placed.keys().contains(
                        #[trigger] set_items(*parents)[k],
                    ) && placed.entries()[set_items(*parents)[k]].degree < degree
                &&& exists|k: int|
                    0 <= k < set_items(*parents).len() && placed.entries()[
                        #[trigger] set_items(*parents)[k]
                    ].degree + 1 == degree
            },
            None => exists|k: int|
                0 <= k < set_items(*parents).len() && !placed.keys().contains(
                    #[trigger] set_items(*parents)[k],
                ),
        },
{
    let ghost items = set_items(*parents);
    let len: usize = set_len(parents);
    let mut degree: u16 = 1;
    for k in 0..len
        invariant
            items == set_items(*parents),
            len == items.len(),
            placed.wf(),
            forall|i: int|
                0 <= i < placed.values().len() ==> (#[trigger] placed.values()[i]).degree <= i,
            1 <= degree,
            k == 0 ==> degree == 1,
            k > 0 ==> degree <= placed.keys().len(),
            forall|j: int|
                0 <= j < k ==> placed.keys().contains(#[trigger] items[j])
                    && placed.entries()[items[j]].degree < degree,
            k > 0 ==> exists|j: int|
                0 <= j < k && placed.entries()[#[trigger] items[j]].degree + 1 == degree,
    {
        proof {
            placed.lemma_len();
        }
        let parent: u16 = set_get_index(parents, k).unwrap();
        assert(items[k as int] == parent);
        match placed.position(parent) {
            Some(position) => {
                assert(placed.keys()[position as int] == parent);
                let candidate: u16 = placed.value_at(position).degree + 1;
                assert(placed.entries()[items[k as int]].degree + 1 == candidate);
                if candidate > degree {
                    degree = candidate;
                }
            },
            None => {
                return None;
            },
        }
    }
    Some(degree)
}

/// Puts the tasks of a graph into their stable topological order, with the place
/// and the degree of each task, unless the graph has a cycle.
pub fn topological_order<V>(tasks: &TaskMap<V>, subscriptions: &Subscriptions) -> (order: Result<
    TaskMap<TaskSetupLayout>,
    ExecutorSetupError,
>)
    requires
        tasks.wf(),
        subscriptions.wf(),
        (Graph { tasks: tasks.keys(), subscriptions: subscriptions@ }).wf(),
    ensures
        ({
            let graph = Graph { tasks: tasks.keys(), subscriptions: subscriptions@ };
            match order {
                Ok(order) => {
                    &&& !graph.has_cycle()
                    &&& order.wf()
                    &&& order.keys() == stable_order(graph)
                    &&& graph.is_topological(order.keys())
                    &&& graph.roots().is_prefix_of(order.keys())
                    &&& laid_out(graph, order.keys(), order.values())
                },
                Err(error) => error == ExecutorSetupError::Cycle && graph.has_cycle(),
            }
        }),
{
    let ghost graph = Graph { tasks: tasks.keys(), subscriptions: subscriptions@ };
    let ghost is_root = |task: u16| graph.is_root(task);
    let len: usize = tasks.len();

    // The roots come first, in the order of their configuration.
    let mut placed: TaskMap<TaskSetupLayout> = TaskMap::with_capacity(len);
    for i in 0..len
        invariant
            tasks.wf(),
            subscriptions.wf(),
            len == tasks.keys().len(),
            len <= 0xffff,
            graph == (Graph { tasks: tasks.keys(), subscriptions: subscriptions@ }),
            graph.wf(),
            is_root == (|task: u16| graph.is_root(task)),
            placed.wf(),
            placed.keys() == tasks.keys().take(i as int).filter(is_root),
            laid_out(graph, placed.keys(), placed.values()),
    {
        reveal(Seq::filter);
        proof {
            placed.lemma_len();
            let earlier = tasks.keys().take(i as int);
            assert(tasks.keys().take(i + 1).drop_last() =~= earlier);
            lemma_filter(tasks.keys(), is_root);
            lemma_filter(earlier, is_root);
        }
        let task: u16 = tasks.key_at(i);
        assert(tasks.keys().take(i + 1).last() == task);
        if subscriptions.parents(task).is_none() {
            proof {
                lemma_degree_of_root(graph, task);
                assert(!tasks.keys().take(i as int).contains(task));
                tasks.keys().take(i as int).lemma_filter_len(is_root);
            }
            let task_idx: u16 = placed.len() as u16;
            placed.insert_number(task, TaskSetupLayout { task_idx, degree: 0 });
        }
    }
    assert(tasks.keys().take(len as int) =~= tasks.keys());
    assert(placed.keys() == graph.roots());
    proof {
        law_stable_order(graph);
        lemma_start(graph);
    }

    // Tasks but no roots: all of them lie on cycles or behind them.
    if placed.len() == 0 && len != 0 {
        return Err(ExecutorSetupError::Cycle);
    }
    let waiting: usize = len - placed.len();
    let mut queue: VecDeque<u16> = queue_with_room(waiting);
    let mut pending: HashSet<u16> = set_with_room(waiting);
    let roots: usize = placed.len();
    for i in 0..roots
        invariant
            subscriptions.wf(),
            graph.subscriptions == subscriptions@,
            placed.wf(),
            placed.keys() == graph.roots(),
            roots == placed.keys().len(),
            pending@ == queue@.to_set(),
            queue@ == enqueue_children(graph, Seq::empty(), graph.roots().take(i as int)),
    {
        proof {
            assert(graph.roots().take(i + 1).drop_last() =~= graph.roots().take(i as int));
        }
        enqueue_tasks(&mut queue, &mut pending, subscriptions.children(placed.key_at(i)));
    }

    assert(graph.roots().take(roots as int) =~= graph.roots());
    assert(queue@.to_set() =~= pending@);

    // Place the other tasks, each of them after all of its parents.
    while queue.len() > 0
        invariant
            tasks.wf(),
            subscriptions.wf(),
            graph == (Graph { tasks: tasks.keys(), subscriptions: subscriptions@ }),
            len == tasks.keys().len(),
            len <= 0xffff,
            placed.wf(),
            pending@ == queue@.to_set(),
            on_track(graph, queue@, placed.keys()),
            place_all(graph, queue@, placed.keys()) == stable_order(graph),
            laid_out(graph, placed.keys(), placed.values()),
        decreases len - placed.keys().len(), queue@.len(),
    {
        broadcast use vstd::std_specs::hash::group_hash_axioms;

        let ghost before = queue@;
        let ghost keys = placed.keys();
        let task: u16 = queue.pop_front().unwrap();
        assert(queue@ =~= before.drop_first());
        assert(before.contains(before[0]));
        pending.remove(&task);
        assert(pending@ =~= queue@.to_set()) by {
            lemma_drop_first(before);
        }
        let parents = subscriptions.parents(task).unwrap();
        match degree_after(&placed, parents) {
            Some(degree) => {
                proof {
                    lemma_all_placed(graph, task, &placed, set_items(*parents), degree);
                    lemma_place(graph, before, keys);
                    placed.lemma_len();
                    assert(graph.tasks.contains(task));
                }
                let task_idx: u16 = placed.len() as u16;
                placed.insert_number(task, TaskSetupLayout { task_idx, degree });
                enqueue_tasks(&mut queue, &mut pending, subscriptions.children(task));
            },
            None => {
                proof {
                    let k = choose|k: int|
                        0 <= k < set_items(*parents).len() && !keys.contains(
                            #[trigger] set_items(*parents)[k],
                        );
                    lemma_neighbours(graph.subscriptions, task, set_items(*parents)[k]);
                    assert(graph.has_parent_outside(task, keys));
                    lemma_skip(graph, before, keys);
                }
            },
        }
    }
    assert(queue@ =~= Seq::empty());
    proof {
        lemma_complete(graph, placed.keys());
    }
    all_or_cycle(placed, len)
}

/// The order, if all tasks are placed. Otherwise those that are not lie on cycles or
/// behind them. Neither outcome takes more than a comparison, and none can panic.
fn all_or_cycle(placed: TaskMap<TaskSetupLayout>, len: usize) -> (order: Result<
    TaskMap<TaskSetupLayout>,
    ExecutorSetupError,
>)
    requires
        placed.wf(),
    ensures
        order is Ok <==> placed.keys().len() == len,
        order matches Ok(order) ==> order == placed,
        order matches Err(error) ==> error == ExecutorSetupError::Cycle,
    no_unwind
{
    if placed.len() != len {
        Err(ExecutorSetupError::Cycle)
    } else {
        Ok(placed)
    }
}

/// The elements of a sequence without its first one.
proof fn lemma_drop_first(queue: Seq<u16>)
    requires
        queue.len() > 0,
        queue.no_duplicates(),
    ensures
        queue.drop_first().to_set() == queue.to_set().remove(queue.first()),
{
    let rest = queue.drop_first();
    assert forall|task: u16| rest.to_set().contains(task) <==> queue.to_set().remove(
        queue.first(),
    ).contains(task) by {
        if queue.contains(task) && task != queue.first() {
            let i = choose|i: int| 0 <= i < queue.len() && queue[i] == task;
            assert(rest[i - 1] == task);
        }
        if rest.contains(task) {
            let i = choose|i: int| 0 <= i < rest.len() && rest[i] == task;
            assert(queue[i + 1] == task);
        }
    }
    assert(rest.to_set() =~= queue.to_set().remove(queue.first()));
}

/// A task whose parents are all placed, and the degree that follows from theirs.
proof fn lemma_all_placed(
    graph: Graph,
    task: u16,
    placed: &TaskMap<TaskSetupLayout>,
    parents: Seq<u16>,
    degree: u16,
)
    requires
        placed.wf(),
        laid_out(graph, placed.keys(), placed.values()),
        parents == graph.parents(task),
        forall|k: int|
            0 <= k < parents.len() ==> placed.keys().contains(#[trigger] parents[k])
                && placed.entries()[parents[k]].degree < degree,
        exists|k: int|
            0 <= k < parents.len() && placed.entries()[#[trigger] parents[k]].degree + 1 == degree,
    ensures
        !graph.has_parent_outside(task, placed.keys()),
        graph.is_degree(task, degree as int),
{
    placed.lemma_len();
    assert forall|parent: u16| #[trigger] graph.is_parent(parent, task) implies
        placed.keys().contains(parent) && exists|of_parent: int|
        of_parent <= degree - 1 && graph.is_degree(parent, of_parent) by {
        lemma_neighbours(graph.subscriptions, task, parent);
        let k = choose|k: int| 0 <= k < parents.len() && parents[k] == parent;
        assert(placed.keys().contains(parents[k]));
        let i = placed.place(parent);
        let layout = placed.values()[i];
        assert(graph.is_degree(parent, layout.degree as int));
    }
    let k = choose|k: int|
        0 <= k < parents.len() && placed.entries()[#[trigger] parents[k]].degree + 1 == degree;
    let furthest = parents[k];
    lemma_neighbours(graph.subscriptions, task, furthest);
    let layout = placed.values()[placed.place(furthest)];
    assert(graph.is_degree(furthest, layout.degree as int));
    lemma_degree_of_child(graph, task, furthest, degree as int);
}

} // verus!
