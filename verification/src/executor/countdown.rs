//! Counting down the parents that a task waits for.

use crate::executor::order::lemma_filter;
use crate::executor::plan::Plan;
use vstd::prelude::*;

verus! {

impl Plan {
    /// How many of the given tasks have an index that is not in `done`.
    pub open spec fn count_missing(&self, tasks: Seq<u16>, done: Set<u16>) -> nat
        decreases tasks.len(),
    {
        if tasks.len() == 0 {
            0
        } else {
            let earlier = self.count_missing(tasks.drop_last(), done);
            if done.contains(self.index(tasks.last())) {
                earlier
            } else {
                earlier + 1
            }
        }
    }

    /// How many parents of a task are not done.
    pub open spec fn missing(&self, index: u16, done: Set<u16>) -> nat {
        self.count_missing(self.parents(index as int), done)
    }

    proof fn lemma_count_missing(&self, tasks: Seq<u16>, done: Set<u16>)
        ensures
            self.count_missing(tasks, done) <= tasks.len(),
            self.count_missing(tasks, done) == 0 <==> forall|task: u16| #[trigger]
                tasks.contains(task) ==> done.contains(self.index(task)),
        decreases tasks.len(),
    {
        if tasks.len() > 0 {
            let earlier = tasks.drop_last();
            self.lemma_count_missing(earlier, done);
            assert(tasks =~= earlier.push(tasks.last()));
            assert forall|task: u16| #[trigger] tasks.contains(task) <==> earlier.contains(task)
                || task == tasks.last() by {
                vstd::seq_lib::lemma_seq_contains_after_push(earlier, tasks.last(), task);
            }
            assert(tasks.contains(tasks.last()));
            assert(forall|task: u16| #[trigger] earlier.contains(task) ==> tasks.contains(task));
        }
    }

    proof fn lemma_count_one_more(&self, tasks: Seq<u16>, done: Set<u16>, index: u16)
        requires
            self.wf(),
            tasks.no_duplicates(),
            forall|k: int|
                0 <= k < tasks.len() ==> self.order()[self.index(#[trigger] tasks[k]) as int]
                    == tasks[k],
            index < self.len(),
            !done.contains(index),
        ensures
            self.count_missing(tasks, done) == self.count_missing(tasks, done.insert(index)) + (
            if tasks.contains(self.order()[index as int]) {
                1int
            } else {
                0int
            }),
        decreases tasks.len(),
    {
        let task = self.order()[index as int];
        assert(self.index(task) == index);
        if tasks.len() > 0 {
            let earlier = tasks.drop_last();
            let last = tasks.last();
            assert forall|k: int| 0 <= k < earlier.len() implies self.order()[self.index(
                #[trigger] earlier[k],
            ) as int] == earlier[k] by {
                assert(earlier[k] == tasks[k]);
            }
            self.lemma_count_one_more(earlier, done, index);
            assert(tasks =~= earlier.push(last));
            vstd::seq_lib::lemma_seq_contains_after_push(earlier, last, task);
            assert(self.order()[self.index(tasks[tasks.len() - 1]) as int] == last);
            if last == task && earlier.contains(task) {
                let k = choose|k: int| 0 <= k < earlier.len() && earlier[k] == task;
                assert(tasks[k] == tasks[tasks.len() - 1]);
            }
        }
    }

    /// A task has no missing parents exactly if all of its parents are done.
    pub proof fn lemma_missing(&self, index: u16, done: Set<u16>)
        requires
            self.wf(),
            index < self.len(),
        ensures
            self.missing(index, done) <= self.parents_total(index as int),
            self.missing(index, done) == 0 <==> forall|parent: u16| #[trigger]
                self.parents(index as int).contains(parent) ==> done.contains(self.index(parent)),
    {
        self.lemma_count_missing(self.parents(index as int), done);
        assert(self.parents_total(index as int) == self.parents(index as int).len());
    }

    /// Where one more task is done, exactly its children miss one parent less.
    pub proof fn lemma_one_more_done(&self, index: u16, done: Set<u16>, finished: u16)
        requires
            self.wf(),
            index < self.len(),
            finished < self.len(),
            !done.contains(finished),
        ensures
            self.missing(index, done) == self.missing(index, done.insert(finished)) + (
            if self.parents(index as int).contains(self.order()[finished as int]) {
                1int
            } else {
                0int
            }),
    {
        let parents = self.parents(index as int);
        self.lemma_parents_distinct(index);
        assert forall|k: int| 0 <= k < parents.len() implies self.order()[self.index(
            #[trigger] parents[k],
        ) as int] == parents[k] by {
            assert(parents.contains(parents[k]));
            self.lemma_parent(index, parents[k]);
        }
        self.lemma_count_one_more(parents, done, finished);
    }

    /// Where nothing is done, all parents are missing.
    pub proof fn lemma_nothing_done(&self, parents: Seq<u16>)
        ensures
            self.count_missing(parents, Set::empty()) == parents.len(),
        decreases parents.len(),
    {
        if parents.len() > 0 {
            self.lemma_nothing_done(parents.drop_last());
        }
    }

    /// The shared children of a task are distinct.
    pub proof fn lemma_shared_distinct(&self, index: u16)
        requires
            self.wf(),
            index < self.len(),
        ensures
            self.shared_children(index as int).no_duplicates(),
    {
        let children = self.shared_children(index as int);
        assert forall|i: int, j: int|
            0 <= i < children.len() && 0 <= j < children.len() && i != j implies children[i]
            != children[j] by {
            if i < j {
                assert(children[i] < children[j]);
            } else {
                assert(children[j] < children[i]);
            }
        }
    }

    /// What the next task that finishes does to the number of missing parents.
    proof fn lemma_next_finished(&self, child: u16, finished: Seq<u16>, k: int)
        requires
            self.wf(),
            child < self.len(),
            finished.no_duplicates(),
            0 <= k < finished.len(),
            finished[k] < self.len(),
        ensures
            self.missing(child, finished.take(k).to_set()) == self.missing(
                child,
                finished.take(k + 1).to_set(),
            ) + (if self.parents(child as int).contains(self.order()[finished[k] as int]) {
                1int
            } else {
                0int
            }),
    {
        let earlier = finished.take(k);
        assert(!earlier.contains(finished[k])) by {
            if earlier.contains(finished[k]) {
                let i = choose|i: int| 0 <= i < earlier.len() && earlier[i] == finished[k];
                assert(finished[i] == finished[k]);
            }
        }
        assert(finished.take(k + 1) =~= earlier.push(finished[k]));
        earlier.lemma_push_to_set_commute(finished[k]);
        self.lemma_one_more_done(child, earlier.to_set(), finished[k]);
    }

    /// The place of the last parent among the first tasks that finish, where these
    /// are all parents.
    proof fn lemma_last(&self, child: u16, finished: Seq<u16>, len: int) -> (last: int)
        requires
            self.wf(),
            child < self.len(),
            self.parents_total(child as int) > 0,
            finished.no_duplicates(),
            forall|k: int| 0 <= k < finished.len() ==> (#[trigger] finished[k]) < self.len(),
            0 <= len <= finished.len(),
            forall|parent: u16| #[trigger]
                self.parents(child as int).contains(parent) ==> finished.take(len).contains(
                    self.index(parent),
                ),
        ensures
            0 <= last < len,
            self.parents(child as int).contains(self.order()[finished[last] as int]),
            forall|k: int|
                0 <= k <= last ==> self.missing(child, #[trigger] finished.take(k).to_set()) > 0,
            forall|k: int|
                last < k <= len ==> self.missing(child, #[trigger] finished.take(k).to_set()) == 0,
        decreases len,
    {
        let parents = self.parents(child as int);
        assert(self.parents_total(child as int) == parents.len());
        assert(parents.contains(parents[0]));
        assert(finished.take(len).contains(self.index(parents[0])));
        let last = len - 1;
        self.lemma_missing(child, finished.take(len).to_set());
        self.lemma_next_finished(child, finished, last);
        if parents.contains(self.order()[finished[last] as int]) {
            assert forall|k: int| 0 <= k <= last implies self.missing(
                child,
                #[trigger] finished.take(k).to_set(),
            ) > 0 by {
                self.lemma_missing(child, finished.take(k).to_set());
                self.lemma_missing(child, finished.take(last).to_set());
                if self.missing(child, finished.take(k).to_set()) == 0 {
                    assert forall|parent: u16| #[trigger] parents.contains(
                        parent,
                    ) implies finished.take(last).to_set().contains(self.index(parent)) by {
                        let earlier = finished.take(k);
                        assert(earlier.contains(self.index(parent)));
                        let i = choose|i: int|
                            0 <= i < earlier.len() && earlier[i] == self.index(parent);
                        assert(finished.take(last)[i] == self.index(parent));
                    }
                }
            }
            last
        } else {
            let shorter = finished.take(last);
            assert forall|parent: u16| #[trigger] parents.contains(parent) implies shorter.contains(
                self.index(parent),
            ) by {
                let longer = finished.take(len);
                let i = choose|i: int| 0 <= i < longer.len() && longer[i] == self.index(parent);
                self.lemma_parent(child, parent);
                if i < last {
                    assert(shorter[i] == self.index(parent));
                }
            }
            self.lemma_last(child, finished, last)
        }
    }
}

/// In whatever order the parents of a task finish, exactly one of them finds that
/// the task waits for one parent only: the one that finishes last. Before that the
/// task waits for someone, and afterwards it waits for nobody.
///
/// `finished` are the indexes of tasks in the order in which they finish.
pub proof fn law_one_parent_is_last(plan: Plan, child: u16, finished: Seq<u16>) -> (last: int)
    requires
        plan.wf(),
        child < plan.len(),
        plan.parents_total(child as int) > 0,
        finished.no_duplicates(),
        forall|k: int| 0 <= k < finished.len() ==> (#[trigger] finished[k]) < plan.len(),
        forall|parent: u16| #[trigger]
            plan.parents(child as int).contains(parent) ==> finished.contains(plan.index(parent)),
    ensures
        0 <= last < finished.len(),
        plan.parents(child as int).contains(plan.order()[finished[last] as int]),
        forall|k: int|
            0 <= k <= last ==> plan.missing(child, #[trigger] finished.take(k).to_set()) > 0,
        forall|k: int|
            last < k <= finished.len() ==> plan.missing(child, #[trigger] finished.take(k).to_set())
                == 0,
        forall|k: int|
            0 <= k < finished.len() && plan.parents(child as int).contains(
                plan.order()[#[trigger] finished[k] as int],
            ) ==> (plan.missing(child, finished.take(k).to_set()) == 1 <==> k == last),
{
    let parents = plan.parents(child as int);
    assert(plan.parents_total(child as int) == parents.len());
    assert(finished.take(finished.len() as int) =~= finished);
    let last = plan.lemma_last(child, finished, finished.len() as int);
    assert forall|k: int|
        0 <= k < finished.len() && parents.contains(
            plan.order()[#[trigger] finished[k] as int],
        ) implies (plan.missing(child, finished.take(k).to_set()) == 1 <==> k == last) by {
        plan.lemma_next_finished(child, finished, k);
        assert(plan.missing(child, finished.take(k + 1).to_set()) == 0 <==> k + 1 > last);
        assert(plan.missing(child, finished.take(k).to_set()) > 0 <==> k <= last);
    }
    last
}

/// The counters after the given children have been counted down once.
pub open spec fn counted_down(parents_left: Seq<u16>, children: Seq<u16>) -> Seq<u16> {
    Seq::new(
        parents_left.len(),
        |i: int|
            if children.contains(i as u16) {
                (parents_left[i] - 1) as u16
            } else {
                parents_left[i]
            },
    )
}

/// Those of the given children that wait for one parent only.
pub open spec fn released(parents_left: Seq<u16>, children: Seq<u16>) -> Seq<u16> {
    children.filter(|child: u16| parents_left[child as int] == 1)
}

/// The counters after tasks have finished one after the other, each of them counting
/// down its shared children. `finished` are the indexes of the tasks in the order in
/// which they finish.
pub open spec fn counters_after(plan: Plan, start: Seq<u16>, finished: Seq<u16>) -> Seq<u16>
    decreases finished.len(),
{
    if finished.len() == 0 {
        start
    } else {
        counted_down(
            counters_after(plan, start, finished.drop_last()),
            plan.shared_children(finished.last() as int),
        )
    }
}

/// The children that the task at place `k` among those that finish releases.
pub open spec fn released_by(
    plan: Plan,
    start: Seq<u16>,
    finished: Seq<u16>,
    k: int,
) -> Seq<u16> {
    released(
        counters_after(plan, start, finished.take(k)),
        plan.shared_children(finished[k] as int),
    )
}

/// The counter of a child is the number of its parents that have not finished.
proof fn lemma_counter(plan: Plan, child: u16, start: Seq<u16>, finished: Seq<u16>, k: int)
    requires
        plan.wf(),
        child < plan.len(),
        plan.parents_total(child as int) > 1,
        start.len() == plan.len(),
        start[child as int] == plan.parents_total(child as int),
        finished.no_duplicates(),
        forall|k: int| 0 <= k < finished.len() ==> (#[trigger] finished[k]) < plan.len(),
        0 <= k <= finished.len(),
    ensures
        counters_after(plan, start, finished.take(k)).len() == plan.len(),
        counters_after(plan, start, finished.take(k))[child as int] == plan.missing(
            child,
            finished.take(k).to_set(),
        ),
    decreases k,
{
    if k == 0 {
        assert(finished.take(0).to_set() =~= Set::empty());
        plan.lemma_nothing_done(plan.parents(child as int));
        assert(plan.parents_total(child as int) == plan.parents(child as int).len());
    } else {
        lemma_counter(plan, child, start, finished, k - 1);
        let longer = finished.take(k);
        assert(longer.drop_last() =~= finished.take(k - 1));
        assert(longer.last() == finished[k - 1]);
        plan.lemma_next_finished(child, finished, k - 1);
        plan.lemma_shared(finished[k - 1], child);
    }
}

/// A child with several parents is released once, by the parent that finishes last,
/// in whatever order they finish; when that happens all of its parents have
/// finished. Until then its counter is the number of parents that have not.
pub proof fn law_last_parent_releases(
    plan: Plan,
    child: u16,
    start: Seq<u16>,
    finished: Seq<u16>,
) -> (last: int)
    requires
        plan.wf(),
        child < plan.len(),
        plan.parents_total(child as int) > 1,
        start.len() == plan.len(),
        start[child as int] == plan.parents_total(child as int),
        finished.no_duplicates(),
        forall|k: int| 0 <= k < finished.len() ==> (#[trigger] finished[k]) < plan.len(),
        forall|parent: u16| #[trigger]
            plan.parents(child as int).contains(parent) ==> finished.contains(plan.index(parent)),
    ensures
        0 <= last < finished.len(),
        plan.parents(child as int).contains(plan.order()[finished[last] as int]),
        forall|parent: u16| #[trigger]
            plan.parents(child as int).contains(parent) ==> finished.take(last + 1).contains(
                plan.index(parent),
            ),
        forall|k: int|
            0 <= k < finished.len() ==> (#[trigger] released_by(plan, start, finished, k).contains(
                child,
            ) <==> k == last),
        released_by(plan, start, finished, last).no_duplicates(),
        forall|k: int|
            0 <= k <= finished.len() ==> (#[trigger] counters_after(
                plan,
                start,
                finished.take(k),
            ))[child as int] == plan.missing(child, finished.take(k).to_set()),
{
    let last = law_one_parent_is_last(plan, child, finished);
    assert forall|k: int| 0 <= k < finished.len() implies (#[trigger] released_by(
        plan,
        start,
        finished,
        k,
    ).contains(child) <==> k == last) by {
        lemma_counter(plan, child, start, finished, k);
        plan.lemma_shared(finished[k], child);
        plan.lemma_shared_distinct(finished[k]);
        let left = counters_after(plan, start, finished.take(k));
        lemma_filter(
            plan.shared_children(finished[k] as int),
            |child: u16| left[child as int] == 1,
        );
    }
    assert forall|k: int| 0 <= k <= finished.len() implies (#[trigger] counters_after(
        plan,
        start,
        finished.take(k),
    ))[child as int] == plan.missing(child, finished.take(k).to_set()) by {
        lemma_counter(plan, child, start, finished, k);
    }
    plan.lemma_shared_distinct(finished[last]);
    let left = counters_after(plan, start, finished.take(last));
    lemma_filter(
        plan.shared_children(finished[last] as int),
        |child: u16| left[child as int] == 1,
    );
    plan.lemma_missing(child, finished.take(last + 1).to_set());
    assert forall|parent: u16| #[trigger] plan.parents(child as int).contains(
        parent,
    ) implies finished.take(last + 1).contains(plan.index(parent)) by {
        assert(finished.take(last + 1).to_set().contains(plan.index(parent)));
    }
    last
}

/// What the counter of a child with several parents is after some tasks have
/// finished does not depend on the order in which they have.
pub proof fn law_counters_do_not_depend_on_order(
    plan: Plan,
    child: u16,
    start: Seq<u16>,
    finished: Seq<u16>,
    other: Seq<u16>,
)
    requires
        plan.wf(),
        child < plan.len(),
        plan.parents_total(child as int) > 1,
        start.len() == plan.len(),
        start[child as int] == plan.parents_total(child as int),
        finished.no_duplicates(),
        forall|k: int| 0 <= k < finished.len() ==> (#[trigger] finished[k]) < plan.len(),
        other.no_duplicates(),
        other.to_set() == finished.to_set(),
    ensures
        counters_after(plan, start, other)[child as int] == counters_after(
            plan,
            start,
            finished,
        )[child as int],
{
    assert forall|k: int| 0 <= k < other.len() implies (#[trigger] other[k]) < plan.len() by {
        assert(other.to_set().contains(other[k]));
        assert(finished.to_set().contains(other[k]));
        let i = choose|i: int| 0 <= i < finished.len() && finished[i] == other[k];
    }
    assert(finished.take(finished.len() as int) =~= finished);
    assert(other.take(other.len() as int) =~= other);
    lemma_counter(plan, child, start, finished, finished.len() as int);
    lemma_counter(plan, child, start, other, other.len() as int);
}

/// Counts down the parents that each of the given children waits for, and
/// appends to `promoted` those children that wait for no more.
pub fn count_down(parents_left: &mut Vec<u16>, children: &Vec<u16>, promoted: &mut Vec<u16>)
    requires
        old(parents_left)@.len() <= 0x1_0000,
        children@.no_duplicates(),
        forall|k: int|
            0 <= k < children@.len() ==> (#[trigger] children@[k]) < old(parents_left)@.len()
                && old(parents_left)@[children@[k] as int] > 0,
    ensures
        final(parents_left)@ == counted_down(old(parents_left)@, children@),
        final(promoted)@ == old(promoted)@ + released(old(parents_left)@, children@),
{
    let ghost before = parents_left@;
    let ghost last_parent = |child: u16| before[child as int] == 1;
    for k in 0..children.len()
        invariant
            children@.no_duplicates(),
            parents_left@.len() == before.len(),
            before == old(parents_left)@,
            last_parent == (|child: u16| before[child as int] == 1),
            forall|j: int|
                0 <= j < children@.len() ==> (#[trigger] children@[j]) < before.len()
                    && before[children@[j] as int] > 0,
            forall|i: u16|
                #![trigger parents_left@[i as int]]
                i < before.len() ==> parents_left@[i as int] == (if children@.take(
                    k as int,
                ).contains(i) {
                    before[i as int] - 1
                } else {
                    before[i as int] as int
                }),
            promoted@ == old(promoted)@ + children@.take(k as int).filter(last_parent),
    {
        reveal(Seq::filter);
        let child: u16 = children[k];
        proof {
            let earlier = children@.take(k as int);
            assert(children@.take(k + 1).drop_last() =~= earlier);
            assert(children@.take(k + 1) =~= earlier.push(child));
            assert forall|i: u16| #[trigger] children@.take(k + 1).contains(i) <==>
                earlier.contains(i) || i == child by {
                vstd::seq_lib::lemma_seq_contains_after_push(earlier, child, i);
            }
            assert(!earlier.contains(child)) by {
                if earlier.contains(child) {
                    let j = choose|j: int| 0 <= j < k && earlier[j] == child;
                    assert(children@[j] == children@[k as int]);
                }
            }
        }
        let left: u16 = parents_left[child as usize];
        if left == 1 {
            promoted.push(child);
        }
        parents_left.set(child as usize, left - 1);
    }
    proof {
        assert(children@.take(children@.len() as int) =~= children@);
        assert forall|i: int| 0 <= i < before.len() implies parents_left@[i] == counted_down(
            before,
            children@,
        )[i] by {
            assert(parents_left@[(i as u16) as int] == parents_left@[i]);
        }
        assert(parents_left@ =~= counted_down(before, children@));
    }
}

} // verus!
