//! The plan that the setup makes: order, degrees, owned and shared children.

use ccg::executor::countdown::count_down;
use ccg::executor::order::topological_order;
use ccg::executor::plan::Plan;
use ccg::executor::setup::Subscriptions;
use ccg::executor::ExecutorSetupError;
use ccg::task_map::TaskMap;
use ccg::types::{SyncUnsafeCell, TaskId};
use ccg::utils::RangeSplitAtHalf;
use std::collections::HashSet;

fn tid(x: u16) -> TaskId {
    TaskId::new(x).unwrap()
}

/// The tasks and the subscriptions of a graph; each task is given by its number and
/// its parents.
fn graph(nodes: &[(u16, &[u16])]) -> (TaskMap<()>, Subscriptions) {
    let mut tasks = TaskMap::new();
    let mut subscriptions = Subscriptions::with_capacity(nodes.len());
    for (id, parents) in nodes {
        tasks.insert(tid(*id), ());
        for parent in parents.iter() {
            subscriptions.add(tid(*id), tid(*parent));
        }
    }
    (tasks, subscriptions)
}

fn plan(nodes: &[(u16, &[u16])]) -> Result<Plan, ExecutorSetupError> {
    let (tasks, subscriptions) = graph(nodes);
    Plan::new(&tasks, &subscriptions)
}

/// The tasks in order, with their degrees.
fn order(nodes: &[(u16, &[u16])]) -> Vec<(u16, u16)> {
    let (tasks, subscriptions) = graph(nodes);
    let order = topological_order(&tasks, &subscriptions).ok().unwrap();
    let mut list = vec![];
    for i in 0..order.len() {
        assert_eq!(order.value_at(i).task_idx as usize, i);
        list.push((order.key_at(i), order.value_at(i).degree));
    }
    list
}

#[test]
fn roots_come_first_and_degrees_follow_the_longest_way() {
    // The diamond: C on A and B, D on C.
    assert_eq!(
        order(&[(3, &[1, 2]), (1, &[]), (4, &[3]), (2, &[])]),
        vec![(1, 0), (2, 0), (3, 1), (4, 2)]
    );
    assert_eq!(
        order(&[(9, &[]), (4, &[9, 5]), (5, &[7]), (7, &[9]), (2, &[])]),
        vec![(9, 0), (2, 0), (7, 1), (5, 2), (4, 3)]
    );
    assert_eq!(order(&[]), vec![]);
}

#[test]
fn order_is_stable() {
    assert_eq!(
        order(&[(5, &[]), (3, &[5]), (8, &[5]), (1, &[5]), (4, &[])]),
        vec![(5, 0), (4, 0), (3, 1), (8, 1), (1, 1)]
    );
}

#[test]
fn topological_order_finds_cycles() {
    let (tasks, subscriptions) = graph(&[(1, &[2]), (2, &[1])]);
    assert_eq!(topological_order(&tasks, &subscriptions).err(), Some(ExecutorSetupError::Cycle));
    let (tasks, subscriptions) = graph(&[(1, &[]), (2, &[1, 3]), (3, &[2])]);
    assert_eq!(topological_order(&tasks, &subscriptions).err(), Some(ExecutorSetupError::Cycle));
}

#[test]
fn own_child_is_a_cycle() {
    assert_eq!(plan(&[(1, &[1])]).err(), Some(ExecutorSetupError::Cycle));
    assert_eq!(plan(&[(2, &[]), (1, &[2, 1])]).err(), Some(ExecutorSetupError::Cycle));
}

#[test]
fn plan_finds_cycles() {
    assert_eq!(plan(&[(1, &[2]), (2, &[3]), (3, &[1])]).err(), Some(ExecutorSetupError::Cycle));
}

#[test]
fn children_are_owned_or_shared() {
    let plan = plan(&[(3, &[1, 2]), (1, &[]), (4, &[3]), (2, &[])]).ok().unwrap();
    assert_eq!(plan.num_tasks(), 4);
    assert_eq!(plan.num_independent(), 2);
    for (task, index) in [(1, 0), (2, 1), (3, 2), (4, 3)] {
        assert_eq!(plan.find(task), Some(index));
        assert_eq!(plan.task_at(index), task);
    }
    assert_eq!(plan.find(5), None);
    assert_eq!(*plan.owned(0), vec![]);
    assert_eq!(*plan.shared(0), vec![2]);
    assert_eq!(*plan.owned(1), vec![]);
    assert_eq!(*plan.shared(1), vec![2]);
    assert_eq!(*plan.owned(2), vec![3]);
    assert_eq!(*plan.shared(2), vec![]);
    assert_eq!(*plan.owned(3), vec![]);
    assert_eq!(*plan.shared(3), vec![]);
    for (index, total) in [(0, 0), (1, 0), (2, 2), (3, 1)] {
        assert_eq!(plan.total(index), total);
    }
}

#[test]
fn children_are_sorted_by_index() {
    // Task 5 subscribes to task 1 before task 3 does, but comes after it.
    let plan = plan(&[(1, &[]), (2, &[]), (5, &[1, 4]), (3, &[1, 2]), (4, &[2])]).ok().unwrap();
    assert_eq!(plan.find(3), Some(2));
    assert_eq!(plan.find(4), Some(3));
    assert_eq!(plan.find(5), Some(4));
    assert_eq!(*plan.shared(0), vec![2, 4]);
    assert_eq!(*plan.owned(1), vec![3]);
    assert_eq!(*plan.shared(1), vec![2]);
    assert_eq!(*plan.shared(3), vec![4]);
}

#[test]
fn plan_of_an_empty_graph() {
    let plan = plan(&[]).ok().unwrap();
    assert_eq!(plan.num_tasks(), 0);
    assert_eq!(plan.num_independent(), 0);
    assert_eq!(plan.find(1), None);
}

#[test]
fn subscriptions_keep_their_order_and_no_duplicates() {
    let mut subscriptions = Subscriptions::with_capacity(0);
    assert!(subscriptions.parents(1).is_none());
    assert!(subscriptions.children(1).is_none());
    for (child, parent) in [(1, 7), (1, 3), (2, 3), (1, 7), (1, 5)] {
        subscriptions.add(tid(child), tid(parent));
    }
    let parents: Vec<u16> = subscriptions.parents(1).unwrap().iter().copied().collect();
    assert_eq!(parents, vec![7, 3, 5]);
    let children: Vec<u16> = subscriptions.children(3).unwrap().iter().copied().collect();
    assert_eq!(children, vec![1, 2]);
    let children: Vec<u16> = subscriptions.children(7).unwrap().iter().copied().collect();
    assert_eq!(children, vec![1]);
    assert!(subscriptions.parents(3).is_none());
    assert!(subscriptions.children(1).is_none());
}

#[test]
fn count_down_promotes_children_without_parents_left() {
    let mut parents_left = vec![0, 2, 1, 3, 1];
    let mut promoted = vec![9];
    count_down(&mut parents_left, &vec![4, 1, 2], &mut promoted);
    assert_eq!(parents_left, vec![0, 1, 0, 3, 0]);
    assert_eq!(promoted, vec![9, 4, 2]);
}

#[test]
fn only_the_last_parent_promotes() {
    // Three parents of task 0, in every order: all of them look the same to the
    // counter, so each order is three calls.
    let mut parents_left = vec![3];
    for call in 1..=3 {
        let mut promoted = vec![];
        count_down(&mut parents_left, &vec![0], &mut promoted);
        assert_eq!(promoted, if call == 3 { vec![0] } else { vec![] });
    }
    assert_eq!(parents_left, vec![0]);
}

#[test]
fn ranges_are_cut_in_half() {
    assert_eq!((0..0).split_at_half(), (0..0, 0..0));
    assert_eq!((3..4).split_at_half(), (3..3, 3..4));
    assert_eq!((0..7).split_at_half(), (0..3, 3..7));
    assert_eq!((10..20).split_at_half(), (10..15, 15..20));
    let end = usize::MAX;
    assert_eq!((end - 2..end).split_at_half(), (end - 2..end - 1, end - 1..end));
}

#[test]
fn task_map_keeps_insertion_order() {
    let mut map = TaskMap::new();
    assert_eq!(map.len(), 0);
    assert_eq!(map.get(7), None);
    assert_eq!(map.insert(tid(7), 'a'), None);
    assert_eq!(map.insert(tid(2), 'b'), None);
    assert_eq!(map.insert(tid(7), 'c'), Some('a'));
    assert_eq!(map.insert(tid(5), 'd'), None);
    assert_eq!(map.len(), 3);
    assert_eq!((map.key_at(0), map.key_at(1), map.key_at(2)), (7, 2, 5));
    assert_eq!((*map.value_at(0), *map.value_at(1), *map.value_at(2)), ('c', 'b', 'd'));
    assert_eq!((map.position(5), map.position(9)), (Some(2), None));
    assert!(map.contains_key(2));
    assert!(!map.contains_key(3));
    assert_eq!(map.get(7), Some(&'c'));
    *map.value_at_mut(1) = 'e';
    assert_eq!(map.get(2), Some(&'e'));
    let default: TaskMap<u8> = TaskMap::default();
    assert_eq!(default.len(), 0);
}

#[test]
fn task_ids_are_not_zero() {
    assert_eq!(TaskId::new(0), None);
    assert_eq!(TaskId::new(1).unwrap().get(), 1);
    assert_eq!(TaskId::new(0xffff).unwrap().get(), 0xffff);
    assert!(tid(1) < tid(2));
    let ids: HashSet<TaskId> = [tid(1), tid(2), tid(1)].into_iter().collect();
    assert_eq!(ids.len(), 2);
}

#[test]
fn slots_hold_one_value() {
    let mut slot = SyncUnsafeCell::new(3);
    assert_eq!(*slot.get(), 3);
    assert_eq!(slot.replace(5), 3);
    assert_eq!(*slot.get(), 5);
}

/// All orders of the given items.
fn permutations(items: &[u16]) -> Vec<Vec<u16>> {
    if items.is_empty() {
        return vec![vec![]];
    }
    let mut all = vec![];
    for i in 0..items.len() {
        let mut rest = items.to_vec();
        let first = rest.remove(i);
        for mut tail in permutations(&rest) {
            tail.insert(0, first);
            all.push(tail);
        }
    }
    all
}

#[test]
fn last_parent_promotes_in_every_order_of_finishing() {
    // 1, 2 and 3 are roots; 4 has all of them as parents, 5 has 1 and 2, 6 has 2 and 3.
    let plan = plan(&[(4, &[1, 2, 3]), (5, &[1, 2]), (6, &[3, 2]), (1, &[]), (2, &[]), (3, &[])])
        .ok()
        .unwrap();
    for finished in permutations(&[0, 1, 2]) {
        let mut parents_left: Vec<u16> = (0..6).map(|index: u16| plan.total(index)).collect();
        let mut started = vec![];
        for (k, &index) in finished.iter().enumerate() {
            let mut promoted = vec![];
            count_down(&mut parents_left, plan.shared(index), &mut promoted);
            for &child in &promoted {
                // Every parent of the child is among the tasks that have finished.
                let parents = (0..3).filter(|&parent| plan.shared(parent).contains(&child));
                assert!(parents.clone().all(|parent: u16| finished[..=k].contains(&parent)));
                assert!(parents.clone().any(|parent: u16| parent == index));
            }
            started.append(&mut promoted);
        }
        started.sort();
        assert_eq!(started, vec![3, 4, 5]);
        assert_eq!(parents_left, vec![0; 6]);
    }
}

#[test]
fn parents_do_not_depend_on_insertion_order() {
    let nodes: [(u16, &[u16]); 5] = [(1, &[]), (2, &[1]), (3, &[1, 2]), (4, &[3, 2, 1]), (5, &[])];
    for order in permutations(&[0, 1, 2, 3, 4]) {
        let shuffled: Vec<(u16, &[u16])> = order.iter().map(|&k| nodes[k as usize]).collect();
        let plan = plan(&shuffled).ok().unwrap();
        for (task, parents) in nodes {
            let index = plan.find(task).unwrap();
            assert_eq!(plan.total(index) as usize, parents.len());
            for &parent in parents {
                assert!(plan.find(parent).unwrap() < index);
            }
        }
    }
}

#[test]
fn cycles_do_not_depend_on_insertion_order() {
    let nodes: [(u16, &[u16]); 4] = [(1, &[]), (2, &[1, 4]), (3, &[2]), (4, &[3])];
    for order in permutations(&[0, 1, 2, 3]) {
        let shuffled: Vec<(u16, &[u16])> = order.iter().map(|&k| nodes[k as usize]).collect();
        assert_eq!(plan(&shuffled).err(), Some(ExecutorSetupError::Cycle));
    }
}
