//! Setting up and executing graphs of many shapes.

use ccg::config::Config;
use ccg::executor::{Executor, ExecutorSetupError};
use ccg::task::{ExecApi, SetupApi, Task, TaskSubscriptionId};
use ccg::task_map::TaskMap;
use ccg::types::TaskId;
use std::sync::atomic::{AtomicUsize, Ordering};
use std::sync::{Arc, Mutex};

fn tid(x: u16) -> TaskId {
    TaskId::new(x).unwrap()
}

#[derive(Debug, Clone)]
struct Shared {
    // Indexed by (TaskId::get() - 1)
    outputs: Arc<Mutex<Vec<Option<u32>>>>,
    counts: Arc<Vec<AtomicUsize>>,
}

impl Shared {
    fn new(capacity: usize) -> Self {
        let outputs = vec![None; capacity];
        let counts = (0..capacity).map(|_| AtomicUsize::new(0)).collect();
        Self {
            outputs: Arc::new(Mutex::new(outputs)),
            counts: Arc::new(counts),
        }
    }
    fn idx(id: TaskId) -> usize {
        (id.get() - 1) as usize
    }
}

#[derive(Clone)]
struct TestConfig;

impl Config for TestConfig {
    type Task = TestTask;
}

#[derive(Clone)]
struct NodeCfg {
    id: TaskId,
    parents: Vec<TaskId>,
    value: u32,
    shared: Shared,
}

#[derive(Debug, Clone)]
struct TestTask {
    id: TaskId,
    subs: Vec<TaskSubscriptionId>,
    value: u32,
    shared: Shared,
}

impl Task<TestConfig> for TestTask {
    type Config = NodeCfg;
    type Output = u32;

    fn setup<A: SetupApi>(api: &mut A, cfg: &Self::Config) -> Self {
        let subs = cfg.parents.iter().map(|&p| api.subscribe(p)).collect();
        Self {
            id: cfg.id,
            subs,
            value: cfg.value,
            shared: cfg.shared.clone(),
        }
    }

    fn exec<A: ExecApi<u32>>(&mut self, data: &A) -> Self::Output {
        // Count executions (must be exactly once per task).
        let idx = Shared::idx(self.id);
        self.shared.counts[idx].fetch_add(1, Ordering::Relaxed);

        // Sum this node's value and the parents' values.
        let mut acc = self.value;
        for &sub in &self.subs {
            acc += *data.read(sub);
        }

        // Store the computed result for external assertions.
        {
            let mut outs = self.shared.outputs.lock().unwrap();
            outs[idx] = Some(acc);
        }
        acc
    }
}

/// Configs for tasks that are given by number, parents and value.
fn configs(shared: &Shared, nodes: &[(u16, Vec<u16>, u32)]) -> TaskMap<NodeCfg> {
    let mut cfgs = TaskMap::new();
    for (id, parents, value) in nodes {
        let cfg = NodeCfg {
            id: tid(*id),
            parents: parents.iter().map(|&p| tid(p)).collect(),
            value: *value,
            shared: shared.clone(),
        };
        assert!(cfgs.insert(cfg.id, cfg).is_none());
    }
    cfgs
}

fn setup(
    shared: &Shared,
    nodes: &[(u16, Vec<u16>, u32)],
) -> Result<Executor<TestConfig>, ExecutorSetupError> {
    Executor::<TestConfig>::setup(&configs(shared, nodes))
}

/// The outputs after one execution, and the number of times that each task ran.
fn run(nodes: &[(u16, Vec<u16>, u32)]) -> (Vec<Option<u32>>, Vec<usize>) {
    let shared = Shared::new(nodes.len());
    let mut executor = setup(&shared, nodes).unwrap();
    executor.execute();
    let outputs = shared.outputs.lock().unwrap().clone();
    let counts = shared.counts.iter().map(|count| count.load(Ordering::Relaxed)).collect();
    (outputs, counts)
}

#[test]
fn readme_example() {
    let (outputs, counts) = run(&[(1, vec![], 1), (2, vec![], 10), (3, vec![1, 2], 100)]);
    assert_eq!(outputs, vec![Some(1), Some(10), Some(111)]);
    assert_eq!(counts, vec![1, 1, 1]);
}

#[test]
fn empty_graph() {
    let (outputs, counts) = run(&[]);
    assert_eq!(outputs, vec![]);
    assert_eq!(counts, vec![]);
}

#[test]
fn single_task() {
    let (outputs, counts) = run(&[(1, vec![], 7)]);
    assert_eq!(outputs, vec![Some(7)]);
    assert_eq!(counts, vec![1]);
}

#[test]
fn highest_task_number() {
    let shared = Shared::new(0xffff);
    let mut executor = setup(&shared, &[(0xffff, vec![1], 2), (1, vec![], 1)]).unwrap();
    executor.execute();
    assert_eq!(shared.outputs.lock().unwrap()[0xfffe], Some(3));
}

#[test]
fn repeated_subscription_counts_once() {
    // Task 3 subscribes to task 1 twice; it waits for two parents, not for three.
    let (outputs, counts) = run(&[(1, vec![], 1), (2, vec![], 10), (3, vec![1, 2, 1], 100)]);
    assert_eq!(outputs, vec![Some(1), Some(10), Some(112)]);
    assert_eq!(counts, vec![1, 1, 1]);

    let (outputs, counts) = run(&[(1, vec![], 1), (2, vec![1, 1], 10)]);
    assert_eq!(outputs, vec![Some(1), Some(12)]);
    assert_eq!(counts, vec![1, 1]);
}

#[test]
fn execution_can_be_repeated() {
    let nodes = [
        (4, vec![2, 3], 1000),
        (1, vec![], 1),
        (3, vec![1], 100),
        (2, vec![1], 10),
        (5, vec![4, 1], 10000),
        (6, vec![5], 5),
    ];
    let shared = Shared::new(nodes.len());
    let mut executor = setup(&shared, &nodes).unwrap();
    for round in 1..=5 {
        for output in shared.outputs.lock().unwrap().iter_mut() {
            *output = None;
        }
        executor.execute();
        assert_eq!(
            *shared.outputs.lock().unwrap(),
            vec![Some(1), Some(11), Some(101), Some(1112), Some(11113), Some(11118)]
        );
        for count in shared.counts.iter() {
            assert_eq!(count.load(Ordering::Relaxed), round);
        }
    }
}

#[test]
fn executions_of_one_graph_agree() {
    let nodes = [
        (1, vec![], 3),
        (2, vec![], 5),
        (3, vec![1, 2], 7),
        (4, vec![3], 11),
        (5, vec![4, 1], 13),
    ];
    let expected = vec![Some(3), Some(5), Some(15), Some(26), Some(42)];
    for _ in 0..50 {
        assert_eq!(run(&nodes).0, expected);
    }
}

#[test]
fn outputs_do_not_depend_on_insertion_order() {
    let mut nodes = vec![
        (1, vec![], 3),
        (2, vec![], 5),
        (3, vec![1, 2], 7),
        (4, vec![3], 11),
        (5, vec![4, 1], 13),
        (6, vec![2], 17),
    ];
    let expected = vec![Some(3), Some(5), Some(15), Some(26), Some(42), Some(22)];
    for turn in 0..nodes.len() {
        nodes.rotate_left(1);
        nodes.swap(0, turn);
        assert_eq!(run(&nodes), (expected.clone(), vec![1; 6]));
    }
}

#[test]
fn long_chain_of_owned_tasks() {
    let nodes: Vec<(u16, Vec<u16>, u32)> = (1..=500)
        .map(|i: u16| (i, if i == 1 { vec![] } else { vec![i - 1] }, 1))
        .collect();
    let (outputs, counts) = run(&nodes);
    for i in 0..500 {
        assert_eq!(outputs[i], Some(i as u32 + 1));
        assert_eq!(counts[i], 1);
    }
}

#[test]
fn many_roots_with_one_shared_child() {
    let mut nodes: Vec<(u16, Vec<u16>, u32)> = vec![(1001, (1..=1000).collect(), 0)];
    nodes.extend((1..=1000).map(|i: u16| (i, vec![], i as u32)));
    let (outputs, counts) = run(&nodes);
    assert_eq!(outputs[1000], Some(500500));
    assert!(counts.iter().all(|&count| count == 1));
}

#[test]
fn one_owner_with_many_owned_children() {
    let mut nodes: Vec<(u16, Vec<u16>, u32)> =
        (2..=1000).map(|i: u16| (i, vec![1], i as u32)).collect();
    nodes.push((1, vec![], 1));
    let (outputs, counts) = run(&nodes);
    for i in 2..=1000 {
        assert_eq!(outputs[i - 1], Some(i as u32 + 1));
    }
    assert!(counts.iter().all(|&count| count == 1));
}

#[test]
fn layers_of_shared_tasks() {
    // Three layers of four tasks; every task reads the whole layer above.
    let mut nodes: Vec<(u16, Vec<u16>, u32)> = vec![];
    for layer in (0..3).rev() {
        for k in 1..=4 {
            let parents = if layer == 0 { vec![] } else { (4 * layer - 3..=4 * layer).collect() };
            nodes.push((4 * layer + k, parents, 1));
        }
    }
    let (outputs, counts) = run(&nodes);
    assert_eq!(outputs[0..4], vec![Some(1); 4]);
    assert_eq!(outputs[4..8], vec![Some(5); 4]);
    assert_eq!(outputs[8..12], vec![Some(21); 4]);
    assert!(counts.iter().all(|&count| count == 1));
}

#[test]
fn shared_child_of_tasks_at_different_depths() {
    // 4 waits for 1 at the top and for 3 at the end of a chain.
    let (outputs, counts) = run(&[
        (4, vec![1, 3], 1000),
        (3, vec![2], 100),
        (2, vec![1], 10),
        (1, vec![], 1),
        (5, vec![4], 0),
    ]);
    assert_eq!(outputs, vec![Some(1), Some(11), Some(111), Some(1112), Some(1112)]);
    assert_eq!(counts, vec![1; 5]);
}

#[test]
fn cycle_of_two() {
    let shared = Shared::new(2);
    let error = setup(&shared, &[(1, vec![2], 0), (2, vec![1], 0)]).err();
    assert_eq!(error, Some(ExecutorSetupError::Cycle));
}

#[test]
fn cycle_beside_a_root() {
    let shared = Shared::new(4);
    let nodes = [(1, vec![], 0), (2, vec![4], 0), (3, vec![2], 0), (4, vec![3], 0)];
    assert_eq!(setup(&shared, &nodes).err(), Some(ExecutorSetupError::Cycle));
}

#[test]
fn cycle_behind_a_root() {
    let shared = Shared::new(4);
    let nodes = [(1, vec![], 0), (2, vec![1, 4], 0), (3, vec![2], 0), (4, vec![3], 0)];
    assert_eq!(setup(&shared, &nodes).err(), Some(ExecutorSetupError::Cycle));
}

#[test]
fn task_behind_a_cycle() {
    let shared = Shared::new(4);
    let nodes = [(1, vec![], 0), (2, vec![3], 0), (3, vec![2], 0), (4, vec![1, 3], 0)];
    assert_eq!(setup(&shared, &nodes).err(), Some(ExecutorSetupError::Cycle));
}

#[test]
fn task_that_subscribes_to_itself() {
    let shared = Shared::new(1);
    assert_eq!(setup(&shared, &[(1, vec![1], 0)]).err(), Some(ExecutorSetupError::Cycle));
    let shared = Shared::new(3);
    let nodes = [(1, vec![], 0), (2, vec![1, 2], 0), (3, vec![2], 0)];
    assert_eq!(setup(&shared, &nodes).err(), Some(ExecutorSetupError::Cycle));
}

/// A task that panics the first time that it is asked to, and counts its executions.
#[derive(Debug)]
struct Fragile {
    subs: Vec<TaskSubscriptionId>,
    panics: Arc<AtomicUsize>,
    runs: u32,
    log: Arc<Mutex<Vec<u32>>>,
}

struct FragileConfig {
    parents: Vec<u16>,
    panics: Arc<AtomicUsize>,
    log: Arc<Mutex<Vec<u32>>>,
}

struct FragileGraph;

impl Config for FragileGraph {
    type Task = Fragile;
}

impl Task<FragileGraph> for Fragile {
    type Config = FragileConfig;
    type Output = u32;

    fn setup<A: SetupApi>(api: &mut A, config: &FragileConfig) -> Self {
        Fragile {
            subs: config.parents.iter().map(|&parent| api.subscribe(tid(parent))).collect(),
            panics: config.panics.clone(),
            runs: 0,
            log: config.log.clone(),
        }
    }

    fn exec<A: ExecApi<u32>>(&mut self, data: &A) -> u32 {
        self.runs += 1;
        if self.panics.swap(0, Ordering::SeqCst) == 1 {
            panic!("asked to");
        }
        let output = self.runs + self.subs.iter().map(|&sub| *data.read(sub)).sum::<u32>();
        self.log.lock().unwrap().push(output);
        output
    }
}

#[test]
fn execution_after_a_panic() {
    // 3 has two parents, and 2 panics in the second execution.
    let log = Arc::new(Mutex::new(vec![]));
    let never = Arc::new(AtomicUsize::new(0));
    let fragile = Arc::new(AtomicUsize::new(0));
    let mut cfgs = TaskMap::new();
    for (id, parents) in [(1, vec![]), (2, vec![]), (3, vec![1, 2]), (4, vec![3])] {
        let panics = if id == 2 { fragile.clone() } else { never.clone() };
        cfgs.insert(tid(id), FragileConfig { parents, panics, log: log.clone() });
    }
    let executor = Executor::<FragileGraph>::setup(&cfgs).unwrap();
    let executor = Arc::new(Mutex::new(executor));
    executor.lock().unwrap().execute();
    assert_eq!(log.lock().unwrap().iter().max(), Some(&4));

    fragile.store(1, Ordering::SeqCst);
    let (panicked, was_panic) = std::sync::mpsc::channel();
    let panicked = Mutex::new(panicked);
    let pool = rayon::ThreadPoolBuilder::new()
        .panic_handler(move |_| panicked.lock().unwrap().send(()).unwrap())
        .build()
        .unwrap();
    let same = executor.clone();
    pool.spawn(move || {
        let mut locked = same.lock().unwrap_or_else(|poisoned| poisoned.into_inner());
        locked.execute();
    });
    was_panic.recv().unwrap();

    // All tasks are still there: the third execution runs each of them. 1 and 2 have
    // then run three times; 3 and 4 did not run in the second execution.
    log.lock().unwrap().clear();
    let mut locked = executor.lock().unwrap_or_else(|poisoned| poisoned.into_inner());
    locked.execute();
    let mut outputs = log.lock().unwrap().clone();
    outputs[0..2].sort();
    assert_eq!(outputs, vec![3, 3, 2 + 6, 2 + 8]);
}

#[test]
fn cycle_error_message() {
    assert_eq!(ExecutorSetupError::Cycle.message(), "graph contains cycle(s)");
    assert_eq!(format!("{:?}", ExecutorSetupError::Cycle.clone()), "Cycle");
}
