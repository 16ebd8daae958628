# Concurrent computation graph

`ccg` runs directed acyclic graphs of tasks. It is written in Verus: what the
library does is stated in `requires` and `ensures` clauses and proved.

- Each task declares the tasks that it depends on when it is constructed
  (`Task::setup`, `SetupApi::subscribe`).
- `Executor::setup` puts the tasks into a stable topological order, or reports that
  they make a cycle. Tasks without parents come first, in the order of their
  configuration.
- A child with one parent is owned by that parent, which starts it by itself. A child
  with several parents is shared: it is counted down by each of them and becomes ready
  with the last one.
- `Executor::execute` runs every task once, in parallel where the graph allows it
  (`rayon::join`), and hands it the outputs of its parents (`ExecApi::read`). An
  executor can be executed again and again.

An execution goes in rounds. In the first round the tasks without parents run, each of
them followed, in the same branch and without a barrier, by the children that it owns,
the children that those own, and so on. When a round has joined, the shared children of
its tasks are counted down, and those that wait for nobody any more are run in the next
round in the same way. So a shared child starts when the round of its last parent has
ended, not at the moment when that parent finishes.

## Layout

| Module | What it holds |
| --- | --- |
| `config`, `task` | the traits that a user implements, with their contracts |
| `graph` | the mathematical model: subscriptions, walks, cycles, topological orders, degrees |
| `task_map`, `types`, `utils` | insertion-ordered maps keyed by task, identifiers, slots, ranges |
| `executor::setup` | the error of the setup, and the bookkeeping of subscriptions |
| `executor::order` | the topological order and the degrees |
| `executor::plan` | indexes, owned and shared children, numbers of parents |
| `executor::countdown` | counting down the parents that a task waits for |
| `executor::execute` | running the tasks of a plan |
| `executor` | `Executor` |
| `outside` | the functions of `indexmap`, `rayon` and the standard library that are relied on, with the contracts that are believed of them |

`app/` offers the setup error as a `std::error::Error`.

## Example

```rust
use ccg::config::Config;
use ccg::executor::Executor;
use ccg::task::{ExecApi, SetupApi, Task, TaskSubscriptionId};
use ccg::task_map::TaskMap;
use ccg::types::TaskId;

struct Sums;

impl Config for Sums {
    type Task = Sum;
}

struct SumConfig {
    parents: Vec<TaskId>,
    value: u32,
}

#[derive(Debug)]
struct Sum {
    subscriptions: Vec<TaskSubscriptionId>,
    value: u32,
}

impl Task<Sums> for Sum {
    type Config = SumConfig;
    type Output = u32;

    fn setup<A: SetupApi>(api: &mut A, config: &SumConfig) -> Self {
        let subscriptions = config.parents.iter().map(|&parent| api.subscribe(parent)).collect();
        Sum { subscriptions, value: config.value }
    }

    fn exec<A: ExecApi<u32>>(&mut self, data: &A) -> u32 {
        let parents: u32 = self.subscriptions.iter().map(|&parent| *data.read(parent)).sum();
        self.value + parents
    }
}

fn main() {
    let id = |number| TaskId::new(number).unwrap();
    let mut configs = TaskMap::new();
    configs.insert(id(1), SumConfig { parents: vec![], value: 1 });
    configs.insert(id(2), SumConfig { parents: vec![], value: 10 });
    configs.insert(id(3), SumConfig { parents: vec![id(1), id(2)], value: 100 });
    let mut executor = Executor::<Sums>::setup(&configs).expect("the graph has no cycle");
    executor.execute();
}
```

## What callers owe

A task that is itself written in Verus says with `subscribes`, `sets_up`, `reads` and
`runs` what it does, and is held to it; the contracts of `Executor::setup` and
`Executor::execute` then speak of its outputs.

Nobody holds a task in plain Rust, such as the one above, to the contracts of the
trait. Left as they are, `subscribes` and `reads` say that a task subscribes to nothing
and reads nothing, which is not true of the one above: it relies on what the executor
does, but nothing is proved about it. Such a task owes what the contracts ask:

- `Task::setup` subscribes only to tasks that have a config; this is the precondition of
  `Executor::setup`, which does not look for missing parents. A task that subscribes to
  itself makes a cycle, and is reported as one.
- `Task::exec` reads only with tokens that the same task got in its own `setup`.

A task that panics ends the execution. Tasks and plan stay in place, and the executor can
be executed again.

## Limits

- A task is numbered from 1 to 65535, so a graph has at most 65535 tasks.
- Long chains of owned children lead to deep recursion.
