# night

A task queue that runs the tasks of a mission in the order of their
dependencies: a task starts only once every task it depends on has
completed, and stopping a task stops every task that depends on it.

The library under `src/` holds the logic, verified with Verus:

- `topology`: the dependency graph, its checks (no cycle, no unknown
  dependency) and its execution levels (Kahn's algorithm);
- `graph`: the graph notions those contracts speak of, and their laws;
- `config`: the checks of a mission configuration and the identifiers it
  is given;
- `task`: the state of one task and the decisions of its run;
- `mission`: the tasks of a mission, stopping a task and its dependents;
- `event`: events and the listeners that want them;
- `interval`, `text`, `ids`, `clock`, `types`: parsing, messages,
  identifiers, time and shared data.

`app/` is the `night` command built on the library: it reads
configuration files, runs the commands of the tasks on tokio, and delivers
events to listeners. `tests/` holds the tests of the library.
