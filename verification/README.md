# workflow_engine

A workflow engine whose scheduling logic carries machine-checked proofs.

A workflow is a set of named tasks, each listing the tasks it depends on and a
retry policy. Running a workflow means: refuse it if a dependency names no task
or if dependencies form a cycle; start the tasks without dependencies; when a
task completes, start each dependent whose dependencies have all completed;
when a task fails (after its retries), mark everything downstream of it failed;
stop once every task has completed or failed (at once for a workflow
without tasks).

Layout:

- `src/` — the verified library.
  - `graph.rs`: paths, reachability, cycles, and the depth-first search that finds a cycle.
  - `task_wrapper.rs`, `validation.rs`: tasks by name, and the checks a workflow must pass.
  - `dependency.rs`: in-degrees and dependents lists.
  - `cascade.rs`: which tasks are marked failed when a task fails.
  - `scheduler.rs`: the run as a state machine (`ExecutionState`).
  - `executor.rs`: the retry loop of one task as decisions (`RetryTracker`).
  - `workflow.rs`, `options.rs`, `retry_policy.rs`, `task_state.rs`: the definitions.
  - `memory_storage.rs`: an in-memory store of task states.
- `app/` — the asynchronous runtime on tokio, the `Task` and `WorkflowStorage`
  traits, the SQLite store, and a demo `main`.
- `tests/` — tests of the library.
