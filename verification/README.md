# task_scheduler

A verified library for placing tasks on calendars.

- `src/name_map.rs`: `NameMap`, a map from names to values kept in insertion order.
- `src/task.rs`: `Task`, `Configuration` and `TaskList` (tasks in order, indexed by id).
- `src/resource.rs`: `ResourceIntervals` (free units per interval) and `ResourceManager`,
  which finds the first interval at which all of a task's resources are free and books them.
- `src/status.rs`: `StatusRelationChart`, which records which statuses may hold together.
- `src/configuration.rs`: `ConfigurationManager`, which finds the first run of intervals whose
  statuses are compatible with a task and adds the task's statuses to them.
- `src/constraint.rs`: the `ConstraintManager` trait that both calendars implement.

`app/main.rs` is the program's entry point.
