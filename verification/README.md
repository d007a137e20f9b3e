# guild

A polyglot monorepo orchestrator: project and task dependency graphs, parallel
execution in dependency order, detection of the projects a change affects, an
input-hash task cache, and scaffolding of `guild.toml` files from existing
manifests.

The library (`src/`) is written in Verus and verified:

- `config` — validated project and target names, `depends_on` references
  (`build` for a local target, `^build` for the targets of upstream projects),
  and project and workspace configurations.
- `graph` — the project graph (acyclic, every dependency known, with a
  topological order) and the task graph of a target (the least set of tasks the
  target needs, with its dependencies exactly those the configuration asks for),
  with the state of each task while a run goes on.
- `affected` — the projects holding changed files, their transitive dependents,
  and the projects a project depends on.
- `runner` — the scheduler: which tasks start (ready ones, in order, no more
  than the concurrency allows, none after a failure in fail-fast mode), how a
  finished task is recorded, and the totals of a run.
- `commands` — what `guild run` and `guild affected` execute.
- `cache` — where a task's cache entry lives, the hash of its inputs, and when a
  stored entry answers a lookup.
- `init` — projects detected from `package.json`, `Cargo.toml`, `go.mod` and
  `pyproject.toml`, and the text of the `guild.toml` files to write.

`app/` holds the `guild` command: argument parsing, reading and writing files,
git, spawning the task commands, and colored output. `tests/` exercises the
library on concrete values.
