# dam_application

The application layer of `dam`, which keeps tasks and calendar events the way
git keeps files: a working layer, a stage, commits, and remotes to push to and
pull from. Every use case is a function over ports (the store, the remote
helper, the clock, the calendar, the query language), and each is proved
against what those ports promise.

## Layout

- `src/domain/` — the objects as plain values: oids, paths, tasks and events,
  changes and commits, label categories, the rules a completion runs into.
- `src/ports/` — the traits an adapter implements. The store's families all
  read and write one model, `StoreModel`, and each method states how it
  changes it; `Transactional` makes a unit of work land whole or not at all.
- `src/use_cases/` — the verbs: `add`, `commit`, `status`, `restore`,
  `relocate`, `remove`, `complete`, `edit`, `new_task`, `list`, `agenda`,
  `pull`, `push`, `resolve`, and the freshness check readers run first.
- `src/contract.rs` — suites that hold a store to its laws at run time. A
  suite reaches the store through a probe that records every answer and
  promises nothing more, so each suite is proved to pass exactly when every
  answer it heard came back and kept its law, and otherwise to name the
  first law broken or the call that failed.
- `src/merge.rs`, `src/credentials.rs`, `src/errors.rs` — merging a pulled
  object onto ours, resolving credentials, and what every refusal says.
- `tests/` — an in-memory store and scripted helpers, and the use cases run
  against them.
- `app/` — the system clock, read through jiff.
