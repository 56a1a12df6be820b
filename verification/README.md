# varve_engine

The core of a bitemporal graph database engine, verified with Verus.

- `src/` holds the rules: how statements become events, how transactions are
  batched, committed, flushed into blocks, compacted and collected, how a node
  recovers, follows the log and starts, who may write and who may read. Every
  function states what it does in its contract; what holds across functions is
  stated by the public proof functions whose names begin with `law_`.
- `app/` runs the rules: tasks, stores, logs and the JSON documents. It performs
  the actions that the state machines of `src/` ask for and hands back what came
  of them.
- `tests/` runs the compiled library.

Calls into other crates and into the standard library whose contracts are taken
on trust stand in `src/clock.rs`, `src/coord/identity.rs` and `src/program.rs`.
