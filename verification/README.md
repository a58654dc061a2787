# Tool compiler

An effect-aware optimizing compiler and runtime for agent tool calls, written
in Verus. A plan of tool calls is validated, optimized (duplicates removed,
dead nodes dropped, calls batched), scheduled by its dependencies and the
resources that its tools declare, and answered with one structured result.

- `src/` is the verified library: plans and references, graphs, the optimizer
  passes, the planner, the scheduler with its locks, policies and cache, what
  the adapters decide, the MCP server's protocol, and the repository's maintenance rules.
- `app/` is the program around it: the command line, files, processes and
  network, and the loop that performs what the engine dispatches.
- `tests/` runs the library from outside.

Where to look for what holds of the whole:

- `src/runtime/equivalence.rs`: a compiled run and a serial run of one plan
  declare the same outputs.
- `src/runtime/history.rs`: what holds in every state of every run.
- `src/runtime/progress.rs`: no run leaves a node behind.
- `src/runtime/cache.rs`, `locks.rs`, `policy.rs`: what a read gives back, what
  may overlap, what is retried.
- `src/reading.rs`: canonical text determines the document.
