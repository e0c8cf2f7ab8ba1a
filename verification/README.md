# loom

Agent-native task management on a git substrate, with its protocol verified in
[Verus](https://github.com/verus-lang/verus).

loom coordinates a fleet of coding agents that work against a shared task graph,
with nothing but a git remote between them. Leases, attempts, verdicts and
telemetry live in git refs and notes; task files are near-immutable.

## Layout

- `src/` is the library: every item is verified, and every executable function
  states what it returns.
  - `text`, `order`, `table`: texts, stable sorting, and maps in key order.
  - `clock`: instants, with what `chrono` computes of them.
  - `json`: what `serde_json` makes of a text.
  - `error`: errors, their messages and exit codes.
  - `model`: tasks, policy, escalations, payloads, paths and ids.
  - `protocol`: derived state, budget tiers, scheduling, leases, the verdict gate.
  - `knowledge`, `retro`: what recurring lessons and telemetry call for.
  - `runner`, `session`, `refs`, `git`: running git, what a session did, what the
    refs say, and the operations on them.
  - `commands`: what each command decides.
  - `done`: finishing a task, as one atomic operation.
- `tests/` runs the library.
- `app/` is the program around it: arguments, files, processes, the clock, and
  the encodings.

## What is proved

Contracts speak of mathematical models: a text is a sequence of characters, a
table a sequence of entries with ascending keys, an instant a pair of numbers. A
session with git is the sequence of commands that were run with their replies, and
each operation says which commands it runs, in which order, and what it makes of
the replies.

Laws that span several functions are proof functions whose names begin with
`law_`. Among them: a lease has one holder on a server that compares and swaps; a
task is schedulable exactly when it is open, unblocked and free; a tier climbs by
one with each failure and the ladder ends at the last tier; only an independent
approval of the exact candidate passes the strict gate; a task is called done only
after its commit, and a failed commit puts the task file back; the sweep takes
exactly the silent leases; the worktree stands in for the canonical graph only where
the remote lacks the branch; a recurring lesson earns exactly one file.

What other crates and the standard library compute is trusted, in wrappers marked
`external_body` and in two `assume_specification` items. Each says what it claims.
