# epoch

Thread synchronization and pinning for epoch-based memory reclamation, verified with Verus.

A thread pins itself before it reads shared memory. An object that was unlinked from a shared data
structure is stashed in a bag, and the bag is handed to the garbage queues, marked with an epoch that
is no older than its objects. Once the global epoch has advanced twice past the mark, the objects can
be freed. The epoch advances only if all pinned threads have been pinned in the current one, so by
then no thread holds a reference to them.

## Layout

- `src/` is the library. What a thread does is split into single accesses to shared memory
  (`access`, `routine`, `harness`). `registry` and `domain` are a memory and the threads that share
  it, and `run` has the calls `pin`, `unlinked` and the rest, for one thread that goes on until it
  needs the garbage queues.
- `src/world.rs`, `src/history.rs` and `src/reclaim.rs` describe all threads taking their steps in
  any order. `src/laws.rs` states what is proved of that: above all, that no thread stays pinned
  through two advances of the epoch, and that a guard protects what was loaded under it.
  `src/course.rs` and `src/participant.rs` state what is proved of any number of calls: how many
  guards a thread holds, that each object is in exactly one bag, and that a thread registers the
  first time it is pinned and never again.
- `app/` runs the same routines on atomics, with one harness per thread of the process. The garbage
  queues are supplied by the program.
- `tests/` runs the library on concrete cases.

## What is assumed

Accesses of different threads happen one after another. The memory order of each access is part of
what a thread asks for, and the effect of reordering is not modelled. Addresses of entries are not
reused while a thread that is pinned can still see them, which is what the epochs are for.

The epoch counter wraps around. The laws hold of executions in which no epoch is taken for another
one a whole turn of the counter apart, as when nobody is a whole turn late.
