# caribou

A shared runtime core for programs written in several languages: one heap, one
scheduler, one module registry and one way to call across languages, under every
resident runtime.

The library in `src/` is written and proved with Verus. It keeps no global state:
every table is a value that the caller holds, an address is a number, time and the
platform are arguments, and whatever has to wait, read a file or run another
language's code is a step that the caller takes. What is decided before the step and what is made of
its result are functions of the library, and their contracts say which.

- `heap`: an Immix heap of blocks and lines, its side tables, a conservative
  marker, the sweep, handles and roots, the rendezvous of the threads that
  allocate, and the lock over it all. `heap/laws.rs` holds what is true of every
  collection: what the roots reach survives, and what nothing reaches is freed.
- `sched`: worlds, their tasks and turns, waits and wakes, the worker pool, host
  states and signals. No wake is lost, whether it comes before or after the park.
- `object`, `error`, `cell`, `data`, `function`, `future`, `send`: the core's own
  objects and the messages they answer.
- `bridge`, `native`, `protocol`: a call across a boundary, from the plan to the
  error that gains one frame on its way.
- `registry`, `namespace`, `describe`, `link`, `symbol`, `world`: languages,
  modules, their interfaces, and the C symbols their members have.
- `bundle`: one file for a program and its modules; what is emitted loads back.
- `diag`, `report`: errors and runs in words. Drawing is `ariadne`'s.

`tests/` runs the library on values. `app/` is the ordinary Rust around it: the
process's settings and files, threads and locks, adapters and serializers.
