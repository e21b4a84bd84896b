# vulhunt_engine

The engine of a vulnerability hunter, verified with Verus. Rules are Lua scripts; the engine reads
them, finds out which of them apply to a project and where, and runs their handlers there.

- `src/` is the verified library. `checker`, `context`, `extensions`, `signature` and `scope` read
  rules; `groups` and `engine` hold those that apply; `caches`, `candidates`, `agenda`, `sequential`,
  `parallel`, `run`, `visit` and `drive` decide what a run does next and drive it to its end.
- `plan`, `partition`, `coverage`, `findings`, `effort` and `laws` state and prove what holds of every
  run: which visits it makes, that each is made once and the same is found whether or not the engine
  runs in parallel, that it ends, and what its results are put down to.
- `app/` is the ordinary Rust around it: Lua states, rule files, threads, log messages, and the trait
  that an analysis platform implements.
- `tests/` runs the library on small projects and on real Lua states.

What the library takes on trust is marked `external_body`, with a comment that says what is claimed:
one call into num_cpus and one conversion of std. A Lua state is opaque to it; what runs Lua code is
handed in, takes the state and hands it back.
