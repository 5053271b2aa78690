# oak_runtime

The channel layer of the Oak runtime, verified with [Verus](https://github.com/verus-lang/verus),
and the rules of the interface through which foreign pseudo-Nodes reach it.

- `src/channel/` holds channels, the halves that refer to them, and the table that tracks
  them: reference counts, wakeups, reachability and garbage collection, and the diagnostic
  pages. `model.rs` says what every operation does; `laws.rs` and `reaping.rs` state what
  holds of the table as a whole.
- `src/config.rs` loads an application's configuration and starts a runtime from it, one
  step at a time; addresses and modules are checked outside of the library.
- `src/glue.rs`, `src/cpp_main.rs`, `src/proxy.rs` and `src/abi.rs` say how handles and
  messages are laid out in memory and what each request is answered.
- `app/` copies memory across the language boundary, holds the locks and the global
  references, wakes threads, and drives the library's steps.
- `tests/` runs the library on concrete values.
