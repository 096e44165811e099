# hermes_tui

The decision logic of the Hermes TUI gateway, verified with Verus: JSON-RPC handler
payloads for tools, slash commands and sessions, the slash worker's request handling, the
project tree built from sessions and repositories, the session lifecycle (finalising,
closing, parking sessions whose WebSocket dropped, idle and LRU reaping), spurious
end-of-input recovery on stdin, the method registry of the tools surface, the synthetic heavy turn and slash-completion ranking.

- `src/` is the verified library. Its public functions state in `ensures` what they
  return or change, over spec functions and views; where the answer comes from a callback
  or from std (an OS error, the flags shared between threads), the contract says what is
  handed over and what holds of every answer. Laws that relate several calls are public
  proof functions.
- `tests/` runs the library on concrete values.
- `app/` is the process-facing side that Verus does not see: environment variables,
  clocks and sleeps, floating-point settings, file descriptors, threads, streams and
  panics. It hands the library plain values and acts on what comes back.

Times inside the library are integer milliseconds (ranks, for the project tree), so that
the decisions over them can be proved; `app/` converts from and to floating-point seconds.
