# twec (verified tooling library)

Tooling around the Twe game language, written in Verus: the library's
behaviour is stated in `requires` / `ensures` contracts and proved.

## Layout

- `src/` — the verified library, one module per tool:
  - `text` — a model of the `str` operations the tools use (trim, lines,
    find, split, decimal/hex rendering, JSON string escaping).
  - `net`, `net_steam`, `net_stun` — lockstep multiplayer: packet framing,
    input tables, tick readiness, desync detection; the Steam transport's
    session bookkeeping; STUN binding requests/responses and the rendezvous
    line protocol.
  - `ast` — the syntax tree: expressions, statements, declarations and
    their members, programs.
  - `printer`, `expr_printer`, `stmt_printer` — the canonical formatter:
    expressions with only the parentheses precedence needs, statements and
    declarations at four spaces per level, whole programs, and the
    source's comments and blank lines re-emitted where they stood.
  - `lsp`, `mcp` — the language server's and the MCP server's decisions:
    open documents, the symbol index of a program, completion lists,
    identifier lookup, method dispatch, the tool table, patch arguments
    and patch application.
  - `module`, `loader`, `parser` — import paths and the module file they
    name, binding names, the loader's walk over a program's imports (a
    state machine that asks the caller to resolve and read files), its
    errors, the dependency evaluation order; the parser's error type and
    the syntax-tree helpers it uses.
  - `mutator`, `llm_loop`, `llm_eval` — error/fix corpus mutation rules,
    the authoring loop's decisions and traces, suite configuration,
    grading and scorecards.
  - `play`, `replay`, `profile`, `perf_snapshot` — the hot-reload debounce
    gate and pause-on-blur switch, the input-frame line format, replay
    logs and the recorder/player,
    the tracing profiler, and benchmark-key comparison.
- `tests/` — tests of the library.
- `app/` — the command-line program: sockets, files, processes, the clock,
  and the floating-point parts (mouse coordinates, level-of-detail
  distances, benchmark timings).

Every operation that would touch the outside world returns what to do
(packets to send, replies to write) or takes what happened (datagrams
received, a model's reply) as plain values.
