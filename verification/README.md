# rlox

A bytecode interpreter for the Lox language, written in Verus: the scanner,
the single-pass compiler, the chunk format, the string interner, a
mark-and-sweep heap and the bytecode machine carry contracts that Verus
proves.

## Layout

- `src/compiler/scanner.rs` — the scanner; `scan_token` is proved against a
  specification of the token grammar (`scan`), and `tokens` gives a whole
  source's token sequence. A byte the grammar does not know is an error token
  that spans the whole character it starts.
- `src/compiler/compiler.rs` — the compiler from source to a `Chunk`, with
  its error reports; every routine is proved to terminate and to keep the
  compiler's invariant. A chunk it returns divides into whole instructions
  that the machine runs, ends in `Return`, has every jump and loop landing
  on an instruction and every constant index in range, and is balanced:
  there are stack depths for its instructions, the first at zero, that
  every way of reaching an instruction agrees on and that never leave an
  instruction short of the values it reads.
- `src/common.rs` — the instruction set, constants and values.
- `src/vm/chunk.rs` — bytecode with a run-length line table, and its
  disassembly.
- `src/vm/shape.rs` — the shape of bytecode (instruction starts, branch
  targets) and how emitting and patching keep it.
- `src/vm/depth.rs` — the stack depth at each instruction, and how emitting
  and patching keep a code's depths fitting.
- `src/vm/interner.rs`, `src/vm/heap.rs` — string interning, and a heap of
  objects and interned strings that can be collected.
- `src/gc.rs` — the `Trace` trait and a typed mark-and-sweep `Heap`: marking
  from an unmarked heap marks exactly what the roots reach.
- `src/vm/vm.rs` — the stack, the machine (`VM`) and its step function,
  proved against `step_spec`. The machine is generic over its number type:
  it hands number literals, arithmetic, comparisons of numbers and printing
  to its host as `Action`s. On compiled code a step from an instruction never
  runs off the code or meets an unknown opcode, constant or string; and a
  run that starts at the first instruction with an empty stack never finds
  the stack too shallow.
- `src/fnv_hasher.rs` — the FNV hasher and the maps and sets keyed through it.
- `src/repl.rs`, `src/text.rs` — when a prompt line is complete, and decimal
  text for reports.
- `app/main.rs` — the `rlox` command: the prompt, the file runner, the host
  loop that does the `f64` work, and the disassembler's printing.
