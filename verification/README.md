# lc3_decompiler

A decompiler for LC-3 object files, written in Verus: it reads the `.TEXT` and
`.SYMBOL` sections of an object file and prints C-like pseudocode for one
function. Each stage of the decompiler is a verified function whose contract
states its result over a mathematical model of the data; the command line
program in `app/` reads the file, tests the conditions that the stages
require, and runs the stages in order.

## Layout

- `src/addr_map.rs`, `src/addr_set.rs`: maps and sets keyed by 16-bit
  addresses (sorted entries, and one flag per address).
- `src/text.rs`, `src/lc3.rs`, `src/disasm.rs`: reading the object file,
  decoding instruction words (through `lc3-ensemble`), finding the functions.
- `src/cfg.rs`: basic blocks, dominators, natural loops.
- `src/liveness.rs`: register liveness.
- `src/ir.rs`, `src/lift.rs`, `src/passes.rs`: the intermediate representation,
  lifting instructions to expressions, simplification and propagation.
- `src/control_flow.rs`, `src/structure.rs`, `src/conditionals.rs`,
  `src/refine.rs`, `src/stack.rs`: loop and conditional structuring, the stack
  calling convention.
- `src/linear.rs`, `src/codegen.rs`, `src/show.rs`: the linear form, the
  pseudocode text, and debugging texts.
- `src/new.rs`: loop exits and conditional structures as records.
- `src/checks.rs`: run-time tests of conditions that some stages require.
- `src/laws.rs`, `src/semantics.rs`: properties that relate several functions,
  and the 16-bit value of an expression, which simplification keeps.
- `app/main.rs`: the command line program (`<file.obj> [-d] [-e <addr>] [-c]`).
- `tests/decompiler.rs`: tests on concrete inputs.
