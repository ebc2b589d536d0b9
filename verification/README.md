# lox

A compiler from Lox source to bytecode and a reference-counting, mark-and-sweep
heap, with contracts proved by Verus; and a REPL that runs the bytecode.

## Layout

- `src/` — the verified library.
  - `lexer.rs`: the tokenizer, specified by `tokenize` over the characters of the
    source; `token.rs`: the tokens.
  - `compile.rs` and `compile/`: the single-pass compiler (parser, scopes and locals,
    loops with `break` and `continue`, code generation). The grammar is written as
    spec functions over token kinds (`expression_at`, `declaration_at`, ...).
    `compile` returns a script whose code decodes into whole instructions with valid
    constant operands, or every syntax error with its span. The grammar includes
    where `break`, `continue` and `return` may stand and the limit of 254
    parameters. `compile` succeeds only on programs of the grammar; on a program of
    the grammar it fails only when the first error is one of: a name declared twice
    in a scope or read in its own initializer, at an identifier whose name an
    earlier identifier has; too many constants or locals, in a source with more
    tokens than that limit; a jump over more than 65535 bytes of code, in a source
    of more than 200 tokens (each token read adds at most 300 bytes of code). For
    expressions the kinds of the emitted instructions are specified in order, with
    the constants of literals and global names and the slots of locals read, and
    every jump of `and` and `or` lands within the expression's code. Expression,
    `print` and `return` statements (with a value) are specified by the kinds of
    their instructions; a global `var` by its `DefineGlobal` and the name's
    constant; `if`, `while` and the loops of `for` by the instructions they end
    with (a jump to the end over the `else`, a loop back to the start); blocks and
    functions only by the grammar and their errors.
  - `chunk.rs`: bytecode, constants and the instruction layout; `chunk/debug.rs`:
    the instruction decoder used by the disassembler and the virtual machine.
  - `opcode.rs`: opcodes and their byte encoding.
  - `interner.rs`: the string interner.
  - `gc.rs`: the heap of traced values: handles, release cascades, marking, sweeping,
    and replacing a stored value (how values come to hold handles to each other,
    cycles included), each specified over the handles values hold.
  - `vm.rs`: runtime errors.
- `tests/` — tests of the library.
- `app/` — the REPL and the virtual machine (its numbers are `f64`), the built-in
  functions and the disassembler's text output.
