# pascal_rust

A front end and x86-64 code generator for a small Pascal dialect, written in
Verus. Every function in `src/` is verified against its contract: none
panics, overflows or indexes out of bounds. How much a contract says differs
from part to part; the command-line program and the interpreter (which works
on floating-point values) are ordinary Rust.

## What is proved

- Lexer: the token each call of `next` returns is exactly the one `spec_next`
  describes (kind, span, position), and each error's position and message.
- Parser: a successful parse gives a well-formed tree whose root is a
  program; the declarations and parameter lists it builds, and the order of
  statements. It is not proved that the parser accepts exactly the grammar.
- Semantic analysis: for expressions without calls and indexing, the type
  each expression gets (`typed`: literals, names, and the operator tables
  `bin_op_type` / `unary_op_type`) and the error code of an unknown name or
  an operator that does not apply; the error codes of non-boolean
  conditions, non-assignable assignments and assignments to constants,
  `for` loops with an unknown or constant variable or limits of other types,
  wrong argument counts and argument types, procedure calls used as values,
  bad index or base types, bad range limits, default values of the wrong
  type, duplicate definitions, and `break`/`continue` outside loops (all of
  them, in order, for a block of such statements; once a loop body has
  failed they are no longer reported). A declared callable has the declared
  parameters, in order, with their pass modes. Integer programs over
  declared variables are accepted. It is not proved that every expression of
  an accepted program gets a type.
- Code generation: the frame layout, the commands of operators (operand
  order, the zero test before `idiv`), the bounds check of array indexing,
  the exact commands of integer expressions and of assignments to integer
  globals (`int_expr_code`, `int_assign_code`), labels of
  loops and conditionals, and that programs of the integer fragment (integer
  variables, assignment, `while`, `if`) compile. The full text of the
  generated program is not specified.
- The peephole optimiser's rewrite rules, the error texts, and the laws on
  scopes and lookups (`law_*` proof functions).

## Layout

- `src/` — the verified library
  - `tokens.rs`, `lexer.rs` — tokens and the lexer, specified by `spec_next`
  - `parser.rs` — the recursive-descent parser and the syntax tree with its
    well-formedness invariant; `lexes_without_fault` decides in advance
    whether the lexer can read a source
  - `printer.rs` — the text of a syntax tree
  - `symbols.rs`, `builtins.rs` — symbols and scopes
  - `semantic_analyzer.rs` — type checking and name resolution
  - `front_end.rs` — lexing, parsing and analysis of a source in one call
  - `compiler.rs` — registers, operands, commands, the peephole optimiser,
    the assembler buffer and the frame layout of the generated code
  - `codegen.rs` — the code generator (`Compiler`)
  - `asm_text.rs` — the NASM text of generated lines
  - `symbol_text.rs` — debug texts of type and callable symbols
  - `error.rs`, `messages.rs`, `chars.rs`, `refs.rs`, `utils.rs` — errors,
    message texts, character classes, node references and pools
- `app/` — the `pascal_rust` command (`interp` and `compile`) and the
  interpreter
- `tests/` — tests of the library
