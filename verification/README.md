# vm_compiler

A compiler front end for a small line-based language that targets a register
virtual machine, written in Verus. Each stage states its result exactly, as a
spec function over mathematical values, and is proved to compute it:

- `lexer` — one line of text to tokens (`parse_line`), a file's lines to token
  lines (`parse_file`).
- `expr` — the well-formedness check of an expression (`check_expression`).
- `depths` — the call-depth labels of an expression (`calculate_depths`).
- `collect` — gathering inline function calls into single tokens
  (`collect_expr`); `rounds` proves what its passes keep, and `flatten`
  that spelling the gathered calls out again gives back the tokens read.
- `parser` — token lines to commands (`parse_tokens`).
- `codegen` — splitting a program into functions and top-level commands
  (`generate_instructions`).
- `compiler` — the `Compiler` type and the whole pipeline (`compile_lines`).

`app/` reads source files, prints diagnostics and holds the conversion of
number literals to floating point.
