# teeny

A toolchain for teeny, a small BASIC-like language: a lexer, a recursive-descent
parser, a check that identifiers are declared before use and that every `GOTO`
has its `LABEL`, and an emitter of C code. The library in `src/` is verified
with Verus; the command in `app/` reads files, runs programs (its interpreter
computes with `f32`) and writes the C code.

- `src/token.rs`: tokens and operators.
- `src/lex.rs`: the lexer, specified by `lex_token` and `lex_all`.
- `src/ast.rs`: the syntax tree and its mathematical value.
- `src/grammar.rs`: the grammar as spec functions; `src/parse.rs`: the parser proved against it.
- `src/verify.rs`: the declaration and label checks.
- `src/emit.rs`: the C emitter, specified by `stmts_code` and `program_code`.
