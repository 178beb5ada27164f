# tinylang

A compiler for a tiny expression language (integers, `let`, comparisons,
booleans, blocks and `if`/`else` expressions), written in Verus. It lexes,
parses, and emits either LLVM IR or, for pure arithmetic, x86-64 assembly.

## Layout

- `src/lexer.rs` — tokens and the lexer, specified by `spec_lex`.
- `src/parser.rs` — recursive-descent parser, specified by the grammar
  functions `p_*` and `spec_parse`.
- `src/parse_laws.rs` — a printer from trees to tokens, and the law that
  the parser reads its output back.
- `src/ast.rs` — the syntax tree and its mathematical view.
- `src/ir.rs` — the model of the LLVM IR translation: the instructions each
  construct becomes (`translate_expr` and friends) and their text.
- `src/codegen.rs` — the LLVM IR emitter, proved to produce exactly
  `spec_codegen`.
- `src/native.rs` — the x86-64 backend for arithmetic expressions.
- `src/eval.rs` — what a program means: its value, over 64-bit integers.
- `src/ir_sem.rs` — a small-step semantics of the emitted LLVM IR subset.
- `src/ir_correct.rs`, `src/ir_laws.rs` — properties of the LLVM backend.
- `src/text.rs` — decimal formatting of integers.
- `app/main.rs` — the command-line driver.

## Main results

- `ir_correct::lemma_codegen_computes`: where a program's value is defined,
  the `main` emitted for it returns that value.
- `native::lemma_native_codegen_computes`: the assembly leaves the
  expression's value in `rax` and touches only `rax` and scratch registers.
- `ir_laws`: a block's bindings end with the block, a later `let` shadows an
  earlier one, fresh names never repeat, a program that uses an unbound name
  does not compile (`lemma_unbound_name_rejected`), code generation rejects
  exactly the ill-typed programs (an unbound name, a non-integer operand, a
  non-boolean `if` condition, `if` branches of different types), short of
  running out of fresh names (`lemma_codegen_type_checks`), and after the
  code of an expression the block being filled is the one its last label
  opened (`lemma_expr_ends_in_last_label`).
- `parse_laws::lemma_parse_print`: parsing the tokens a printer writes for
  any program gives that program back.
- `lexer::lemma_whitespace_separates`, `lexer::lemma_lex_tokens_well_formed`:
  whitespace only separates tokens, and keywords are never identifiers.
