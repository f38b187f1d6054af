# faputa

A parser generator for a PEG-style grammar language with parse state
(flags, counters, guards, `with`/`when` blocks, depth limits), written as a
Verus library whose behaviour is stated in contracts and proved.

## Layout

- `src/lexer.rs` — tokenizer, specified by a mathematical tokenizer over
  the characters of the source (`lex_from`), with byte offsets.
- `src/parser/` — recursive-descent parser. Its contract: a parsed grammar is
  spelled exactly by the source's tokens, and every grammar of the shapes the
  parser builds (`parser/shape.rs`) is parsed back from its tokens. Tokens
  spell at most one grammar of those shapes (`parser/unique.rs`), so the
  parsed grammar is determined by the tokens.
- `src/validator.rs`, `src/lib.rs` — validation (`Ok` exactly for grammars
  whose references resolve and whose rule names are unique) and `compile`.
- `src/ir/`, `src/hir/` — lowering to an indexed intermediate representation
  and the optimization passes (normalization, inlining, reference counts,
  take-while fusion, dispatch tables), each specified by a model function;
  laws: passes keep every rule, keep every rule reference resolvable, and
  keep every label (scanning aside, which may absorb a labeled arm);
  dispatch arms have disjoint first characters; reference counts of the
  optimized program count the references of its rules that are not
  inlined, and only rules without guards or emits are inlined.
- `src/mir/` — the machine-oriented passes (grouped dispatch, scanners,
  separated lists, and delimited expressions: an opening literal, a
  repetition of zero or more and a closing literal, such as a quoted string).
- `src/codegen/` — the plan of the generated parser module: one node per
  emitted combinator, with laws on tuple sizes, the order of alternatives,
  and calls.
- `src/ranges.rs`, `src/line_index.rs`, `src/naming.rs` — character-range
  algebra, byte offset to line/column mapping (with `memchr`), snake case.
- `app/` — writes the planned module out as Rust tokens with `quote!`.
- `tests/` — tests of the library on concrete inputs.
