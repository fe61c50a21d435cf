# Emily

A small, total Lisp for configuration and data that evaluates a program and
prints its result as JSON, YAML or TOML.

```lisp
(def server {:host "localhost" :port 8080 :debug false})
(def prod (merge server {:host "prod.example.com"}))
{:name "my-app" :server prod}
```

The library is written in Verus: each stage has a mathematical definition
(spec functions over models of its data), and the executable code is proved
to compute exactly that.

## Layout

- `src/text.rs` — building strings, reading characters, decimal text of integers.
- `src/token.rs`, `src/lexer.rs` — source text → tokens. `tokenize_spec` is the
  lexical grammar, one token at a time.
- `src/relex.rs` — printing tokens back as text, with the proofs that the lexer
  reads an escaped, quoted string back to the string and printed tokens back
  to the tokens.
- `src/ast.rs`, `src/parser.rs` — tokens → expressions (recursive descent),
  with the proof that parsing undoes printing a form as tokens.
- `src/value.rs` — runtime values.
- `src/env.rs` — scopes. All scopes of a run live in one `Env`, each under an
  index; a closure refers to its captured scope by index. Laws: a read gives
  back what a define wrote, other names are untouched, inner scopes shadow.
- `src/eval.rs` — the evaluator. `eval_expr` is a big-step semantics with a
  nesting budget (`MAX_DEPTH`) standing for the machine stack; running out of it
  is the error `TooDeep`. Laws on `if`, `merge`. `run_program` runs a whole
  program: its forms top to bottom in one fresh environment, the last value
  being the program's value.
- `src/frame.rs` — what an evaluation may change: only the current scope among
  the existing ones, so `let` and calls never leak bindings.
- `src/output.rs` — JSON, YAML and TOML text; a value holding a function is
  refused. Control characters are written as `\u00XX`; a TOML key outside
  `A-Z a-z 0-9 _ -` is quoted. `render` picks the format by name.
- `app/main.rs` — the command-line program: reads the file, runs the pipeline
  on a thread with a 1 GiB stack (so the nesting budget of 100000 levels, not
  the stack, is the limit), prints the result.

## Floats

The library keeps a float literal as its decimal text, since floats are only
ever printed. The program normalizes that text through `f64` right after
lexing, so `2.50` prints as `2.5`, as the shortest text of its value; a
whole-valued float keeps its `.0` (`1.0`), so it stays a float in the output.
