# refrain

The verified core of the refrain engine, a small S-expression language for
time-pattern "refrains":

```lisp
(refrain melody-a
  (territorialize (loop 4 (note C4 q)))
  (deterritorialize (dy/dx intensity time))
  (reterritorialize (quotient ~rotation ~transpose)))
```

## Layout

- `src/` — the library, checked by Verus.
  - `ast` — the refrain AST and its mathematical model.
  - `lexer`, `sexp`, `parser` — tokenizer, S-expression reader and the
    parser `parse`, each specified by a spec function (`tokenize`,
    `read_sexp`, `spec_parse`) that it computes exactly.
  - `term`, `normalize`, `term_laws` — the flat term form exchanged with the
    e-graph normaliser, writing patterns into it and reading them back, and
    normalisation through any term rewriter.
  - `rhizome` — the two-layer map between causal event ids and e-class ids.
  - `schedule` — compiles a pattern into its happenings (haps): their order
    and payloads are proved; the time arithmetic is the caller's.
  - `adapters` — the media-independent parts of the output adapters: names
    and capabilities, the seeded text renderer, and the PNG canvas.
  - `laws` — laws of the parser, the scheduler and the rhizome bridge.
- `app/` — ordinary Rust around the library: serde and thiserror types, the
  scheduler run in floating-point cycles, the audio/text/visual emitters and the `egg`
  e-graph.
- `tests/` — tests of the library.
