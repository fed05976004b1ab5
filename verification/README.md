# conformance_lang

A tiny conformance IR, verified with Verus.

A **Schema** names fields; each field carries **Invariants** (`one_of`,
`defined`, `absent`, `when(P, I)`, `shape`, `at` / `width`, `nested`,
`refine`, …). A **ValueCtx** is one photo of a value: what is known of each
field. **Eval** scores a photo against a Schema: Pass, Fail (known-illegal),
or Undecidable. **Unfold** reads a Rust source file, walks every function
that writes a value of the Schema's type path by path, and scores the photo
each path leaves. `#[when(P, rewrite I)]` scores one write against the value
before it.

## Layout

- `src/ir.rs`, `src/stdlib.rs` — the IR and its constructors.
- `src/absval.rs`, `src/observe.rs` — abstract values and the photo they fold into.
- `src/check.rs` — Eval of invariants, predicates, rewrites, tiling and nested schemas.
- `src/syntax.rs`, `src/lower.rs` — the plain syntax Unfold reads, and its
  lowering from `syn` (each `syn` node read through a small trusted accessor).
- `src/unfold.rs`, `src/slot.rs`, `src/walk.rs`, `src/sites.rs` — Unfold:
  conditions, field reads, the path walk, and the sites of a file.
- `src/derive.rs` — the attribute language of `#[derive(Schema)]` and
  `#[transition]`: field attributes read as Schema IR, what the derive
  generates, and the checks it reports.
- `src/laws.rs` — facts that span the functions, proved.
- `src/strmap.rs`, `src/text.rs` — sorted string maps and text helpers.
- `app/` — the file-system driver: walking a crate's `src/`, reading the
  file a derive stands in.
- `tests/` — scenarios on concrete values.
