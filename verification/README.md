# eye

The front end of the Eye compiler and the core of its language server,
written in Verus: every function in `src/` carries a contract that Verus
proves.

## Layout

- `src/` — the verified library.
  - `literal`, `text`, `source`: literal decoding, UTF-8/UTF-16 widths,
    source positions (byte and UTF-16 line/column).
  - `interner`, `types`, `name_set`, `typed_arena`: the string interner,
    the structural type interner with type rendering, sets of names, and
    the typed arenas items and bodies are stored in (a small arena of this
    library's own, written in place of the `la_arena` crate).
  - `items`, `scopes`, `lowering`, `body`: item collection with its
    diagnostics, the module item scope and name resolution, lexical scopes,
    and the judgments of body lowering (values, calls, struct literals,
    places, patterns, destructuring, parameters).
  - `consts`, `checks`, `names`, `coerce`: the operators and casts of
    constant folding, range and format checks, reserved names, array decay.
  - `const_eval`: evaluation of the top-level constants (memoised, with
    definition cycles reported) and of global initializers against them.
    Floating-point values are not computed: a constant or global whose
    value involves one is left without a value.
  - `graph`, `typegraph`: the type-declaration graph, its cycles and a
    topological order.
  - `errors`: every diagnostic, its code and its message.
  - `tree`, `body_lowering`: the syntax tree of a function body and its
    lowering into the body arenas, with name resolution through the lexical
    scopes and the diagnostics each construct reports.
  - `semantic`, `highlight`, `hover`, `legend`: LSP semantic-token
    encoding, the classification of lexed tokens (by their kind, and names
    by the syntax tree), hover text, the token legend.
  - `laws`: properties spanning several functions, stated and proved.
- `tests/` — tests of the library on concrete values.
- `app/` — the parts outside the verified library: memory-mapped input,
  LSP types and conversions, and floating-point constant arithmetic.

## Checking

`verus` verifies `src/`; `cargo test` runs `tests/`.
