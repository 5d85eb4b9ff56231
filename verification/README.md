# moon

A small scripting language (tree-walking interpreter, bytecode compiler and VM, type
checker, language-server helpers) written in Verus: each stage states what it computes and
the verifier proves it.

## Layout

- `src/` — the verified library.
  - `span`, `source`: byte spans; line/column and rendering of a span in the text.
  - `lexer`: bytes to tokens; `lexes_to` says what a tokenization is. `lex` fails exactly
    when the text has none, and a text has at most one.
  - `grammar`, `parser`: the grammar as relations over token lists, and the recursive-descent
    parser that follows them.
  - `ast`, `value`, `ops`, `access`, `heap`: syntax trees, runtime values, operators, indexing
    and the mark-and-sweep heap.
  - `semantics`, `interp`: the big-step semantics of programs and the interpreter that meets it.
  - `codegen`, `bytecode`: the code each construct compiles to, and the compiler.
  - `machine`, `vm`: the machine's transitions and the VM that runs them.
  - `types`, `typeenv`, `typechecker`: the typing rules and the checker, with the expression
    types it records.
  - `core_eval`: the small evaluator of the language core.
  - `lsp`: positions in UTF-16, identifiers under the cursor, definitions, hovers,
    completions, diagnostics.
  - `namemap`, `text`: a name-keyed map and text helpers.
- `tests/` — tests of the library on concrete programs.
- `app/` — the command line and the language server around the library.
