# rowl

Verified core of a toolkit for the Dolfin ontology language (`.dlf` files):
an indentation-aware lexer, the AST types and their display texts, source
locations and diagnostics, comment collection and attachment, annotation
comments, the shaping of parser failures into diagnostics, and the package
logic (namespaces derived from paths, prefix resolution, assembling a package
from parsed files).

Layout:

- `src/` — the library, written in Verus; every function carries a contract
  that Verus checks.
  - `text.rs` — character-level text functions stated over `Seq<char>`.
  - `error.rs` — locations, spans, diagnostics, parse results and their display.
  - `ast.rs` — the syntax tree and its display texts.
  - `lexer/` — tokens, the scanner, the layout (INDENT/DEDENT/NEWLINE) rules, the lexer
    as a state machine over the text (`lex_step`), and the proof that INDENT and DEDENT
    balance (`balance.rs`).
  - `comment.rs` — comments, the comment sink and the comment map.
  - `annotation.rs` — `@name key=value` annotation comments.
  - `parser.rs` — context detection, messages and suggestions for grammar failures.
  - `package/` — package types, discovery of ontology files and namespace resolution.
- `tests/` — tests run against the compiled library.
- `app/` — the file-system side: walking a package directory and reading its texts.
