# quarkup

Quarkup is a small markup language whose operators are *quarks* — a dot, a
run of one letter and a space (`.u `, `.nn `) — closed by an annihilator
(`..`). This crate lexes and parses Quarkup and renders it as an HTML page;
its logic is verified with Verus.

Layout:

- `src/lexer.rs` — tokens, the lexer and its step function `lex`.
- `src/grammar.rs` — what the parser builds, stated over source cursors.
- `src/parser.rs` — the parser, proved to build `grammar::doc_blocks`.
- `src/defines.rs` — the defines that conditionals test, and their parsing.
- `src/ast.rs` — the document tree and its mathematical view.
- `src/html.rs` — inline content, lists and lattices as HTML.
- `src/page.rs` — blocks (code listings among them), metadata and templates;
  the `HtmlRenderer`.
- `src/engines.rs` — the trusted contracts of MathJax, base64 and
  `Path::extension`.
- `src/text.rs` — character-level helpers.
- `app/main.rs` — the command line: reads stdin and image files, writes HTML.
