# petrea

Verified building blocks of a TypeScript type stripper, one that replaces
TypeScript-only syntax by whitespace so that the remaining JavaScript keeps
its exact line and column positions. The library holds the edit list and its
position-keeping builds, plain-text replacement, define tables and their
guards, the flattened syntax-tree bookkeeping and the dead-code decisions;
the per-construct erasure walk that drives them over a parsed program is not
part of it.

Modules under `src/`:

- `blank_string` — the edit list (blanks, marker blanks, text overwrites) and
  the builders that apply it to UTF-8 text or to UTF-16 code units, in a
  fresh buffer or in place; blanking keeps every position.
- `build_paths` — the two build paths agree: on text with no lone surrogate,
  with the byte-to-unit map of its parse copy and edits that both builds
  accept (offsets read on character boundaries, an empty blank allowed
  anywhere, markers over ASCII, texts well-formed; no edit range reversed
  in units), the UTF-8 build read as UTF-16 is the UTF-16 build over the
  text's units.
- `blanker` — the erasure state threaded through a walk, and the reports of
  constructs kept verbatim.
- `replace`, `replace_keys`, `haystack` — plain-text replacement in the style
  of `@rollup/plugin-replace`: leftmost-longest matching at identifier
  boundaries, optional assignment skips and `typeof` guard keys, on characters
  or on UTF-16 units.
- `scan_paths` — the two scan paths agree: scanning a text's UTF-16 units
  finds the hits of scanning its characters, at the units' offsets, and the
  two rewrites splice the same text.
- `defines` — esbuild-style define tables: keys and values parsed with the
  oxc expression parser, then looked up by identifier, `this`, `import.meta`
  or member chain.
- `literal_text` — JavaScript string-escape decoding over UTF-16 units and the
  `JSON.stringify` quoting forms.
- `transcode`, `source_text` — the lossy UTF-8 parse copy of UTF-16 input with
  its byte-to-unit map, UTF-16 offsets of byte positions, and reading spans
  back as units.
- `flattener`, `scopes`, `tree` — the flattening pass's bookkeeping (flat
  indices, first-child/next-sibling links, recorded parents and the define
  gates) and its fold over a preorder walk's enter/leave events, each
  node's scope, and parents derived back from the links.
- `guards` — the define guards' queries over the flattened tree: the
  effective expression after TS erasure, write and delete targets,
  unary-parenthesis and statement-head contexts, decorator heads, JSX tag
  positions, `with` bodies and `this`/`arguments` nesting.
- `dce` — dead-code elimination's decisions: the constant truthiness of a
  test (numbers as their binary64 bits), which arm of an `if`, `while` or
  `for` a folded test kills and how a dead statement blanks, and the
  budgeted dead-region sweep for hoisted declarations and top-level awaits
  below a dead arm.
- `fnv` — the FNV-1a hasher of the binding memo.
- `transpile`, `native` — the replace-table setup, the gates that turn an
  unusable parse into a syntax error, and the values the JavaScript bindings
  exchange.
- `chars`, `unicode`, `utf8_lemmas`, `search`, `identifier` — shared
  character, encoding and search helpers.

Every verified function carries a contract proved by Verus. The calls into
`oxc` and `std` that the library cannot prove go through small trusted
wrappers whose contracts are documented where they are declared; the helpers
that convert an oxc expression into the library's expression shape are
trusted conversions with no contract of their own.

`app/` holds the oxc side of the flattening pass: it parses a source file,
walks the syntax tree with oxc's visitor (an outside trait, so it stays out
of the library), reduces each node to the library's `NodeKind` and hands the
enter/leave events to the verified `flatten_events`.
