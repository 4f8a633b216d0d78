# pidc

A compiler for a small semantic P&ID (piping and instrumentation diagram)
description language, with its front half verified in Verus.

- `src/` is the verified library: the lexer, the indentation-driven parser,
  normalization into the typed diagram model, validation, diagnostics and
  their report text, source edits that move a node, the dump format, and the
  discrete decisions of layout and drawing (port sides and slots, symbol
  keys, legend rows, label lines, escaping, style sheets, spare nozzles,
  valve tags). Each public function states in its contract what it returns;
  the laws of the library are public proof functions.
- `app/` is the command-line program around it: argument handling, file and
  network I/O, the browser bindings, and the floating-point geometry of
  layout, routing and SVG drawing.
- `tests/` runs the library on concrete inputs.
