# nbv

A terminal-native Jupyter notebook viewer. `src/` is the rendering library,
verified with Verus: every renderer appends the text it draws to a `String`
(or a `LineSink`), and its contract says exactly what that text is — the
framed cell boxes, outputs, tables, tracebacks, image protocols and the
plain-text mode. Markdown is stated over the events pulldown-cmark yields
for the source; highlighted code over what syntect returns for the grammar
chosen from the language, the theme chosen from `--theme`, and the lines
before.

`app/` is the program around it: argument parsing (clap), JSON decoding of
`.ipynb` files (serde), the terminal probe, the reads, prompt and writes of
`nbv setup`, completion scripts and the man page.

Layout of `src/`:

- `strs`, `numeric`, `escape`, `width` — characters, numbers, escape
  sequences and display widths.
- `cli` — the `--cells` value.
- `env` — the render context from the terminal probe and the flags.
- `ipynb::model` — the notebook model and how its text fields are read.
- `render` — frames, text, tracebacks, tables, HTML tables, images,
  syntax-highlighted code, Markdown, outputs, cells, plain text, documents
  (word-wrapped by `render::reflow`).
- `setup` — the decisions of `nbv setup`: shell, rc file and line, and in
  `setup::flow` (Unix) and `setup::windows` the whole dialogue as a state
  machine.
