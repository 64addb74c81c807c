# Ferron language server

A language server (LSP) that allows editors to support `ferron.conf` and
[Ferron](https://ferron.sh) configuration files.

- **Diagnostics**: `ferron doctor` on save, and syntax errors while typing
- **Formatting** with `ferron-fmt`
- **Hover info and completions**, with data from `ferron directives`

## Layout

- `src/` is the server's logic, verified with [Verus](https://github.com/verus-lang/verus):
  what each answer is, as a function of the open documents, the known directives
  and what the `ferron` programs printed.
- `app/` is the program around it: the protocol, processes, files and the download.
- `tests/` runs the library.

What the library believes without proof stands in `src/unicode.rs` (the standard
library's character tables), `src/config.rs` (the `ferronconf` parser) and
`src/ferron_dl.rs` (the `sanitize-filename` crate).
