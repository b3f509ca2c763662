# nuke

Nuke is a small configuration language: a document is a value (atoms, strings, integers,
floats, lists, tuples of named fields, maps), written either in a canonical form or in a
surface form that adds names bound with `:=`, projections, builtin calls and interpolated
strings. Reducing a surface document gives the canonical value it stands for.

`src/` is the library, verified with Verus:

- `lexer`, `cursor`, `parser` (the canonical form), `surface` (the surface form), `expr`,
  `names`, `number`, `specifier`, `utf`, `span`: reading text into values and trees;
- `resolve`, `eval`, `builtin`, `text`, `value`, `deps`: scope, reduction, imports and
  the values themselves;
- `printer`, `lint`: formatting and style findings;
- `position`, `document`, `navigate`: what an editor asks of an open text — positions in
  UTF-8 or UTF-16, definitions, references, highlights and outlines.

`app/` is the `nuke` command around the library: `deps`, `fmt`, `lint`, and `lsp`, which
serves an editor over the language server protocol. It reads files, walks imports on disk
and speaks the protocol; the library decides everything else.

`tests/` runs the library on concrete texts.
