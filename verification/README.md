# croft

Two pieces of the croft editor, verified with Verus:

- `editorconfig` resolves the properties that `.editorconfig` files give a file.
  `ConfigWalk` names the directories to read and takes in what was found;
  `for_file_with` drives it over a collection in memory.
- `markdown_lint` checks Markdown text for a handful of common slips.

They rest on `glob` and `braces` (section globs), `path` (paths as lists of
components) and `text` (string primitives over characters, with byte offsets
proved to lie on character boundaries). Laws that span several functions are
public proof functions named `law_*`; those on precedence are in
`src/editorconfig/laws.rs`.

`app/` reads the files from disk.
