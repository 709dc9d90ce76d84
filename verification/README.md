# kb_core

The core of `kb`, a Markdown knowledge base that keeps notes as plain files in
git repositories and speaks `nb`'s command language: the same ids, selectors,
frontmatter, settings and file formats.

The library is written in Verus. Every function in `src/` carries a contract,
and Verus proves that the code meets it: ids in a directory's `.index` are line
numbers and a removed entry's id is not handed out again while the index is
in use (blank lines at the end of the file are dropped when it is read back),
a selector like `home:knowledge/3`
parses into its notebook, folders and target, touching a note's `updated` key
changes nothing else, a setting written to the settings file reads back as
written, and so on. Where the work is done by another crate (jiff for time,
serde_yaml_ng for YAML, pulldown-cmark for HTML, grep-regex and grep-searcher
for search), the call sits behind a small trusted function whose contract
states what that crate documents, and the logic around it is verified.

Layout:

- `src/` — the verified library, one module per concern (`index`, `selector`,
  `frontmatter`, `note`, `search`, `settings`, `todo`, `run`, ...). Laws that
  relate several functions are public proof functions named `lemma_*`.
- `tests/` — ordinary Rust tests of the compiled library on concrete values.
- `app/` — the command-line program: argument handling, file and process I/O,
  and the loop that hands plain values to the library.
