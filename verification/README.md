# Zalezhnosti

Dependency versions in `Cargo.toml`, `package.json`, `pyproject.toml` and
`requirements.txt`: where they stand, which are outdated, and what to put in
their place. The library is verified with Verus; a language server and an editor
extension are built around it.

## Layout

- `src/` is the library. Every function states what it returns, and Verus proves
  it.
  - `text`, `lines`, `scan`, `toml`: characters, lines, strings, brackets and
    inline tables.
  - `entries`, `requirement`, `successor`, `python`: what manifests declare, and
    where.
  - `version`, `newest`: versions, and the newest of those that a registry lists.
  - `manifest`, `server`, `position`, `documents`, `references`: dependencies,
    hovers, diagnostics, quick fixes, the documents they are for, and the files that
    these refer to.
  - `registry`, `fetch`, `cache`, `table`: what a registry is asked, what its
    answers mean, and how long they count.
  - `update`, `python_update`, `edits`, `cargo_edits`, `npm_edits`, `python_edits`,
    `pyproject_lines`, `pyproject_edits`, `joined`: manifests in which a version is
    replaced or that are put together, and what is read from them.
  - `extension`: which server the editor extension downloads and starts.
  - `zeddeps`: a smaller server, for Cargo and npm manifests alone.
  - `laws`, `zeddeps::laws`: what holds of the library as a whole.
  - `outside`: the calls into other crates, each with what is believed of it.
- `app/` is the program around it: the language servers, the extension, and all
  input and output.
- `tests/` runs the library on examples.
