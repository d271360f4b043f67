# version_lens

Lenses above the dependencies of a `package.json` and of the catalogs in a
`pnpm-workspace.yaml`: the newest patch, minor and major release of each, with a click that
rewrites the dependency to one of them and keeps its `^` or `~`.

- `src/` is the library, written in Verus. Every function states what it returns, and the
  laws that span functions (names beginning with `law_`) are proved beside them.
- `app/` runs the library in an editor: it reads files, asks the npm registry, draws the
  lenses and edits the text.
- `tests/` runs the library on examples.

The library calls `semver` to read and order versions and `serde_json` to read documents;
what is believed of these calls stands in the contracts of `semver_le`, `parse_version`,
`read_value` and `open_value`.
