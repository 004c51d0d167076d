# comfysort engine

The verified core of a preview-first media sorter: which directory entries
become inbox items and sort targets, how listings are ordered, where a file
goes on a name collision, the session's undo stack, hotkey bindings and their
persistence format, ignore rules, and the fuzzy folder search.

- `src/` is the library, verified with Verus. It never touches the
  filesystem: each command either decides what the caller is to do (where a
  file goes, whether an undo can proceed) or records what the caller did.
- `app/` is the layer around it: directory listings and stats, the journal
  and log files, `config.toml` and `bindings.json`, and the command flows
  that carry the engine's decisions out on disk.
- `tests/` drives the library, including the session commands over an
  in-memory directory tree.
