# reference_tool

A verified core for a desktop reference manager: it imports BibTeX files,
numbers citations in the order keys are first cited, compresses runs of
numbers (`[1]-[3], [5]`) and writes the list of cited references in a
default journal style.

- `src/` is the library, written in Verus. Every function carries a
  contract, and the properties the tool promises (a refused citation request
  changes nothing, numbers once given are kept, repairing a loaded state is
  idempotent, import replaces entries by key, and so on) are stated and
  proved as proof functions named `law_*`.
- `tests/` runs the library on concrete inputs.
- `app/` is the Tauri shell: the commands the user interface calls, the
  JSON state file on disk and the serde forms of the library's values.

Modules of the library: `text` (character-level text operations),
`strmap` (a sorted map keyed by strings), `models`, `bib_parser`,
`formatter`, `citation_engine`, `state`, `storage` and `commands`.
