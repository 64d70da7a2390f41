# Codex Mentor core

The verified core of Codex Mentor, a desktop companion that watches a
project while an AI agent changes it, freezes the before/after context of a
completed change, and explains that change.

`src/` is written in Verus. Every function there has a contract, and Verus
proves each body against it:

- `diff`: snapshots, line counts, and the diff between two snapshots
- `git`: parsing `git status --porcelain=v1 -z` output and merging what Git
  reports with the watch-start baseline
- `watcher`: paths (read in the host's path style: `/` on Unix, `/` or `\`
  with drive and verbatim prefixes on Windows; written with `/`), change
  classification, burst coalescing, and the watch runtime, where every
  update is tied to a watch generation
- `code`, `concepts`, `analysis`: finding programming concepts in source
  text, and building the change record of a completed change
- `mentor`: the Ask Mentor prompt and the app-server protocol as a state
  machine
- `teaching`: teaching prompts and the teaching runtime
- `learning`: Learning Memory records, their normalisation, schema checks
  and UTC timestamps
- `order`, `text`: sorted vectors keyed by strings, and string helpers

Besides the contracts, `src/` states laws over several calls as public proof
functions named `law_*`.

`app/` is the Tauri application around the core: commands, file-system and
Git access, the notify watcher thread, the app-server process and the SQLite
store. `tests/` runs the library on concrete values.
