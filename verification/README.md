# hiker_editor

The verified core of a markdown-aware text editor, written in Verus.

- `src/` — the library. Every function carries a contract that Verus
  proves: the markdown providers (fenced diagrams, math, wikilinks and
  vault links, pipe tables), decoration sets, autocomplete ranking, agent-diff
  overlay anchoring, mouse-press decisions, line-height and soft-wrap inputs,
  the metrics fingerprint and the texture cache. Calls into pulldown-cmark,
  regex, tree-sitter and `str::to_lowercase` sit behind small trusted wrappers
  whose contracts are documented where they are declared.
- `tests/` — behaviour tests run against the compiled library.
- `app/` — host glue that cannot be verified: egui painting and texture
  upload, point heights from the line-height plan, the float metrics,
  serde-enabled copies of plain types.
