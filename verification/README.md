# codecompass

CodeCompass indexes a TypeScript/JavaScript workspace and explains its
structure: dependency and call graphs, import cycles, reading order, change
impact, structural findings and repository evolution.

- `src/` is the library, written and proved in Verus. It holds the scan and
  analysis decisions, the graph algorithms, the text analyses (CSS imports,
  line and column positions, git output) and the records the program
  exchanges. Each public function states its result in its contract.
- `app/` is the command-line program around the library: the SQLite index
  (rusqlite), the directory walk (walkdir), parsing with oxc, running `git`,
  and the floating-point scores.
- `tests/` exercises the library on concrete values.
