# delve-core

Static analysis of JavaScript and TypeScript projects, verified with Verus:
unused exports, giant functions, duplicated blocks, risky patterns, unused and
missing dependencies, and a health score from 0 to 100 that weighs them all.

## Layout

- `src/` is the verified library. Every analysis is a function on values
  (file texts, syntax trees, symbol tables, token lists) whose contract states
  its result exactly, over spec functions in the same module.
  - `text`, `sort`: character-level primitives and the stable ordering of
    findings by file and line.
  - `syntax`, `parser`: tree-sitter's parse received as a preorder walk, the
    tree rebuilt and checked, and the exports, imports and functions of a file.
  - `paths`, `manifest`, `graph`: import resolution (relative paths and
    `node_modules`), the symbol-level import graph, entry points and the
    exports reachable from them.
  - `unused`, `giant_funcs`, `risks`, `duplicates`, `unused_deps`: the
    analyses and their text reports.
  - `health`, `report`, `paint`: the score, its label and todo list, the full
    audit's text and SARIF records, and terminal colours.
  - `config`: thresholds and weights with their defaults.
- `app/` is the command-line program: argument parsing, reading
  `.delve.json` and `package.json`, walking the project, answering the
  library's questions about the file system, JSON output and the progress
  spinner.
- `tests/` exercises the library on concrete inputs.

The `law_*` proof functions state properties that hold across the library,
such as that the score never rises with more findings, that exports of entry
points are never reported unused, and that every duplicate cluster occurs in at
least two places.
