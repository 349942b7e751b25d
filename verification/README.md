# cgtree

Inspects a cgroup v2 unified hierarchy: a `tree`-style or JSON listing of the
cgroups with selected interface files, and an interactive explorer.

The library in `src/` is written in Verus and holds the logic with its
contracts and proofs:

- `text`: character-level string helpers (trimming, splitting, substring
  search, code-point order) with specifications over `Seq<char>`.
- `data`: the scanned tree, counting, which interface files are listed and
  how their contents are shown, and sorting by name.
- `filter`: parsing comma-separated property patterns and selecting the
  properties they name.
- `list`: the text listing and the JSON-shaped copy of the tree.
- `cgroup`: deciding from what was found on disk whether a root is a v2
  hierarchy.
- `cli`: what a command line asks to run.
- `tui`: the explorer as a state machine from state and key to next state
  and outcome, with `tui-input` editing the filter prompt; the lines it
  shows, its footer and help screen.

`app/` is the program around it: argument parsing, reading the hierarchy from
disk, printing, JSON serialisation, and the terminal event loop and drawing.
