# gdu-diff

Compares snapshots of disk usage that `gdu-go` (or `gdu`) exports, and browses the
differences in the terminal. `gdu-diff shot` keeps a snapshot of a directory; without
arguments the latest kept snapshot is compared with a new scan.

The library in `src/` is written in Verus: every function states in its contract what it
returns, and the contracts are proved.

- `gdu`, `json`, `compression`: reading exports, plain or compressed
- `index`, `text_map`, `analysis`, `sort`: the sizes of every path in every snapshot, and
  the rows of a comparison
- `totals`: what an index says of a tree, and what the rows of a directory add up to
- `double`: arithmetic on 64-bit binary floating-point numbers, in integers
- `store`, `path`: where snapshots are kept, in which order, and which are removed
- `cli`, `loading`, `export`, `version`: arguments, progress, and the run of the exporter
- `tui`, `view`, `format`, `text`: the state of the browser, what the keys do, and what is
  on the screen

What the proofs rest on without proving it stands in `json` (parsing by `serde_json`),
`compression` (`zstd` and UTF-8), `store` (the directory for the data of the user),
`analysis` (lower case), `export` (lossy UTF-8) and `text` (appending a character).

The program around it is in `app/`: arguments, files, processes and the terminal.
