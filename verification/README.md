# rtk — compact `ls`, `tree` and `wc`

A Verus library that computes the compact text of three commands, with
each result stated as a specification and proved:

- `src/ls.rs` — sizes in human units, which entries a listing shows (hidden
  and noise names, and the configured `*` ignore patterns), their
  order (directories first, then files, each by name), the long-format
  permission column and the summary with its extension ranking.
- `src/tree.rs` — which entry of a directory walk hangs under which, the
  order of siblings, hidden and noise subtrees left out, the branch drawing.
- `src/wc.rs` — line, word, byte and character counts, the count-selecting
  flags, single- and multi-file reports with the shared directory prefix
  left out of the names.
- `src/cli.rs` — the options each command line asks for, the truncate
  levels that scale item caps, the 80-line truncation with its
  never-longer guard.
- `src/text.rs`, `src/sort.rs` — characters, decimals, joining, the line
  model of `str::lines`; a stable insertion sort and its laws.

`app/` is the program around it: it reads directories (with `walkdir`),
files, stdin and the configuration file (`[filters]` and `[layers]`, read
with `serde` and `toml`), hands plain values to the library and prints the
result.
