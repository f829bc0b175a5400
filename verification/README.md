# diskhog

Read-only disk usage analysis: find the files and directories that use the
most space. The library under `src/` is verified with Verus; `app/main.rs`
is the command-line program around it.

The program reads the directory tree from disk (never following symbolic
links) into a `RootNode`, and the library does the rest:

- `tree.rs`: the walk that totals directory sizes (saturating at
  `u64::MAX`), keeps the entries the options ask for, records unreadable
  paths, and lists entries largest first (`scan`);
- `sort.rs`: a stable merge sort into listing order;
- `order.rs`, `entry.rs`: the component-wise path order and the records;
- `size.rs`, `text.rs`: human-readable sizes in B to TiB, computed exactly
  in integers;
- `cli.rs`: the command line (`--limit`, `--files`, `--dirs`, `--depth`,
  `--help`, `--version`);
- `display.rs`: how many entries and warnings are printed, and the note
  after the listing;
- `laws.rs`: properties proved for every input: directory totals are the
  capped usage below them whatever is displayed; for a tree with distinct
  names per directory, a report lists exactly the files and directories the
  options show, each path once, strictly largest first, and other options
  only filter the default listing; the settings follow the last `--limit`
  and `--depth` and the `--files`/`--dirs` combination.

Entry paths are given as the components below the scanned root; the program
joins them to the root for display.
