# DiskDeck

DiskDeck measures what takes space on a Mac's data volume and helps get it
back safely: it ranks what can be reclaimed, cleans with receipts that can be
restored from the Trash, moves items to external volumes with a verified
copy, keeps a history of scans to show what keeps growing, and reviews
personal folders for duplicates and large files left unopened.

## Layout

- `src/` is the library, written and proved with Verus. Every public
  function states in its contract what it returns; the laws that span
  functions (file formats that read back what was written, plans that stop
  at the goal, moves that delete nothing before a verified copy, and others)
  are public proof functions beside the code they speak of.
- `tests/` runs the library on concrete cases.
- `app/` is a command-line program around the library. It does the reading
  and writing of files, runs system tools, and walks the file system. It
  hands what it reads to the library, which decides: which entries a scan
  keeps, what a plan holds and whether its sums fit, whether a capacity
  reading is usable, what each clean-up, move and restore step does next,
  and how the totals of a clean-up add up.

The modules of the library:

| module | what it holds |
| --- | --- |
| `scan` | the scanned tree, entry rules, compaction, lookups |
| `rules`, `developer` | recommendations of what can be reclaimed |
| `reclaim_plan` | plans that reach a space goal with safe items |
| `clean` | clean-up steps and what each reports |
| `reclaim_history` | receipts of clean-ups and restoring from the Trash |
| `offload`, `moves`, `volumes` | moving items to external volumes |
| `history`, `forecast` | scan snapshots, Growth Watch, free-space forecast |
| `file_review` | duplicate and large-old file review |
| `leftovers` | containers of apps that are no longer installed |
| `folder_lens`, `search`, `treemap`, `navigation` | what the interface shows |
| `apfs`, `monitor` | APFS accounting and the low-space monitor |
| `theme` | text styling that does not depend on the drawing toolkit |
| `paths`, `text`, `bytes`, `codec`, `sorting` | shared foundations |
