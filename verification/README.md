# geomancer

Geomancer shows the tasks of a repository as a rotating progress globe. It
reads `beads` issues (through `bd list --json` and `bd activity --json`) and
markdown checklists (`- [ ]` / `- [x]`).

The crate is written in Verus and split in two:

- `src/` is the verified library. It turns what was read (the `bd` output
  bytes, the text of markdown files) into tasks, merges the sources into one
  snapshot sorted by source, id and title with reverse dependency links,
  counts the tasks by status, and decides the globe's bookkeeping: the
  lineage hue of each task, which cells each claim/completion trail joins in
  which order, and when completion animations start. Each public function
  states its result in its `ensures`; the laws that span several functions
  are public proof functions (`lemma_*`).
- `app/` is the desktop program (eframe/egui): it runs the `bd` commands,
  walks the directory tree, lays the cells out on the sphere and paints the
  globe. Everything there is I/O, floating point or drawing.

Tests of the library stand in `tests/`.
