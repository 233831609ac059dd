# undo_core

A journal of the changes an AI agent makes, grouped by checkpoint, that can
be rolled back (and the rollback redone). The library, verified with Verus,
decides what is recorded, which filesystem operations a rollback or redo
runs and in which order, what the command line prints, and, step by step,
what the two walks over the disk look at next: the walk that captures a
path before it changes, and the walk that takes the state after the agent
before a rollback. The program around it reads and writes the disk, hands
each walk what it found, and runs the operations as given.

## Layout

- `src/` — the verified library.
  - `journal.rs` — journal rows, the state cache, checkpoints, capturing
    paths, recording effects, status, the path guard.
  - `rollback.rs` — which effects a rollback reverses, the filesystem
    operations of each reversal and of each redo step, the reports, redo order.
  - `report.rs` — the lines shown for a rollback, a redo and a diff.
  - `snapshot.rs` (the capture walk and the after-state walk), `gitignore.rs`, `diff.rs`, `store.rs`, `cli.rs` — directory
    capture, the `.gitignore` entry, diffs (through `similar`), content hashes
    (through `sha2`), the command-line and hook decisions.
  - `paths.rs`, `text.rs`, `order.rs`, `meta.rs`, `effect.rs` — path
    components, string helpers, sorted sets, file metadata, effects.
  - `fsmodel.rs`, `roundtrip.rs` — a model of the filesystem and what each
    operation does to it; what capturing a tree records.
  - `walks.rs` — the two walks over the disk against the filesystem model:
    a completed capture walk that saw the tree records a capture of it (and
    its rollback puts the tree back); an after-state walk that saw the tree
    keeps snapshots that describe it, a directory's after its children's.
  - `laws.rs` — properties across operations: checkpoint ids are never
    reused, redo gives back the journal, a rollback puts a tree back exactly
    when its capture describes it, a redo brings back the state that its
    snapshots describe, and others.
- `tests/` — tests of the library on concrete values.
- `app/` — the `undo` command line and the bridge for Node tooling: file I/O,
  locking, JSON, the filesystem watcher.
