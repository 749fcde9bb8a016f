# ensync

The core of an encrypted bidirectional file synchroniser, written in Verus.

The library decides what is done; its contracts say exactly what that is, and
Verus checks them. The program in `app/` does it: it reads and writes files,
talks to SQLite, to the terminal and to other processes, and asks the library
at every turn.

## The library

- `defs`, `bytes`, `path`, `text`, `table`, `digest`, `errors`, `log`,
  `interrupt`, `rules`: what everything else is made of.
- `replica`: what a replica is, as a trait whose contracts are stated over a
  tree of files. `memory_replica` is one that is verified to be one;
  `dry_run_replica` wraps another so that nothing is written.
- `reconcile`: the reconciler. `compute` decides about one file, `mutate` carries
  the decision out on three replicas, `tree_walk` and `descend` walk whole trees.
  `model` says what a synchronisation amounts to, as a function of the three
  trees; `laws`, `content_laws`, `convergence` and `skipping` state what holds of
  it: a mirror mirrors; whatever directories are passed over because they are
  marked clean, conservative modes lose nothing; and if those are ones that a run
  would leave alone, a second run by the same single mode keeps the name, type and
  content of every file, and its mode unless that is not trusted.
- `posix`, `ancestor`: decisions about local files and about the ancestor store.
- `mutator`, `blob_reconcile`: reconciling directories that are stored as blobs.
- `cli`: configuration, what is said to the user, and the commands.

## The program

`app/` is ordinary Rust. The encrypted store itself is a separate component;
`app/server.rs` says what the commands need from it.
