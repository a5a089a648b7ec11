# protofetch

A source dependency manager for Protocol Buffers files: it reads a module's
`protofetch.toml`, resolves its dependencies (and theirs) to commits of their git
repositories, records them in `protofetch.lock`, and copies the proto files they
provide into an output directory, under each dependency's allow and deny policies,
content roots and pruning rules.

## Layout

- `src/` is the library, verified with Verus:
  - `model/`: descriptors (`protofetch.toml`), lock files, protodep descriptors,
    coordinates, revisions and file policies, each read from and written to TOML;
  - `engine/`: resolution of the dependency graph, which content root claims each
    proto file of a worktree, the copy plan of the proto files, and the imports of a
    proto file;
  - `resolver/`: the resolver interface and the lock-file resolver;
  - `git/`: the decisions taken with a repository (refspecs, commit checks,
    descriptor reading, worktree listing, credentials and known hosts);
  - `config.rs`, `api.rs`, `cli.rs`: configuration, settings and the plan of a run;
  - `text.rs`, `path.rs`, `toml_doc.rs`: strings, paths and TOML documents.
- `app/` is the command line around it: argument parsing, the git backends (the
  `git` command and libgit2), the repository cache on disk, the file system walk and
  the copies, and the worker pools.
- `tests/` holds the tests of the library.

The main properties proved are stated as `ensures` clauses of the functions they are
about, or as public proof functions (`lemma_*`): lock files and descriptors read back
from the tables they are written as, the laws of a resolved graph, and the
well-formedness, provenance and coverage of a copy plan, down through the graph.
