# fase

Fase is a content-addressed build system run by a Kubernetes controller.
Requests name the Artifact they want by labels; the controller resolves them
into a graph of Recipes and Tasks, runs each Task as a Job, and records the
outputs as immutable Artifacts named by their content, with ArtifactClaims
that label them.

## Layout

- `src/` is the library, written in Verus and verified: label selectors,
  Task validation, the resolution of a Request, the decisions of the Run
  state machine, the content identity of Artifacts and of build resources,
  archive and path safety, the RequestGenerator's schedule, matrix and
  templates, the CEL template renderer, the plans of the runtime maps, the
  walk that collects a Kustomize tree, and the decisions of a local build
  (Act selection, step order, matrix cases, input templates).
  Calls into `sha2`, `serde_json`, `chrono`, `cron`, `cel`, `regex`, `url`
  and `std::path` stand behind small trusted wrappers whose contracts say
  what the library relies on.
- `tests/` exercises the library from outside.
- `app/` is the executable around it: the Kubernetes API types with their
  serde and schema derives, the controller and generator loops, the Job
  objects, the object store, the file system, and the `kustomize` command
  that reads the files the walk asks for.

Run `verus` on `src/lib.rs` to check the proofs.
