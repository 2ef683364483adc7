# quartz

The verified decision logic of Quartz, a small coding harness that modifies
itself at run time through reversible effects. The functions under `src/` are
checked by Verus against their `requires`/`ensures` contracts, except a few
trusted wrappers whose contracts Verus takes on faith: SHA-256 (`sha2`), JSON
parsing (`serde_json`) and UTF-8 decoding (`std::str::from_utf8`).

The engine that loads and runs WebAssembly components is not part of this
crate. The library holds the decisions that engine's runtime makes between
its calls — what a host call answers, what a declaration, patch, replacement
or recovery step may do to the core — and the runtime drives them.

## Layout

- `src/` — the library.
  - `manifest`, `component`, `composition`, `dependency`: component manifests,
    specifications, patch targets, provider collisions and dependency cycles.
  - `fiber`: the kernel's core — fibers, state cells, bindings, registrations,
    the host calls an activation makes (event appends and output buffers
    among them), and the inverse of every effect, with the laws that undoing
    an activation's effects restores what it changed; the steps of recovery
    (newest effect first), refresh, pending and committed patches,
    declaration of roots, and replacement that the runtime drives.
  - `schedule`: the order of the phases one runtime step tries, and the
    bound on reconciliation.
  - `activation`, `queue`, `replacement`, `recovery`, `snapshot`: the steps
    the runtime takes on the core between engine calls — which fiber
    activates next and what starting it does; what the event stream is
    asked to accept, which pending event is taken and when it is queued; a
    candidate generation taking the place of the one it replaces, its
    commit to the desired tree and its rollback; the bookkeeping around
    undoing a composition effect; and which composition effects a journal
    snapshot records.
  - `preparation`: the checks a component declaration and a composition
    patch pass — placement limits, the artifact's pinned digest, authority
    paired with grants, snapshot grants and digests, which patches a
    component may request, and the persistence bootstrap.
  - `tree`: the desired composition as a tree; finding and replacing the
    component at a path, with the law that a replacement reads back.
  - `journal`: the framed, checksummed composition journal and its laws
    (an appended record reads back; a torn append is dropped).
  - `repository`: workspace grants and the publication, restoration and
    promotion steps against the mutation ledger.
  - `exchange`: bounded exchanges with outside services and their ledger.
  - `task`, `session`: the repository task — admission, model responses,
    generations, reviews, command evidence — and the one step each session
    state calls for.
  - `orchestrator`: the rules every durable session fact must meet.
  - `digest`, `text`, `json`, `status`, `error`: shared pieces.
- `tests/` — tests on concrete values.
- `app/` — host plumbing Verus does not see: the JSON forms of the library's
  values, the artifact, journal, snapshot and workspace files, and the step loops of the task
  components over their host calls.
