# cull

Building blocks of a dead-code analyzer for Python projects, written in Verus: each function
of the library states what it computes in `requires`/`ensures` contracts over mathematical
models (`Seq`, `Set`, `Map`, spec functions), and Verus proves them.

The library covers project discovery, configuration, source decoding, parsing top-level
definitions through Ruff, the binding inventory (the walk over a module's statements that
yields its scopes, symbols, bindings and definitions), the flow lattice, reachability
bookkeeping, finding construction, ranking, fingerprints and reports. The walks that produce
references, flow states and reachability are not part of it, so the program cannot yet produce
findings: `cull check`, `cull explain` and `cull debug references|candidates` discover the
project and then report that reference and reachability analysis is unavailable. `cull debug
definitions` lists each module's top-level definitions and `cull debug bindings` its binding
inventory.

## Layout

- `src/` — the verified library.
  - Identifiers, source text, diagnostics and the semantic graph: `ids`, `source`, `text`,
    `diagnostic`, `ir`, `semantic`, `builder`, `canon`; `syntax` (statements as plain values)
    and `binding_inventory` (the scopes, symbols, bindings and definitions they introduce).
  - Project input: `config` (the `[tool.cull]` table), `paths`, `discovery` (source roots,
    module names, exclusion, collisions), `decode` (PEP 263 source decoding),
    `module_namespace` (module and namespace-package resolution, step by step),
    `frontend`/`ruff_frontend` (parsing through Ruff and lowering top-level definitions).
  - Analysis: `definition_effects` (definition-time effects, overload groups, internal
    candidates), `flow` (the flow lattice: slots, environments, joins and lookups),
    `flow_facts` (the facts of one module that flow analysis looks up),
    `reaching` (bindings that reach a reference), `values` and `slots` (the project
    resolver's values and module namespaces), `cycles` (import cycles), `seeds` and `roots`
    (reachability roots and their coverage), `reach` (the reachability marking state,
    activation of definitions, selectors, dynamically constructed classes), `clusters`
    (dead clusters).
  - Reporting: `findings`, `report` (building findings), `fingerprint` (stable identifiers),
    `candidates`, `order` (sorting by keys), `output`, `present` (text rendering, exit
    codes, explanations).
- `tests/` — tests of the library on concrete values.
- `app/` — the command-line program: argument handling, file system walking, reading
  `pyproject.toml`, converting Ruff's statement tree into the library's syntax type, JSON
  output.
