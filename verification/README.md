# snoozy

An asset registry for incremental builds. Assets are defined by recipes;
a recipe's build reads other assets, and the registry records who read what.
When an asset is invalidated, exactly the live assets that were built from it,
directly or not, are marked for rebuild; unreferenced assets are collected.

An asset is alive while something holds it: a handle or an invalidation
trigger (an evaluation in flight holds handles on its own asset and on each
asset it requested, until its build is committed), a queued invalidation, the build record of a live asset that read
it, or a cycle of build records (an asset that read its own previous result
through `prev`, or assets that read each other). Garbage collection frees
every other asset and drops its definition.

Layout:

- `src/` is the verified library (Verus).
  - `reachability.rs`: reachability over adjacency lists, and a worklist
    traversal proved to compute exactly the reachable set.
  - `refs.rs`: addresses, references and typed handles; `isolate`, `prev`,
    `rebind`.
  - `recipe_info.rs`: recipes and build records; the dependency diff of a
    new build; cache decisions.
  - `asset_reg.rs`: the registry, its invariant, liveness, definitions,
    invalidation, garbage collection, the decisions and commits of an
    evaluation, and the laws that relate them.
  - `iface.rs`: the evaluation context of a recipe and snapshots.
  - `cycle_detector.rs`: the detector and its backend, joined by one channel
    and one cycle flag; the request graph (petgraph) and its cycle check.
  - `maybe_serialize.rs`: the serialization traits of built types.
- `app/` is the runtime around it: the process-wide registry, async
  evaluation of recipes with tokio, the on-disk cache, counted handles and
  the cycle detector's thread.
- `tests/` exercises the library on concrete registries.
