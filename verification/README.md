# linjs

Rust data handed over to a JS-managed heap, and accessed through a JS context whose
type records what it may do: allocate, access, extend lifetimes, or initialize a
compartment's global.

- `src/context.rs`: the context owns the heap (one cell per piece of JS-managed data; the
  global's cell stays empty until `global_manage` fills it, and always lies inside the
  heap) and the registry of pinned roots. `JSManaged` handles read and write their cell
  through a context of their compartment. Roots are pinned with `pin`, updated with `set`
  and unpinned with `unpin`.
- `src/roots.rs`: the registry, a doubly linked list in an arena. Pinning links a root at
  the head and records the reflectors of the value it holds; `set` records them anew;
  unpinning unlinks the root wherever it stands.
- `src/trace.rs`: tracers and traceable data.
- `src/class.rs`: classes of native data.
- `src/laws.rs`: how the operations relate: reading back managed data and the global,
  snapshots, chains of calls, what pinned roots keep alive, unpinning, tracing.
- `app/lib.rs`: the `rooted!` macro, and class initializers for the SpiderMonkey `js`
  bindings.
