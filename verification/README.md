# vir

A render-graph compiler for Vulkan, written in Verus. A `Module` records resources,
passes, draws, dispatches and control flow as instructions; compiling it keeps what the
requested roots reach, lays the instructions out in blocks, works out what each descriptor
write is reached at, inserts the barriers and layout transitions between accesses, simplifies
the control flow, and infers each draw's pipeline state. The resulting `Program` can be
dumped as text and walked by an executor.

Layout:

- `src/` — the verified library. `module` records, `compile` lowers, `sync` synchronizes,
  `analysis` resolves and checks descriptors, `opt` simplifies, `lower` infers state, `dump`
  prints, `executor` decides each step of a run, `shader` parses and reflects SPIR-V,
  `state`, `access`, `resource`, `ir`, `ids`, `program`, `pipeline`, `text` and `vkname`
  hold the data and its naming.
- `tests/` — tests against the library's public API.
- `app/` — what cannot be verified: reading SPIR-V blobs, Vulkan result codes, float state,
  and the loop that runs a program.
