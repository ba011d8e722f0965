# hyge

The engine-independent core of the Hyge renderer and scene runtime, written
in Verus: every function in `src/` carries a contract that Verus proves,
except the two trusted wrappers named below.

Modules of the library (`src/`):

- `bindless` — slot pools and the registry of mesh, material and texture
  slots, with reference counts and generations.
- `shadow` — the first-fit shadow-atlas allocator.
- `ibl` — mip arithmetic and the `.hyge-env` container (encode/decode).
- `rgbe` — the Radiance RGBE (`.hdr`) decoder.
- `content` — BLAKE3 content ids and hex digests.
- `extract` — grouping of visible renderables into instanced draws.
- `cluster` — clustered-forward light assignment and draw batches.
- `scene`, `prefab`, `library` — scene-document diffs, hot-reload
  decisions, parent links, prefab spawn plans and id-keyed libraries.
- `profiler`, `viewport`, `compare`, `config` — timestamp bookkeeping,
  readback row unpadding, pixel comparison and renderer configuration.

`app/` holds what stays outside the proofs: floating-point colour and BRDF
math, file I/O, and msgpack encoding of prefabs. `tests/` exercises the
library on concrete values.

Two small wrappers are trusted rather than proved: `content::blake3_hash`
(a call of `blake3::hash`) and the UTF-8 check in `rgbe` (a call of
`std::str::from_utf8`). Their contracts are stated in their doc comments.
