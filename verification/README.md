# game — the verified core of a voxel sandbox

The shared, deterministic simulation core of a multiplayer voxel game,
written in Verus: the functions in `src/` carry contracts that Verus
proves (the shared rollback counters are the one exception: nothing about
a standard atomic's value can be stated).

- `registry` — the data-driven block registry: validation of manifest
  entries (unique names and ids, the reserved air entry), lookups, ordered
  iteration.
- `block` — blocks and sparse sub-block detail ("chiseling"), and the
  derivation of a chunk's 32³ voxel array from its 8 blocks; the flat
  floor generator.
- `voxel` — chunk placement and the solid cells a chunk collider is built
  from.
- `block_textures` — array-texture layer assignment for block faces and
  the missing-texture checkerboard.
- `input` — per-key input state with exact undo records for rollback.
- `protocol` — region coordinates, the 3×3 window, seam decisions, ids.
- `state` — rollback cursor, entity keys, ghost mirrors and their
  time-to-live reaper.
- `world_manager` — the server's region lifecycle: which regions run,
  subscriptions, player homes, grace-period parking, crash respawn, and
  entity handoff. It only decides; every effect is queued as an `Action`.
- `region` — client-side prediction reconciliation: matching the
  server's processed events against local predictions and planning the
  rollback and re-simulation the host performs on its game state.
- `netcode` — the browser client's certificate-hash file and the
  certificate hash's hex decoding.

`app/` is the unverified host around it: manifest parsing (RON), the
pointer-motion and geometry code that works in floating point, meshing
through `block_mesh`, and the loop that performs the world manager's
actions over channels.
