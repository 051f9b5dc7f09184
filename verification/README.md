# RustForge

A modular 3D game engine whose decision logic is a library verified with
Verus.

- `src/` is the verified library: the scene graph (slots, free list, name
  index, parent-child hierarchy, removal of subtrees, transform propagation,
  culling and picking walks, scene-file loading and saving and the proof
  that a saved scene loads back as it was, the transform cache), the game
  clock and its fixed-timestep accumulator, the frame-time window, the
  event-loop decisions, camera key state, the font-atlas layout, and the
  integer side of mesh generation.
- `app/` is the engine around it: `wgpu` rendering, `winit` windows, `rapier3d`
  physics, the `specs` world, JSON and RON files, and all floating-point
  arithmetic.
- `tests/` exercises the library.

Vectors and matrices are `glam` values that the library carries without
looking inside; where it needs `glam` to compute, it names the result and
states what it does with it.
