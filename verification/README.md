# multithread_raycaster_game

A voxel ray-casting game whose logic is a library verified with Verus.

- `src/` — the verified library: the sparse voxel octree and its spatial hash
  table (`voxel`), painting voxels and text glyphs into pixel buffers
  (`render`, `util`), texture decoding (`assets`), the setup menus (`setup`),
  the player's jump and crouch rules (`state`, `game_state`) and the cursor
  lock controls (`controls`).
- `app/` — the program around it: the window and event loop (winit,
  softbuffer), the profiler (puffin), the thread split of a frame (rayon),
  text layout (fontdue), floating-point camera and player movement, file
  loading and the terminal menus.
- `tests/` — tests of the library.
