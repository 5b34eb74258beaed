//! The logic of a voxel ray-casting game: a sparse voxel octree with a
//! spatial hash table of voxels (`voxel`), the painting of voxels and glyphs
//! into pixel buffers (`render`, `util`), texture decoding (`assets`), the
//! setup menus (`setup`), the player's jump and crouch rules (`state`,
//! `game_state`) and the window's cursor-lock controls (`controls`).
pub mod assets;
pub mod controls;
pub mod game_state;
pub mod render;
pub mod setup;
pub mod state;
pub mod util;
pub mod voxel;
