//! RustForge: the verified core of a modular 3D game engine.
//!
//! The library holds the engine's decision logic: the fixed-timestep clock,
//! the hierarchical scene graph and its transform propagation, the transform
//! cache, scene-file conversion, input state, window-event decisions, the
//! font-atlas layout and the integer parts of mesh generation.

pub mod ecs;
pub mod error;
pub mod font;
pub mod graphics;
pub mod input;
pub mod math;
pub mod mesh;
pub mod runner;
pub mod scene;
pub mod text;
pub mod time;
