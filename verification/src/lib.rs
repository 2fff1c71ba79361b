//! Simulation core of a small real-time 3D game: a fixed-capacity slot
//! arena with stable handles, a scene graph built on handles, the input
//! bitmask, and the pseudo-random generator that seeds a session.

pub mod arena;
pub mod composition;
pub mod frame;
pub mod memory_buffer;
pub mod prng;
pub mod scenegraph;
