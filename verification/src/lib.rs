//! Decision agent for a turn-based survival game: an agent protects humans
//! from zombies on a bounded integer playfield. The library holds the exact
//! world model (one-tick transition), the geometry it rests on, and the
//! randomized anytime search that picks the agent's next destination.
use vstd::prelude::*;

pub mod geometry;
pub mod world;
pub mod sampler;
mod clock;
pub mod search;

verus! {

/// Playfield width: x coordinates of legal output points lie in [0, MAX_X].
pub const MAX_X: i32 = 16000;

/// Playfield height: y coordinates of legal output points lie in [0, MAX_Y].
pub const MAX_Y: i32 = 9000;

} // verus!
