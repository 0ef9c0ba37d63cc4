//! A verified generation-advance kernel for Conway's Game of Life on the
//! unbounded integer lattice.
//!
//! Live cells are held as a duplicate-free collection of [`position::Position`]
//! coordinates.  One generation is computed by [`engine::GameEngine::run_generation`]
//! (a memoizing engine over plain positions), by [`game::run_generation`]
//! (a free function over [`cell::Cell`] values that carry their neighbourhood),
//! or through the [`state::State`] container.  All three entry points are
//! proved to return exactly [`rules::next_gen`] of the live set they were given.

pub mod cell;
pub mod engine;
pub mod game;
pub mod position;
pub mod rules;
pub mod state;
