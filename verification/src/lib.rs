//! Verified solutions to a collection of small text-puzzle exercises.
//!
//! Each module solves one standalone puzzle: it parses a fixed textual
//! input into a small data structure, computes one or two numeric answers,
//! and states what it computed in `requires`/`ensures` contracts.
//! The two algorithmically substantial components are `forest` (grid
//! visibility scanning) and `rope` (a follower-chain motion simulation).

pub mod assignments;
pub mod calories;
pub mod filesystem;
pub mod forest;
pub mod rope;
pub mod rps;
pub mod rucksack;
pub mod signals;
pub mod stacks;
pub mod text;

pub use text::ParseError;
