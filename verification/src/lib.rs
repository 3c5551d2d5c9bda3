//! Tick-based simulation of agents on a toroidal grid.
//!
//! Every agent carries a vector of attribute channels.  One tick recomputes
//! the channels of every occupied cell from its neighbourhood and then lets
//! the agents relocate, with contention for a cell settled by bidding and
//! chains of dependent moves settled by a memoised walk.

pub mod claims;
pub mod config;
pub mod error;
pub mod grid;
pub mod movement;
pub mod neighborhood;
pub mod policy;
mod random;
pub mod resolution;
pub mod rules;
pub mod tick;
pub mod trace;
pub mod utils;
pub mod walk;
