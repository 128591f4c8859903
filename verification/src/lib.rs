//! Carves a connected cave layout onto a fixed-size grid.
//!
//! A run places cavern anchors near one another, opens irregular caverns around them by
//! random walks, and then digs tunnels until every cavern can be reached from the first.
//! The random numbers come from a [`random::RandomStream`], so a run is a function of the
//! grid, the settings, the limits and the seed.
//!
//! Every function is verified against its contract: the search returns a cheapest route
//! exactly when one exists, and a successful run leaves every cavern within reach of the
//! first.

pub mod geometry;
pub mod grid;
pub mod route;
pub mod pathfinder;
pub mod random;
pub mod settings;
pub mod carver;
pub mod placer;
pub mod connector;
pub mod generator;
pub mod image;
