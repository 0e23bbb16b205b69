//! Connectivity between points of interest and a stream network, and the
//! cumulative upstream-path count of every stream segment.
//!
//! Coordinates are IEEE-754 doubles held as their 64-bit patterns: the library
//! decides equality and order on the bits and leaves arithmetic to its callers.

pub mod ieee;
pub mod types;
pub mod edges;
pub mod streams;
pub mod names;
pub mod outlet;
pub mod network;
pub mod resolver;
pub mod coordinator;
pub mod snap;
pub mod order;
pub mod nodes;
pub mod usgs;
pub mod utils;
pub mod fields;
