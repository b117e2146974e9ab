//! A sliding-tile merge puzzle engine: an N x N grid of power-of-two tiles
//! that compacts and merges toward a chosen direction, tracks score, detects
//! terminal states, and persists a best score and a single undo snapshot.

pub mod codec;
pub mod snapshot;
pub mod store;
pub mod grid;
pub mod merge;
pub mod palace;
pub mod util;
