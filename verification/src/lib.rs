//! Adaptive tiling of geographic point counts.
//!
//! Points arrive as binary hashes of one fixed precision, each hash naming a cell of
//! a recursive bisection of the globe. The tiler counts them and then covers them with
//! tiles that are as coarse as a capacity allows: a tile is a hash prefix together
//! with the number of counted points below it.
//!
//! - [`hash`]: what a binary hash is.
//! - [`tiling`]: the tiling of a multiset of hashes, and what holds of it.
//! - [`binary_hash_tile`]: tiles, and lists of tiles that stand for a tiling.
//! - [`table`]: the count table, one row for each distinct hash.
//! - [`tiler`]: the tiler itself.

pub mod binary_hash_tile;
pub mod hash;
mod merge;
pub mod table;
pub mod tiler;
pub mod tiling;
