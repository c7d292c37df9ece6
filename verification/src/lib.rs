//! An authenticated snapshot of a fixed-size grid of cells: a Merkle tree
//! over the grid's values, built on a pluggable two-to-one compression
//! primitive, with single-leaf updates, inclusion proofs, a diff applier
//! that replays batches of cell updates, and a canonical wire codec for
//! moving the tree across a process boundary.

use vstd::prelude::*;

pub mod canvas;
pub mod codec;
pub mod elem;
pub mod hashing;
pub mod errors;
pub mod tree;

pub use crate::canvas::build_merkle_tree_from_pixels;
pub use crate::canvas::process_canvas_changes;
pub use crate::canvas::Command;
pub use crate::canvas::Diff;
pub use crate::canvas::Pixel;
pub use crate::codec::deserialize_merkle_tree;
pub use crate::codec::serialize_merkle_tree;
pub use crate::codec::SerializedMerkleTree;
pub use crate::elem::Elem;
pub use crate::errors::CanvasError;
pub use crate::tree::MerkleTree;
pub use crate::hashing::Compressor;
pub use crate::hashing::PoseidonCompressor;
pub use crate::hashing::TestCompressor;

verus! {

/// Side length of the demonstration canvas: a 4 x 4 grid of cells.
pub const CANVAS_SIZE: usize = 4;

} // verus!
