//! Hierarchical cell identifiers on the sphere and the integer machinery
//! around them.
//!
//! - `cell_id`: the 64-bit cell id, its levels, parents, children, ranges,
//!   Hilbert-order stepping and debug text, with the laws that relate them.
//! - `hilbert`: the Hilbert curve transform between (face, i, j) and ids.
//! - `neighbors`: edge and vertex neighbors, across face edges.
//! - `cell_arith`: arithmetic facts about powers of four used by the proofs.
//! - `covering`: the decisions of the search that covers a cap with cells.
//! - `coords`: integer tables of the cube-face frames.
//! - `cache`, `priority_queue`: generic containers.
//! - `compression`, `zip`: gzip/zlib/DEFLATE framing and zip directories.
//! - `reader`, `tile`, `uint64`: small helpers.
pub mod cache;
pub mod cell_arith;
pub mod cell_id;
pub mod compression;
pub mod coords;
pub mod covering;
pub mod hilbert;
pub mod neighbors;
pub mod priority_queue;
pub mod reader;
pub mod tile;
pub mod uint64;
pub mod zip;

pub use cache::Cache;
pub use cell_id::S2CellId;
pub use compression::{CompressError, CompressionFormat, FFlateError};
pub use priority_queue::PriorityQueue;
pub use uint64::Uint64;
