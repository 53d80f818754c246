//! A Vamana-style graph index for approximate nearest-neighbour search over
//! fixed-point vectors, with a verified builder, loader and searcher.

pub mod builder;
pub mod candidates;
pub mod distance;
pub mod entry;
pub mod error;
pub mod graph;
pub mod index;
pub mod layout;
pub mod options;
pub mod prune;
pub mod reach;
pub mod search;
pub mod storage;
pub mod vectors;

pub use candidates::Candidate;
pub use distance::{DistanceFamily, L1, L2};
pub use error::VamanaError;
pub use options::{Alpha, IndexOptions, Memmap, VamanaOptions};
pub use vectors::Vectors;
pub use storage::{Storage, StoragePreallocator};
pub use index::Vamana;
