//! A k-nearest-neighbour fraud detector over a binary file of labelled
//! reference vectors, with its arithmetic-free parts verified: the file
//! format, the ordering of stored components, the k-d tree construction,
//! the bounded max-heap of the nearest candidates, the tree search, and the
//! rendering of a scored feature vector.

pub mod vector;
pub mod order;
pub mod perm;
pub mod repository;
pub mod select;
pub mod heap;
pub mod kdtree;
pub mod format;
pub mod clock;
pub mod service;
pub mod hnsw;
