//! Sorting, ranking, searching and set algebra over generic sequences, by
//! way of position indices.
//!
//! The items of a sequence are never moved more than necessary: a sort
//! gives an index, a permutation of the positions, through which the items
//! are read in order, and ranks, searches and set operations work on such
//! indices. Every function states what it returns against a mathematical
//! model of sequences and permutations, and is proved to return it.
//!
//! - `order`: what it means for items to be ordered.
//! - `indices`: index algebra; `rearrange`: what rearranging in place keeps.
//! - `mergesort`: the stable sort index, sorted copies and ranks.
//! - `hashsort`: sorting by numeric key, `inplace` its core that sorts the
//!   items where they lie; `buckets`: how keys are spread; `isort`: small
//!   sorts of an index.
//! - `search`: binary search with a comparator; `lookup`: searches of slices.
//! - `sets`: merge, union, intersection, difference and partition.
//! - `comparator`, `parting`: sorting and partitioning in a supplied order.
//! - `extrema`, `correlation`, `random`, `error`: minima and maxima, the
//!   terms of rank correlation, test data, and the error type.
//! - `vecops`, `mutops`: the operations as methods of slices.
//! - `merge`: the free functions under one roof.

pub mod buckets;
pub mod comparator;
pub mod correlation;
pub mod error;
pub mod extrema;
pub mod hashsort;
pub mod indices;
pub mod inplace;
pub mod isort;
pub mod lookup;
pub mod merge;
pub mod mergesort;
pub mod mutops;
pub mod order;
pub mod parting;
pub mod random;
pub mod rearrange;
pub mod search;
pub mod sets;
pub mod vecops;

pub use crate::error::IdxError;
pub use crate::extrema::MinMax;
pub use crate::indices::Indices;
pub use crate::mutops::Mutops;
pub use crate::search::Search;
pub use crate::vecops::Vecops;
