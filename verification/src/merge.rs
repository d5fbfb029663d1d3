//! The free functions of the crate under one roof.

pub use crate::extrema::{maxt, minmax, minmaxt, mint};
pub use crate::hashsort::hashsort;
pub use crate::indices::revs;
pub use crate::isort::testswap;
pub use crate::lookup::{
    binsearch, binsearchdesc, member, memsearch, memsearch_indexed, memsearchdesc,
    memsearchdesc_indexed, occurs, occurs_multiple,
};
pub use crate::mergesort::{merge_indexed, merge_indices, mergesort, rank, sortidx, sortm};
pub use crate::sets::{
    diff, diff_indexed, intersect, intersect_indexed, merge, partition_indexed, sansrepeat, unite,
    unite_indexed,
};
