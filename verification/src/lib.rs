//! A verified adaptive radix tree: an ordered map from byte-string keys to values,
//! with path compression, prefix queries, ordered iteration and merging.
use vstd::prelude::*;

pub mod bytes;
pub mod keys;
pub mod node;
pub mod merge;
pub mod merge_n;
pub mod iter;
pub mod search;
pub mod stats;
pub mod tree;
pub mod loser_tree;
pub mod merge_check;
