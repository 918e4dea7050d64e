//! Trees built from the index, and the commit that records one.
pub mod commit_execute;
pub mod tree;
