//! Staging a file: its blob, and its entry in the index.
pub mod add_execute;
