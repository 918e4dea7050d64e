//! A small content-addressed version store in the manner of git: blob,
//! tree and commit objects, an index of staged files, and the planning
//! behind add, commit, checkout and cat-file.
pub mod add;
pub mod commands;
pub mod commit;
pub mod common;
pub mod index;
pub mod object;
pub mod refs;
pub mod text;
