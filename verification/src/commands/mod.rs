//! The planning behind the commands: what to stage, what to commit, what a
//! checkout may overwrite, and what to show.
pub mod add;
pub mod branch;
pub mod cat_file;
pub mod checkout;
pub mod commit;
pub mod status;
pub mod util;
