//! Reading objects back, and writing raw ones.
pub mod helper;
pub mod object;
