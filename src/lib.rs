//! Turns a line-oriented table of five-character status codes into a sorted
//! registry, and renders that registry as Rust source: one constant per code
//! and a lookup function from code to constant.
pub mod text;
pub mod table;
pub mod registry;
pub mod emit;
pub mod laws;
