//! Finds the files that a change to a Rust project depends on, and packs
//! them into one packet of text.

pub mod closure;
pub mod packet;
pub mod paths;
pub mod resolver;
pub mod scanner;
pub mod seeds;
pub mod text;
pub mod trace;
pub mod tree;
pub mod worklist;
