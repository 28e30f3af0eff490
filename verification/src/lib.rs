//! Reconstruction of complete files from partial, zero-filled copies.

pub mod cache;
pub mod chunk;
pub mod clock;
pub mod digest;
pub mod filter;
pub mod fuzzy;
pub mod group;
pub mod keys;
pub mod overlay;
pub mod paths;
pub mod scan;
pub mod select;
pub mod table;
pub mod utils;
pub mod words;
